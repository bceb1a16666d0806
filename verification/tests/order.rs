use rdirstat::keymap::KeyMap;
use rdirstat::order::stable_order;
use rdirstat::order::Rank;
use rdirstat::path::FsPath;
use rdirstat::text::sort_key;

fn path(text: &str) -> FsPath {
    FsPath::from_bytes(&text.as_bytes().to_vec())
}

fn rank(pinned: bool, weight: u64, text: &str) -> Rank {
    Rank { pinned, weight, text: sort_key(text) }
}

#[test]
fn pinned_rows_come_first_then_the_heaviest() {
    let ranks = vec![rank(false, 1, ""), rank(false, 9, ""), rank(true, 0, ""), rank(false, 9, "")];
    assert_eq!(stable_order(&ranks), vec![2, 1, 3, 0]);
}

#[test]
fn ranks_by_name_ignore_case() {
    let ranks: Vec<Rank> =
        ["b", "A", "\u{c9}", "a", "B"].iter().map(|n| rank(false, 0, n)).collect();
    assert_eq!(stable_order(&ranks), vec![1, 3, 0, 4, 2]);
    assert_eq!(sort_key("\u{c9}"), "\u{e9}".as_bytes().to_vec());
}

#[test]
fn an_empty_list_has_an_order() {
    assert!(stable_order(&vec![]).is_empty());
}

#[test]
fn a_map_holds_what_was_last_put_in() {
    let mut map: KeyMap<FsPath, u64> = KeyMap::new();
    assert!(map.is_empty());
    for i in 0..1000u64 {
        map.insert(path(&format!("/d/{i}")), i);
    }
    map.insert(path("/d/7"), 70);
    assert_eq!(map.get(&path("/d/7")), Some(70));
    assert_eq!(map.get(&path("/d/999")), Some(999));
    assert_eq!(map.get(&path("/e")), None);
    assert_eq!(map.entries().len(), 1000);
    map.remove(&path("/d/7"));
    assert!(!map.contains(&path("/d/7")));
    assert!(map.contains(&path("/d//8/")));
    map.clear();
    assert!(map.is_empty());
}
