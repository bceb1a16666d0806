use rdirstat::path::FsPath;
use rdirstat::scan::ScanState;
use rdirstat::snapshot::build_snapshot;
use rdirstat::snapshot::UiSnapshot;

fn path(text: &str) -> FsPath {
    FsPath::from_bytes(&text.as_bytes().to_vec())
}

#[test]
fn empty_snapshot() {
    let snap = UiSnapshot::empty();
    assert!(!snap.scanning);
    assert_eq!(snap.files_scanned, 0);
    assert_eq!(snap.dirs_scanned, 0);
    assert_eq!(snap.total_bytes, 0);
    assert!(snap.entries.is_empty());
    assert_eq!(snap.total_entry_size, 0);
    assert!(snap.top_files.is_empty());
    assert!(snap.top_dirs.is_empty());
    assert!(snap.top_exts.is_empty());
    assert_eq!(snap.deepest.1, 0);
    assert!(snap.scan_start.is_none());
}

#[test]
fn build_snapshot_empty_entries() {
    let state = ScanState::new();
    let entries: Vec<(String, FsPath, bool, bool, u64)> = vec![];
    let snap = build_snapshot(&state, &entries, true);
    assert!(!snap.scanning);
    assert!(snap.entries.is_empty());
    assert_eq!(snap.total_entry_size, 0);
}

#[test]
fn build_snapshot_with_files() {
    let state = ScanState::new();
    let entries = vec![
        ("b.txt".to_string(), path("/b.txt"), false, false, 200u64),
        ("a.txt".to_string(), path("/a.txt"), false, false, 100u64),
    ];
    let snap = build_snapshot(&state, &entries, false);
    assert_eq!(snap.entries.len(), 2);
    assert_eq!(snap.total_entry_size, 300);
    assert_eq!(snap.entries[0].name, "a.txt");
    assert_eq!(snap.entries[1].name, "b.txt");
}

#[test]
fn build_snapshot_sort_by_size() {
    let state = ScanState::new();
    let entries = vec![
        ("small.txt".to_string(), path("/small"), false, false, 10u64),
        ("big.txt".to_string(), path("/big"), false, false, 1000u64),
        ("mid.txt".to_string(), path("/mid"), false, false, 500u64),
    ];
    let snap = build_snapshot(&state, &entries, true);
    assert_eq!(snap.entries[0].name, "big.txt");
    assert_eq!(snap.entries[1].name, "mid.txt");
    assert_eq!(snap.entries[2].name, "small.txt");
}

#[test]
fn build_snapshot_parent_always_first() {
    let state = ScanState::new();
    let entries = vec![
        ("a.txt".to_string(), path("/a"), false, false, 9999u64),
        ("..".to_string(), path("/parent"), true, true, 0u64),
    ];
    let snap = build_snapshot(&state, &entries, true);
    assert_eq!(snap.entries[0].name, "..");
    assert!(snap.entries[0].is_parent);
}

#[test]
fn the_way_up_is_never_being_walked() {
    let mut state = ScanState::new();
    state.scanning = true;
    let entries = vec![
        ("..".to_string(), path("/parent"), true, true, 0u64),
        ("sub".to_string(), path("/parent/sub"), true, false, 0u64),
    ];
    let snap = build_snapshot(&state, &entries, true);
    assert!(!snap.entries[0].scanning);
    assert!(snap.entries[1].scanning);
}

#[test]
fn build_snapshot_dir_uses_scan_size() {
    let mut state = ScanState::new();
    state.dir_sizes.insert(path("/sub"), 5000);
    let entries = vec![("sub".to_string(), path("/sub"), true, false, 0u64)];
    let snap = build_snapshot(&state, &entries, true);
    assert_eq!(snap.entries[0].size, 5000);
    assert_eq!(snap.total_entry_size, 5000);
}

#[test]
fn build_snapshot_scanning_state() {
    let mut state = ScanState::new();
    state.scanning = true;
    let entries = vec![("sub".to_string(), path("/sub"), true, false, 0u64)];
    let snap = build_snapshot(&state, &entries, true);
    assert!(snap.scanning);
    assert!(snap.entries[0].scanning);
}

#[test]
fn build_snapshot_completed_dir_not_scanning() {
    let mut state = ScanState::new();
    state.scanning = true;
    state.completed.insert(path("/sub"), ());
    let entries = vec![("sub".to_string(), path("/sub"), true, false, 0u64)];
    let snap = build_snapshot(&state, &entries, true);
    assert!(!snap.entries[0].scanning);
}

#[test]
fn build_snapshot_includes_top_files() {
    let mut state = ScanState::new();
    state.record_top_file(&path("/big"), 9999);
    let snap = build_snapshot(&state, &Vec::new(), true);
    assert_eq!(snap.top_files.len(), 1);
    assert_eq!(snap.top_files[0].size, 9999);
}

#[test]
fn build_snapshot_includes_deepest() {
    let mut state = ScanState::new();
    state.set_deepest_path(&path("/a/b/c/d"), 4);
    let snap = build_snapshot(&state, &Vec::new(), true);
    assert_eq!(snap.deepest.1, 4);
}

#[test]
fn build_snapshot_includes_scan_start() {
    let mut state = ScanState::new();
    let now = std::time::Instant::now();
    state.scan_start = Some(now);
    let snap = build_snapshot(&state, &Vec::new(), true);
    assert!(snap.scan_start.is_some());
}

#[test]
fn parent_nav_entry_does_not_inflate_total() {
    let mut state = ScanState::new();
    state.dir_sizes.insert(path("/root"), 11_000);
    state.dir_sizes.insert(path("/root/sub"), 1_000);
    let entries = vec![
        ("..".to_string(), path("/root"), true, true, 0),
        ("small.bin".to_string(), path("/root/sub/small.bin"), false, false, 1_000),
    ];
    let snap = build_snapshot(&state, &entries, false);
    let small = snap.entries.iter().find(|e| e.name == "small.bin").map(|e| e.size).unwrap();
    assert_eq!(snap.total_entry_size, small);
    let parent = snap.entries.iter().find(|e| e.is_parent).unwrap();
    assert_eq!(parent.size, 0);
    assert!(parent.size < 10_000);
}

#[test]
fn names_are_ordered_whatever_their_case() {
    let state = ScanState::new();
    let row = |name: &str| (name.to_string(), path(&format!("/{name}")), false, false, 1u64);
    let entries = vec![row("b"), row("C"), row("a"), row("B")];
    let snap = build_snapshot(&state, &entries, false);
    let names: Vec<&str> = snap.entries.iter().map(|e| e.name.as_str()).collect();
    assert_eq!(names, vec!["a", "b", "B", "C"]);
}

#[test]
fn rows_of_equal_size_keep_their_order() {
    let state = ScanState::new();
    let row = |name: &str, size: u64| (name.to_string(), path(name), false, false, size);
    let entries = vec![row("z", 5), row("a", 5), row("m", 6)];
    let snap = build_snapshot(&state, &entries, true);
    let names: Vec<&str> = snap.entries.iter().map(|e| e.name.as_str()).collect();
    assert_eq!(names, vec!["m", "z", "a"]);
}

#[test]
fn sizes_of_a_listing_can_overflow() {
    let state = ScanState::new();
    let row = |size: u64| ("f".to_string(), path("f"), false, false, size);
    assert!(rdirstat::snapshot::sizes_fit(&state, &vec![row(u64::MAX), row(0)]));
    assert!(!rdirstat::snapshot::sizes_fit(&state, &vec![row(u64::MAX), row(1)]));
}

#[test]
fn either_order_shows_the_same_rows() {
    let mut state = ScanState::new();
    state.dir_sizes.insert(path("/r/d"), 700);
    let entries = vec![
        ("..".to_string(), path("/"), true, true, 0u64),
        ("b".to_string(), path("/r/b"), false, false, 30u64),
        ("d".to_string(), path("/r/d"), true, false, 0u64),
        ("a".to_string(), path("/r/a"), false, false, 30u64),
    ];
    let sized = build_snapshot(&state, &entries, true);
    let named = build_snapshot(&state, &entries, false);
    let names = |s: &UiSnapshot| s.entries.iter().map(|e| e.name.clone()).collect::<Vec<_>>();
    assert_eq!(names(&sized), vec!["..", "d", "b", "a"]);
    assert_eq!(names(&named), vec!["..", "a", "b", "d"]);
    assert_eq!(sized.total_entry_size, 760);
    assert_eq!(named.total_entry_size, 760);
}
