use rdirstat::bench::format_size;
use rdirstat::bench::PathWalk;
use rdirstat::bench::SlotWalk;
use rdirstat::bench::Slots;
use rdirstat::bench::Tally;
use rdirstat::path::FsPath;
use rdirstat::scan::ScanState;
use rdirstat::stack::Met;
use rdirstat::stack::SubtreeWalk;

fn path(text: &str) -> FsPath {
    FsPath::from_bytes(&text.as_bytes().to_vec())
}

fn events() -> Vec<(&'static str, usize, Met)> {
    vec![
        ("/r", 0, Met::Dir),
        ("/r/a", 1, Met::Dir),
        ("/r/a/x", 2, Met::File { len: 10 }),
        ("/r/a/b", 2, Met::Dir),
        ("/r/a/b/y", 3, Met::File { len: 5 }),
        ("/r/link", 1, Met::Other),
        ("/r/z", 1, Met::File { len: 1 }),
        ("/r/c", 1, Met::Dir),
    ]
}

#[test]
fn a_walk_in_order_sums_every_subtree() {
    let mut scan = ScanState::new();
    let mut walk = SubtreeWalk::new();
    for (p, depth, what) in events() {
        assert!(walk.visit_has_room(what));
        walk.visit(&mut scan, path(p), depth, what);
    }
    assert_eq!(scan.get_size(&path("/r/a")), Some(15));
    assert!(scan.is_completed(&path("/r/a")));
    assert!(!scan.is_completed(&path("/r")));
    assert_eq!(walk.finish(&mut scan), 16);
    assert_eq!(scan.get_size(&path("/r")), Some(16));
    assert_eq!(scan.get_size(&path("/r/a/b")), Some(5));
    assert_eq!(scan.get_size(&path("/r/c")), Some(0));
    assert!(scan.is_completed(&path("/r")));
    assert_eq!(scan.files_scanned(), 3);
}

#[test]
fn sizes_are_shown_while_the_walk_goes_on() {
    let mut scan = ScanState::new();
    let mut walk = SubtreeWalk::new();
    walk.visit(&mut scan, path("/r"), 0, Met::Dir);
    walk.visit(&mut scan, path("/r/f"), 1, Met::File { len: 7 });
    walk.visit(&mut scan, path("/r/a"), 1, Met::Dir);
    for i in 0..999 {
        assert_eq!(scan.get_size(&path("/r")), None, "{i}");
        walk.visit(&mut scan, path("/r/a/g"), 2, Met::File { len: 1 });
    }
    assert_eq!(scan.get_size(&path("/r/a")), Some(999));
    assert_eq!(scan.get_size(&path("/r")), Some(1006));
    assert_eq!(scan.files_scanned(), 1000);
    assert!(!scan.is_completed(&path("/r/a")));
}

#[test]
fn a_walk_of_nothing_has_no_size() {
    let mut scan = ScanState::new();
    let mut walk = SubtreeWalk::new();
    assert_eq!(walk.finish(&mut scan), 0);
    assert_eq!(scan.files_scanned(), 0);
}

#[test]
fn too_large_a_file_is_refused() {
    let mut scan = ScanState::new();
    let mut walk = SubtreeWalk::new();
    walk.visit(&mut scan, path("/r"), 0, Met::Dir);
    walk.visit(&mut scan, path("/r/f"), 1, Met::File { len: u64::MAX });
    assert!(!walk.visit_has_room(Met::File { len: 1 }));
    assert!(walk.visit_has_room(Met::File { len: 0 }));
}

#[test]
fn the_first_errors_of_a_walk_are_logged() {
    let mut walk = SubtreeWalk::new();
    for _ in 0..5 {
        assert!(walk.note_error());
    }
    assert!(!walk.note_error());
}

#[test]
fn sizes_by_path_and_by_number_agree() {
    let mut scan = ScanState::new();
    let mut by_path = PathWalk::new();
    let mut slots = Slots { next: 0, sizes: Vec::new() };
    let mut by_number = SlotWalk::new();
    let mut plain = Tally::new();
    for (p, depth, what) in events() {
        assert!(by_path.visit_has_room(what));
        by_path.visit(&mut scan, path(p), depth, what);
        assert!(by_number.visit_has_room(&slots, what));
        by_number.visit(&mut slots, depth, what);
        assert!(plain.has_room(what));
        plain.count(what);
    }
    let tally = by_path.finish(&mut scan);
    assert_eq!(tally, by_number.finish(&mut slots));
    assert_eq!(tally, plain);
    assert_eq!(tally, Tally { files: 3, dirs: 4, bytes: 16 });
    assert_eq!(slots.sizes.len(), 1024);
    assert_eq!(slots.next, 4);
    assert_eq!(&slots.sizes[0..4], &[16, 15, 5, 0]);
    assert_eq!(scan.get_size(&path("/r")), Some(16));
    assert_eq!(scan.get_size(&path("/r/a/b")), Some(5));
    assert_eq!(scan.dir_sizes.entries().len(), 4);
    assert_eq!(scan.completed.entries().len(), 4);
}

#[test]
fn the_root_is_shown_while_a_walk_by_path_goes_on() {
    let mut scan = ScanState::new();
    let mut walk = PathWalk::new();
    walk.visit(&mut scan, path("/r"), 0, Met::Dir);
    walk.visit(&mut scan, path("/r/a"), 1, Met::Dir);
    for _ in 0..5000 {
        walk.visit(&mut scan, path("/r/a/f"), 2, Met::File { len: 2 });
    }
    assert_eq!(scan.get_size(&path("/r")), Some(10_000));
    assert_eq!(scan.get_size(&path("/r/a")), None);
}

#[test]
fn tallies_add_up_and_are_told() {
    let mut all = Tally::new();
    all.merge(Tally { files: 2, dirs: 1, bytes: 1536 });
    all.merge(Tally { files: 1, dirs: 0, bytes: 512 });
    assert_eq!(all.describe(), "  Files: 3, Dirs: 1, Bytes: 2.0 KB");
    assert!(!Tally { files: 0, dirs: u64::MAX, bytes: 0 }.has_room(Met::Dir));
    assert!(!Tally { files: 0, dirs: 0, bytes: 1 }.has_room(Met::File { len: u64::MAX }));
}

#[test]
fn large_sizes_have_two_decimals() {
    assert_eq!(format_size(0), "0 B");
    assert_eq!(format_size(1536), "1.5 KB");
    assert_eq!(format_size(5 * 1024 * 1024 + 512 * 1024), "5.5 MB");
    assert_eq!(format_size(1_342_177_280), "1.25 GB");
    assert_eq!(format_size(2_199_023_255_552), "2.00 TB");
}

#[test]
fn a_stopped_walk_completes_only_what_it_had_left() {
    let mut scan = ScanState::new();
    let mut walk = SubtreeWalk::new();
    for (p, depth, what) in events() {
        walk.visit(&mut scan, path(p), depth, what);
    }
    scan.cancel = true;
    assert_eq!(walk.finish(&mut scan), 16);
    assert_eq!(scan.get_size(&path("/r")), Some(16));
    assert!(scan.is_completed(&path("/r/a")));
    assert!(!scan.is_completed(&path("/r")));
    assert!(!scan.is_completed(&path("/r/c")));
}
