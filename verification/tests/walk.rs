use rdirstat::path::FsPath;
use rdirstat::scan::ScanState;
use rdirstat::walk::Answer;
use rdirstat::walk::EntryKind;
use rdirstat::walk::FileMeta;
use rdirstat::walk::Report;
use rdirstat::walk::ThreadLocalState;
use rdirstat::walk::WalkEntry;

fn path(text: &str) -> FsPath {
    FsPath::from_bytes(&text.as_bytes().to_vec())
}

fn dir(text: &str, depth: usize, expected: usize) -> WalkEntry {
    WalkEntry { path: path(text), depth, kind: EntryKind::Dir { expected } }
}

fn file(text: &str, depth: usize, ino: u64, blocks: u64) -> WalkEntry {
    WalkEntry {
        path: path(text),
        depth,
        kind: EntryKind::File { meta: Some(FileMeta { dev: 1, ino, blocks }) },
    }
}

fn walk(state: &mut ScanState, root: &str, entries: Vec<WalkEntry>) {
    let mut thread = ThreadLocalState::new(path(root));
    for entry in &entries {
        assert!(thread.process_entry(state, entry));
    }
    assert!(thread.finish(state));
}

#[test]
fn scan_completes_and_marks_every_dir_complete() {
    let mut state = ScanState::new();
    state.begin_scan(std::time::Instant::now());
    walk(
        &mut state,
        "/r",
        vec![
            dir("/r", 0, 3),
            file("/r/a.bin", 1, 1, 8),
            dir("/r/sub", 1, 2),
            file("/r/sub/b.bin", 2, 2, 8),
            dir("/r/sub/deeper", 2, 1),
            file("/r/sub/deeper/c.bin", 3, 3, 8),
            dir("/r/empty", 1, 0),
        ],
    );
    for d in ["/r", "/r/sub", "/r/sub/deeper", "/r/empty"] {
        assert!(state.is_completed(&path(d)), "{d}");
    }
    assert_eq!(state.get_size(&path("/r")), Some(3 * 4096));
    assert_eq!(state.get_size(&path("/r/sub")), Some(2 * 4096));
    assert_eq!(state.get_size(&path("/r/sub/deeper")), Some(4096));
    assert_eq!(state.get_size(&path("/r/empty")), None);
    assert_eq!(state.get_size(&path("/")), None);
    assert_eq!(state.files_scanned(), 3);
    assert_eq!(state.dirs_scanned, 4);
    assert_eq!(state.total_bytes, 3 * 4096);
    assert_eq!(state.deepest_path.0, path("/r/sub/deeper"));
    assert_eq!(state.deepest_path.1, 2);
    state.end_scan();
    assert!(!state.is_scanning());
    assert_eq!(state.top_exts_cache[0].extension, "bin");
    assert_eq!(state.top_exts_cache[0].count, 3);
}

#[test]
fn deep_dirs_mark_parent_complete_only_after_their_subtree_finishes() {
    let mut state = ScanState::new();
    let mut one = ThreadLocalState::new(path("/r"));
    let mut two = ThreadLocalState::new(path("/r"));
    assert!(one.process_entry(&mut state, &dir("/r", 0, 1)));
    assert!(one.process_entry(&mut state, &dir("/r/level1", 1, 1)));
    assert!(one.process_entry(&mut state, &dir("/r/level1/level2", 2, 1)));
    assert!(two.process_entry(&mut state, &dir("/r/level1/level2/level3", 3, 200)));
    for i in 0..200 {
        assert!(two.process_entry(
            &mut state,
            &file(&format!("/r/level1/level2/level3/f{i:04}.bin"), 4, i, 1)
        ));
    }
    assert!(one.finish(&mut state));
    assert!(!state.is_completed(&path("/r")));
    assert!(!state.is_completed(&path("/r/level1")));
    assert!(!state.is_completed(&path("/r/level1/level2")));
    assert!(two.finish(&mut state));
    assert!(state.get_size(&path("/r")).unwrap_or(0) >= 200 * 256);
    assert!(state.is_completed(&path("/r/level1/level2/level3")));
    assert!(state.is_completed(&path("/r/level1/level2")));
    assert!(state.is_completed(&path("/r/level1")));
    assert!(state.is_completed(&path("/r")));
    assert_eq!(state.get_size(&path("/r")), Some(200 * 512));
}

#[test]
fn empty_dir_completes() {
    let mut state = ScanState::new();
    walk(
        &mut state,
        "/r",
        vec![
            dir("/r", 0, 1),
            dir("/r/a", 1, 3),
            dir("/r/a/empty1", 2, 0),
            dir("/r/a/empty2", 2, 0),
            file("/r/a/file.bin", 2, 1, 1),
        ],
    );
    for d in ["/r/a/empty1", "/r/a/empty2", "/r/a", "/r"] {
        assert!(state.is_completed(&path(d)));
    }
}

#[test]
fn hardlinked_files_are_counted_once() {
    let mut state = ScanState::new();
    walk(
        &mut state,
        "/r",
        vec![dir("/r", 0, 2), file("/r/real.bin", 1, 9, 8), file("/r/alias.bin", 1, 9, 8)],
    );
    let root_size = state.get_size(&path("/r")).unwrap_or(0);
    assert!(root_size < 8192);
    assert!(root_size >= 4096);
    assert!(state.aliased_files >= 1);
    assert_eq!(state.files_scanned(), 1);
    assert_eq!(state.top_files.len(), 1);
    assert!(state.is_completed(&path("/r")));
}

#[test]
fn links_complete_their_directory_and_count_nothing() {
    let mut state = ScanState::new();
    walk(
        &mut state,
        "/r",
        vec![
            dir("/r", 0, 1),
            WalkEntry { path: path("/r/link"), depth: 1, kind: EntryKind::Other },
        ],
    );
    assert!(state.is_completed(&path("/r")));
    assert_eq!(state.files_scanned(), 0);
    assert_eq!(state.get_size(&path("/r")), None);
}

#[test]
fn an_interval_hands_over() {
    let mut state = ScanState::new();
    let mut thread = ThreadLocalState::new(path("/r"));
    assert!(thread.process_entry(&mut state, &dir("/r", 0, 5001)));
    for i in 0..4999u64 {
        assert!(thread.process_entry(&mut state, &file(&format!("/r/{i}.RS"), 1, i, 1)));
    }
    assert_eq!(state.files_scanned(), 0);
    assert_eq!(state.get_size(&path("/r")), None);
    assert!(thread.process_entry(&mut state, &file("/r/last.rs", 1, 5000, 1)));
    assert_eq!(state.files_scanned(), 5000);
    assert_eq!(state.get_size(&path("/r")), Some(5000 * 512));
    assert_eq!(state.top_exts_cache.len(), 1);
    assert_eq!(state.top_exts_cache[0].extension, "rs");
    assert!(!state.is_completed(&path("/r")));
    assert!(thread.process_entry(&mut state, &file("/r/more", 1, 5001, 1)));
    assert!(thread.finish(&mut state));
    assert_eq!(state.files_scanned(), 5001);
    assert!(state.is_completed(&path("/r")));
}

#[test]
fn an_unreadable_file_counts_without_size() {
    let mut state = ScanState::new();
    walk(
        &mut state,
        "/r",
        vec![
            dir("/r", 0, 1),
            WalkEntry { path: path("/r/f"), depth: 1, kind: EntryKind::File { meta: None } },
        ],
    );
    assert_eq!(state.files_scanned(), 1);
    assert_eq!(state.get_size(&path("/r")), Some(0));
}

#[test]
fn sizes_above_the_root_are_not_counted() {
    let mut state = ScanState::new();
    walk(&mut state, "/a/b", vec![file("/a/b/c/f", 2, 1, 2)]);
    assert_eq!(state.get_size(&path("/a/b/c")), Some(1024));
    assert_eq!(state.get_size(&path("/a/b")), Some(1024));
    assert_eq!(state.get_size(&path("/a")), None);
    assert_eq!(state.get_size(&path("/")), None);
}

#[test]
fn sizes_outside_the_root_go_to_the_top() {
    let mut state = ScanState::new();
    walk(&mut state, "/elsewhere", vec![file("/a/f", 1, 1, 2)]);
    assert_eq!(state.get_size(&path("/a")), Some(1024));
    assert_eq!(state.get_size(&path("/")), Some(1024));
}

#[test]
fn a_size_that_does_not_fit_is_refused() {
    let mut state = ScanState::new();
    let mut thread = ThreadLocalState::new(path("/r"));
    assert!(!thread.process_entry(&mut state, &file("/r/f", 1, 1, u64::MAX)));
    assert!(thread.process_entry(&mut state, &file("/r/f", 1, 1, u64::MAX / 512)));
    assert!(!thread.process_entry(&mut state, &file("/r/g", 1, 2, u64::MAX / 512)));
}

#[test]
fn the_first_errors_are_logged() {
    let mut thread = ThreadLocalState::new(path("/r"));
    for _ in 0..5 {
        assert!(thread.note_error());
    }
    assert!(!thread.note_error());
    assert_eq!(thread.errors, 6);
}

#[test]
fn at_least_two_threads_walk() {
    assert_eq!(rdirstat::walk::threads_for(1), 2);
    assert_eq!(rdirstat::walk::threads_for(8), 8);
    assert_eq!(rdirstat::walk::walker_threads(), num_cpus::get().max(2));
}

#[test]
fn start_scan_on_temp_dir() {
    let mut state = ScanState::new();
    state.begin_scan(std::time::Instant::now());
    assert!(state.is_scanning());
    walk(
        &mut state,
        "/tmp/rdirstat_test_scan",
        vec![
            dir("/tmp/rdirstat_test_scan", 0, 2),
            file("/tmp/rdirstat_test_scan/file.txt", 1, 1, 8),
            dir("/tmp/rdirstat_test_scan/sub", 1, 1),
            file("/tmp/rdirstat_test_scan/sub/inner.txt", 2, 2, 8),
        ],
    );
    state.end_scan();
    assert!(!state.is_scanning());
    assert!(state.files_scanned() >= 2);
    assert!(state.total_bytes >= 11);
    assert!(state.is_completed(&path("/tmp/rdirstat_test_scan")));
}

#[test]
fn start_scan_cancel() {
    let mut state = ScanState::new();
    state.begin_scan(std::time::Instant::now());
    state.cancel = true;
    let mut thread = ThreadLocalState::new(path("/tmp/rdirstat_test_cancel"));
    let report = Report::Entry(file("/tmp/rdirstat_test_cancel/f.txt", 1, 1, 8));
    assert_eq!(thread.on_report(&mut state, &report), Answer::Quit);
    assert!(thread.finish(&mut state));
    state.end_scan();
    assert!(!state.is_scanning());
    assert_eq!(state.files_scanned(), 0);
    assert!(!state.is_completed(&path("/tmp/rdirstat_test_cancel")));
}

#[test]
fn reports_are_answered() {
    let mut state = ScanState::new();
    let mut thread = ThreadLocalState::new(path("/r"));
    let good = Report::Entry(file("/r/f", 1, 1, 8));
    assert_eq!(thread.on_report(&mut state, &good), Answer::Go);
    let large = Report::Entry(file("/r/g", 1, 2, u64::MAX));
    assert_eq!(thread.on_report(&mut state, &large), Answer::NoRoom);
    for _ in 0..5 {
        assert_eq!(thread.on_report(&mut state, &Report::Error), Answer::LogAndGo);
    }
    assert_eq!(thread.on_report(&mut state, &Report::Error), Answer::Go);
    thread.errors = u64::MAX;
    assert_eq!(thread.on_report(&mut state, &Report::Error), Answer::NoRoom);
}

#[test]
fn a_stopped_scan_calls_nothing_completed_that_is_not() {
    let mut state = ScanState::new();
    state.begin_scan(std::time::Instant::now());
    walk(
        &mut state,
        "/r",
        vec![
            dir("/r", 0, 3),
            file("/r/f", 1, 1, 8),
            dir("/r/d", 1, 1),
            file("/r/d/g", 2, 2, 8),
        ],
    );
    state.cancel = true;
    state.end_scan();
    assert!(!state.is_scanning());
    assert!(!state.is_completed(&path("/r")));
    assert!(state.is_completed(&path("/r/d")));
    assert_eq!(state.get_size(&path("/r")), Some(8192));
    assert_eq!(state.top_dirs.len(), 1);
    assert_eq!(state.top_dirs[0].path, path("/r/d"));
}

#[test]
fn a_scan_that_was_not_stopped_marks_what_has_a_size() {
    let mut state = ScanState::new();
    state.begin_scan(std::time::Instant::now());
    walk(&mut state, "/r", vec![dir("/r", 0, 2), file("/r/f", 1, 1, 8)]);
    assert!(!state.is_completed(&path("/r")));
    state.end_scan();
    assert!(state.is_completed(&path("/r")));
    assert_eq!(state.top_dirs.len(), 1);
}

#[test]
fn an_empty_file_gives_the_root_a_size() {
    let mut state = ScanState::new();
    state.begin_scan(std::time::Instant::now());
    walk(&mut state, "/r", vec![dir("/r", 0, 1), file("/r/f", 1, 1, 0)]);
    state.end_scan();
    assert_eq!(state.get_size(&path("/r")), Some(0));
    assert!(state.is_completed(&path("/r")));
}

#[test]
fn a_thread_adds_what_it_met_once() {
    let mut state = ScanState::new();
    let mut thread = ThreadLocalState::new(path("/r"));
    assert!(thread.process_entry(&mut state, &dir("/r", 0, 1)));
    assert!(thread.process_entry(&mut state, &dir("/r/d", 1, 6001)));
    for i in 0..6001u64 {
        assert!(thread.process_entry(&mut state, &file(&format!("/r/d/f{i}.txt"), 2, i, 2)));
    }
    assert_eq!(state.files_scanned(), 5000);
    assert!(thread.finish(&mut state));
    assert_eq!(state.files_scanned(), 6001);
    assert_eq!(state.get_size(&path("/r/d")), Some(6001 * 1024));
    assert_eq!(state.get_size(&path("/r")), Some(6001 * 1024));
    assert_eq!(state.ext_stats.get(&"txt".to_string()), Some((6001, 6001 * 1024)));
    assert_eq!(state.deepest_path.1, 1);
    assert!(state.is_completed(&path("/r")));
}

#[test]
fn paths_are_recorded_as_they_are_spelled() {
    let mut state = ScanState::new();
    walk(
        &mut state,
        "/r/",
        vec![dir("/r/", 0, 1), dir("/r//d", 1, 1), file("/r//d/big", 2, 1, 8)],
    );
    assert_eq!(state.top_files[0].path.to_bytes(), b"/r//d/big".to_vec());
    assert_eq!(state.deepest_path.0.to_bytes(), b"/r//d".to_vec());
    assert_eq!(state.get_size(&path("/r/d")), Some(4096));
}

#[test]
fn two_threads_add_up_as_one() {
    let files: Vec<WalkEntry> =
        (0..40u64).map(|i| file(&format!("/r/d{}/f{i}", i % 4), 2, i, i)).collect();
    let mut alone = ScanState::new();
    let mut one = ThreadLocalState::new(path("/r"));
    for f in &files {
        assert!(one.process_entry(&mut alone, f));
    }
    assert!(one.finish(&mut alone));
    let mut shared = ScanState::new();
    let mut a = ThreadLocalState::new(path("/r"));
    let mut b = ThreadLocalState::new(path("/r"));
    for (i, f) in files.iter().enumerate() {
        let thread = if i % 3 == 0 { &mut a } else { &mut b };
        assert!(thread.process_entry(&mut shared, f));
    }
    assert!(b.finish(&mut shared));
    assert!(a.finish(&mut shared));
    for d in ["/r", "/r/d0", "/r/d1", "/r/d2", "/r/d3"] {
        assert_eq!(alone.get_size(&path(d)), shared.get_size(&path(d)));
    }
    assert_eq!(alone.get_size(&path("/r")), Some(512 * (0..40).sum::<u64>()));
    assert_eq!(alone.files_scanned(), shared.files_scanned());
}

#[test]
fn directories_are_named_as_on_the_way_up_from_the_first_file() {
    let mut state = ScanState::new();
    let mut thread = ThreadLocalState::new(path("/r"));
    assert!(thread.process_entry(&mut state, &file("/r//d/e/f", 3, 1, 8)));
    assert!(thread.process_entry(&mut state, &file("/r/d//g", 2, 2, 8)));
    assert!(thread.finish(&mut state));
    state.end_scan();
    let named: Vec<(Vec<u8>, u64)> =
        state.top_dirs.iter().map(|e| (e.path.to_bytes(), e.size)).collect();
    assert!(named.contains(&(b"/r".to_vec(), 8192)));
    assert!(named.contains(&(b"/r//d".to_vec(), 8192)));
    assert!(named.contains(&(b"/r//d/e".to_vec(), 4096)));
    assert_eq!(named.len(), 3);
}

#[test]
fn asking_to_stop_keeps_what_was_counted() {
    let mut state = ScanState::new();
    let mut thread = ThreadLocalState::new(path("/r"));
    let first = Report::Entry(file("/r/a", 1, 1, 8));
    assert_eq!(thread.on_report(&mut state, &first), Answer::Go);
    state.cancel = true;
    let second = Report::Entry(file("/r/b", 1, 2, 8));
    assert_eq!(thread.on_report(&mut state, &second), Answer::Quit);
    assert!(thread.finish(&mut state));
    state.end_scan();
    assert_eq!(state.files_scanned(), 1);
    assert_eq!(state.get_size(&path("/r")), Some(4096));
    assert!(!state.is_completed(&path("/r")));
}
