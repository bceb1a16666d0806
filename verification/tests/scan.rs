use rdirstat::keymap::KeyMap;
use rdirstat::path::FsPath;
use rdirstat::scan::ScanState;
use rdirstat::top::TOP_N;

fn path(text: &str) -> FsPath {
    FsPath::from_bytes(&text.as_bytes().to_vec())
}

#[test]
fn new_state_defaults() {
    let state = ScanState::new();
    assert!(!state.is_scanning());
    assert_eq!(state.files_scanned(), 0);
    assert_eq!(state.total_bytes, 0);
    assert_eq!(state.dirs_scanned, 0);
    assert!(state.top_files.is_empty());
    assert!(state.top_dirs.is_empty());
    assert!(state.top_exts_cache.is_empty());
    assert_eq!(state.deepest_path.1, 0);
    assert!(state.scan_start.is_none());
}

#[test]
fn get_size_empty() {
    let state = ScanState::new();
    assert_eq!(state.get_size(&path("/foo")), None);
}

#[test]
fn get_size_after_insert() {
    let mut state = ScanState::new();
    state.dir_sizes.insert(path("/foo"), 42);
    assert_eq!(state.get_size(&path("/foo")), Some(42));
}

#[test]
fn is_completed_empty() {
    let state = ScanState::new();
    assert!(!state.is_completed(&path("/foo")));
}

#[test]
fn is_completed_after_insert() {
    let mut state = ScanState::new();
    state.completed.insert(path("/foo"), ());
    assert!(state.is_completed(&path("/foo")));
}

#[test]
fn scanning_toggle() {
    let mut state = ScanState::new();
    assert!(!state.is_scanning());
    state.scanning = true;
    assert!(state.is_scanning());
    state.scanning = false;
    assert!(!state.is_scanning());
}

#[test]
fn files_scanned_increment() {
    let mut state = ScanState::new();
    state.files_scanned += 100;
    assert_eq!(state.files_scanned(), 100);
    state.files_scanned += 50;
    assert_eq!(state.files_scanned(), 150);
}

#[test]
fn record_top_file_basic() {
    let mut state = ScanState::new();
    state.record_top_file(&path("/big"), 1000);
    let top = &state.top_files;
    assert_eq!(top.len(), 1);
    assert_eq!(top[0].size, 1000);
    assert_eq!(top[0].path, path("/big"));
}

#[test]
fn record_top_file_skips_small() {
    let mut state = ScanState::new();
    for i in 0..TOP_N {
        state.record_top_file(&path(&format!("/f{i}")), 100);
    }
    state.record_top_file(&path("/small"), 50);
    let top = &state.top_files;
    assert_eq!(top.len(), TOP_N);
    assert!(top.iter().all(|e| e.size == 100));
}

#[test]
fn record_top_file_sorted_descending() {
    let mut state = ScanState::new();
    state.record_top_file(&path("/a"), 10);
    state.record_top_file(&path("/b"), 30);
    state.record_top_file(&path("/c"), 20);
    let top = &state.top_files;
    assert_eq!(top[0].size, 30);
    assert_eq!(top[1].size, 20);
    assert_eq!(top[2].size, 10);
}

#[test]
fn record_top_file_truncates_to_top_n() {
    let mut state = ScanState::new();
    for i in 0..(TOP_N + 5) {
        state.record_top_file(&path(&format!("/f{i}")), (i + 1) as u64);
    }
    let top = &state.top_files;
    assert_eq!(top.len(), TOP_N);
    assert_eq!(top[0].size, (TOP_N + 5) as u64);
}

#[test]
fn record_dir_increments_count() {
    let mut state = ScanState::new();
    state.record_dir(1);
    state.record_dir(2);
    state.record_dir(3);
    assert_eq!(state.dirs_scanned, 3);
}

#[test]
fn record_dir_tracks_deepest() {
    let mut state = ScanState::new();
    state.record_dir(5);
    state.record_dir(3);
    state.record_dir(10);
    state.record_dir(7);
    assert_eq!(state.deepest_depth, 10);
}

#[test]
fn set_deepest_path_basic() {
    let mut state = ScanState::new();
    state.set_deepest_path(&path("/a/b/c"), 3);
    assert_eq!(state.deepest_path.0, path("/a/b/c"));
    assert_eq!(state.deepest_path.1, 3);
}

#[test]
fn set_deepest_path_only_deeper() {
    let mut state = ScanState::new();
    state.set_deepest_path(&path("/deep"), 10);
    state.set_deepest_path(&path("/shallow"), 5);
    assert_eq!(state.deepest_path.0, path("/deep"));
    assert_eq!(state.deepest_path.1, 10);
}

#[test]
fn set_deepest_path_updates_deeper() {
    let mut state = ScanState::new();
    state.set_deepest_path(&path("/a"), 5);
    state.set_deepest_path(&path("/b"), 15);
    assert_eq!(state.deepest_path.0, path("/b"));
    assert_eq!(state.deepest_path.1, 15);
}

#[test]
fn record_completed_dir_basic() {
    let mut state = ScanState::new();
    state.record_completed_dir(&path("/big_dir"), 5000);
    let top = &state.top_dirs;
    assert_eq!(top.len(), 1);
    assert_eq!(top[0].size, 5000);
}

#[test]
fn record_completed_dir_dedup() {
    let mut state = ScanState::new();
    state.record_completed_dir(&path("/dir"), 100);
    state.record_completed_dir(&path("/dir"), 200);
    let top = &state.top_dirs;
    assert_eq!(top.len(), 1);
    assert_eq!(top[0].size, 200);
}

#[test]
fn record_completed_dir_sorted_truncated() {
    let mut state = ScanState::new();
    for i in 0..(TOP_N + 3) {
        state.record_completed_dir(&path(&format!("/d{i}")), (i + 1) as u64 * 100);
    }
    let top = &state.top_dirs;
    assert_eq!(top.len(), TOP_N);
    assert_eq!(top[0].size, (TOP_N + 3) as u64 * 100);
}

#[test]
fn merge_ext_stats_empty() {
    let mut state = ScanState::new();
    let local = KeyMap::new();
    state.merge_ext_stats(&local);
    assert!(state.ext_stats.is_empty());
}

#[test]
fn merge_ext_stats_single() {
    let mut state = ScanState::new();
    let mut local = KeyMap::new();
    local.insert("txt".to_string(), (5, 1000));
    state.merge_ext_stats(&local);
    assert_eq!(state.ext_stats.get(&"txt".to_string()), Some((5, 1000)));
}

#[test]
fn merge_ext_stats_accumulates() {
    let mut state = ScanState::new();
    let mut local1 = KeyMap::new();
    local1.insert("txt".to_string(), (3, 300));
    state.merge_ext_stats(&local1);

    let mut local2 = KeyMap::new();
    local2.insert("txt".to_string(), (2, 200));
    local2.insert("rs".to_string(), (1, 100));
    state.merge_ext_stats(&local2);

    assert_eq!(state.ext_stats.get(&"txt".to_string()), Some((5, 500)));
    assert_eq!(state.ext_stats.get(&"rs".to_string()), Some((1, 100)));
}

#[test]
fn refresh_top_exts_sorts_and_truncates() {
    let mut state = ScanState::new();
    state.ext_stats.insert("a".to_string(), (1, 100));
    state.ext_stats.insert("b".to_string(), (1, 300));
    state.ext_stats.insert("c".to_string(), (1, 200));
    state.refresh_top_exts(2);
    let cache = &state.top_exts_cache;
    assert_eq!(cache.len(), 2);
    assert_eq!(cache[0].extension, "b");
    assert_eq!(cache[0].total_size, 300);
    assert_eq!(cache[1].extension, "c");
    assert_eq!(cache[1].total_size, 200);
}

#[test]
fn clear_resets_everything() {
    let mut state = ScanState::new();
    state.dir_sizes.insert(path("/x"), 10);
    state.completed.insert(path("/x"), ());
    state.files_scanned = 999;
    state.scanning = true;
    state.record_top_file(&path("/big"), 9999);
    state.record_completed_dir(&path("/d"), 8888);
    state.total_bytes = 77777;
    state.dirs_scanned = 555;
    state.set_deepest_path(&path("/deep"), 20);
    state.scan_start = Some(std::time::Instant::now());

    state.clear();

    assert!(state.dir_sizes.is_empty());
    assert!(state.completed.is_empty());
    assert_eq!(state.files_scanned(), 0);
    assert!(state.top_files.is_empty());
    assert!(state.top_dirs.is_empty());
    assert_eq!(state.total_bytes, 0);
    assert_eq!(state.dirs_scanned, 0);
    assert_eq!(state.deepest_path.1, 0);
    assert!(state.scan_start.is_none());
}

#[test]
fn clear_leaves_the_scan_running() {
    let mut state = ScanState::new();
    state.scanning = true;
    state.cancel = true;
    state.record_inode(1, 2);
    state.aliased_files = 3;
    state.clear();
    assert!(state.scanning);
    assert!(state.cancel);
    assert_eq!(state.aliased_files, 0);
    assert!(state.record_inode(1, 2));
}

#[test]
fn process_completions_empty() {
    let mut state = ScanState::new();
    let mut yielded = KeyMap::new();
    let result = state.process_completions(&mut yielded, &mut Vec::new(), &path("/root"));
    assert!(result.is_empty());
}

#[test]
fn process_completions_not_ready() {
    let mut state = ScanState::new();
    state.dir_completion.insert(path("/root/a"), (0, 3));
    let mut yielded = KeyMap::new();
    yielded.insert(path("/root/a"), 2);
    let result = state.process_completions(&mut yielded, &mut Vec::new(), &path("/root"));
    assert!(result.is_empty());
}

#[test]
fn process_completions_completes() {
    let mut state = ScanState::new();
    state.dir_completion.insert(path("/root/a"), (0, 3));
    let mut yielded = KeyMap::new();
    yielded.insert(path("/root/a"), 3);
    let result = state.process_completions(&mut yielded, &mut Vec::new(), &path("/root"));
    assert_eq!(result.len(), 1);
    assert_eq!(result[0], path("/root/a"));
}

#[test]
fn process_completions_cascades_to_parent() {
    let mut state = ScanState::new();
    state.dir_completion.insert(path("/root/a"), (1, 2));
    state.dir_completion.insert(path("/root/a/b"), (0, 1));
    let mut yielded = KeyMap::new();
    yielded.insert(path("/root/a/b"), 1);
    let result = state.process_completions(&mut yielded, &mut Vec::new(), &path("/root"));
    assert!(result.contains(&path("/root/a/b")));
    assert!(result.contains(&path("/root/a")));
}

#[test]
fn process_completions_stops_at_root() {
    let mut state = ScanState::new();
    state.dir_completion.insert(path("/root"), (0, 1));
    let mut yielded = KeyMap::new();
    yielded.insert(path("/root"), 1);
    let result = state.process_completions(&mut yielded, &mut Vec::new(), &path("/root"));
    assert_eq!(result, vec![path("/root")]);
    assert!(state.dir_completion.is_empty());
}

#[test]
fn empty_directories_complete_and_cascade() {
    let mut state = ScanState::new();
    let mut yielded = KeyMap::new();
    let mut listed = vec![(path("/root"), 2), (path("/root/a"), 0), (path("/root/b"), 1)];
    let first = state.process_completions(&mut yielded, &mut listed, &path("/root"));
    assert_eq!(first, vec![path("/root/a")]);
    assert!(listed.is_empty());

    yielded.insert(path("/root/b"), 1);
    let second = state.process_completions(&mut yielded, &mut listed, &path("/root"));
    assert_eq!(second, vec![path("/root/b"), path("/root")]);
    assert!(yielded.is_empty());
    assert!(state.dir_completion.is_empty());
}

#[test]
fn completion_counters_can_overflow() {
    let mut state = ScanState::new();
    let mut yielded = KeyMap::new();
    yielded.insert(path("/root"), 1);
    assert!(state.completions_fit(&yielded, &Vec::new()));
    state.dir_completion.insert(path("/root"), (usize::MAX - 2, usize::MAX));
    assert!(!state.completions_fit(&yielded, &Vec::new()));
}

#[test]
fn an_inode_is_new_once() {
    let mut state = ScanState::new();
    assert!(state.record_inode(7, 1));
    assert!(!state.record_inode(7, 1));
    assert!(state.record_inode(1, 7));
    assert!(state.record_inode(7, 2));
    assert!(state.record_inode(0, u64::MAX));
    assert!(state.record_inode(1, 0));
}

#[test]
fn equal_sizes_keep_their_order() {
    let mut state = ScanState::new();
    state.record_top_file(&path("/a"), 5);
    state.record_top_file(&path("/b"), 5);
    state.record_top_file(&path("/c"), 9);
    let names: Vec<FsPath> = state.top_files.iter().map(|e| e.path.clone()).collect();
    assert_eq!(names, vec![path("/c"), path("/a"), path("/b")]);
}

#[test]
fn a_full_list_raises_its_floor() {
    let mut state = ScanState::new();
    for i in 0..TOP_N {
        state.record_top_file(&path(&format!("/f{i}")), 10 + i as u64);
    }
    assert_eq!(state.top_files_min, 10);
    state.record_top_file(&path("/same"), 10);
    assert_eq!(state.top_files_min, 10);
    state.record_top_file(&path("/more"), 11);
    assert_eq!(state.top_files_min, 11);
    assert_eq!(state.top_files[TOP_N - 1].size, 11);
}

#[test]
fn a_file_without_size_is_not_listed() {
    let mut state = ScanState::new();
    state.record_top_file(&path("/empty"), 0);
    assert!(state.top_files.is_empty());
}

#[test]
fn statistics_merge_in_either_order() {
    let mut a = KeyMap::new();
    a.insert("x".to_string(), (1, 10));
    let mut b = KeyMap::new();
    b.insert("x".to_string(), (2, 20));
    b.insert("y".to_string(), (3, 30));
    let mut one = ScanState::new();
    one.merge_ext_stats(&a);
    one.merge_ext_stats(&b);
    let mut two = ScanState::new();
    two.merge_ext_stats(&b);
    two.merge_ext_stats(&a);
    for ext in ["x", "y", "z"] {
        assert_eq!(one.ext_stats.get(&ext.to_string()), two.ext_stats.get(&ext.to_string()));
    }
    assert_eq!(one.ext_stats.get(&"x".to_string()), Some((3, 30)));
}

#[test]
fn statistics_can_overflow() {
    let mut a = KeyMap::new();
    a.insert("x".to_string(), (1, u64::MAX));
    let mut b = KeyMap::new();
    b.insert("x".to_string(), (1, 1));
    assert!(!rdirstat::scan::stats_have_room(&a, &b));
    b.insert("x".to_string(), (1, 0));
    assert!(rdirstat::scan::stats_have_room(&a, &b));
}

#[test]
fn a_scan_begins_and_ends() {
    let mut state = ScanState::new();
    state.cancel = true;
    state.begin_scan(std::time::Instant::now());
    assert!(state.is_scanning());
    assert!(!state.cancel);
    assert!(state.scan_start.is_some());
    state.dir_sizes.insert(path("/r"), 70);
    state.dir_sizes.insert(path("/r/a"), 40);
    state.ext_stats.insert("rs".to_string(), (2, 70));
    state.end_scan();
    assert!(!state.is_scanning());
    assert!(state.is_completed(&path("/r")));
    assert!(state.is_completed(&path("/r/a")));
    assert_eq!(state.top_dirs[0].path, path("/r"));
    assert_eq!(state.top_dirs[1].size, 40);
    assert_eq!(state.top_exts_cache[0].extension, "rs");
}

#[test]
fn the_largest_files_are_listed_once_each() {
    let mut state = ScanState::new();
    for i in 0..12u64 {
        state.record_top_file(&path(&format!("/f{i}")), i);
        state.record_top_file(&path("/same"), 7);
    }
    let sizes: Vec<u64> = state.top_files.iter().map(|e| e.size).collect();
    assert_eq!(sizes, vec![11, 10, 9, 8, 7, 7, 7, 7, 7, 7]);
    let mut few = ScanState::new();
    for size in [0, 3, 0, 1] {
        few.record_top_file(&path("/x"), size);
    }
    let sizes: Vec<u64> = few.top_files.iter().map(|e| e.size).collect();
    assert_eq!(sizes, vec![3, 1]);
}

#[test]
fn the_largest_directories_have_their_last_sizes() {
    let mut state = ScanState::new();
    for round in 1..=3u64 {
        for i in 0..12u64 {
            state.record_completed_dir(&path(&format!("/d{i}")), i * round);
        }
    }
    let listed: Vec<(Vec<u8>, u64)> =
        state.top_dirs.iter().map(|e| (e.path.to_bytes(), e.size)).collect();
    let expected: Vec<(Vec<u8>, u64)> =
        (2..12u64).rev().map(|i| (format!("/d{i}").into_bytes(), i * 3)).collect();
    assert_eq!(listed, expected);
    state.record_completed_dir(&path("//d11/"), 40);
    assert_eq!(state.top_dirs[0].path.to_bytes(), b"/d11".to_vec());
    assert_eq!(state.top_dirs[0].size, 40);
    assert_eq!(state.top_dirs.len(), 10);
}

#[test]
fn a_directory_completes_after_those_in_it() {
    let mut state = ScanState::new();
    let mut yielded = KeyMap::new();
    yielded.insert(path("/r/a/b"), 1);
    let mut pending = vec![(path("/r"), 1), (path("/r/a"), 1), (path("/r/a/b"), 1)];
    let done = state.process_completions(&mut yielded, &mut pending, &path("/r"));
    assert_eq!(done, vec![path("/r/a/b"), path("/r/a"), path("/r")]);
}

#[test]
fn completed_directories_stand_as_they_were_met() {
    let mut state = ScanState::new();
    let mut yielded = KeyMap::new();
    yielded.insert(path("/r//a"), 1);
    let mut pending = vec![(path("/r/"), 1), (path("/r/a/"), 1)];
    let done = state.process_completions(&mut yielded, &mut pending, &path("/r"));
    let spelled: Vec<Vec<u8>> = done.iter().map(|p| p.to_bytes()).collect();
    assert_eq!(spelled, vec![b"/r//a".to_vec(), b"/r".to_vec()]);
    let mut pending = vec![(path("/x//y/"), 0)];
    let done = state.process_completions(&mut KeyMap::new(), &mut pending, &path("/x/y"));
    assert_eq!(done[0].to_bytes(), b"/x//y/".to_vec());
}

#[test]
fn a_map_keeps_the_first_key() {
    let mut map = KeyMap::new();
    map.insert(path("/r//"), 70u64);
    map.insert(path("/r"), 80);
    let rows = map.entries();
    assert_eq!(rows.len(), 1);
    assert_eq!(rows[0].0.to_bytes(), b"/r//".to_vec());
    assert_eq!(rows[0].1, 80);
    map.remove(&path("/r/"));
    map.insert(path("/r"), 1);
    assert_eq!(map.entries()[0].0.to_bytes(), b"/r".to_vec());
}

#[test]
fn a_scan_ends_with_the_names_of_its_sizes() {
    let mut state = ScanState::new();
    state.dir_sizes.insert(path("/r//"), 70);
    state.dir_sizes.insert(path("/r"), 80);
    state.end_scan();
    assert_eq!(state.top_dirs[0].path.to_bytes(), b"/r//".to_vec());
    assert_eq!(state.top_dirs[0].size, 80);
}
