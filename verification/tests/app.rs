use rdirstat::app::listing_has_room;
use rdirstat::app::move_has_room;
use rdirstat::app::shift_selection;
use rdirstat::app::AppState;
use rdirstat::app::ListedEntry;
use rdirstat::app::ListedKind;
use rdirstat::path::FsPath;
use rdirstat::walk::EntryKind;
use rdirstat::walk::FileMeta;
use rdirstat::walk::ThreadLocalState;
use rdirstat::walk::WalkEntry;

const ROOT: &str = "/tmp/rdirstat_test_app";

fn path(text: &str) -> FsPath {
    FsPath::from_bytes(&text.as_bytes().to_vec())
}

fn root() -> FsPath {
    path(ROOT)
}

fn sub(name: &str) -> FsPath {
    path(&format!("{ROOT}/{name}"))
}

fn listed(dir: &str, name: &str, kind: ListedKind) -> ListedEntry {
    ListedEntry { path: path(&format!("{dir}/{name}")), name: name.as_bytes().to_vec(), kind }
}

fn root_listing() -> Option<Vec<ListedEntry>> {
    Some(vec![
        listed(ROOT, "alpha", ListedKind::Dir),
        listed(ROOT, "beta", ListedKind::Dir),
        listed(ROOT, "file_a.txt", ListedKind::File { blocks: Some(8) }),
        listed(ROOT, "file_b.txt", ListedKind::File { blocks: Some(8) }),
    ])
}

fn alpha_listing() -> Option<Vec<ListedEntry>> {
    let alpha = format!("{ROOT}/alpha");
    Some(vec![listed(&alpha, "inner.txt", ListedKind::File { blocks: Some(8) })])
}

fn without(name: &str) -> Option<Vec<ListedEntry>> {
    Some(root_listing().unwrap().into_iter().filter(|e| e.name != name.as_bytes()).collect())
}

fn idle() -> AppState {
    AppState::new_idle(&root(), &root_listing())
}

fn place(app: &AppState, name: &str) -> usize {
    app.entries.iter().position(|e| e.name == name).unwrap()
}

#[test]
fn new_idle_does_not_scan() {
    let app = idle();
    assert!(!app.has_scanned());
    assert!(!app.scan_state.is_scanning());
    assert_eq!(app.current_dir, root());
    assert_eq!(app.scan_root, root());
    assert!(!app.entries.is_empty());
}

#[test]
fn load_entries_has_parent_and_children() {
    let app = idle();
    assert!(app.entries.len() >= 5);
    assert!(app.entries[0].is_parent);
    assert_eq!(app.entries[0].name, "..");
    assert_eq!(app.entries[0].path, path("/tmp"));
}

#[test]
fn sort_entries_by_name() {
    let mut app = idle();
    app.sort_by_size = false;
    app.sort_entries();
    let names: Vec<&str> = app.entries.iter().skip(1).map(|e| e.name.as_str()).collect();
    let mut sorted = names.clone();
    sorted.sort_by(|a, b| a.to_lowercase().cmp(&b.to_lowercase()));
    assert_eq!(names, sorted);
}

#[test]
fn total_size_sums_entries() {
    let app = idle();
    assert!(app.total_has_room());
    let total = app.total_size();
    assert!(total >= 6);
    assert_eq!(total, 8192);
}

#[test]
fn enter_dir_navigates() {
    let mut app = idle();
    let alpha_idx = place(&app, "alpha");
    app.selected = alpha_idx;
    assert_eq!(app.enter_target(), Some(sub("alpha")));
    app.enter_dir(&alpha_listing());
    assert_eq!(app.current_dir, sub("alpha"));
    assert_eq!(app.history.len(), 1);
}

#[test]
fn enter_dir_on_file_does_nothing() {
    let mut app = idle();
    app.selected = place(&app, "file_a.txt");
    let old_dir = app.current_dir.clone();
    assert_eq!(app.enter_target(), None);
    app.enter_dir(&None);
    assert_eq!(app.current_dir, old_dir);
    assert_eq!(app.entries.len(), 5);
}

#[test]
fn enter_dir_empty_entries() {
    let mut app = idle();
    app.entries.clear();
    app.enter_dir(&None);
    assert_eq!(app.current_dir, root());
}

#[test]
fn enter_dir_parent_goes_up() {
    let mut app = idle();
    app.selected = place(&app, "alpha");
    app.enter_dir(&alpha_listing());
    assert_eq!(app.current_dir, sub("alpha"));
    app.selected = 0;
    assert!(app.entries[0].is_parent);
    assert_eq!(app.enter_target(), Some(root()));
    app.enter_dir(&root_listing());
    assert_eq!(app.current_dir, root());
}

#[test]
fn go_up_with_history() {
    let mut app = idle();
    let idx = place(&app, "alpha");
    app.selected = idx;
    app.scroll = 2;
    app.enter_dir(&alpha_listing());
    assert_eq!(app.selected, 0);
    assert_eq!(app.scroll, 0);
    assert_eq!(app.up_target(), Some(root()));
    app.go_up(&root_listing());
    assert_eq!(app.current_dir, root());
    assert_eq!(app.selected, idx);
    assert_eq!(app.scroll, 2);
    assert!(app.history.is_empty());
}

#[test]
fn go_up_without_history() {
    let mut app = idle();
    let parent = root().parent().unwrap();
    assert_eq!(app.up_target(), Some(parent.clone()));
    app.go_up(&Some(vec![
        listed("/tmp", "other", ListedKind::Dir),
        listed("/tmp", "rdirstat_test_app", ListedKind::Dir),
    ]));
    assert_eq!(app.current_dir, parent);
    assert_eq!(app.entries[app.selected].path, root());
}

#[test]
fn go_up_stops_at_the_top() {
    let mut app = AppState::new_idle(&path("/"), &Some(vec![listed("", "a", ListedKind::Dir)]));
    assert!(!app.entries[0].is_parent);
    assert_eq!(app.up_target(), None);
    app.go_up(&None);
    assert_eq!(app.current_dir, path("/"));
    assert_eq!(app.entries.len(), 1);
}

#[test]
fn navigate_to_clears_history() {
    let mut app = idle();
    app.history.push((path("/old"), 0, 0));
    app.selected = 2;
    app.navigate_to(sub("alpha"), &alpha_listing());
    assert_eq!(app.current_dir, sub("alpha"));
    assert!(app.history.is_empty());
    assert_eq!(app.selected, 0);
}

#[test]
fn navigate_to_same_dir_noop() {
    let mut app = idle();
    app.history.push((path("/old"), 0, 0));
    app.navigate_to(root(), &None);
    assert_eq!(app.history.len(), 1);
    assert_eq!(app.entries.len(), 5);
}

#[test]
fn set_directory_changes_dir() {
    let mut app = idle();
    app.set_directory(sub("beta"), &Some(vec![]));
    assert_eq!(app.current_dir, sub("beta"));
    assert_eq!(app.entries.len(), 1);
}

#[test]
fn move_selection_forward() {
    let mut app = idle();
    app.selected = 0;
    app.move_selection(2, 10);
    assert_eq!(app.selected, 2);
}

#[test]
fn move_selection_clamps_max() {
    let mut app = idle();
    let len = app.entries.len();
    app.move_selection(999, 10);
    assert_eq!(app.selected, len - 1);
}

#[test]
fn move_selection_backward() {
    let mut app = idle();
    app.selected = 3;
    app.move_selection(-2, 10);
    assert_eq!(app.selected, 1);
}

#[test]
fn move_selection_clamps_min() {
    let mut app = idle();
    app.selected = 1;
    app.move_selection(-999, 10);
    assert_eq!(app.selected, 0);
}

#[test]
fn move_selection_empty() {
    let mut app = idle();
    app.entries.clear();
    app.move_selection(1, 10);
    assert_eq!(app.selected, 0);
}

#[test]
fn move_selection_scrolls_down() {
    let mut app = idle();
    app.scroll = 0;
    app.move_selection(3, 2);
    assert!(app.scroll > 0);
    assert_eq!(app.scroll, 2);
}

#[test]
fn move_selection_scrolls_up() {
    let mut app = idle();
    app.selected = 3;
    app.scroll = 3;
    app.move_selection(-2, 10);
    assert_eq!(app.scroll, 1);
}

#[test]
fn moves_at_the_edge_of_an_index() {
    assert_eq!(shift_selection(0, 0, 5, 3, 6), (5, 3));
    assert_eq!(shift_selection(5, 3, -1, 3, 6), (4, 3));
    assert_eq!(shift_selection(5, 3, 0, 0, 6), (5, 6));
    assert!(move_has_room(5, 3, 1, 3, 6));
    assert!(!move_has_room(0, 0, isize::MIN, 3, 6));
    assert!(!move_has_room(usize::MAX, 0, 1, 3, 6));
    assert!(!move_has_room(3, 2, 1, usize::MAX, 6));
}

#[test]
fn toggle_sort_switches_mode() {
    let mut app = idle();
    assert!(app.sort_by_size);
    app.toggle_sort();
    assert!(!app.sort_by_size);
    app.toggle_sort();
    assert!(app.sort_by_size);
}

#[test]
fn delete_selected_returns_info() {
    let mut app = idle();
    app.selected = place(&app, "file_a.txt");
    let result = app.delete_selected().unwrap();
    assert_eq!(result.0, "file_a.txt");
    assert_eq!(result.1, sub("file_a.txt"));
    assert!(!result.2);
    assert_eq!(result.3, 4096);
}

#[test]
fn delete_selected_empty() {
    let mut app = idle();
    app.entries.clear();
    assert!(app.delete_selected().is_err());
    assert_eq!(app.delete_selected().err(), Some("No entries".to_string()));
}

#[test]
fn execute_delete_file() {
    let mut app = idle();
    assert!(app.entries.iter().any(|e| e.name == "file_b.txt"));
    app.execute_delete(Ok(()), &without("file_b.txt")).unwrap();
    assert!(!app.entries.iter().any(|e| e.name == "file_b.txt"));
}

#[test]
fn execute_delete_dir() {
    let mut app = idle();
    assert!(app.entries.iter().any(|e| e.name == "beta"));
    app.execute_delete(Ok(()), &without("beta")).unwrap();
    assert!(!app.entries.iter().any(|e| e.name == "beta"));
}

#[test]
fn execute_delete_nonexistent() {
    let mut app = idle();
    let result = app.execute_delete(Err("No such file or directory".to_string()), &None);
    assert!(result.is_err());
    assert_eq!(
        result.err(),
        Some("Failed to delete: No such file or directory".to_string())
    );
    assert_eq!(app.entries.len(), 5);
}

#[test]
fn switch_drive_idle_no_scan() {
    let mut app = idle();
    let new_root = sub("alpha");
    app.history.push((path("/old"), 0, 0));
    app.switch_drive_idle(new_root.clone(), &alpha_listing());
    assert_eq!(app.current_dir, new_root);
    assert_eq!(app.scan_root, new_root);
    assert!(app.history.is_empty());
    assert!(!app.scan_state.is_scanning());
}

#[test]
fn switch_drive_begins_a_scan() {
    let mut app = idle();
    app.switch_drive(sub("alpha"), &alpha_listing(), std::time::Instant::now());
    assert!(app.scan_state.is_scanning());
    assert!(app.scan_state.scan_start.is_some());
}

#[test]
fn has_scanned_false_initially() {
    let app = idle();
    assert!(!app.has_scanned());
}

#[test]
fn scan_starts_scan() {
    let mut app = idle();
    assert!(app.scan(std::time::Instant::now()));
    assert!(app.has_scanned());
    assert!(!app.scan(std::time::Instant::now()));
    app.stop_scan();
    assert!(app.scan_state.cancel);
}

#[test]
fn sync_entry_source_matches_entries() {
    let app = idle();
    assert_eq!(app.entry_source.len(), app.entries.len());
    for (i, (name, path, is_dir, is_parent, _size)) in app.entry_source.iter().enumerate() {
        assert_eq!(name, &app.entries[i].name);
        assert_eq!(path, &app.entries[i].path);
        assert_eq!(*is_dir, app.entries[i].is_dir);
        assert_eq!(*is_parent, app.entries[i].is_parent);
    }
}

#[test]
fn links_and_unknown_entries_are_not_shown() {
    let app = AppState::new_idle(
        &root(),
        &Some(vec![
            listed(ROOT, "link", ListedKind::Link),
            listed(ROOT, "odd", ListedKind::Unknown),
            listed(ROOT, "f", ListedKind::File { blocks: None }),
        ]),
    );
    let names: Vec<&str> = app.entries.iter().map(|e| e.name.as_str()).collect();
    assert_eq!(names, vec!["..", "f"]);
    assert_eq!(app.entries[1].file_size, 0);
}

#[test]
fn an_unreadable_directory_has_only_the_way_up() {
    let mut app = idle();
    app.set_directory(sub("beta"), &None);
    assert_eq!(app.entries.len(), 1);
    assert!(app.entries[0].is_parent);
    assert_eq!(app.entry_source.len(), 1);
    assert_eq!(app.entry_source[0].0, "..");
}

#[test]
fn a_listing_with_too_large_a_file_is_refused() {
    assert!(listing_has_room(&root_listing()));
    assert!(listing_has_room(&None));
    assert!(!listing_has_room(&Some(vec![listed(
        ROOT,
        "f",
        ListedKind::File { blocks: Some(u64::MAX) }
    )])));
}

#[test]
fn rescan_forgets_what_was_found() {
    let mut app = idle();
    let mut thread = ThreadLocalState::new(root());
    assert!(thread.process_entry(
        &mut app.scan_state,
        &WalkEntry {
            path: sub("alpha/inner.txt"),
            depth: 2,
            kind: EntryKind::File { meta: Some(FileMeta { dev: 1, ino: 1, blocks: 8 }) },
        }
    ));
    assert!(thread.finish(&mut app.scan_state));
    assert_eq!(app.scan_state.get_size(&sub("alpha")), Some(4096));
    app.sort_entries();
    assert_eq!(app.entries[place(&app, "alpha")].current_size(&app.scan_state), 4096);
    app.rescan(&root_listing(), std::time::Instant::now());
    assert_eq!(app.scan_state.get_size(&sub("alpha")), None);
    assert!(app.scan_state.is_scanning());
    assert_eq!(app.scan_root, root());
}

#[test]
fn large_directories_come_first() {
    let mut app = idle();
    app.scan_state.dir_sizes.insert(sub("beta"), 100_000);
    app.scan_state.dir_sizes.insert(path("/tmp"), 5);
    app.sort_entries();
    let names: Vec<&str> = app.entries.iter().map(|e| e.name.as_str()).collect();
    assert_eq!(names, vec!["..", "beta", "file_a.txt", "file_b.txt", "alpha"]);
}

#[test]
fn an_empty_finished_scan_was_a_scan() {
    let mut app = idle();
    assert!(app.scan(std::time::Instant::now()));
    app.scan_state.end_scan();
    assert!(!app.scan_state.is_scanning());
    assert_eq!(app.scan_state.files_scanned(), 0);
    assert!(app.has_scanned());
    app.switch_drive_idle(sub("alpha"), &alpha_listing());
    assert!(!app.has_scanned());
}

#[test]
fn rows_keep_the_spelling_of_their_paths() {
    let listing = Some(vec![ListedEntry {
        path: path("/r//docs/"),
        name: b"docs".to_vec(),
        kind: ListedKind::Dir,
    }]);
    let mut app = AppState::new_idle(&path("/r//"), &listing);
    assert_eq!(app.current_dir.to_bytes(), b"/r//".to_vec());
    app.selected = 1;
    assert_eq!(app.enter_target().unwrap().to_bytes(), b"/r//docs/".to_vec());
    app.enter_dir(&Some(vec![]));
    assert_eq!(app.entries[0].path.to_bytes(), b"/r".to_vec());
    app.navigate_to(path("/r/docs"), &None);
    assert_eq!(app.current_dir.to_bytes(), b"/r//docs/".to_vec());
    app.go_up(&listing);
    assert_eq!(app.current_dir.to_bytes(), b"/r//".to_vec());
}
