use rdirstat::app::AppState;
use rdirstat::app::ListedEntry;
use rdirstat::app::ListedKind;
use rdirstat::browse::Action;
use rdirstat::browse::Browser;
use rdirstat::browse::Command;
use rdirstat::browse::Dialog;
use rdirstat::browse::Tab;
use rdirstat::gui::GuiApp;
use rdirstat::gui::Pressed;
use rdirstat::mounts::MountPoint;
use rdirstat::path::FsPath;
use rdirstat::snapshot::build_snapshot;
use rdirstat::theme::Role;
use rdirstat::tui::command_for;
use rdirstat::tui::Key;
use rdirstat::tui::TuiApp;
use rdirstat::tui::TuiCommand;

fn path(text: &str) -> FsPath {
    FsPath::from_bytes(&text.as_bytes().to_vec())
}

fn listed(name: &str, kind: ListedKind) -> ListedEntry {
    ListedEntry { path: path(&format!("/home/me/{name}")), name: name.as_bytes().to_vec(), kind }
}

fn state() -> AppState {
    AppState::new_idle(
        &path("/home/me"),
        &Some(vec![
            listed("small", ListedKind::File { blocks: Some(1) }),
            listed("docs", ListedKind::Dir),
            listed("big", ListedKind::File { blocks: Some(8) }),
        ]),
    )
}

fn browser() -> Browser {
    let mut b = Browser::new(state());
    let snap = build_snapshot(&b.state.scan_state, &b.state.entry_source, b.state.sort_by_size);
    b.take_snapshot(Some(snap));
    b
}

fn tui() -> TuiApp {
    let mut app = TuiApp::new(state());
    let s = &app.browser.state;
    let snap = build_snapshot(&s.scan_state, &s.entry_source, s.sort_by_size);
    app.poll_snapshot(Some(snap));
    app
}

fn now() -> std::time::Instant {
    std::time::Instant::now()
}

fn mounts() -> Vec<MountPoint> {
    vec![
        MountPoint { path: path("/mnt"), label: "/mnt".to_string() },
        MountPoint { path: path("/home"), label: "/home".to_string() },
        MountPoint { path: path("/"), label: "/".to_string() },
    ]
}

fn no_keys() -> Pressed {
    Pressed {
        any: false,
        down: false,
        up: false,
        left: false,
        right: false,
        page_down: false,
        page_up: false,
        home: false,
        end: false,
        enter: false,
        escape: false,
        backspace: false,
        delete: false,
        d: false,
        g: false,
        h: false,
        j: false,
        k: false,
        l: false,
        n: false,
        q: false,
        r: false,
        s: false,
        y: false,
    }
}

#[test]
fn the_selection_follows_a_shrinking_listing() {
    let mut b = browser();
    assert_eq!(b.snapshot.entries.len(), 4);
    b.selected = 9;
    b.take_snapshot(None);
    assert_eq!(b.selected, 3);
    b.snapshot.entries.clear();
    b.take_snapshot(None);
    assert_eq!(b.selected, 0);
}

#[test]
fn entering_and_going_back_restores_the_selection() {
    let mut b = browser();
    b.selected = b.snapshot.entries.iter().position(|e| e.name == "docs").unwrap();
    b.scroll = 1;
    let at = b.selected;
    match b.perform(Command::Enter, 10, now()) {
        Action::Open { dir } => assert_eq!(dir, path("/home/me/docs")),
        other => panic!("{other:?}"),
    }
    assert_eq!(b.selected, 0);
    assert_eq!(b.history.len(), 1);
    b.state.set_directory(path("/home/me/docs"), &Some(vec![]));
    match b.perform(Command::Back, 10, now()) {
        Action::Open { dir } => assert_eq!(dir, path("/home/me")),
        other => panic!("{other:?}"),
    }
    assert_eq!(b.selected, at);
    assert_eq!(b.scroll, 1);
    assert!(b.history.is_empty());
}

#[test]
fn the_first_row_goes_up() {
    let mut b = browser();
    b.selected = 0;
    match b.perform(Command::Enter, 10, now()) {
        Action::Open { dir } => assert_eq!(dir, path("/home")),
        other => panic!("{other:?}"),
    }
}

#[test]
fn a_file_is_not_entered() {
    let mut b = browser();
    b.selected = b.snapshot.entries.iter().position(|e| e.name == "big").unwrap();
    assert!(matches!(b.perform(Command::Enter, 10, now()), Action::Nothing));
}

#[test]
fn the_way_up_is_not_deleted() {
    let mut b = browser();
    b.selected = 0;
    assert!(matches!(b.perform(Command::Delete, 10, now()), Action::Nothing));
    assert!(matches!(b.dialog, Dialog::Closed));
}

#[test]
fn a_deletion_is_confirmed_and_told() {
    let mut b = browser();
    b.selected = b.snapshot.entries.iter().position(|e| e.name == "big").unwrap();
    b.prompt_delete();
    match &b.dialog {
        Dialog::ConfirmDelete { name, path: p, is_dir, size } => {
            assert_eq!(name, "big");
            assert_eq!(*p, path("/home/me/big"));
            assert!(!is_dir);
            assert_eq!(*size, 4096);
        }
        other => panic!("{other:?}"),
    }
    match b.perform(Command::ConfirmYes, 10, now()) {
        Action::Delete { path: p, is_dir } => {
            assert_eq!(p, path("/home/me/big"));
            assert!(!is_dir);
        }
        other => panic!("{other:?}"),
    }
    b.execute_delete(Err("denied".to_string()), &None);
    match &b.dialog {
        Dialog::DeleteResult { message, success } => {
            assert_eq!(message, "Failed to delete: denied");
            assert!(!success);
        }
        other => panic!("{other:?}"),
    }
    b.execute_delete(Ok(()), &Some(vec![]));
    assert!(matches!(b.dialog, Dialog::DeleteResult { .. }));
    b.prompt_delete();
    b.execute_delete(Ok(()), &Some(vec![]));
    assert!(matches!(b.dialog, Dialog::Closed));
    assert_eq!(b.state.entries.len(), 1);
}

#[test]
fn the_drive_of_the_scan_is_selected_first() {
    let mut b = browser();
    b.open_drive_picker(mounts());
    match &b.dialog {
        Dialog::DrivePicker { selected, .. } => assert_eq!(*selected, 1),
        other => panic!("{other:?}"),
    }
    b.perform(Command::PickUp, 10, now());
    b.perform(Command::PickUp, 10, now());
    match &b.dialog {
        Dialog::DrivePicker { selected, .. } => assert_eq!(*selected, 0),
        other => panic!("{other:?}"),
    }
    for _ in 0..5 {
        b.perform(Command::PickDown, 10, now());
    }
    b.history.push((path("/old"), 1, 1));
    match b.perform(Command::PickSelect, 10, now()) {
        Action::Switch { path: p } => assert_eq!(p, path("/")),
        other => panic!("{other:?}"),
    }
    assert!(matches!(b.dialog, Dialog::Closed));
    assert!(b.history.is_empty());
}

#[test]
fn a_picker_without_drives_can_only_be_left() {
    let mut b = browser();
    b.open_drive_picker(vec![]);
    assert!(!b.command_has_room(Command::PickDown, 10));
    assert!(!b.command_has_room(Command::PickSelect, 10));
    assert!(b.command_has_room(Command::PickUp, 10));
    b.perform(Command::PickUp, 10, now());
    b.perform(Command::Cancel, 10, now());
    assert!(matches!(b.dialog, Dialog::Closed));
    assert!(b.command_has_room(Command::PickDown, 10));
}

#[test]
fn a_scan_is_begun_and_stopped() {
    let mut b = browser();
    assert!(matches!(b.perform(Command::Scan, 10, now()), Action::Launch));
    assert!(b.state.scan_state.is_scanning());
    assert!(matches!(b.perform(Command::Scan, 10, now()), Action::Nothing));
    assert!(!b.state.scan_state.cancel);
    let snap = build_snapshot(&b.state.scan_state, &b.state.entry_source, true);
    b.take_snapshot(Some(snap));
    assert!(matches!(b.perform(Command::Scan, 10, now()), Action::Nothing));
    assert!(b.state.scan_state.cancel);
}

#[test]
fn going_elsewhere_forgets_the_way_back() {
    let mut b = browser();
    b.history.push((path("/old"), 1, 1));
    assert_eq!(b.navigate_to(path("/home")), Some(path("/home")));
    assert!(b.history.is_empty());
    b.history.push((path("/old"), 1, 1));
    assert_eq!(b.navigate_to(path("/home/me")), None);
    assert_eq!(b.history.len(), 1);
}

#[test]
fn keys_of_the_terminal() {
    let closed = Dialog::Closed;
    let explorer = |key: Key| command_for(&closed, Tab::Explorer, key);
    assert_eq!(explorer(Key::Char('q')), TuiCommand::Shared(Command::Quit));
    assert_eq!(explorer(Key::Esc), TuiCommand::Shared(Command::Quit));
    assert_eq!(explorer(Key::Char('j')), TuiCommand::Shared(Command::MoveDown));
    assert_eq!(explorer(Key::Up), TuiCommand::Shared(Command::MoveUp));
    assert_eq!(explorer(Key::Char('l')), TuiCommand::Shared(Command::Enter));
    assert_eq!(explorer(Key::Backspace), TuiCommand::Shared(Command::Back));
    assert_eq!(explorer(Key::Char('s')), TuiCommand::Shared(Command::ToggleSort));
    assert_eq!(explorer(Key::Char('r')), TuiCommand::Shared(Command::Scan));
    assert_eq!(explorer(Key::Delete), TuiCommand::Shared(Command::Delete));
    assert_eq!(explorer(Key::Char('g')), TuiCommand::Shared(Command::Drives));
    assert_eq!(explorer(Key::Tab), TuiCommand::Shared(Command::NextTab));
    assert_eq!(explorer(Key::Char('y')), TuiCommand::Shared(Command::Nothing));
    assert_eq!(command_for(&closed, Tab::Overview, Key::Char('j')), TuiCommand::ScrollDown);
    assert_eq!(command_for(&closed, Tab::Overview, Key::Home), TuiCommand::ScrollTop);
    assert_eq!(
        command_for(&closed, Tab::Overview, Key::Char('s')),
        TuiCommand::Shared(Command::Nothing)
    );
    let result = Dialog::DeleteResult { message: String::new(), success: false };
    assert_eq!(
        command_for(&result, Tab::Explorer, Key::Other),
        TuiCommand::Shared(Command::Cancel)
    );
    let confirm = Dialog::ConfirmDelete {
        name: String::new(),
        path: path("/"),
        is_dir: false,
        size: 0,
    };
    assert_eq!(
        command_for(&confirm, Tab::Explorer, Key::Char('Y')),
        TuiCommand::Shared(Command::ConfirmYes)
    );
    assert_eq!(
        command_for(&confirm, Tab::Explorer, Key::Char('q')),
        TuiCommand::Shared(Command::Nothing)
    );
    let picker = Dialog::DrivePicker { mounts: mounts(), selected: 0 };
    assert_eq!(
        command_for(&picker, Tab::Explorer, Key::Char('g')),
        TuiCommand::Shared(Command::Cancel)
    );
    assert_eq!(
        command_for(&picker, Tab::Explorer, Key::Enter),
        TuiCommand::Shared(Command::PickSelect)
    );
}

#[test]
fn only_yes_deletes() {
    let mut app = tui();
    app.browser.selected = 1;
    assert!(matches!(app.on_key(Key::Char('d'), 10, now()), Action::Nothing));
    assert!(matches!(app.on_key(Key::Enter, 10, now()), Action::Nothing));
    assert!(matches!(app.browser.dialog, Dialog::ConfirmDelete { .. }));
    assert!(matches!(app.on_key(Key::Char('y'), 10, now()), Action::Delete { .. }));
    assert!(matches!(app.on_key(Key::Char('n'), 10, now()), Action::Nothing));
    assert!(matches!(app.browser.dialog, Dialog::Closed));
}

#[test]
fn the_overview_scrolls_on_its_own() {
    let mut app = tui();
    assert_eq!(app.frame_count, 1);
    app.on_key(Key::Tab, 10, now());
    assert_eq!(app.browser.tab, Tab::Overview);
    app.on_key(Key::PageDown, 10, now());
    app.on_key(Key::Down, 10, now());
    app.on_key(Key::Up, 10, now());
    app.on_key(Key::Up, 10, now());
    assert_eq!(app.overview_scroll, 9);
    app.on_key(Key::PageUp, 10, now());
    assert_eq!(app.overview_scroll, 0);
    assert_eq!(app.browser.selected, 0);
}

#[test]
fn pages_move_the_selection() {
    let mut app = tui();
    assert!(app.key_fits(Key::PageDown, 2));
    app.on_key(Key::PageDown, 2, now());
    assert_eq!(app.browser.selected, 2);
    assert_eq!(app.browser.scroll, 1);
    app.on_key(Key::End, 2, now());
    assert_eq!(app.browser.selected, 3);
    app.on_key(Key::Home, 2, now());
    assert_eq!(app.browser.selected, 0);
    assert_eq!(app.browser.scroll, 0);
    assert!(!app.key_fits(Key::PageDown, usize::MAX));
}

#[test]
fn of_several_keys_one_counts() {
    let mut app = GuiApp::new(state());
    let s = &app.browser.state;
    let snap = build_snapshot(&s.scan_state, &s.entry_source, s.sort_by_size);
    app.poll_snapshot(Some(snap));
    let mut keys = no_keys();
    keys.any = true;
    keys.j = true;
    keys.s = true;
    assert!(app.keys_fit(&keys));
    assert!(matches!(app.on_keys(&keys, now()), Action::Nothing));
    assert_eq!(app.browser.selected, 1);
    assert!(app.browser.state.sort_by_size);
    keys.q = true;
    assert!(matches!(app.on_keys(&keys, now()), Action::Quit));
    assert!(app.browser.state.scan_state.cancel);
}

#[test]
fn clicks_select_and_enter() {
    let mut app = GuiApp::new(state());
    let s = &app.browser.state;
    let snap = build_snapshot(&s.scan_state, &s.entry_source, s.sort_by_size);
    app.poll_snapshot(Some(snap));
    app.on_click(2);
    assert_eq!(app.browser.selected, 2);
    let docs = app.browser.snapshot.entries.iter().position(|e| e.name == "docs").unwrap();
    assert_eq!(app.on_double_click(docs), Some(path("/home/me/docs")));
    assert_eq!(app.browser.history.len(), 1);
    assert_eq!(app.on_drive_click(0), None);
    app.browser.open_drive_picker(mounts());
    assert_eq!(app.on_drive_click(3), None);
    assert_eq!(app.on_drive_click(0), Some(path("/mnt")));
    assert!(matches!(app.browser.dialog, Dialog::Closed));
}

#[test]
fn the_way_to_a_directory() {
    let crumbs = rdirstat::gui::breadcrumbs(&path("/home/me"));
    let labels: Vec<&str> = crumbs.iter().map(|c| c.label.as_str()).collect();
    assert_eq!(labels, vec!["/", "home", "me"]);
    assert_eq!(crumbs[1].path, path("/home"));
    assert!(crumbs[2].here);
    assert!(!crumbs[1].here);
    let crumbs = rdirstat::gui::breadcrumbs(&path("//home//me/"));
    let labels: Vec<&str> = crumbs.iter().map(|c| c.label.as_str()).collect();
    assert_eq!(labels, vec!["/", "home", "me"]);
    assert_eq!(crumbs[1].path.to_bytes(), b"//home".to_vec());
    assert_eq!(crumbs[2].path.to_bytes(), b"//home//me/".to_vec());
}

#[test]
fn texts_of_the_window() {
    let mut app = GuiApp::new(state());
    assert!(rdirstat::gui::overview(&app).is_none());
    app.browser.state.scan_state.scan_start = Some(std::time::Instant::now());
    app.browser.state.scan_state.files_scanned = 12;
    app.browser.state.scan_state.total_bytes = 2048;
    app.browser.state.scan_state.record_top_file(&path("/home/me/big"), 4096);
    app.browser.state.scan_state.set_deepest_path(&path("/home/me/docs"), 1);
    let s = &app.browser.state;
    let snap = build_snapshot(&s.scan_state, &s.entry_source, s.sort_by_size);
    app.poll_snapshot(Some(snap));
    let texts = rdirstat::gui::overview(&app).unwrap();
    assert_eq!(texts.status, "Complete");
    assert_eq!(texts.scan_root, "/home/me");
    assert_eq!(texts.total_size, "2.0 KB");
    assert_eq!(texts.files, "12");
    assert_eq!(texts.directories, "0");
    assert_eq!(texts.deepest, Some("/home/me/docs (depth 1)".to_string()));
    assert_eq!(texts.top_files[0].size, "4.0 KB");
    assert_eq!(texts.top_files[0].name, "big");
    assert_eq!(texts.top_files[0].path, "/home/me/big");
    let head = rdirstat::gui::header(&app.browser.snapshot, 7);
    assert_eq!(head.items, "4 items");
    assert_eq!(head.total, "4.5 KB total");
    assert_eq!(head.scan, None);
    app.browser.snapshot.scanning = true;
    let head = rdirstat::gui::header(&app.browser.snapshot, 7);
    assert_eq!(head.scan, Some("12 files scanned (7/min)".to_string()));
    assert_eq!(rdirstat::gui::sort_label(true), "Sort: Size (s)");
    assert_eq!(rdirstat::gui::sort_label(false), "Sort: Name (s)");
    assert_eq!(rdirstat::gui::scan_label(true), "Stop (r)");
    assert_eq!(rdirstat::gui::scan_label(false), "Scan (r)");
    let texts = rdirstat::gui::confirm_texts(&"x".to_string(), true, 1024);
    assert_eq!(texts.0, "Delete directory: x");
    assert_eq!(texts.1, "Size: 1.0 KB");
}

#[test]
fn rows_of_the_window() {
    let b = browser();
    let up = rdirstat::gui::gui_row(&b.snapshot.entries[0]);
    assert_eq!(up.label, "..");
    assert_eq!(up.text, Role::Muted);
    assert_eq!(up.size, None);
    let docs = b.snapshot.entries.iter().find(|e| e.name == "docs").unwrap();
    let row = rdirstat::gui::gui_row(docs);
    assert_eq!(row.label, "/docs");
    assert_eq!(row.text, Role::Dir);
    assert_eq!(row.size, Some("0 B".to_string()));
    let big = b.snapshot.entries.iter().find(|e| e.name == "big").unwrap();
    let row = rdirstat::gui::gui_row(big);
    assert_eq!(row.label, " big");
    assert_eq!(row.bar, Role::File);
    assert!(!row.spins);
}

#[test]
fn a_fresh_frontend_shows_an_empty_snapshot() {
    let b = Browser::new(state());
    let empty = rdirstat::snapshot::UiSnapshot::empty();
    assert_eq!(b.snapshot.entries.len(), empty.entries.len());
    assert_eq!(b.snapshot.scanning, empty.scanning);
    assert_eq!(b.snapshot.total_bytes, 0);
    assert_eq!(b.snapshot.dirs_scanned, 0);
    assert_eq!(b.snapshot.total_entry_size, 0);
    assert!(b.snapshot.top_files.is_empty());
    assert!(b.snapshot.top_dirs.is_empty());
    assert!(b.snapshot.top_exts.is_empty());
    assert_eq!(b.snapshot.deepest, (path(""), 0));
    assert!(b.snapshot.scan_start.is_none());
}

#[test]
fn an_empty_finished_scan_has_an_overview() {
    let mut app = GuiApp::new(state());
    assert!(app.browser.state.scan(std::time::Instant::now()));
    app.browser.state.scan_state.end_scan();
    let texts = rdirstat::gui::overview(&app).unwrap();
    assert_eq!(texts.status, "Complete");
    assert_eq!(texts.files, "0");
}
