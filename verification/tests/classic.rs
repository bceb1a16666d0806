use rdirstat::browse::Dialog;
use rdirstat::classic::draw_ui;
use rdirstat::classic::end_scan;
use rdirstat::classic::top_dirs;
use rdirstat::classic::top_files_size;
use rdirstat::classic::App;
use rdirstat::classic::PlainEntry;
use rdirstat::classic::PlainKind;
use rdirstat::classic::Step;
use rdirstat::mounts::MountPoint;
use rdirstat::path::FsPath;
use rdirstat::scan::ScanState;
use rdirstat::screen::Area;
use rdirstat::screen::Parts;
use rdirstat::screen::Share;
use rdirstat::tui::Key;

fn path(text: &str) -> FsPath {
    FsPath::from_bytes(&text.as_bytes().to_vec())
}

fn entry(dir: &str, name: &str, kind: PlainKind) -> PlainEntry {
    PlainEntry { path: path(&format!("{dir}/{name}")), name: name.as_bytes().to_vec(), kind }
}

fn root_list() -> Vec<PlainEntry> {
    vec![
        entry("/r", "docs", PlainKind::Dir),
        entry("/r", "big", PlainKind::File { len: Some(3000) }),
        entry("/r", "link", PlainKind::Link { len: Some(20) }),
        entry("/r", "odd", PlainKind::Unknown),
        entry("/r", "lost", PlainKind::File { len: None }),
    ]
}

fn app() -> App {
    App::new(&path("/r"), &Some(root_list()))
}

fn names(app: &App) -> Vec<&str> {
    app.state.entries.iter().map(|e| e.name.as_str()).collect()
}

#[test]
fn links_are_listed_by_their_length_and_a_scan_begins() {
    let app = app();
    assert_eq!(names(&app), vec!["big", "link", "docs", "lost"]);
    assert!(app.state.scan_state.is_scanning());
    assert_eq!(app.state.total_size(), 3020);
}

#[test]
fn a_directory_that_cannot_be_read_is_empty() {
    let mut app = app();
    app.load_entries(&None);
    assert!(app.state.entries.is_empty());
    assert!(app.state.entry_source.is_empty());
    assert!(matches!(app.on_key(Key::Enter, 10), Step::Nothing));
    assert!(matches!(app.on_key(Key::Char('d'), 10), Step::Nothing));
    assert!(matches!(app.dialog, Dialog::Closed));
}

#[test]
fn the_root_gets_what_is_below_it() {
    let list = root_list();
    let dirs = top_dirs(&list);
    assert_eq!(dirs, vec![path("/r/docs")]);
    let files = top_files_size(&list).unwrap();
    assert_eq!(files, 3000);
    let mut scan = ScanState::new();
    scan.dir_sizes.insert(path("/r/docs"), 500);
    scan.scanning = true;
    assert!(end_scan(&mut scan, &path("/r"), files, &dirs));
    assert_eq!(scan.get_size(&path("/r")), Some(3500));
    assert!(scan.is_completed(&path("/r")));
    assert!(!scan.is_scanning());
    scan.dir_sizes.insert(path("/r/docs"), u64::MAX);
    assert!(!end_scan(&mut scan, &path("/r"), 1, &dirs));
    let mut stopped = ScanState::new();
    stopped.scanning = true;
    stopped.cancel = true;
    assert!(end_scan(&mut stopped, &path("/r"), files, &dirs));
    assert_eq!(stopped.get_size(&path("/r")), Some(3000));
    assert!(!stopped.is_completed(&path("/r")));
    assert!(!stopped.is_scanning());
    let huge = vec![
        entry("/r", "a", PlainKind::File { len: Some(u64::MAX) }),
        entry("/r", "b", PlainKind::File { len: Some(1) }),
    ];
    assert_eq!(top_files_size(&huge), None);
}

#[test]
fn rows_are_kept_in_order_while_sizes_grow() {
    let mut app = app();
    app.state.scan_state.dir_sizes.insert(path("/r/docs"), 10_000);
    app.tick();
    assert_eq!(names(&app), vec!["docs", "big", "link", "lost"]);
    assert_eq!(app.state.frame_count, 1);
    app.state.scan_state.scanning = false;
    app.state.scan_state.dir_sizes.insert(path("/r/docs"), 0);
    app.tick();
    assert_eq!(names(&app), vec!["docs", "big", "link", "lost"]);
}

#[test]
fn up_leads_back_to_where_a_directory_was_entered() {
    let mut app = app();
    app.state.selected = 2;
    match app.on_key(Key::Char('l'), 10) {
        Step::Load { dir } => assert_eq!(dir, path("/r/docs")),
        other => panic!("{other:?}"),
    }
    app.load_entries(&Some(vec![]));
    assert_eq!(app.state.current_dir, path("/r/docs"));
    match app.on_key(Key::Char('h'), 10) {
        Step::Rise { dir } => assert_eq!(dir, path("/r")),
        other => panic!("{other:?}"),
    }
    app.go_up(&Some(root_list()));
    assert_eq!(app.state.current_dir, path("/r"));
    assert_eq!(app.state.selected, 2);
    assert_eq!(app.up_target(), Some(path("/")));
    app.go_up(&Some(vec![
        entry("", "q", PlainKind::Dir),
        entry("", "r", PlainKind::Dir),
    ]));
    assert_eq!(app.state.selected, 1);
    assert!(matches!(app.on_key(Key::Backspace, 10), Step::Nothing));
}

#[test]
fn the_first_row_can_be_deleted() {
    let mut app = app();
    assert!(matches!(app.on_key(Key::Delete, 10), Step::Nothing));
    match &app.dialog {
        Dialog::ConfirmDelete { name, size, .. } => {
            assert_eq!(name, "big");
            assert_eq!(*size, 3000);
        }
        other => panic!("{other:?}"),
    }
    assert!(matches!(app.on_key(Key::Char('Y'), 10), Step::Delete { .. }));
    app.execute_delete(Err("denied".to_string()), &None);
    match &app.dialog {
        Dialog::DeleteResult { message, success } => {
            assert_eq!(message, "Failed to delete: denied");
            assert!(!success);
        }
        other => panic!("{other:?}"),
    }
    app.on_key(Key::Other, 10);
    assert!(matches!(app.dialog, Dialog::Closed));
    app.prompt_delete();
    app.execute_delete(Ok(()), &Some(vec![]));
    assert!(matches!(app.dialog, Dialog::Closed));
    assert!(app.state.entries.is_empty());
    app.load_entries(&Some(root_list()));
    app.state.selected = 4;
    assert!(!app.key_fits(Key::Enter, 10));
    assert!(!app.key_fits(Key::Char('d'), 10));
    assert!(app.key_fits(Key::Up, 10));
    app.on_key(Key::Up, 10);
    assert_eq!(app.state.selected, 3);
    assert!(app.key_fits(Key::Enter, 10));
}

#[test]
fn a_scan_is_begun_anew() {
    let mut app = app();
    app.state.scan_state.dir_sizes.insert(path("/r/docs"), 10);
    app.state.scan_state.files_scanned = 4;
    app.state.scan_state.cancel = true;
    assert!(matches!(app.on_key(Key::Char('r'), 10), Step::Rescan));
    app.state.scan_state.scanning = false;
    app.rescan(&Some(root_list()));
    assert_eq!(app.state.scan_state.get_size(&path("/r/docs")), None);
    assert_eq!(app.state.scan_state.files_scanned(), 0);
    assert!(!app.state.scan_state.cancel);
    assert!(app.state.scan_state.is_scanning());
}

#[test]
fn a_drive_is_switched_to() {
    let mut app = app();
    assert!(matches!(app.on_key(Key::Char('g'), 10), Step::Drives));
    app.open_drive_picker(vec![
        MountPoint { path: path("/mnt"), label: "m".to_string() },
        MountPoint { path: path("/"), label: "/".to_string() },
    ]);
    app.on_key(Key::Up, 10);
    match app.on_key(Key::Enter, 10) {
        Step::Switch { path: p } => assert_eq!(p, path("/mnt")),
        other => panic!("{other:?}"),
    }
    app.state.history.push((path("/x"), 1, 1));
    app.state.scan_state.scanning = false;
    app.switch_drive(path("/mnt"), &Some(vec![]));
    assert!(matches!(app.dialog, Dialog::Closed));
    assert_eq!(app.state.current_dir, path("/mnt"));
    assert_eq!(app.state.scan_root, path("/mnt"));
    assert!(app.state.history.is_empty());
}

#[test]
fn keys_of_the_plain_program() {
    let mut app = app();
    assert!(app.key_fits(Key::PageDown, 2));
    assert!(!app.key_fits(Key::PageDown, usize::MAX));
    app.on_key(Key::PageDown, 2);
    assert_eq!(app.state.selected, 2);
    app.on_key(Key::Up, 2);
    assert_eq!(app.state.selected, 1);
    app.on_key(Key::End, 2);
    assert_eq!(app.state.selected, 3);
    app.on_key(Key::Home, 2);
    assert_eq!(app.state.selected, 0);
    assert!(matches!(app.on_key(Key::Tab, 2), Step::Nothing));
    app.on_key(Key::Char('s'), 2);
    assert_eq!(names(&app), vec!["big", "docs", "link", "lost"]);
    assert!(matches!(app.on_key(Key::Esc, 2), Step::Quit));
    assert!(matches!(app.on_key(Key::Char('q'), 2), Step::Quit));
}

#[test]
fn the_plain_screen() {
    let mut app = app();
    app.state.scan_state.files_scanned = 9;
    let area = Area { x: 0, y: 0, width: 60, height: 12 };
    let parts = Parts {
        header: Area { height: 3, ..area },
        body: Area { y: 3, height: 6, ..area },
        help: Area { y: 9, height: 3, ..area },
    };
    let shares: Vec<Share> =
        (0..4).map(|_| Share { percent: " 25.0%".to_string(), fill: 4 }).collect();
    let screen = draw_ui(&app, parts, area, &shares).unwrap();
    assert_eq!(screen.visible_rows, 4);
    assert_eq!(screen.header.title, Some(" rdiskstat ".to_string()));
    assert_eq!(
        screen.header.lines[0].spans[0].text,
        " /r | 4 items | 2.9 KB total | sort: size [scanning... 9 files] "
    );
    assert_eq!(screen.body.lines.len(), 4);
    let line = &screen.body.lines[2].spans[0].text;
    assert!(line.starts_with("/docs "), "{line}");
    assert!(line.contains(" |       0 B  25.0% "), "{line}");
    assert!(screen.help.lines[0].spans[0].text.contains("r:Rescan"));
    assert!(screen.popup.is_none());
    app.state.entries[0].file_size = u64::MAX;
    assert!(draw_ui(&app, parts, area, &shares).is_none());
}
