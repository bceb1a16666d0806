use rdirstat::app::AppState;
use rdirstat::app::ListedEntry;
use rdirstat::app::ListedKind;
use rdirstat::browse::Dialog;
use rdirstat::browse::Tab;
use rdirstat::mounts::MountPoint;
use rdirstat::path::FsPath;
use rdirstat::screen::centered_rect;
use rdirstat::screen::columns;
use rdirstat::screen::count_rows;
use rdirstat::screen::draw_dialog;
use rdirstat::screen::draw_ui;
use rdirstat::screen::ext_bar;
use rdirstat::screen::screen_parts;
use rdirstat::screen::Area;
use rdirstat::screen::Share;
use rdirstat::snapshot::build_snapshot;
use rdirstat::style::Color;
use rdirstat::style::Style;
use rdirstat::text::align_left;
use rdirstat::text::align_right;
use rdirstat::text::bar;
use rdirstat::text::end_of;
use rdirstat::text::shorten;
use rdirstat::text::shortens;
use rdirstat::tui::TuiApp;

fn path(text: &str) -> FsPath {
    FsPath::from_bytes(&text.as_bytes().to_vec())
}

fn app() -> TuiApp {
    let listed = |name: &str, kind: ListedKind| ListedEntry {
        path: path(&format!("/r/{name}")),
        name: name.as_bytes().to_vec(),
        kind,
    };
    let mut app = TuiApp::new(AppState::new_idle(
        &path("/r"),
        &Some(vec![
            listed("docs", ListedKind::Dir),
            listed("a_rather_long_name_of_a_file.txt", ListedKind::File { blocks: Some(8) }),
        ]),
    ));
    refresh(&mut app);
    app
}

fn refresh(app: &mut TuiApp) {
    let s = &app.browser.state;
    let snap = build_snapshot(&s.scan_state, &s.entry_source, s.sort_by_size);
    app.poll_snapshot(Some(snap));
}

fn shares(n: usize) -> Vec<Share> {
    (0..n).map(|_| Share { percent: "100.0%".to_string(), fill: 2 }).collect()
}

const AREA: Area = Area { x: 0, y: 0, width: 60, height: 20 };

#[test]
fn the_screen_is_parted_in_three() {
    let parts = screen_parts(Area { x: 2, y: 1, width: 60, height: 20 });
    assert_eq!(parts.header, Area { x: 2, y: 1, width: 60, height: 3 });
    assert_eq!(parts.body, Area { x: 2, y: 4, width: 60, height: 14 });
    assert_eq!(parts.help, Area { x: 2, y: 18, width: 60, height: 3 });
}

#[test]
fn a_box_stands_in_the_middle() {
    let area = Area { x: 1, y: 2, width: 80, height: 24 };
    assert_eq!(centered_rect(50, 10, area), Area { x: 21, y: 9, width: 40, height: 10 });
    assert_eq!(centered_rect(40, 100, area), Area { x: 25, y: 2, width: 32, height: 24 });
    let far = Area { x: 65000, y: 65500, width: 1000, height: 100 };
    assert_eq!(centered_rect(50, 60, far), Area { x: 65250, y: 65520, width: 285, height: 15 });
    let same = ratatui::layout::Rect::new(65250, 65520, 500, 60);
    assert_eq!((same.width, same.height), (285, 15));
}

#[test]
fn widths_of_the_columns() {
    assert_eq!(columns(58), (20, 18));
    assert_eq!(columns(10), (0, 0));
    assert_eq!(ext_bar(100), 30);
    assert_eq!(ext_bar(40), 8);
    assert_eq!(ext_bar(4), 0);
    assert_eq!(count_rows(5, 2, 10), 3);
    assert_eq!(count_rows(50, 2, 10), 10);
    assert_eq!(count_rows(5, 7, 10), 0);
}

#[test]
fn the_listing_is_drawn() {
    let app = app();
    let parts = screen_parts(AREA);
    let screen = draw_ui(&app, parts, AREA, 0, &shares(3), &vec![]).unwrap();
    assert_eq!(screen.visible_rows, 12);
    assert_eq!(
        screen.header.lines[0].spans[0].text,
        " [Explorer] /r | 3 items | 4.0 KB total | sort: size "
    );
    assert_eq!(screen.body.lines.len(), 3);
    let first = &screen.body.lines[0].spans[0];
    assert_eq!(
        first.text,
        format!("/{:<20}   {:>9} 100.0% {}", "..", "0 B", bar(2, 18))
    );
    assert_eq!(
        first.style,
        Style { fg: Some(Color::Black), bg: Some(Color::Cyan), bold: true }
    );
    let long = &screen.body.lines[1].spans[0];
    assert!(long.text.starts_with(" a_rather_long_nam...      4.0 KB"), "{}", long.text);
    assert_eq!(long.style, Style { fg: Some(Color::White), bg: None, bold: false });
    assert!(screen.popup.is_none());
    assert!(screen.help.lines[0].spans[0].text.ends_with("Tab:Overview"));
}

#[test]
fn a_running_scan_shows() {
    let mut app = app();
    app.browser.state.scan_state.scanning = true;
    app.browser.state.scan_state.files_scanned = 1200;
    refresh(&mut app);
    let screen = draw_ui(&app, screen_parts(AREA), AREA, 55, &shares(3), &vec![]).unwrap();
    assert!(screen.header.lines[0].spans[0].text.ends_with(" [scanning... 1200 files, 55/min] "));
    let docs = &screen.body.lines[2].spans[0];
    assert!(docs.text.contains(" - "), "{}", docs.text);
    assert_eq!(docs.style.fg, Some(Color::Yellow));
}

#[test]
fn an_empty_directory_says_so() {
    let mut app = app();
    app.browser.snapshot.entries.clear();
    let screen = draw_ui(&app, screen_parts(AREA), AREA, 0, &vec![], &vec![]).unwrap();
    assert_eq!(screen.body.lines[0].spans[0].text, "  (empty directory)");
}

#[test]
fn a_name_is_not_cut_within_a_character() {
    let mut app = app();
    app.browser.snapshot.entries[1].name = "\u{e9}".repeat(20);
    assert!(draw_ui(&app, screen_parts(AREA), AREA, 0, &shares(3), &vec![]).is_none());
    app.browser.snapshot.entries[1].name = format!("a{}", "\u{e9}".repeat(20));
    assert!(draw_ui(&app, screen_parts(AREA), AREA, 0, &shares(3), &vec![]).is_some());
    assert!(!shortens("\u{e9}\u{e9}\u{e9}", 4));
    assert!(shortens("a\u{e9}\u{e9}\u{e9}", 4));
}

#[test]
fn the_overview_is_drawn() {
    let mut app = app();
    app.browser.tab = Tab::Overview;
    let screen = draw_ui(&app, screen_parts(AREA), AREA, 0, &shares(3), &vec![]).unwrap();
    assert_eq!(screen.body.lines[0].spans[0].text, "  Press 'r' to start scanning.");
    let scan = &mut app.browser.state.scan_state;
    scan.scan_start = Some(std::time::Instant::now());
    scan.files_scanned = 3;
    scan.total_bytes = 1536;
    scan.record_top_file(&path("/r/docs/x.bin"), 1024);
    scan.set_deepest_path(&path("/r/docs"), 1);
    refresh(&mut app);
    let screen = draw_ui(&app, screen_parts(AREA), AREA, 0, &shares(3), &vec![]).unwrap();
    let lines: Vec<String> = screen
        .body
        .lines
        .iter()
        .map(|l| l.spans.iter().map(|s| s.text.as_str()).collect::<String>())
        .collect();
    assert_eq!(lines[0], " Summary");
    assert_eq!(lines[1], "  Status:      Complete");
    assert_eq!(lines[2], "  Scan root:   /r");
    assert_eq!(lines[3], "  Total size:  1.5 KB");
    assert_eq!(lines[4], "  Files:       3");
    assert_eq!(lines[6], "  Deepest:     /r/docs (depth 1)");
    assert_eq!(lines[8], " Biggest Files");
    assert_eq!(lines[9], "     1.0 KB  x.bin");
    assert_eq!(lines.len(), 12);
    app.overview_scroll = 8;
    let screen = draw_ui(&app, screen_parts(AREA), AREA, 0, &shares(3), &vec![]).unwrap();
    assert_eq!(screen.body.lines[0].spans[0].text, " Biggest Files");
}

#[test]
fn dialogs_are_drawn() {
    assert!(draw_dialog(&Dialog::Closed, AREA).is_none());
    let confirm = Dialog::ConfirmDelete {
        name: "x".to_string(),
        path: path("/r/x"),
        is_dir: true,
        size: 2048,
    };
    let panel = draw_dialog(&confirm, AREA).unwrap();
    assert_eq!(panel.area, Area { x: 15, y: 5, width: 30, height: 10 });
    assert_eq!(panel.title, Some(" Confirm Delete ".to_string()));
    assert_eq!(panel.lines[1].spans[0].text, "  Delete directory: x");
    assert_eq!(panel.lines[2].spans[0].text, "  Size: 2.0 KB");
    assert_eq!(panel.lines.len(), 8);
    let result = Dialog::DeleteResult { message: "no".to_string(), success: false };
    let panel = draw_dialog(&result, AREA).unwrap();
    assert_eq!(panel.area.height, 7);
    assert_eq!(panel.lines[1].spans[0].text, "  no");
    assert_eq!(panel.style.fg, Some(Color::Red));
    let picker = Dialog::DrivePicker {
        mounts: vec![
            MountPoint { path: path("/"), label: "/".to_string() },
            MountPoint { path: path("/home"), label: "/home".to_string() },
        ],
        selected: 1,
    };
    let panel = draw_dialog(&picker, AREA).unwrap();
    assert_eq!(panel.area, Area { x: 18, y: 6, width: 24, height: 8 });
    assert_eq!(panel.lines[1].spans[0].text, "  /");
    assert_eq!(panel.lines[2].spans[0].text, "> /home");
    let small = Area { x: 0, y: 0, width: 60, height: 7 };
    assert_eq!(draw_dialog(&picker, small).unwrap().area.height, 3);
    let wide = Area { x: 0, y: 0, width: 2000, height: 7 };
    assert!(draw_dialog(&confirm, wide).is_none());
}

#[test]
fn texts_are_aligned_and_cut() {
    assert_eq!(align_left("ab", 4), "ab  ");
    assert_eq!(align_right("ab", 4), "  ab");
    assert_eq!(align_right("abcdef", 4), "abcdef");
    assert_eq!(align_left("\u{e9}", 2), "\u{e9} ");
    assert_eq!(shorten("abcdef", 5), "ab...");
    assert_eq!(shorten("abcde", 5), "abcde");
    assert_eq!(end_of("/home/me", 5), "...me/me");
    assert_eq!(end_of("/a", 5), "/a");
    assert_eq!(bar(2, 4), "\u{2588}\u{2588}\u{2591}\u{2591}");
    assert_eq!(bar(5, 4), "\u{2588}\u{2588}\u{2588}\u{2588}\u{2588}");
}

#[test]
fn styles_and_colours() {
    assert_eq!(
        rdirstat::theme::heading(),
        Style { fg: Some(Color::Indexed(141)), bg: None, bold: true }
    );
    assert_eq!(
        rdirstat::theme::selection_scanning(),
        Style { fg: Some(Color::Black), bg: Some(Color::Indexed(215)), bold: true }
    );
    assert_eq!(rdirstat::theme::selection().fg, None);
    assert_eq!(rdirstat::theme::muted().fg, Some(Color::Gray));
    assert_eq!(rdirstat::theme::file().fg, Some(Color::Reset));
    let dir = rdirstat::theme::color_of(rdirstat::theme::Role::Dir);
    assert_eq!((dir.r, dir.g, dir.b), (0x7a, 0xa2, 0xf7));
    let roles = rdirstat::theme::widget_roles(rdirstat::theme::WidgetState::Active);
    assert_eq!(roles.fill, rdirstat::theme::Role::Selection);
    assert_eq!(roles.border, rdirstat::theme::Role::Dir);
}

#[test]
fn paths_are_shown_as_they_are_spelled() {
    use_path("/a//b/", "/a//b/", "b");
    use_path("/", "/", "/");
    use_path("//", "//", "//");
    use_path("/a/..", "/a/..", "/a/..");
    use_path("./a", "./a", "a");
}

fn use_path(given: &str, shown: &str, name: &str) {
    assert_eq!(rdirstat::screen::show_path(&path(given)), shown);
    assert_eq!(rdirstat::screen::show_name(&path(given)), name);
}
