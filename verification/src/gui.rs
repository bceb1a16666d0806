//! The window frontend: what keys and clicks ask for, and what is shown.
use vstd::prelude::*;
use vstd::string::StringExecFns;

use crate::app::AppState;
use crate::browse::Action;
use crate::browse::Browser;
use crate::browse::BrowserView;
use crate::browse::Command;
use crate::browse::Dialog;
use crate::browse::DialogView;
use crate::path::FsPath;
use crate::path::SpelledView;
use crate::scan::ExtensionStat;
use crate::scan::ExtensionView;
use crate::screen::show_name;
use crate::screen::show_path;
use crate::snapshot::EntrySnapshot;
use crate::snapshot::RowView;
use crate::snapshot::UiSnapshot;
use crate::text::decimal;
use crate::theme::Role;
use crate::top::SizedEntry;
use crate::top::SizedView;
use crate::util::format_size;

verus! {

/// How many rows a page of the window has.
pub const PAGE_ROWS: usize = 20;

/// Which keys were pressed since the last frame, and whether any was.
#[derive(Clone, Copy, Debug, PartialEq, Eq)]
pub struct Pressed {
    pub any: bool,
    pub down: bool,
    pub up: bool,
    pub left: bool,
    pub right: bool,
    pub page_down: bool,
    pub page_up: bool,
    pub home: bool,
    pub end: bool,
    pub enter: bool,
    pub escape: bool,
    pub backspace: bool,
    pub delete: bool,
    pub d: bool,
    pub g: bool,
    pub h: bool,
    pub j: bool,
    pub k: bool,
    pub l: bool,
    pub n: bool,
    pub q: bool,
    pub r: bool,
    pub s: bool,
    pub y: bool,
}

/// What pressed keys ask for when a deletion is to be confirmed.
pub open spec fn confirm_command(keys: Pressed) -> Command {
    if keys.y {
        Command::ConfirmYes
    } else if keys.n || keys.escape {
        Command::Cancel
    } else {
        Command::Nothing
    }
}

/// What pressed keys ask for in the drive picker.
pub open spec fn picker_command(keys: Pressed) -> Command {
    if keys.down || keys.j {
        Command::PickDown
    } else if keys.up || keys.k {
        Command::PickUp
    } else if keys.enter {
        Command::PickSelect
    } else if keys.escape || keys.g {
        Command::Cancel
    } else {
        Command::Nothing
    }
}

/// What pressed keys ask for without a dialog. Of several keys at once one
/// counts, in this order.
pub open spec fn main_command(keys: Pressed) -> Command {
    if keys.q || keys.escape {
        Command::Quit
    } else if keys.down || keys.j {
        Command::MoveDown
    } else if keys.up || keys.k {
        Command::MoveUp
    } else if keys.page_down {
        Command::PageDown
    } else if keys.page_up {
        Command::PageUp
    } else if keys.home {
        Command::Home
    } else if keys.end {
        Command::End
    } else if keys.enter || keys.right || keys.l {
        Command::Enter
    } else if keys.backspace || keys.left || keys.h {
        Command::Back
    } else if keys.s {
        Command::ToggleSort
    } else if keys.r {
        Command::Scan
    } else if keys.d || keys.delete {
        Command::Delete
    } else if keys.g {
        Command::Drives
    } else {
        Command::Nothing
    }
}

/// What pressed keys ask for.
pub open spec fn keys_command(dialog: DialogView, keys: Pressed) -> Command {
    match dialog {
        DialogView::ConfirmDelete { .. } => confirm_command(keys),
        DialogView::DeleteResult { .. } => if keys.any {
            Command::Cancel
        } else {
            Command::Nothing
        },
        DialogView::DrivePicker { .. } => picker_command(keys),
        DialogView::Closed => main_command(keys),
    }
}

fn main_keys(keys: &Pressed) -> (r: Command)
    ensures
        r == main_command(*keys),
{
    if keys.q || keys.escape {
        Command::Quit
    } else if keys.down || keys.j {
        Command::MoveDown
    } else if keys.up || keys.k {
        Command::MoveUp
    } else if keys.page_down {
        Command::PageDown
    } else if keys.page_up {
        Command::PageUp
    } else if keys.home {
        Command::Home
    } else if keys.end {
        Command::End
    } else if keys.enter || keys.right || keys.l {
        Command::Enter
    } else if keys.backspace || keys.left || keys.h {
        Command::Back
    } else if keys.s {
        Command::ToggleSort
    } else if keys.r {
        Command::Scan
    } else if keys.d || keys.delete {
        Command::Delete
    } else if keys.g {
        Command::Drives
    } else {
        Command::Nothing
    }
}

/// Computes [`keys_command`].
pub fn command_for(dialog: &Dialog, keys: &Pressed) -> (r: Command)
    ensures
        r == keys_command(dialog@, *keys),
{
    match dialog {
        Dialog::ConfirmDelete { .. } => {
            if keys.y {
                Command::ConfirmYes
            } else if keys.n || keys.escape {
                Command::Cancel
            } else {
                Command::Nothing
            }
        },
        Dialog::DeleteResult { .. } => {
            if keys.any {
                Command::Cancel
            } else {
                Command::Nothing
            }
        },
        Dialog::DrivePicker { .. } => {
            if keys.down || keys.j {
                Command::PickDown
            } else if keys.up || keys.k {
                Command::PickUp
            } else if keys.enter {
                Command::PickSelect
            } else if keys.escape || keys.g {
                Command::Cancel
            } else {
                Command::Nothing
            }
        },
        Dialog::Closed => main_keys(keys),
    }
}

/// What the window frontend holds.
pub struct GuiApp {
    pub browser: Browser,
}

impl View for GuiApp {
    type V = BrowserView;

    open spec fn view(&self) -> BrowserView {
        self.browser@
    }
}

/// The state with the scan asked to stop.
pub open spec fn stopped(browser: BrowserView) -> BrowserView {
    BrowserView { app: browser.app.stopped(), ..browser }
}

impl GuiApp {
    /// A window frontend of a controller.
    pub fn new(state: AppState) -> (r: GuiApp)
        ensures
            r@ == BrowserView::fresh(state@),
    {
        GuiApp { browser: Browser::new(state) }
    }

    /// Begins a frame with the latest snapshot, if there is a new one.
    pub fn poll_snapshot(&mut self, latest: Option<UiSnapshot>)
        ensures
            final(self)@ == (match latest {
                Some(snapshot) => BrowserView { snapshot: snapshot@, ..old(self)@ },
                None => old(self)@,
            }).clamped(),
    {
        self.browser.take_snapshot(latest);
    }

    /// Whether [`GuiApp::on_keys`] overflows no index and has a drive where it
    /// needs one.
    pub fn keys_fit(&self, keys: &Pressed) -> (r: bool)
        ensures
            r == self@.command_fits(keys_command(self@.dialog, *keys), PAGE_ROWS as int),
    {
        self.browser.command_has_room(command_for(&self.browser.dialog, keys), PAGE_ROWS)
    }

    /// Does what pressed keys ask for; the answer is what is to be done
    /// outside. Leaving asks the scan to stop.
    pub fn on_keys(&mut self, keys: &Pressed, now: std::time::Instant) -> (r: Action)
        requires
            old(self)@.dialog.valid(),
            old(self)@.command_fits(keys_command(old(self)@.dialog, *keys), PAGE_ROWS as int),
        ensures
            ({
                let command = keys_command(old(self)@.dialog, *keys);
                if command == Command::Quit {
                    final(self)@ == stopped(old(self)@) && r@ is Quit
                } else {
                    old(self)@.obeys(command, PAGE_ROWS as int, now, final(self)@, r@)
                }
            }),
            final(self)@.dialog.valid(),
    {
        let command = command_for(&self.browser.dialog, keys);
        match command {
            Command::Quit => {
                self.browser.state.stop_scan();
                Action::Quit
            },
            _ => self.browser.perform(command, PAGE_ROWS, now),
        }
    }

    /// Selects a row that was clicked.
    pub fn on_click(&mut self, row: usize)
        ensures
            final(self)@ == (BrowserView { selected: row, ..old(self)@ }),
    {
        self.browser.selected = row;
    }

    /// Selects and enters a row that was clicked twice; the answer is the
    /// directory to be opened.
    pub fn on_double_click(&mut self, row: usize) -> (r: Option<FsPath>)
        ensures
            ({
                let (after, target) = (BrowserView { selected: row, ..old(self)@ }).entering();
                &&& final(self)@ == after
                &&& match r {
                    Some(dir) => target == Some(dir.named()),
                    None => target is None,
                }
            }),
    {
        self.browser.selected = row;
        self.browser.enter_selected()
    }

    /// Picks the drive that was clicked, if the drive picker is open and has
    /// it; the answer is the drive to be scanned.
    pub fn on_drive_click(&mut self, place: usize) -> (r: Option<FsPath>)
        ensures
            match old(self)@.dialog {
                DialogView::DrivePicker { mounts, .. } if place < mounts.len() => {
                    &&& final(self)@ == (BrowserView {
                        dialog: DialogView::Closed,
                        ..old(self)@.at_start()
                    })
                    &&& r is Some
                    &&& r->0.named() == mounts[place as int].path
                },
                _ => final(self)@ == old(self)@ && r is None,
            },
    {
        let picked: Option<FsPath> = match &self.browser.dialog {
            Dialog::DrivePicker { mounts, .. } => {
                if place < mounts.len() {
                    Some(mounts[place].path.clone())
                } else {
                    None
                }
            },
            _ => None,
        };
        if picked.is_some() {
            let ghost before = self@;
            self.browser.history = Vec::new();
            self.browser.selected = 0;
            self.browser.scroll = 0;
            self.browser.dialog = Dialog::Closed;
            assert(self@ =~= (BrowserView { dialog: DialogView::Closed, ..before.at_start() }));
        }
        picked
    }
}

/// A part of the way to the current directory.
#[verifier::ext_equal]
pub struct CrumbView {
    pub label: Seq<char>,
    pub path: SpelledView,
    pub here: bool,
}

/// A part of the way to the current directory.
#[derive(Debug)]
pub struct Crumb {
    pub label: String,
    pub path: FsPath,
    pub here: bool,
}

impl View for Crumb {
    type V = CrumbView;

    open spec fn view(&self) -> CrumbView {
        CrumbView { label: self.label@, path: self.path.named(), here: self.here }
    }
}

/// The views of some crumbs.
pub open spec fn crumb_views(crumbs: Seq<Crumb>) -> Seq<CrumbView> {
    Seq::new(crumbs.len(), |i: int| crumbs[i]@)
}

/// The way to a directory: the topmost with its whole path, the others with
/// their names.
pub open spec fn crumbs_of(dir: SpelledView) -> Seq<CrumbView> {
    let trail = crate::path::trail_of(dir);
    Seq::new(
        trail.len(),
        |i: int|
            CrumbView {
                label: if i == 0 {
                    crate::screen::path_text(trail[i])
                } else {
                    crate::screen::name_text(trail[i])
                },
                path: trail[i],
                here: trail[i].at == dir.at,
            },
    )
}

/// Computes [`crumbs_of`].
pub fn breadcrumbs(dir: &FsPath) -> (r: Vec<Crumb>)
    ensures
        crumb_views(r@) == crumbs_of(dir.named()),
{
    let trail = dir.trail();
    let ghost views = crate::path::trail_of(dir.named());
    let ghost all = crumbs_of(dir.named());
    let mut out: Vec<Crumb> = Vec::new();
    let mut i: usize = 0;
    assert(crumb_views(out@) =~= all.take(0));
    while i < trail.len()
        invariant
            i <= trail@.len(),
            views == crate::path::trail_of(dir.named()),
            views == crate::path::named_views(trail@),
            all == crumbs_of(dir.named()),
            crumb_views(out@) == all.take(i as int),
        decreases trail@.len() - i,
    {
        assert(views[i as int] == trail@[i as int].named());
        let label = if i == 0 {
            show_path(&trail[i])
        } else {
            show_name(&trail[i])
        };
        let crumb = Crumb { label, path: trail[i].clone(), here: trail[i].same(dir) };
        assert(crumb@ =~= all[i as int]);
        let ghost before = out@;
        out.push(crumb);
        assert(crumb_views(out@) =~= crumb_views(before).push(crumb@));
        assert(all.take(i + 1) =~= all.take(i as int).push(all[i as int]));
        i += 1;
    }
    assert(all.take(all.len() as int) =~= all);
    out
}

/// What the header says of the listing and of a running scan.
#[derive(Debug)]
pub struct Header {
    pub items: String,
    pub total: String,
    pub scan: Option<String>,
}

/// The texts of the header, with the rate of the scan in files per minute.
pub fn header(snapshot: &UiSnapshot, rate: u64) -> (r: Header)
    ensures
        r.items@ == crate::text::decimal_text(snapshot@.entries.len()) + " items"@,
        r.total@ == crate::util::size_text(snapshot@.total_entry_size as nat) + " total"@,
        match r.scan {
            Some(text) => snapshot@.scanning && text@ == crate::text::decimal_text(
                snapshot@.files_scanned as nat,
            ) + " files scanned ("@ + crate::text::decimal_text(rate as nat) + "/min)"@,
            None => !snapshot@.scanning,
        },
{
    Header {
        items: decimal(snapshot.entries.len() as u64).concat(" items"),
        total: format_size(snapshot.total_entry_size).concat(" total"),
        scan: if snapshot.scanning {
            Some(
                decimal(snapshot.files_scanned).concat(" files scanned (").concat(
                    decimal(rate).as_str(),
                ).concat("/min)"),
            )
        } else {
            None
        },
    }
}

/// The label of the button that switches the order of rows.
pub fn sort_label(by_size: bool) -> (r: String)
    ensures
        r@ == if by_size {
            "Sort: Size (s)"@
        } else {
            "Sort: Name (s)"@
        },
{
    if by_size {
        String::from_str("Sort: Size (s)")
    } else {
        String::from_str("Sort: Name (s)")
    }
}

/// The label of the button that begins or stops a scan.
pub fn scan_label(scanning: bool) -> (r: String)
    ensures
        r@ == if scanning {
            "Stop (r)"@
        } else {
            "Scan (r)"@
        },
{
    if scanning {
        String::from_str("Stop (r)")
    } else {
        String::from_str("Scan (r)")
    }
}

/// The colour of a row's bar.
pub open spec fn bar_role(row: RowView) -> Role {
    if row.scanning {
        Role::Scan
    } else if row.is_dir {
        Role::Dir
    } else {
        Role::File
    }
}

/// The colour of a row's text.
pub open spec fn text_role(row: RowView) -> Role {
    if row.is_parent {
        Role::Muted
    } else {
        bar_role(row)
    }
}

/// A row of the listing: the row that leads to the parent has neither size nor
/// bar.
#[derive(Debug)]
pub struct GuiRow {
    pub label: String,
    pub text: Role,
    pub bar: Role,
    pub size: Option<String>,
    pub spins: bool,
}

/// Computes a row of the listing.
pub fn gui_row(row: &EntrySnapshot) -> (r: GuiRow)
    ensures
        r.label@ == if row@.is_parent {
            ".."@
        } else if row@.is_dir {
            "/"@ + row@.name
        } else {
            " "@ + row@.name
        },
        r.text == text_role(row@),
        r.bar == bar_role(row@),
        match r.size {
            Some(size) => !row@.is_parent && size@ == crate::util::size_text(row@.size as nat),
            None => row@.is_parent,
        },
        r.spins == row@.scanning,
{
    let bar = if row.scanning {
        Role::Scan
    } else if row.is_dir {
        Role::Dir
    } else {
        Role::File
    };
    let label = if row.is_parent {
        String::from_str("..")
    } else if row.is_dir {
        String::from_str("/").concat(row.name.as_str())
    } else {
        String::from_str(" ").concat(row.name.as_str())
    };
    GuiRow {
        label,
        text: if row.is_parent {
            Role::Muted
        } else {
            bar
        },
        bar,
        size: if row.is_parent {
            None
        } else {
            Some(format_size(row.size))
        },
        spins: row.scanning,
    }
}

/// One of the largest files or directories: its size, its name, and its whole
/// path for a closer look.
#[verifier::ext_equal]
pub struct LargeView {
    pub size: Seq<char>,
    pub name: Seq<char>,
    pub path: Seq<char>,
}

/// One of the largest files or directories.
#[derive(Debug)]
pub struct Large {
    pub size: String,
    pub name: String,
    pub path: String,
}

impl View for Large {
    type V = LargeView;

    open spec fn view(&self) -> LargeView {
        LargeView { size: self.size@, name: self.name@, path: self.path@ }
    }
}

/// The texts of one of the largest.
pub open spec fn large_of(item: SizedView) -> LargeView {
    LargeView {
        size: crate::util::size_text(item.size as nat),
        name: crate::screen::name_text(item.path),
        path: crate::screen::path_text(item.path),
    }
}

fn large_list(items: &Vec<SizedEntry>) -> (r: Vec<Large>)
    ensures
        r@.len() == items@.len(),
        forall|i: int| 0 <= i < items@.len() ==> (#[trigger] r@[i])@ == large_of(items@[i]@),
{
    let mut out: Vec<Large> = Vec::new();
    let mut i: usize = 0;
    while i < items.len()
        invariant
            i <= items@.len(),
            out@.len() == i,
            forall|k: int| 0 <= k < i ==> (#[trigger] out@[k])@ == large_of(items@[k]@),
        decreases items@.len() - i,
    {
        out.push(
            Large {
                size: format_size(items[i].size),
                name: show_name(&items[i].path),
                path: show_path(&items[i].path),
            },
        );
        i += 1;
    }
    out
}

/// An extension: its name with a dot, its number of files and their size.
#[verifier::ext_equal]
pub struct ExtRowView {
    pub label: Seq<char>,
    pub count: Seq<char>,
    pub size: Seq<char>,
}

/// An extension.
#[derive(Debug)]
pub struct ExtRow {
    pub label: String,
    pub count: String,
    pub size: String,
}

impl View for ExtRow {
    type V = ExtRowView;

    open spec fn view(&self) -> ExtRowView {
        ExtRowView { label: self.label@, count: self.count@, size: self.size@ }
    }
}

/// The texts of an extension.
pub open spec fn ext_row_of(stat: ExtensionView) -> ExtRowView {
    ExtRowView {
        label: "."@ + stat.extension,
        count: crate::text::decimal_text(stat.count as nat),
        size: crate::util::size_text(stat.total_size as nat),
    }
}

fn ext_list(stats: &Vec<ExtensionStat>) -> (r: Vec<ExtRow>)
    ensures
        r@.len() == stats@.len(),
        forall|i: int| 0 <= i < stats@.len() ==> (#[trigger] r@[i])@ == ext_row_of(stats@[i]@),
{
    let mut out: Vec<ExtRow> = Vec::new();
    let mut i: usize = 0;
    while i < stats.len()
        invariant
            i <= stats@.len(),
            out@.len() == i,
            forall|k: int| 0 <= k < i ==> (#[trigger] out@[k])@ == ext_row_of(stats@[k]@),
        decreases stats@.len() - i,
    {
        out.push(
            ExtRow {
                label: String::from_str(".").concat(stats[i].extension.as_str()),
                count: decimal(stats[i].count),
                size: format_size(stats[i].total_size),
            },
        );
        i += 1;
    }
    out
}

/// The texts of the overview.
#[derive(Debug)]
pub struct Overview {
    pub status: String,
    pub scan_root: String,
    pub total_size: String,
    pub files: String,
    pub directories: String,
    pub deepest: Option<String>,
    pub top_files: Vec<Large>,
    pub top_dirs: Vec<Large>,
    pub extensions: Vec<ExtRow>,
}

/// The texts of the overview, once a scan was begun.
pub fn overview(app: &GuiApp) -> (r: Option<Overview>)
    ensures
        r is Some <==> app@.app.scan.scan_start is Some,
        match r {
            Some(texts) => {
                let snapshot = app@.snapshot;
                &&& texts.status@ == if snapshot.scanning {
                    "Scanning..."@
                } else {
                    "Complete"@
                }
                &&& texts.scan_root@ == crate::screen::path_text(app@.app.scan_root)
                &&& texts.total_size@ == crate::util::size_text(snapshot.total_bytes as nat)
                &&& texts.files@ == crate::text::decimal_text(snapshot.files_scanned as nat)
                &&& texts.directories@ == crate::text::decimal_text(snapshot.dirs_scanned as nat)
                &&& match texts.deepest {
                    Some(text) => snapshot.deepest.1 > 0 && text@ == crate::screen::path_text(
                        snapshot.deepest.0,
                    ) + " (depth "@ + crate::text::decimal_text(snapshot.deepest.1 as nat) + ")"@,
                    None => snapshot.deepest.1 == 0,
                }
                &&& texts.top_files@.len() == snapshot.top_files.len()
                &&& forall|i: int|
                    0 <= i < snapshot.top_files.len() ==> (#[trigger] texts.top_files@[i])@
                        == large_of(snapshot.top_files[i])
                &&& texts.top_dirs@.len() == snapshot.top_dirs.len()
                &&& forall|i: int|
                    0 <= i < snapshot.top_dirs.len() ==> (#[trigger] texts.top_dirs@[i])@
                        == large_of(snapshot.top_dirs[i])
                &&& texts.extensions@.len() == snapshot.top_exts.len()
                &&& forall|i: int|
                    0 <= i < snapshot.top_exts.len() ==> (#[trigger] texts.extensions@[i])@
                        == ext_row_of(snapshot.top_exts[i])
            },
            None => true,
        },
{
    if !app.browser.state.has_scanned() {
        return None;
    }
    let snapshot = &app.browser.snapshot;
    Some(
        Overview {
            status: if snapshot.scanning {
                String::from_str("Scanning...")
            } else {
                String::from_str("Complete")
            },
            scan_root: show_path(&app.browser.state.scan_root),
            total_size: format_size(snapshot.total_bytes),
            files: decimal(snapshot.files_scanned),
            directories: decimal(snapshot.dirs_scanned),
            deepest: if snapshot.deepest.1 > 0 {
                Some(
                    show_path(&snapshot.deepest.0).concat(" (depth ").concat(
                        decimal(snapshot.deepest.1 as u64).as_str(),
                    ).concat(")"),
                )
            } else {
                None
            },
            top_files: large_list(&snapshot.top_files),
            top_dirs: large_list(&snapshot.top_dirs),
            extensions: ext_list(&snapshot.top_exts),
        },
    )
}

/// The texts of the question whether to delete.
pub fn confirm_texts(name: &String, is_dir: bool, size: u64) -> (r: (String, String))
    ensures
        r.0@ == "Delete "@ + (if is_dir {
            "directory"@
        } else {
            "file"@
        }) + ": "@ + name@,
        r.1@ == "Size: "@ + crate::util::size_text(size as nat),
{
    let kind = if is_dir {
        "directory"
    } else {
        "file"
    };
    (
        String::from_str("Delete ").concat(kind).concat(": ").concat(name.as_str()),
        String::from_str("Size: ").concat(format_size(size).as_str()),
    )
}

} // verus!
