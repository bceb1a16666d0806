//! The plain terminal program: it shows sizes straight from the scan, scans
//! the directories below the root one by one, and counts files by length.
use vstd::prelude::*;
use vstd::string::StringExecFns;

use crate::app::AppState;
use crate::app::AppView;
use crate::browse::find_drive;
use crate::browse::pick_drive;
use crate::browse::BrowserView;
use crate::browse::Command;
use crate::browse::Dialog;
use crate::browse::DialogView;
use crate::model::DirEntry;
use crate::model::EntryView;
use crate::mounts::MountPoint;
use crate::path::FsPath;
use crate::path::PathView;
use crate::path::SpelledView;
use crate::scan::ScanState;
use crate::scan::ScanView;
use crate::screen::draw_dialog;
use crate::screen::draw_file_list;
use crate::screen::names_have_room;
use crate::screen::show_path;
use crate::screen::Area;
use crate::screen::Panel;
use crate::screen::PanelView;
use crate::screen::Parts;
use crate::screen::Place;
use crate::screen::Screen;
use crate::screen::Share;
use crate::snapshot::EntrySnapshot;
use crate::style::colored;
use crate::style::line_of;
use crate::style::plain;
use crate::style::push_line;
use crate::style::Color;
use crate::style::Line;
use crate::text::decimal;
use crate::text::lossy;
use crate::tui::Key;
use crate::util::format_size;

verus! {

/// What is read of an entry of a directory: nothing where even its type could
/// not be read; for what is no directory, its length if that could be read.
#[derive(Clone, Copy, Debug)]
pub enum PlainKind {
    Unknown,
    Dir,
    File { len: Option<u64> },
    Link { len: Option<u64> },
}

/// An entry of a directory as it was read.
#[derive(Debug)]
pub struct PlainEntry {
    pub path: FsPath,
    pub name: Vec<u8>,
    pub kind: PlainKind,
}

/// An entry of a directory as it was read.
#[verifier::ext_equal]
pub struct PlainView {
    pub path: SpelledView,
    pub name: Seq<u8>,
    pub kind: PlainKind,
}

impl View for PlainEntry {
    type V = PlainView;

    open spec fn view(&self) -> PlainView {
        PlainView { path: self.path.named(), name: self.name@, kind: self.kind }
    }
}

/// The views of some entries.
pub open spec fn plain_views(list: Seq<PlainEntry>) -> Seq<PlainView> {
    Seq::new(list.len(), |i: int| list[i]@)
}

/// The view of a listing, if the directory could be read.
pub open spec fn plain_listing(listing: Option<Vec<PlainEntry>>) -> Option<Seq<PlainView>> {
    match listing {
        Some(list) => Some(plain_views(list@)),
        None => None,
    }
}

/// The length of an entry, 0 for a directory and where it could not be read.
pub open spec fn plain_len(kind: PlainKind) -> u64 {
    match kind {
        PlainKind::File { len: Some(len) } => len,
        PlainKind::Link { len: Some(len) } => len,
        _ => 0,
    }
}

/// The row of an entry.
pub open spec fn plain_row(entry: PlainView) -> EntryView {
    EntryView {
        name: crate::text::lossy_text(entry.name),
        path: crate::util::without_unc_prefix(entry.path),
        is_dir: entry.kind is Dir,
        file_size: plain_len(entry.kind),
        is_parent: false,
    }
}

/// The rows of a listing, in its order, without what could not be read.
pub open spec fn plain_rows(list: Seq<PlainView>) -> Seq<EntryView>
    decreases list.len(),
{
    if list.len() == 0 {
        Seq::empty()
    } else if list.last().kind is Unknown {
        plain_rows(list.drop_last())
    } else {
        plain_rows(list.drop_last()).push(plain_row(list.last()))
    }
}

/// Whether `after` is the state with the rows of a listing, in order; without
/// rows where the directory could not be read.
pub open spec fn plainly_loads(
    app: AppView,
    listing: Option<Seq<PlainView>>,
    after: AppView,
) -> bool {
    match listing {
        None => after == (AppView {
            entries: Seq::empty(),
            entry_source: Seq::empty(),
            ..app
        }),
        Some(list) => (AppView { entries: plain_rows(list), ..app }).sorts_to(after),
    }
}

/// Whether `after` is the state after going up.
pub open spec fn plainly_rises(
    app: AppView,
    listing: Option<Seq<PlainView>>,
    after: AppView,
) -> bool {
    match app.rising() {
        None => after == app,
        Some(above) => if app.history.len() > 0 {
            plainly_loads(above, listing, after)
        } else {
            &&& plainly_loads(above, listing, AppView { selected: 0, ..after })
            &&& after.selected == match crate::app::row_at(after.entries, app.current_dir.at) {
                Some(i) => i,
                None => 0,
            }
        },
    }
}

/// The program's state.
#[verifier::ext_equal]
pub struct ClassicView {
    pub app: AppView,
    pub dialog: DialogView,
}

/// The program's state.
pub struct App {
    pub state: AppState,
    pub dialog: Dialog,
}

impl View for App {
    type V = ClassicView;

    open spec fn view(&self) -> ClassicView {
        ClassicView { app: self.state@, dialog: self.dialog@ }
    }
}

fn read_plain_rows(list: &Vec<PlainEntry>) -> (r: Vec<DirEntry>)
    ensures
        crate::model::entry_views(r@) == plain_rows(plain_views(list@)),
{
    let ghost views = plain_views(list@);
    let mut rows: Vec<DirEntry> = Vec::new();
    let mut i: usize = 0;
    assert(crate::model::entry_views(rows@) =~= plain_rows(views.take(0)));
    while i < list.len()
        invariant
            i <= list@.len(),
            views == plain_views(list@),
            crate::model::entry_views(rows@) == plain_rows(views.take(i as int)),
        decreases list@.len() - i,
    {
        let entry = &list[i];
        assert(views.take(i + 1).drop_last() =~= views.take(i as int));
        assert(views.take(i + 1).last() == entry@);
        let (known, is_dir, len): (bool, bool, u64) = match entry.kind {
            PlainKind::Unknown => (false, false, 0),
            PlainKind::Dir => (true, true, 0),
            PlainKind::File { len } => match len {
                Some(n) => (true, false, n),
                None => (true, false, 0),
            },
            PlainKind::Link { len } => match len {
                Some(n) => (true, false, n),
                None => (true, false, 0),
            },
        };
        if known {
            let row = DirEntry {
                name: lossy(&entry.name),
                path: crate::util::strip_unc_prefix(entry.path.clone()),
                is_dir,
                file_size: len,
                is_parent: false,
            };
            assert(row@ =~= plain_row(entry@));
            let ghost before = rows@;
            rows.push(row);
            assert(crate::model::entry_views(rows@) =~= crate::model::entry_views(before).push(
                row@,
            ));
        }
        i += 1;
    }
    assert(views.take(views.len() as int) =~= views);
    rows
}

/// The state with a scan begun.
pub open spec fn begun(app: AppView) -> AppView {
    AppView { scan: ScanView { cancel: false, scanning: true, ..app.scan }, ..app }
}

/// The state with all that was found forgotten and `root` to be scanned.
pub open spec fn cleared(app: AppView, root: SpelledView) -> AppView {
    AppView {
        scan: ScanView {
            dir_sizes: Map::empty(),
            size_names: Map::empty(),
            completed: Set::empty(),
            files_scanned: 0,
            ..app.scan
        },
        scan_root: root,
        ..app
    }
}

/// Begins a scan.
pub fn start_scan(scan: &mut ScanState)
    ensures
        final(scan)@ == (ScanView { cancel: false, scanning: true, ..old(scan)@ }),
{
    scan.cancel = false;
    scan.scanning = true;
}

/// The directories below a root, each to be scanned.
pub open spec fn child_dirs(list: Seq<PlainView>) -> Seq<SpelledView>
    decreases list.len(),
{
    if list.len() == 0 {
        Seq::empty()
    } else if list.last().kind is Dir {
        child_dirs(list.drop_last()).push(
            crate::util::without_unc_prefix(list.last().path),
        )
    } else {
        child_dirs(list.drop_last())
    }
}

/// The sum of the lengths of the files right below a root.
pub open spec fn child_files(list: Seq<PlainView>) -> nat
    decreases list.len(),
{
    if list.len() == 0 {
        0
    } else {
        child_files(list.drop_last()) + if list.last().kind is File {
            plain_len(list.last().kind) as nat
        } else {
            0
        }
    }
}

/// Computes [`child_dirs`].
pub fn top_dirs(list: &Vec<PlainEntry>) -> (r: Vec<FsPath>)
    ensures
        crate::path::named_views(r@) == child_dirs(plain_views(list@)),
{
    let ghost views = plain_views(list@);
    let mut dirs: Vec<FsPath> = Vec::new();
    let mut i: usize = 0;
    assert(crate::path::named_views(dirs@) =~= child_dirs(views.take(0)));
    while i < list.len()
        invariant
            i <= list@.len(),
            views == plain_views(list@),
            crate::path::named_views(dirs@) == child_dirs(views.take(i as int)),
        decreases list@.len() - i,
    {
        let entry = &list[i];
        assert(views.take(i + 1).drop_last() =~= views.take(i as int));
        assert(views.take(i + 1).last() == entry@);
        match entry.kind {
            PlainKind::Dir => {
                let ghost before = dirs@;
                let dir = crate::util::strip_unc_prefix(entry.path.clone());
                dirs.push(dir);
                assert(crate::path::named_views(dirs@) =~= crate::path::named_views(before).push(
                    crate::util::without_unc_prefix(entry.path.named()),
                ));
            },
            _ => {},
        }
        i += 1;
    }
    assert(views.take(views.len() as int) =~= views);
    dirs
}

/// The sum of the lengths of the files right below a root, unless it is too
/// large.
pub fn top_files_size(list: &Vec<PlainEntry>) -> (r: Option<u64>)
    ensures
        match r {
            Some(size) => size == child_files(plain_views(list@)),
            None => child_files(plain_views(list@)) > u64::MAX,
        },
{
    let ghost views = plain_views(list@);
    let mut size: u64 = 0;
    let mut i: usize = 0;
    while i < list.len()
        invariant
            i <= list@.len(),
            views == plain_views(list@),
            size == child_files(views.take(i as int)),
        decreases list@.len() - i,
    {
        let entry = &list[i];
        assert(views.take(i + 1).drop_last() =~= views.take(i as int));
        assert(views.take(i + 1).last() == entry@);
        let len: u64 = match entry.kind {
            PlainKind::File { len } => match len {
                Some(n) => n,
                None => 0,
            },
            _ => 0,
        };
        if size > u64::MAX - len {
            proof {
                lemma_child_files_grow(views, i + 1);
            }
            return None;
        }
        size += len;
        i += 1;
    }
    assert(views.take(views.len() as int) =~= views);
    Some(size)
}

proof fn lemma_child_files_grow(list: Seq<PlainView>, n: int)
    requires
        0 <= n <= list.len(),
    ensures
        child_files(list.take(n)) <= child_files(list),
    decreases list.len(),
{
    if n == list.len() {
        assert(list.take(n) =~= list);
    } else {
        lemma_child_files_grow(list.drop_last(), n);
        assert(list.drop_last().take(n) =~= list.take(n));
    }
}

/// The sum of the sizes of some directories.
pub open spec fn sizes_of(dirs: Seq<PathView>, sizes: Map<PathView, u64>) -> nat
    decreases dirs.len(),
{
    if dirs.len() == 0 {
        0
    } else {
        sizes_of(dirs.drop_last(), sizes) + crate::scan::size_in(sizes, dirs.last()) as nat
    }
}

proof fn lemma_sizes_grow(dirs: Seq<PathView>, sizes: Map<PathView, u64>, n: int)
    requires
        0 <= n <= dirs.len(),
    ensures
        sizes_of(dirs.take(n), sizes) <= sizes_of(dirs, sizes),
    decreases dirs.len(),
{
    if n == dirs.len() {
        assert(dirs.take(n) =~= dirs);
    } else {
        lemma_sizes_grow(dirs.drop_last(), sizes, n);
        assert(dirs.drop_last().take(n) =~= dirs.take(n));
    }
}

/// Ends a scan: the root has the size of its files and of the directories
/// below it, and is completed, unless the scan was told to stop. The answer is
/// whether that size fits; where it does not, the scan is left as it is.
pub fn end_scan(
    scan: &mut ScanState,
    root: &FsPath,
    file_size: u64,
    dirs: &Vec<FsPath>,
) -> (r: bool)
    ensures
        ({
            let total = file_size + sizes_of(
                crate::path::path_views(dirs@),
                old(scan)@.dir_sizes,
            );
            &&& r == (total <= u64::MAX)
            &&& r ==> final(scan)@ == (ScanView {
                dir_sizes: old(scan)@.dir_sizes.insert(root@, total as u64),
                size_names: crate::scan::name_kept(old(scan)@.size_names, root.named()),
                completed: if old(scan)@.cancel {
                    old(scan)@.completed
                } else {
                    old(scan)@.completed.insert(root@)
                },
                scanning: false,
                ..old(scan)@
            })
            &&& !r ==> final(scan)@ == old(scan)@
        }),
{
    let ghost before = scan@;
    let ghost views = crate::path::path_views(dirs@);
    let mut total: u64 = file_size;
    let mut i: usize = 0;
    while i < dirs.len()
        invariant
            i <= dirs@.len(),
            scan@ == before,
            views == crate::path::path_views(dirs@),
            total == file_size + sizes_of(views.take(i as int), before.dir_sizes),
        decreases dirs@.len() - i,
    {
        assert(views.take(i + 1).drop_last() =~= views.take(i as int));
        assert(views.take(i + 1).last() == dirs@[i as int]@);
        let size: u64 = match scan.get_size(&dirs[i]) {
            Some(size) => size,
            None => 0,
        };
        if total > u64::MAX - size {
            proof {
                lemma_sizes_grow(views, before.dir_sizes, i + 1);
            }
            return false;
        }
        total += size;
        i += 1;
    }
    assert(views.take(views.len() as int) =~= views);
    scan.dir_sizes.insert(root.clone(), total);
    if !scan.cancel {
        scan.completed.insert(root.clone(), ());
    }
    scan.scanning = false;
    assert(scan@ =~= (ScanView {
        dir_sizes: before.dir_sizes.insert(root@, total),
        size_names: crate::scan::name_kept(before.size_names, root.named()),
        completed: if before.cancel {
            before.completed
        } else {
            before.completed.insert(root@)
        },
        scanning: false,
        ..before
    }));
    true
}

/// What is to be done outside.
#[verifier::ext_equal]
pub enum StepView {
    Nothing,
    Quit,
    Load { dir: SpelledView },
    Rise { dir: SpelledView },
    Delete { path: SpelledView, is_dir: bool },
    Drives,
    Switch { path: SpelledView },
    Rescan,
}

/// What is to be done outside: read the directory that was entered, read the
/// one above and go up, delete, find the drives, switch to a drive, or stop
/// the scan and begin anew.
#[derive(Debug)]
pub enum Step {
    Nothing,
    Quit,
    Load { dir: FsPath },
    Rise { dir: FsPath },
    Delete { path: FsPath, is_dir: bool },
    Drives,
    Switch { path: FsPath },
    Rescan,
}

impl View for Step {
    type V = StepView;

    open spec fn view(&self) -> StepView {
        match self {
            Step::Nothing => StepView::Nothing,
            Step::Quit => StepView::Quit,
            Step::Load { dir } => StepView::Load { dir: dir.named() },
            Step::Rise { dir } => StepView::Rise { dir: dir.named() },
            Step::Delete { path, is_dir } => StepView::Delete {
                path: path.named(),
                is_dir: *is_dir,
            },
            Step::Drives => StepView::Drives,
            Step::Switch { path } => StepView::Switch { path: path.named() },
            Step::Rescan => StepView::Rescan,
        }
    }
}

/// What a key asks for.
pub open spec fn key_command(dialog: DialogView, key: Key) -> Command {
    match dialog {
        DialogView::ConfirmDelete { .. } => crate::tui::confirm_command(key),
        DialogView::DeleteResult { .. } => Command::Cancel,
        DialogView::DrivePicker { .. } => crate::tui::picker_command(key),
        DialogView::Closed => if key == Key::Char('q') || key == Key::Esc {
            Command::Quit
        } else if key == Key::Char('r') {
            Command::Scan
        } else if key == Key::Char('g') {
            Command::Drives
        } else {
            crate::tui::explorer_command(key)
        },
    }
}

/// Computes [`key_command`].
pub fn command_for(dialog: &Dialog, key: Key) -> (r: Command)
    ensures
        r == key_command(dialog@, key),
{
    match crate::tui::command_for(dialog, crate::browse::Tab::Explorer, key) {
        crate::tui::TuiCommand::Shared(Command::NextTab) => Command::Nothing,
        crate::tui::TuiCommand::Shared(command) => command,
        _ => Command::Nothing,
    }
}

impl ClassicView {
    /// With the selection moved by `delta`.
    pub open spec fn moved_by(self, delta: int, visible: int) -> ClassicView {
        let len = self.app.entries.len() as int;
        if len == 0 {
            self
        } else {
            let now = crate::app::moved(self.app.selected as int, delta, len);
            ClassicView {
                app: AppView {
                    selected: now as usize,
                    scroll: crate::app::scrolled(
                        now,
                        self.app.scroll as int,
                        visible,
                    ) as usize,
                    ..self.app
                },
                ..self
            }
        }
    }

    /// Whether a command overflows no index, and has a row or a drive where it
    /// needs one.
    pub open spec fn command_fits(self, command: Command, visible: int) -> bool {
        match BrowserView::step_of(command, visible) {
            Some(delta) => visible <= isize::MAX && (self.app.entries.len() > 0
                ==> crate::app::move_fits(
                self.app.selected as int,
                self.app.scroll as int,
                delta,
                visible,
                self.app.entries.len() as int,
            )),
            None => {
                &&& command == Command::Enter || command == Command::Delete
                    ==> self.app.selects_a_row()
                &&& command == Command::PickDown || command == Command::PickSelect
                    ==> self.dialog.has_drives()
            },
        }
    }

    /// The directory that entering the selected row leads into, if it is one.
    pub open spec fn enters(self) -> Option<SpelledView> {
        if self.app.entries.len() > 0 && self.app.entries[self.app.selected as int].is_dir {
            Some(self.app.entries[self.app.selected as int].path)
        } else {
            None
        }
    }

    /// With the question whether to delete the selected row, if there is one.
    pub open spec fn prompting(self) -> ClassicView {
        if self.app.entries.len() == 0 {
            self
        } else {
            let entry = self.app.entries[self.app.selected as int];
            ClassicView {
                dialog: DialogView::ConfirmDelete {
                    name: entry.name,
                    path: entry.path,
                    is_dir: entry.is_dir,
                    size: entry.size_now(self.app.scan),
                },
                ..self
            }
        }
    }

    /// Whether `after` and `step` are what a command leads to.
    pub open spec fn obeys(
        self,
        command: Command,
        visible: int,
        after: ClassicView,
        step: StepView,
    ) -> bool {
        match command {
            Command::Nothing | Command::NextTab => after == self && step is Nothing,
            Command::Quit => after == self && step is Quit,
            Command::MoveUp | Command::MoveDown | Command::PageUp | Command::PageDown => {
                after == self.moved_by(BrowserView::step_of(command, visible)->0, visible)
                    && step is Nothing
            },
            Command::Home => {
                &&& step is Nothing
                &&& after == (ClassicView {
                    app: AppView { selected: 0, scroll: 0, ..self.app },
                    ..self
                })
            },
            Command::End => {
                &&& step is Nothing
                &&& after == (ClassicView {
                    app: AppView {
                        selected: if self.app.entries.len() == 0 {
                            self.app.selected
                        } else {
                            (self.app.entries.len() - 1) as usize
                        },
                        ..self.app
                    },
                    ..self
                })
            },
            Command::Enter => match self.enters() {
                Some(dir) => {
                    &&& after == (ClassicView { app: self.app.entering(dir), ..self })
                    &&& step == StepView::Load { dir }
                },
                None => after == self && step is Nothing,
            },
            Command::Back => {
                &&& after == self
                &&& step == match self.app.rising() {
                    Some(above) => StepView::Rise { dir: above.current_dir },
                    None => StepView::Nothing,
                }
            },
            Command::ToggleSort => {
                &&& step is Nothing
                &&& (AppView { sort_by_size: !self.app.sort_by_size, ..self.app }).sorts_to(
                    after.app,
                )
                &&& after == (ClassicView { app: after.app, ..self })
            },
            Command::Scan => after == self && step is Rescan,
            Command::Delete => after == self.prompting() && step is Nothing,
            Command::Drives => after == self && step is Drives,
            Command::ConfirmYes => {
                &&& after == self
                &&& step == match self.dialog {
                    DialogView::ConfirmDelete { path, is_dir, .. } => StepView::Delete {
                        path,
                        is_dir,
                    },
                    _ => StepView::Nothing,
                }
            },
            Command::Cancel => {
                after == (ClassicView { dialog: DialogView::Closed, ..self }) && step is Nothing
            },
            Command::PickUp => {
                &&& step is Nothing
                &&& after == (ClassicView {
                    dialog: crate::browse::picked(self.dialog, true),
                    ..self
                })
            },
            Command::PickDown => {
                &&& step is Nothing
                &&& after == (ClassicView {
                    dialog: crate::browse::picked(self.dialog, false),
                    ..self
                })
            },
            Command::PickSelect => {
                &&& after == self
                &&& step == match self.dialog {
                    DialogView::DrivePicker { mounts, selected } => StepView::Switch {
                        path: mounts[selected as int].path,
                    },
                    _ => StepView::Nothing,
                }
            },
        }
    }
}

impl App {
    /// The program on `root`, with its rows loaded and a scan begun.
    pub fn new(root: &FsPath, listing: &Option<Vec<PlainEntry>>) -> (r: App)
        ensures
            r@.dialog is Closed,
            plainly_loads(begun(AppView::fresh(root.named())), plain_listing(*listing), r@.app),
    {
        let nothing: Option<Vec<crate::app::ListedEntry>> = None;
        let mut state = AppState::new_idle(root, &nothing);
        state.entries = Vec::new();
        state.entry_source = Vec::new();
        assert(state@ =~= AppView::fresh(root.named()));
        start_scan(&mut state.scan_state);
        let mut app = App { state, dialog: Dialog::Closed };
        app.load_entries(listing);
        app
    }

    /// Loads the rows of the current directory.
    pub fn load_entries(&mut self, listing: &Option<Vec<PlainEntry>>)
        ensures
            plainly_loads(old(self)@.app, plain_listing(*listing), final(self)@.app),
            final(self)@.dialog == old(self)@.dialog,
    {
        let ghost before = self@.app;
        match listing {
            None => {
                self.state.entries = Vec::new();
                self.state.entry_source = Vec::new();
                assert(self@.app =~= (AppView {
                    entries: Seq::empty(),
                    entry_source: Seq::empty(),
                    ..before
                }));
            },
            Some(list) => {
                self.state.entries = read_plain_rows(list);
                assert(self@.app =~= (AppView {
                    entries: plain_rows(plain_views(list@)),
                    ..before
                }));
                self.state.sort_entries();
            },
        }
    }

    /// Begins a frame: rows are kept in order while sizes grow.
    pub fn tick(&mut self)
        ensures
            final(self)@.dialog == old(self)@.dialog,
            ({
                let next = AppView {
                    frame_count: old(self)@.app.frame_count.wrapping_add(1),
                    ..old(self)@.app
                };
                if next.scan.scanning && next.sort_by_size {
                    next.sorts_to(final(self)@.app)
                } else {
                    final(self)@.app == next
                }
            }),
    {
        self.state.frame_count = self.state.frame_count.wrapping_add(1);
        if self.state.scan_state.is_scanning() && self.state.sort_by_size {
            self.state.sort_entries();
        }
    }

    /// Enters the selected row if it is a directory; the answer is the
    /// directory whose rows are to be loaded.
    pub fn enter_dir(&mut self) -> (r: Option<FsPath>)
        requires
            old(self)@.app.selects_a_row(),
        ensures
            match old(self)@.enters() {
                Some(dir) => {
                    &&& final(self)@ == (ClassicView {
                        app: old(self)@.app.entering(dir),
                        ..old(self)@
                    })
                    &&& r is Some
                    &&& r->0.named() == dir
                },
                None => final(self)@ == old(self)@ && r is None,
            },
    {
        if self.state.entries.len() == 0 {
            return None;
        }
        let ghost before = self@.app;
        let entry = &self.state.entries[self.state.selected];
        if !entry.is_dir {
            return None;
        }
        let dir = entry.path.clone();
        let old_dir = self.state.current_dir.clone();
        let ghost way = self.state.history@;
        self.state.history.push((old_dir, self.state.selected, self.state.scroll));
        assert(crate::app::history_views(self.state.history@) =~= crate::app::history_views(
            way,
        ).push((before.current_dir, before.selected, before.scroll)));
        self.state.current_dir = dir.clone();
        self.state.selected = 0;
        self.state.scroll = 0;
        assert(self@.app =~= before.entering(dir.named()));
        Some(dir)
    }

    /// The directory that [`App::go_up`] loads, if it loads one.
    pub fn up_target(&self) -> (r: Option<FsPath>)
        ensures
            match self@.app.rising() {
                Some(above) => r is Some && r->0.named() == above.current_dir,
                None => r is None,
            },
    {
        self.state.up_target()
    }

    /// Goes back to where the current directory was entered from, or to its
    /// parent with the directory selected. `listing` is that of
    /// [`App::up_target`].
    pub fn go_up(&mut self, listing: &Option<Vec<PlainEntry>>)
        ensures
            final(self)@.dialog == old(self)@.dialog,
            plainly_rises(old(self)@.app, plain_listing(*listing), final(self)@.app),
    {
        let ghost before = self@.app;
        let ghost way = self.state.history@;
        match self.state.history.pop() {
            Some((dir, selected, scroll)) => {
                self.state.current_dir = dir;
                self.state.selected = selected;
                self.state.scroll = scroll;
                assert(crate::app::history_views(self.state.history@)
                    =~= crate::app::history_views(way).drop_last());
                assert(self@.app =~= before.rising()->0);
                self.load_entries(listing);
            },
            None => {
                assert(crate::app::history_views(self.state.history@) =~= Seq::<
                    (SpelledView, usize, usize),
                >::empty());
                let old_dir = self.state.current_dir.clone();
                match self.state.current_dir.parent() {
                    None => {},
                    Some(parent) => {
                        self.state.current_dir = parent;
                        self.state.selected = 0;
                        self.state.scroll = 0;
                        assert(self@.app =~= before.rising()->0);
                        self.load_entries(listing);
                        let ghost loaded = self@.app;
                        match self.state.row_of_path(&old_dir) {
                            Some(i) => {
                                self.state.selected = i;
                            },
                            None => {},
                        }
                        assert((AppView { selected: 0, ..self@.app }) =~= loaded);
                    },
                }
            },
        }
    }

    fn clear_scan(&mut self, root: FsPath)
        ensures
            final(self)@ == (ClassicView {
                app: cleared(old(self)@.app, root.named()),
                ..old(self)@
            }),
    {
        let ghost before = self@;
        self.state.scan_state.dir_sizes.clear();
        self.state.scan_state.completed.clear();
        self.state.scan_state.files_scanned = 0;
        self.state.scan_root = root;
        assert(self@.app.scan.completed =~= Set::<PathView>::empty());
        assert(self@ =~= (ClassicView { app: cleared(before.app, root.named()), ..before }));
    }

    /// Begins a scan of the current directory anew and loads its rows. A scan
    /// that was running has been asked to stop and has ended.
    pub fn rescan(&mut self, listing: &Option<Vec<PlainEntry>>)
        requires
            !old(self)@.app.scan.scanning,
        ensures
            final(self)@.dialog == old(self)@.dialog,
            plainly_loads(
                begun(cleared(old(self)@.app, old(self)@.app.current_dir)),
                plain_listing(*listing),
                final(self)@.app,
            ),
    {
        let root = self.state.current_dir.clone();
        self.clear_scan(root);
        start_scan(&mut self.state.scan_state);
        self.load_entries(listing);
    }

    /// Asks whether to delete the selected row.
    pub fn prompt_delete(&mut self)
        requires
            old(self)@.app.selects_a_row(),
        ensures
            final(self)@ == old(self)@.prompting(),
    {
        match self.state.delete_selected() {
            Ok((name, path, is_dir, size)) => {
                self.dialog = Dialog::ConfirmDelete { name, path, is_dir, size };
            },
            Err(_) => {},
        }
    }

    /// What follows the deletion that was confirmed: the dialog is closed and
    /// the rows are loaded anew, or the reason why it failed is shown.
    pub fn execute_delete(
        &mut self,
        outcome: Result<(), String>,
        listing: &Option<Vec<PlainEntry>>,
    )
        ensures
            match old(self)@.dialog {
                DialogView::ConfirmDelete { .. } => match outcome {
                    Ok(_) => {
                        &&& final(self)@.dialog is Closed
                        &&& plainly_loads(
                            old(self)@.app,
                            plain_listing(*listing),
                            final(self)@.app,
                        )
                    },
                    Err(reason) => {
                        &&& final(self)@.app == old(self)@.app
                        &&& final(self)@.dialog == (DialogView::DeleteResult {
                            message: "Failed to delete: "@ + reason@,
                            success: false,
                        })
                    },
                },
                _ => final(self)@ == old(self)@,
            },
    {
        let confirmed: bool = match &self.dialog {
            Dialog::ConfirmDelete { .. } => true,
            _ => false,
        };
        if !confirmed {
            return ;
        }
        match outcome {
            Ok(()) => {
                self.dialog = Dialog::Closed;
                self.load_entries(listing);
            },
            Err(reason) => {
                self.dialog = Dialog::DeleteResult {
                    message: String::from_str("Failed to delete: ").concat(reason.as_str()),
                    success: false,
                };
            },
        }
    }

    /// Lets the user pick one of `mounts`, with that of the scan selected.
    pub fn open_drive_picker(&mut self, mounts: Vec<MountPoint>)
        ensures
            final(self)@.app == old(self)@.app,
            final(self)@.dialog == (DialogView::DrivePicker {
                mounts: crate::mounts::mount_views(mounts@),
                selected: crate::browse::drive_of(
                    crate::mounts::mount_views(mounts@),
                    old(self)@.app.scan_root.at,
                ) as usize,
            }),
            final(self)@.dialog.valid(),
    {
        let selected: usize = find_drive(&mounts, &self.state.scan_root);
        self.dialog = Dialog::DrivePicker { mounts, selected };
    }

    /// Shows `path` and begins a scan of it. A scan that was running has been
    /// asked to stop and has ended.
    pub fn switch_drive(&mut self, path: FsPath, listing: &Option<Vec<PlainEntry>>)
        requires
            !old(self)@.app.scan.scanning,
        ensures
            final(self)@.dialog is Closed,
            plainly_loads(
                begun(cleared(old(self)@.app, path.named()).moved_to(path.named())),
                plain_listing(*listing),
                final(self)@.app,
            ),
    {
        let ghost before = self@.app;
        let ghost root = path.named();
        self.dialog = Dialog::Closed;
        self.clear_scan(path.clone());
        self.state.current_dir = path;
        self.state.history = Vec::new();
        self.state.selected = 0;
        self.state.scroll = 0;
        assert(self@.app =~= cleared(before, root).moved_to(root));
        start_scan(&mut self.state.scan_state);
        self.load_entries(listing);
    }

    /// Whether [`App::on_key`] overflows no index and has a row or a drive where
    /// it needs one.
    pub fn key_fits(&self, key: Key, visible_rows: usize) -> (r: bool)
        ensures
            r == self@.command_fits(key_command(self@.dialog, key), visible_rows as int),
    {
        let command = command_for(&self.dialog, key);
        let forward: Option<bool> = match command {
            Command::MoveUp => Some(false),
            Command::MoveDown => Some(true),
            Command::PageUp => Some(false),
            Command::PageDown => Some(true),
            _ => None,
        };
        let steps: usize = match command {
            Command::PageUp => visible_rows,
            Command::PageDown => visible_rows,
            _ => 1,
        };
        let on_a_row: bool = self.state.entries.len() == 0 || self.state.selected
            < self.state.entries.len();
        match forward {
            None => match command {
                Command::Enter => on_a_row,
                Command::Delete => on_a_row,
                Command::PickDown => self.dialog.offers_drives(),
                Command::PickSelect => self.dialog.offers_drives(),
                _ => true,
            },
            Some(forward) => {
                if visible_rows > isize::MAX as usize {
                    return false;
                }
                if self.state.entries.len() == 0 {
                    return true;
                }
                let delta: isize = if forward {
                    steps as isize
                } else {
                    -(steps as isize)
                };
                crate::app::move_has_room(
                    self.state.selected,
                    self.state.scroll,
                    delta,
                    visible_rows,
                    self.state.entries.len(),
                )
            },
        }
    }

    /// Does what a pressed key asks for; the answer is what is to be done
    /// outside.
    pub fn on_key(&mut self, key: Key, visible_rows: usize) -> (r: Step)
        requires
            old(self)@.dialog.valid(),
            old(self)@.command_fits(
                key_command(old(self)@.dialog, key),
                visible_rows as int,
            ),
        ensures
            old(self)@.obeys(
                key_command(old(self)@.dialog, key),
                visible_rows as int,
                final(self)@,
                r@,
            ),
            final(self)@.dialog.valid(),
    {
        match command_for(&self.dialog, key) {
            Command::Nothing => Step::Nothing,
            Command::NextTab => Step::Nothing,
            Command::Quit => Step::Quit,
            Command::MoveUp => {
                self.state.move_selection(-1, visible_rows);
                Step::Nothing
            },
            Command::MoveDown => {
                self.state.move_selection(1, visible_rows);
                Step::Nothing
            },
            Command::PageUp => {
                self.state.move_selection(-(visible_rows as isize), visible_rows);
                Step::Nothing
            },
            Command::PageDown => {
                self.state.move_selection(visible_rows as isize, visible_rows);
                Step::Nothing
            },
            Command::Home => {
                self.state.selected = 0;
                self.state.scroll = 0;
                Step::Nothing
            },
            Command::End => {
                if self.state.entries.len() > 0 {
                    self.state.selected = self.state.entries.len() - 1;
                }
                Step::Nothing
            },
            Command::Enter => match self.enter_dir() {
                Some(dir) => Step::Load { dir },
                None => Step::Nothing,
            },
            Command::Back => match self.up_target() {
                Some(dir) => Step::Rise { dir },
                None => Step::Nothing,
            },
            Command::ToggleSort => {
                self.state.toggle_sort();
                Step::Nothing
            },
            Command::Scan => Step::Rescan,
            Command::Delete => {
                self.prompt_delete();
                Step::Nothing
            },
            Command::Drives => Step::Drives,
            Command::ConfirmYes => match &self.dialog {
                Dialog::ConfirmDelete { path, is_dir, .. } => Step::Delete {
                    path: path.clone(),
                    is_dir: *is_dir,
                },
                _ => Step::Nothing,
            },
            Command::Cancel => {
                self.dialog = Dialog::Closed;
                Step::Nothing
            },
            Command::PickUp => {
                pick_drive(&mut self.dialog, true);
                Step::Nothing
            },
            Command::PickDown => {
                pick_drive(&mut self.dialog, false);
                Step::Nothing
            },
            Command::PickSelect => match &self.dialog {
                Dialog::DrivePicker { mounts, selected } => Step::Switch {
                    path: mounts[*selected].path.clone(),
                },
                _ => Step::Nothing,
            },
        }
    }

    /// The rows as they are to be shown.
    pub fn shown_rows(&self) -> (r: Vec<EntrySnapshot>)
        ensures
            crate::snapshot::snapshot_rows(r@) == crate::snapshot::shown_rows(
                self@.app.entries,
                self@.app.scan,
            ),
    {
        let ghost all = crate::snapshot::shown_rows(self@.app.entries, self@.app.scan);
        let scan = &self.state.scan_state;
        let mut rows: Vec<EntrySnapshot> = Vec::new();
        let mut i: usize = 0;
        while i < self.state.entries.len()
            invariant
                i <= self.state.entries@.len(),
                rows@.len() == i,
                scan@ == self@.app.scan,
                all == crate::snapshot::shown_rows(self@.app.entries, self@.app.scan),
                forall|k: int| 0 <= k < i ==> (#[trigger] rows@[k])@ == all[k],
            decreases self.state.entries@.len() - i,
        {
            let entry = &self.state.entries[i];
            rows.push(
                EntrySnapshot {
                    name: entry.name.clone(),
                    path: entry.path.clone(),
                    is_dir: entry.is_dir,
                    is_parent: entry.is_parent,
                    size: entry.current_size(scan),
                    scanning: entry.is_scanning(scan),
                },
            );
            i += 1;
        }
        assert(crate::snapshot::snapshot_rows(rows@) =~= all);
        rows
    }
}

/// The text of the header.
pub open spec fn header_text(app: AppView) -> Seq<char> {
    " "@ + crate::screen::path_text(app.current_dir) + " | "@ + crate::text::decimal_text(
        app.entries.len(),
    ) + " items | "@ + crate::util::size_text(crate::model::sizes_sum(app.entries, app.scan))
        + " total | sort: "@ + (if app.sort_by_size {
        "size"@
    } else {
        "name"@
    }) + (if app.scan.scanning {
        " [scanning... "@ + crate::text::decimal_text(app.scan.files_scanned as nat) + " files]"@
    } else {
        ""@
    }) + " "@
}

/// The header.
pub open spec fn header_panel(app: AppView, area: Area) -> PanelView {
    PanelView {
        area,
        title: Some(" rdiskstat "@),
        style: crate::style::in_color(Color::Cyan),
        lines: seq![crate::style::plain_line(header_text(app))],
    }
}

/// The line of help.
pub open spec fn help_panel(area: Area) -> PanelView {
    PanelView {
        area,
        title: None,
        style: crate::style::in_color(Color::DarkGray),
        lines: seq![
            crate::style::plain_line(
                " q:Quit  j/k:Nav  Enter:Open  Bksp:Back  s:Sort  r:Rescan  d:Delete  g:Drives  PgUp/Dn"@,
            ),
        ],
    }
}

fn draw_header(app: &App, area: Area) -> (r: Panel)
    requires
        crate::model::sizes_sum(app@.app.entries, app@.app.scan) <= u64::MAX,
    ensures
        r@ == header_panel(app@.app, area),
{
    let state = &app.state;
    let sort = if state.sort_by_size {
        "size"
    } else {
        "name"
    };
    let scanning = if state.scan_state.is_scanning() {
        String::from_str(" [scanning... ").concat(
            decimal(state.scan_state.files_scanned()).as_str(),
        ).concat(" files]")
    } else {
        String::from_str("")
    };
    let text = String::from_str(" ").concat(show_path(&state.current_dir).as_str()).concat(
        " | ",
    ).concat(decimal(state.entries.len() as u64).as_str()).concat(" items | ").concat(
        format_size(state.total_size()).as_str(),
    ).concat(" total | sort: ").concat(sort).concat(scanning.as_str()).concat(" ");
    let mut lines: Vec<Line> = Vec::new();
    push_line(&mut lines, line_of(text, plain()));
    let r = Panel {
        area,
        title: Some(String::from_str(" rdiskstat ")),
        style: colored(Color::Cyan),
        lines,
    };
    assert(r@.lines =~= seq![crate::style::plain_line(header_text(app@.app))]);
    r
}

fn draw_help(area: Area) -> (r: Panel)
    ensures
        r@ == help_panel(area),
{
    let mut lines: Vec<Line> = Vec::new();
    push_line(
        &mut lines,
        line_of(
            String::from_str(
                " q:Quit  j/k:Nav  Enter:Open  Bksp:Back  s:Sort  r:Rescan  d:Delete  g:Drives  PgUp/Dn",
            ),
            plain(),
        ),
    );
    let r = Panel { area, title: None, style: colored(Color::DarkGray), lines };
    assert(r@.lines =~= help_panel(area).lines);
    r
}

/// Whether the screen can be drawn: the sizes add up, every name that is cut
/// is cut between characters, and the dialog's box can be stated.
pub open spec fn can_draw(app: ClassicView, parts: Parts, area: Area) -> bool {
    &&& crate::model::sizes_sum(app.app.entries, app.app.scan) <= u64::MAX
    &&& crate::screen::dialog_fits(app.dialog, area)
    &&& crate::screen::names_fit(
        crate::snapshot::shown_rows(app.app.entries, app.app.scan),
        app.app.scroll,
        parts.body,
    )
}

/// Draws the screen, parted as `parts`, with the shares of the visible rows.
/// There is no screen where the sizes do not add up, a name would be cut
/// within a character or the dialog's box cannot be stated.
pub fn draw_ui(app: &App, parts: Parts, area: Area, shares: &Vec<Share>) -> (r: Option<Screen>)
    requires
        shares@.len() >= crate::screen::rows_shown(
            app@.app.entries.len() as int,
            app@.app.scroll as int,
            crate::screen::inner_height(parts.body) as int,
        ),
    ensures
        r is Some <==> can_draw(app@, parts, area),
        match r {
            Some(screen) => {
                &&& screen.header@ == header_panel(app@.app, parts.header)
                &&& screen.body@ == crate::screen::list_panel(
                    crate::snapshot::shown_rows(app@.app.entries, app@.app.scan),
                    (Place {
                        scroll: app@.app.scroll,
                        selected: app@.app.selected,
                        frame: app@.app.frame_count,
                    }),
                    parts.body,
                    crate::screen::share_views(shares@),
                )
                &&& screen.help@ == help_panel(parts.help)
                &&& match screen.popup {
                    Some(panel) => crate::screen::is_dialog_panel(panel@, app@.dialog, area),
                    None => app@.dialog is Closed,
                }
                &&& screen.visible_rows == crate::screen::inner_height(parts.body)
            },
            None => true,
        },
{
    let popup = draw_dialog(&app.dialog, area);
    match app.dialog {
        Dialog::Closed => {},
        _ => {
            if popup.is_none() {
                return None;
            }
        },
    }
    let rows = app.shown_rows();
    if !app.state.total_has_room() || !names_have_room(&rows, app.state.scroll, parts.body) {
        return None;
    }
    let place = Place {
        scroll: app.state.scroll,
        selected: app.state.selected,
        frame: app.state.frame_count,
    };
    Some(
        Screen {
            header: draw_header(app, parts.header),
            body: draw_file_list(&rows, place, parts.body, shares),
            help: draw_help(parts.help),
            popup,
            visible_rows: parts.body.height.saturating_sub(2) as usize,
        },
    )
}

/// Going up after entering a directory leads back to the directory that was
/// left, with the same selection, scroll and way back.
pub proof fn law_up_undoes_enter(
    app: AppView,
    dir: SpelledView,
    inside_listing: Option<Seq<PlainView>>,
    inside: AppView,
    listing: Option<Seq<PlainView>>,
    after: AppView,
)
    requires
        plainly_loads(app.entering(dir), inside_listing, inside),
        plainly_rises(inside, listing, after),
    ensures
        plainly_loads(
            (AppView { entries: inside.entries, entry_source: inside.entry_source, ..app }),
            listing,
            after,
        ),
        after.current_dir == app.current_dir,
        after.selected == app.selected,
        after.scroll == app.scroll,
        after.history == app.history,
{
    assert(inside.history.drop_last() =~= app.history);
}

/// Nothing is deleted unless a deletion was to be confirmed and the answer is
/// yes.
pub proof fn law_only_yes_deletes(
    app: ClassicView,
    key: Key,
    visible: int,
    after: ClassicView,
    step: StepView,
)
    requires
        app.obeys(key_command(app.dialog, key), visible, after, step),
        step is Delete,
    ensures
        app.dialog is ConfirmDelete,
        key == Key::Char('y') || key == Key::Char('Y'),
        step == (StepView::Delete { path: app.dialog->path, is_dir: app.dialog->is_dir }),
{
}

/// Asking for deletion and confirming deletes the selected row: what is asked
/// about in between is its name, path, kind and size, what is deleted is at its
/// path and of its kind. With no rows nothing is asked.
pub proof fn law_confirmed_deletion_is_of_the_row(
    app: ClassicView,
    visible: int,
    asking: ClassicView,
    first: StepView,
    after: ClassicView,
    second: StepView,
)
    requires
        app.obeys(Command::Delete, visible, asking, first),
        asking.obeys(Command::ConfirmYes, visible, after, second),
    ensures
        app.app.entries.len() == 0 ==> asking == app,
        app.app.selected < app.app.entries.len() ==> ({
            let row = app.app.entries[app.app.selected as int];
            let sizes = app.app.scan.dir_sizes;
            &&& asking.dialog is ConfirmDelete
            &&& asking.dialog->name == row.name
            &&& asking.dialog->path == row.path
            &&& asking.dialog->is_dir == row.is_dir
            &&& !row.is_parent && !row.is_dir ==> asking.dialog->size == row.file_size
            &&& !row.is_parent && row.is_dir && sizes.contains_key(row.path.at)
                ==> asking.dialog->size == sizes[row.path.at]
            &&& !row.is_parent && row.is_dir && !sizes.contains_key(row.path.at)
                ==> asking.dialog->size == 0
            &&& second is Delete
            &&& second->Delete_path == row.path
            &&& second->Delete_is_dir == row.is_dir
        }),
        asking == (ClassicView { dialog: asking.dialog, ..app }),
        after == asking,
        first is Nothing,
{
}

/// Entering a directory has it read, remembers where one was, and starts at its
/// first row; entering anything else does nothing.
pub proof fn law_entering_opens_the_row(
    app: ClassicView,
    visible: int,
    after: ClassicView,
    step: StepView,
)
    requires
        app.app.selected < app.app.entries.len(),
        app.obeys(Command::Enter, visible, after, step),
    ensures
        ({
            let row = app.app.entries[app.app.selected as int];
            &&& !row.is_dir ==> after == app && step is Nothing
            &&& row.is_dir ==> {
                &&& step is Load
                &&& step->Load_dir == row.path
                &&& after.app.current_dir == row.path
                &&& after.app.selected == 0
                &&& after.app.scroll == 0
                &&& after.app.history.len() == app.app.history.len() + 1
                &&& after.app.history.last() == (
                    app.app.current_dir,
                    app.app.selected,
                    app.app.scroll,
                )
                &&& after.app.history.drop_last() == app.app.history
                &&& after.dialog == app.dialog
                &&& after.app.scan == app.app.scan
                &&& after.app.scan_root == app.app.scan_root
                &&& after.app.entries == app.app.entries
            }
        }),
{
    assert(app.app.history.push(
        (app.app.current_dir, app.app.selected, app.app.scroll),
    ).drop_last() =~= app.app.history);
}

/// The way back has the directory read where one was last, or else the parent
/// if there is one.
pub proof fn law_back_leads_back(
    app: ClassicView,
    visible: int,
    after: ClassicView,
    step: StepView,
)
    requires
        app.obeys(Command::Back, visible, after, step),
    ensures
        after == app,
        app.app.history.len() > 0 ==> step is Rise && step->Rise_dir
            == app.app.history.last().0,
        app.app.history.len() == 0 && app.app.current_dir.parent() is Some ==> step is Rise
            && Some(step->Rise_dir) == app.app.current_dir.parent(),
        app.app.history.len() == 0 && app.app.current_dir.parent() is None ==> step is Nothing,
{
}

/// Going up by the parent selects the row that one came from, if it is there.
pub proof fn law_parent_selects_where_one_was(
    app: AppView,
    listing: Option<Seq<PlainView>>,
    after: AppView,
)
    requires
        app.history.len() == 0,
        app.current_dir.parent() is Some,
        plainly_rises(app, listing, after),
    ensures
        Some(after.current_dir) == app.current_dir.parent(),
        after.scroll == 0,
        after.selected < after.entries.len() && after.selected > 0
            ==> after.entries[after.selected as int].path.at == app.current_dir.at,
        (exists|i: int|
            0 <= i < after.entries.len() && (#[trigger] after.entries[i]).path.at
                == app.current_dir.at) ==> after.selected < after.entries.len()
            && after.entries[after.selected as int].path.at == app.current_dir.at,
{
    crate::rows::law_row_is_found_by_path(after.entries, app.current_dir.at);
}

/// The moves go by a row or a page and stop at the ends, Home and End select
/// the first and the last row.
pub proof fn law_moves_go_by_a_row_or_a_page(
    app: ClassicView,
    command: Command,
    visible: int,
    after: ClassicView,
    step: StepView,
)
    requires
        command == Command::MoveUp || command == Command::MoveDown || command == Command::PageUp
            || command == Command::PageDown || command == Command::Home || command
            == Command::End,
        app.app.selected < app.app.entries.len() <= usize::MAX,
        0 < visible <= isize::MAX,
        app.obeys(command, visible, after, step),
    ensures
        ({
            let at = app.app.selected as int;
            let len = app.app.entries.len();
            let to = if command == Command::MoveUp {
                at - 1
            } else if command == Command::MoveDown {
                at + 1
            } else if command == Command::PageUp {
                at - visible
            } else if command == Command::PageDown {
                at + visible
            } else if command == Command::Home {
                0
            } else {
                len - 1
            };
            &&& to < 0 ==> after.app.selected == 0
            &&& 0 <= to < len ==> after.app.selected == to
            &&& to >= len ==> after.app.selected == len - 1
            &&& command != Command::End ==> after.app.scroll <= after.app.selected
                < after.app.scroll + visible
        }),
        step is Nothing,
        after == (ClassicView {
            app: (AppView {
                selected: after.app.selected,
                scroll: after.app.scroll,
                ..app.app
            }),
            ..app
        }),
{
}

/// What each of the other commands has done outside, and that it leaves the
/// listing as it is.
pub proof fn law_other_commands(
    app: ClassicView,
    command: Command,
    visible: int,
    after: ClassicView,
    step: StepView,
)
    requires
        app.obeys(command, visible, after, step),
    ensures
        step is Quit <==> command == Command::Quit,
        step is Drives <==> command == Command::Drives,
        step is Rescan <==> command == Command::Scan,
        step is Delete <==> command == Command::ConfirmYes && app.dialog is ConfirmDelete,
        step is Switch <==> command == Command::PickSelect && app.dialog is DrivePicker,
        step is Switch ==> step->Switch_path
            == app.dialog->mounts[app.dialog->selected as int].path,
        command == Command::Quit || command == Command::Drives || command == Command::Scan
            || command == Command::ConfirmYes || command == Command::PickSelect || command
            == Command::Nothing || command == Command::NextTab ==> after == app,
        command == Command::Cancel ==> after == (ClassicView {
            dialog: DialogView::Closed,
            ..app
        }),
        command == Command::ToggleSort ==> after.app.sort_by_size != app.app.sort_by_size
            && after.app.scan == app.app.scan && after.dialog == app.dialog
            && after.app.current_dir == app.app.current_dir && after.app.entry_source
            == after.app.entries,
{
}

/// The rows of entries read in two parts are those of the first and those of
/// the second. An entry has a row with its name, unless it could not be read at
/// all; a file or a link with its length.
pub proof fn law_each_entry_has_its_row(a: Seq<PlainView>, b: Seq<PlainView>, one: PlainView)
    ensures
        plain_rows(a + b) == plain_rows(a) + plain_rows(b),
        one.kind is Unknown ==> plain_rows(seq![one]).len() == 0,
        !(one.kind is Unknown) ==> ({
            let rows = plain_rows(seq![one]);
            let row = rows[0];
            &&& rows.len() == 1
            &&& row.name == crate::text::lossy_text(one.name)
            &&& row.path == crate::util::without_unc_prefix(one.path)
            &&& !row.is_parent
            &&& match one.kind {
                PlainKind::Dir => row.is_dir && row.file_size == 0,
                PlainKind::File { len: Some(n) } => !row.is_dir && row.file_size == n,
                PlainKind::Link { len: Some(n) } => !row.is_dir && row.file_size == n,
                _ => !row.is_dir && row.file_size == 0,
            }
        }),
    decreases b.len(),
{
    assert(seq![one].drop_last() =~= Seq::<PlainView>::empty());
    assert(plain_rows(seq![one].drop_last()) =~= Seq::<EntryView>::empty());
    if b.len() == 0 {
        assert(a + b =~= a);
        assert(plain_rows(a) + plain_rows(b) =~= plain_rows(a));
    } else {
        law_each_entry_has_its_row(a, b.drop_last(), one);
        assert((a + b).drop_last() =~= a + b.drop_last());
        assert((a + b).last() == b.last());
        assert(plain_rows(a + b) =~= plain_rows(a) + plain_rows(b));
    }
}

/// What is to be scanned below a root: each directory in it; and what its own
/// files add: the length of each, and nothing for a link.
pub proof fn law_root_is_parted(a: Seq<PlainView>, b: Seq<PlainView>, one: PlainView)
    ensures
        child_dirs(a + b) == child_dirs(a) + child_dirs(b),
        child_files(a + b) == child_files(a) + child_files(b),
        match one.kind {
            PlainKind::Dir => child_dirs(seq![one]) == seq![
                crate::util::without_unc_prefix(one.path),
            ] && child_files(seq![one]) == 0,
            PlainKind::File { len: Some(n) } => child_dirs(seq![one]).len() == 0 && child_files(
                seq![one],
            ) == n,
            _ => child_dirs(seq![one]).len() == 0 && child_files(seq![one]) == 0,
        },
    decreases b.len(),
{
    assert(seq![one].drop_last() =~= Seq::<PlainView>::empty());
    assert(child_dirs(seq![one].drop_last()) =~= Seq::<SpelledView>::empty());
    assert(child_files(seq![one].drop_last()) == 0);
    if one.kind is Dir {
        assert(child_dirs(seq![one]) =~= seq![crate::util::without_unc_prefix(one.path)]);
    }
    if b.len() == 0 {
        assert(a + b =~= a);
        assert(child_dirs(a) + child_dirs(b) =~= child_dirs(a));
    } else {
        law_root_is_parted(a, b.drop_last(), one);
        assert((a + b).drop_last() =~= a + b.drop_last());
        assert((a + b).last() == b.last());
        assert(child_dirs(a + b) =~= child_dirs(a) + child_dirs(b));
    }
}

/// The sizes of directories add up: those that the scan has, and 0 for the
/// others.
pub proof fn law_sizes_of_directories_add_up(
    a: Seq<PathView>,
    b: Seq<PathView>,
    one: PathView,
    sizes: Map<PathView, u64>,
)
    ensures
        sizes_of(a + b, sizes) == sizes_of(a, sizes) + sizes_of(b, sizes),
        sizes.contains_key(one) ==> sizes_of(seq![one], sizes) == sizes[one],
        !sizes.contains_key(one) ==> sizes_of(seq![one], sizes) == 0,
    decreases b.len(),
{
    assert(seq![one].drop_last() =~= Seq::<PathView>::empty());
    assert(sizes_of(seq![one].drop_last(), sizes) == 0);
    if b.len() == 0 {
        assert(a + b =~= a);
    } else {
        law_sizes_of_directories_add_up(a, b.drop_last(), one, sizes);
        assert((a + b).drop_last() =~= a + b.drop_last());
        assert((a + b).last() == b.last());
    }
}

/// Beginning a scan forgets the sizes, what was completed and the number of
/// files, and changes nothing that is not of the scan but its root.
pub proof fn law_scan_begins_anew(app: AppView, root: SpelledView)
    ensures
        ({
            let again = begun(cleared(app, root));
            &&& again.scan.dir_sizes.dom() == Set::<PathView>::empty()
            &&& again.scan.completed == Set::<PathView>::empty()
            &&& again.scan.files_scanned == 0
            &&& again.scan.scanning
            &&& !again.scan.cancel
            &&& again == (AppView { scan: again.scan, scan_root: root, ..app })
        }),
{
}

/// A command is possible wherever the numbers are far from the limits of an
/// index; to enter or delete a row one must be selected, and to pick a drive
/// there must be one.
pub proof fn law_command_finds_room(app: ClassicView, command: Command, visible: int)
    requires
        app.app.selected <= i32::MAX,
        app.app.scroll <= i32::MAX,
        app.app.entries.len() <= i32::MAX,
        app.app.entries.len() > 0 ==> app.app.selected < app.app.entries.len(),
        0 <= visible < i32::MAX,
        app.dialog is DrivePicker ==> app.dialog->mounts.len() > 0,
    ensures
        app.command_fits(command, visible),
{
}

} // verus!
