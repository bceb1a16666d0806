//! What both frontends do with a key: the selection on the latest snapshot,
//! the way back, the dialogs, and what is to be done outside.
use vstd::prelude::*;

use crate::app::AppState;
use crate::app::AppView;
use crate::app::ListedEntry;
use crate::app::ListedView;
use crate::mounts::MountPoint;
use crate::mounts::MountView;
use crate::path::FsPath;
use crate::path::PathView;
use crate::path::SpelledView;
use crate::snapshot::RowView;
use crate::snapshot::SnapshotView;
use crate::snapshot::UiSnapshot;

verus! {

/// What is shown: the listing, or the overview of the scan.
#[derive(Clone, Copy, Debug, PartialEq, Eq)]
pub enum Tab {
    Explorer,
    Overview,
}

/// The dialog that is open, if one is.
#[verifier::ext_equal]
pub enum DialogView {
    Closed,
    ConfirmDelete { name: Seq<char>, path: SpelledView, is_dir: bool, size: u64 },
    DeleteResult { message: Seq<char>, success: bool },
    DrivePicker { mounts: Seq<MountView>, selected: usize },
}

/// The dialog that is open, if one is.
#[derive(Debug)]
pub enum Dialog {
    Closed,
    ConfirmDelete { name: String, path: FsPath, is_dir: bool, size: u64 },
    DeleteResult { message: String, success: bool },
    DrivePicker { mounts: Vec<MountPoint>, selected: usize },
}

impl View for Dialog {
    type V = DialogView;

    open spec fn view(&self) -> DialogView {
        match self {
            Dialog::Closed => DialogView::Closed,
            Dialog::ConfirmDelete { name, path, is_dir, size } => DialogView::ConfirmDelete {
                name: name@,
                path: path.named(),
                is_dir: *is_dir,
                size: *size,
            },
            Dialog::DeleteResult { message, success } => DialogView::DeleteResult {
                message: message@,
                success: *success,
            },
            Dialog::DrivePicker { mounts, selected } => DialogView::DrivePicker {
                mounts: crate::mounts::mount_views(mounts@),
                selected: *selected,
            },
        }
    }
}

impl DialogView {
    /// A drive picker has a drive selected, if there are drives.
    pub open spec fn valid(self) -> bool {
        match self {
            DialogView::DrivePicker { mounts, selected } => mounts.len() > 0 ==> selected
                < mounts.len(),
            _ => true,
        }
    }

    /// Whether a drive picker has drives to pick from.
    pub open spec fn has_drives(self) -> bool {
        match self {
            DialogView::DrivePicker { mounts, .. } => mounts.len() > 0,
            _ => true,
        }
    }
}

/// What a key asks for.
#[derive(Clone, Copy, Debug, PartialEq, Eq)]
pub enum Command {
    Nothing,
    Quit,
    MoveUp,
    MoveDown,
    PageUp,
    PageDown,
    Home,
    End,
    Enter,
    Back,
    ToggleSort,
    Scan,
    Delete,
    Drives,
    ConfirmYes,
    Cancel,
    PickUp,
    PickDown,
    PickSelect,
    NextTab,
}

/// What is to be done outside.
#[verifier::ext_equal]
pub enum ActionView {
    Nothing,
    Quit,
    Open { dir: SpelledView },
    Delete { path: SpelledView, is_dir: bool },
    Drives,
    Switch { path: SpelledView },
    Launch,
}

/// What is to be done outside: read a directory and show it, delete, find the
/// drives, scan another drive, or launch the walker.
#[derive(Debug)]
pub enum Action {
    Nothing,
    Quit,
    Open { dir: FsPath },
    Delete { path: FsPath, is_dir: bool },
    Drives,
    Switch { path: FsPath },
    Launch,
}

impl View for Action {
    type V = ActionView;

    open spec fn view(&self) -> ActionView {
        match self {
            Action::Nothing => ActionView::Nothing,
            Action::Quit => ActionView::Quit,
            Action::Open { dir } => ActionView::Open { dir: dir.named() },
            Action::Delete { path, is_dir } => ActionView::Delete {
                path: path.named(),
                is_dir: *is_dir,
            },
            Action::Drives => ActionView::Drives,
            Action::Switch { path } => ActionView::Switch { path: path.named() },
            Action::Launch => ActionView::Launch,
        }
    }
}

/// What a frontend holds.
#[verifier::ext_equal]
pub struct BrowserView {
    pub app: AppView,
    pub dialog: DialogView,
    pub tab: Tab,
    pub snapshot: SnapshotView,
    pub selected: usize,
    pub scroll: usize,
    pub history: Seq<(SpelledView, usize, usize)>,
}

/// What a frontend holds: the controller, the latest snapshot, and a selection
/// and a way back of its own.
pub struct Browser {
    pub state: AppState,
    pub dialog: Dialog,
    pub tab: Tab,
    pub snapshot: UiSnapshot,
    pub selected: usize,
    pub scroll: usize,
    pub history: Vec<(FsPath, usize, usize)>,
}

impl View for Browser {
    type V = BrowserView;

    open spec fn view(&self) -> BrowserView {
        BrowserView {
            app: self.state@,
            dialog: self.dialog@,
            tab: self.tab,
            snapshot: self.snapshot@,
            selected: self.selected,
            scroll: self.scroll,
            history: crate::app::history_views(self.history@),
        }
    }
}

/// What a target leads to: a directory to open, or nothing.
pub open spec fn opening(target: Option<SpelledView>) -> ActionView {
    match target {
        Some(dir) => ActionView::Open { dir },
        None => ActionView::Nothing,
    }
}

/// The place of the first mount point that `root` lies under, 0 if there is
/// none.
pub open spec fn drive_of(mounts: Seq<MountView>, root: PathView) -> int
    decreases mounts.len(),
{
    if mounts.len() == 0 || root.starts_with(mounts[0].path.at) {
        0
    } else {
        match drive_after(mounts.drop_first(), root) {
            Some(i) => i + 1,
            None => 0,
        }
    }
}

/// The place of the first mount point that `root` lies under.
pub open spec fn drive_after(mounts: Seq<MountView>, root: PathView) -> Option<int>
    decreases mounts.len(),
{
    if mounts.len() == 0 {
        None
    } else if root.starts_with(mounts[0].path.at) {
        Some(0)
    } else {
        match drive_after(mounts.drop_first(), root) {
            Some(i) => Some(i + 1),
            None => None,
        }
    }
}

/// A dialog with the next or the previous drive selected, as far as there are
/// drives.
pub open spec fn picked(dialog: DialogView, up: bool) -> DialogView {
    match dialog {
        DialogView::DrivePicker { mounts, selected } => DialogView::DrivePicker {
            mounts,
            selected: if up {
                if selected == 0 {
                    0
                } else {
                    (selected - 1) as usize
                }
            } else if selected + 1 < mounts.len() {
                (selected + 1) as usize
            } else {
                (mounts.len() - 1) as usize
            },
        },
        other => other,
    }
}

impl BrowserView {
    /// A frontend of a controller, with nothing shown yet.
    pub open spec fn fresh(app: AppView) -> BrowserView {
        BrowserView {
            app,
            dialog: DialogView::Closed,
            tab: Tab::Explorer,
            snapshot: SnapshotView::blank(),
            selected: 0,
            scroll: 0,
            history: Seq::empty(),
        }
    }

    /// The selected row, if the selection is on one.
    pub open spec fn row(self) -> Option<RowView> {
        if self.selected < self.snapshot.entries.len() {
            Some(self.snapshot.entries[self.selected as int])
        } else {
            None
        }
    }

    /// With the selection on a row, the last one if it was beyond.
    pub open spec fn clamped(self) -> BrowserView {
        let len = self.snapshot.entries.len();
        BrowserView {
            selected: if len == 0 {
                0
            } else if self.selected < len {
                self.selected
            } else {
                (len - 1) as usize
            },
            ..self
        }
    }

    /// With the selection moved by `delta`.
    pub open spec fn moved_by(self, delta: int, visible: int) -> BrowserView {
        let len = self.snapshot.entries.len() as int;
        if len == 0 {
            self
        } else {
            let now = crate::app::moved(self.selected as int, delta, len);
            BrowserView {
                selected: now as usize,
                scroll: crate::app::scrolled(now, self.scroll as int, visible) as usize,
                ..self
            }
        }
    }

    /// With the way back taken: the selection is as it was there, or on the
    /// first row of the parent. The directory is to be opened.
    pub open spec fn going_up(self) -> (BrowserView, Option<SpelledView>) {
        if self.history.len() > 0 {
            let (dir, selected, scroll) = self.history.last();
            (
                BrowserView { history: self.history.drop_last(), selected, scroll, ..self },
                Some(dir),
            )
        } else {
            match self.app.current_dir.parent() {
                Some(parent) => (BrowserView { selected: 0, scroll: 0, ..self }, Some(parent)),
                None => (self, None),
            }
        }
    }

    /// With the selected row entered, if it is a directory, which is then to be
    /// opened; the row that leads to the parent goes up.
    pub open spec fn entering(self) -> (BrowserView, Option<SpelledView>) {
        match self.row() {
            Some(row) if row.is_dir => if row.is_parent {
                self.going_up()
            } else {
                (
                    BrowserView {
                        history: self.history.push(
                            (self.app.current_dir, self.selected, self.scroll),
                        ),
                        selected: 0,
                        scroll: 0,
                        ..self
                    },
                    Some(row.path),
                )
            },
            _ => (self, None),
        }
    }

    /// With the way back forgotten and the selection on the first row.
    pub open spec fn at_start(self) -> BrowserView {
        BrowserView { history: Seq::empty(), selected: 0, scroll: 0, ..self }
    }

    /// With the question whether to delete the selected row, unless that leads
    /// to the parent.
    pub open spec fn prompting(self) -> BrowserView {
        match self.row() {
            Some(row) if !row.is_parent => BrowserView {
                dialog: DialogView::ConfirmDelete {
                    name: row.name,
                    path: row.path,
                    is_dir: row.is_dir,
                    size: row.size,
                },
                ..self
            },
            _ => self,
        }
    }

    /// With the scan asked to stop if one is shown as running, or else begun at
    /// `now` unless one is running after all.
    pub open spec fn scan_switched(self, now: std::time::Instant) -> BrowserView {
        BrowserView {
            app: if self.snapshot.scanning {
                self.app.stopped()
            } else if self.app.scan.scanning {
                self.app
            } else {
                self.app.cleared(self.app.current_dir).begun(now)
            },
            ..self
        }
    }

    /// By how many rows a command moves the selection.
    pub open spec fn step_of(command: Command, visible: int) -> Option<int> {
        match command {
            Command::MoveUp => Some(-1),
            Command::MoveDown => Some(1),
            Command::PageUp => Some(-visible),
            Command::PageDown => Some(visible),
            _ => None,
        }
    }

    /// Whether a command overflows no index, and has a drive where it needs one.
    pub open spec fn command_fits(self, command: Command, visible: int) -> bool {
        match BrowserView::step_of(command, visible) {
            Some(delta) => visible <= isize::MAX && (self.snapshot.entries.len() > 0
                ==> crate::app::move_fits(
                self.selected as int,
                self.scroll as int,
                delta,
                visible,
                self.snapshot.entries.len() as int,
            )),
            None => command == Command::PickDown || command == Command::PickSelect
                ==> self.dialog.has_drives(),
        }
    }

    /// Whether `after` and `action` are what a command leads to.
    pub open spec fn obeys(
        self,
        command: Command,
        visible: int,
        now: std::time::Instant,
        after: BrowserView,
        action: ActionView,
    ) -> bool {
        match command {
            Command::Nothing => after == self && action is Nothing,
            Command::Quit => after == self && action is Quit,
            Command::MoveUp | Command::MoveDown | Command::PageUp | Command::PageDown => {
                after == self.moved_by(BrowserView::step_of(command, visible)->0, visible)
                    && action is Nothing
            },
            Command::Home => {
                after == (BrowserView { selected: 0, scroll: 0, ..self }) && action is Nothing
            },
            Command::End => {
                after == (BrowserView {
                    selected: if self.snapshot.entries.len() == 0 {
                        self.selected
                    } else {
                        (self.snapshot.entries.len() - 1) as usize
                    },
                    ..self
                }) && action is Nothing
            },
            Command::Enter => after == self.entering().0 && action == opening(self.entering().1),
            Command::Back => after == self.going_up().0 && action == opening(self.going_up().1),
            Command::ToggleSort => {
                &&& action is Nothing
                &&& (AppView { sort_by_size: !self.app.sort_by_size, ..self.app }).sorts_to(
                    after.app,
                )
                &&& after == (BrowserView { app: after.app, ..self })
            },
            Command::Scan => {
                &&& after == self.scan_switched(now)
                &&& action == if !self.snapshot.scanning && !self.app.scan.scanning {
                    ActionView::Launch
                } else {
                    ActionView::Nothing
                }
            },
            Command::Delete => after == self.prompting() && action is Nothing,
            Command::Drives => after == self && action is Drives,
            Command::ConfirmYes => {
                &&& after == self
                &&& action == match self.dialog {
                    DialogView::ConfirmDelete { path, is_dir, .. } => ActionView::Delete {
                        path,
                        is_dir,
                    },
                    _ => ActionView::Nothing,
                }
            },
            Command::Cancel => {
                after == (BrowserView { dialog: DialogView::Closed, ..self }) && action is Nothing
            },
            Command::PickUp => {
                after == (BrowserView { dialog: picked(self.dialog, true), ..self })
                    && action is Nothing
            },
            Command::PickDown => {
                after == (BrowserView { dialog: picked(self.dialog, false), ..self })
                    && action is Nothing
            },
            Command::PickSelect => match self.dialog {
                DialogView::DrivePicker { mounts, selected } => {
                    &&& after == (BrowserView { dialog: DialogView::Closed, ..self.at_start() })
                    &&& action == ActionView::Switch { path: mounts[selected as int].path }
                },
                _ => after == self && action is Nothing,
            },
            Command::NextTab => {
                &&& action is Nothing
                &&& after == (BrowserView {
                    tab: match self.tab {
                        Tab::Explorer => Tab::Overview,
                        Tab::Overview => Tab::Explorer,
                    },
                    ..self
                })
            },
        }
    }

    /// Whether `after` is this state after the deletion that was confirmed: the
    /// dialog is closed and the rows are loaded anew, or the reason why it
    /// failed is shown.
    pub open spec fn deletes_to(
        self,
        outcome: Result<(), String>,
        listing: Option<Seq<ListedView>>,
        after: BrowserView,
    ) -> bool {
        match self.dialog {
            DialogView::ConfirmDelete { .. } => match outcome {
                Ok(_) => {
                    &&& self.app.loads_to(listing, after.app)
                    &&& after == (BrowserView {
                        app: after.app,
                        dialog: DialogView::Closed,
                        ..self
                    })
                },
                Err(reason) => after == (BrowserView {
                    dialog: DialogView::DeleteResult {
                        message: "Failed to delete: "@ + reason@,
                        success: false,
                    },
                    ..self
                }),
            },
            _ => after == self,
        }
    }
}

impl Browser {
    /// A frontend of a controller, with nothing shown yet.
    pub fn new(state: AppState) -> (r: Browser)
        ensures
            r@ == BrowserView::fresh(state@),
    {
        let r = Browser {
            state,
            dialog: Dialog::Closed,
            tab: Tab::Explorer,
            snapshot: UiSnapshot::empty(),
            selected: 0,
            scroll: 0,
            history: Vec::new(),
        };
        assert(r@ =~= BrowserView::fresh(state@));
        r
    }

    /// Takes the latest snapshot, if there is a new one, and keeps the
    /// selection on a row of it.
    pub fn take_snapshot(&mut self, latest: Option<UiSnapshot>)
        ensures
            final(self)@ == (match latest {
                Some(snapshot) => BrowserView { snapshot: snapshot@, ..old(self)@ },
                None => old(self)@,
            }).clamped(),
    {
        match latest {
            Some(snapshot) => {
                self.snapshot = snapshot;
            },
            None => {},
        }
        let len: usize = self.snapshot.entries.len();
        if len == 0 {
            self.selected = 0;
        } else if self.selected >= len {
            self.selected = len - 1;
        }
    }

    /// Moves the selection by `delta` rows.
    pub fn move_selection(&mut self, delta: isize, visible_rows: usize)
        requires
            old(self)@.snapshot.entries.len() > 0 ==> crate::app::move_fits(
                old(self)@.selected as int,
                old(self)@.scroll as int,
                delta as int,
                visible_rows as int,
                old(self)@.snapshot.entries.len() as int,
            ),
        ensures
            final(self)@ == old(self)@.moved_by(delta as int, visible_rows as int),
    {
        let len: usize = self.snapshot.entries.len();
        if len == 0 {
            return ;
        }
        let (selected, scroll) = crate::app::shift_selection(
            self.selected,
            self.scroll,
            delta,
            visible_rows,
            len,
        );
        self.selected = selected;
        self.scroll = scroll;
    }

    /// Enters the selected row; the answer is the directory to be opened.
    pub fn enter_selected(&mut self) -> (r: Option<FsPath>)
        ensures
            final(self)@ == old(self)@.entering().0,
            match r {
                Some(dir) => old(self)@.entering().1 == Some(dir.named()),
                None => old(self)@.entering().1 is None,
            },
    {
        let ghost before = self@;
        if self.selected >= self.snapshot.entries.len() {
            return None;
        }
        let entry = &self.snapshot.entries[self.selected];
        if !entry.is_dir {
            return None;
        }
        if entry.is_parent {
            return self.go_up();
        }
        let dir = entry.path.clone();
        let left = self.state.current_dir.clone();
        let ghost way = self.history@;
        self.history.push((left, self.selected, self.scroll));
        assert(crate::app::history_views(self.history@) =~= crate::app::history_views(way).push(
            (before.app.current_dir, before.selected, before.scroll),
        ));
        self.selected = 0;
        self.scroll = 0;
        Some(dir)
    }

    /// Takes the way back; the answer is the directory to be opened.
    pub fn go_up(&mut self) -> (r: Option<FsPath>)
        ensures
            final(self)@ == old(self)@.going_up().0,
            match r {
                Some(dir) => old(self)@.going_up().1 == Some(dir.named()),
                None => old(self)@.going_up().1 is None,
            },
    {
        let ghost way = self.history@;
        match self.history.pop() {
            Some((dir, selected, scroll)) => {
                self.selected = selected;
                self.scroll = scroll;
                assert(crate::app::history_views(self.history@) =~= crate::app::history_views(
                    way,
                ).drop_last());
                Some(dir)
            },
            None => {
                assert(crate::app::history_views(self.history@) =~= Seq::<
                    (SpelledView, usize, usize),
                >::empty());
                match self.state.current_dir.parent() {
                    Some(parent) => {
                        self.selected = 0;
                        self.scroll = 0;
                        Some(parent)
                    },
                    None => None,
                }
            },
        }
    }

    /// Forgets the way back to go to `path`, unless it is shown; the answer is
    /// the directory to be opened.
    pub fn navigate_to(&mut self, path: FsPath) -> (r: Option<FsPath>)
        ensures
            if path@ == old(self)@.app.current_dir.at {
                final(self)@ == old(self)@ && r is None
            } else {
                final(self)@ == old(self)@.at_start() && r is Some && r->0.named() == path.named()
            },
    {
        if path.same(&self.state.current_dir) {
            return None;
        }
        self.start_over();
        Some(path)
    }

    fn start_over(&mut self)
        ensures
            final(self)@ == old(self)@.at_start(),
    {
        let ghost before = self@;
        self.history = Vec::new();
        self.selected = 0;
        self.scroll = 0;
        assert(self@ =~= before.at_start());
    }

    /// Asks whether to delete the selected row.
    pub fn prompt_delete(&mut self)
        ensures
            final(self)@ == old(self)@.prompting(),
    {
        if self.selected >= self.snapshot.entries.len() {
            return ;
        }
        let entry = &self.snapshot.entries[self.selected];
        if entry.is_parent {
            return ;
        }
        self.dialog = Dialog::ConfirmDelete {
            name: entry.name.clone(),
            path: entry.path.clone(),
            is_dir: entry.is_dir,
            size: entry.size,
        };
    }

    /// What follows the deletion that was confirmed. `listing` is that of the
    /// current directory.
    pub fn execute_delete(
        &mut self,
        outcome: Result<(), String>,
        listing: &Option<Vec<ListedEntry>>,
    )
        requires
            crate::app::listing_fits(crate::app::listing_view(*listing)),
        ensures
            old(self)@.deletes_to(outcome, crate::app::listing_view(*listing), final(self)@),
    {
        let confirmed: bool = match &self.dialog {
            Dialog::ConfirmDelete { .. } => true,
            _ => false,
        };
        if !confirmed {
            return ;
        }
        match self.state.execute_delete(outcome, listing) {
            Ok(()) => {
                self.dialog = Dialog::Closed;
            },
            Err(message) => {
                self.dialog = Dialog::DeleteResult { message, success: false };
            },
        }
    }

    /// Lets the user pick one of `mounts`, with that of the scan selected.
    pub fn open_drive_picker(&mut self, mounts: Vec<MountPoint>)
        ensures
            ({
                let views = crate::mounts::mount_views(mounts@);
                &&& final(self)@ == (BrowserView {
                    dialog: DialogView::DrivePicker {
                        mounts: views,
                        selected: drive_of(views, old(self)@.app.scan_root.at) as usize,
                    },
                    ..old(self)@
                })
                &&& final(self)@.dialog.valid()
            }),
    {
        let selected: usize = find_drive(&mounts, &self.state.scan_root);
        self.dialog = Dialog::DrivePicker { mounts, selected };
    }

    /// Carries a command out as far as it concerns what the frontend holds; the
    /// answer is what is to be done outside.
    pub fn perform(
        &mut self,
        command: Command,
        visible_rows: usize,
        now: std::time::Instant,
    ) -> (r: Action)
        requires
            old(self)@.dialog.valid(),
            old(self)@.command_fits(command, visible_rows as int),
        ensures
            old(self)@.obeys(command, visible_rows as int, now, final(self)@, r@),
            final(self)@.dialog.valid(),
    {
        let ghost before = self@;
        match command {
            Command::Nothing => Action::Nothing,
            Command::Quit => Action::Quit,
            Command::MoveUp => {
                self.move_selection(-1, visible_rows);
                Action::Nothing
            },
            Command::MoveDown => {
                self.move_selection(1, visible_rows);
                Action::Nothing
            },
            Command::PageUp => {
                self.move_selection(-(visible_rows as isize), visible_rows);
                Action::Nothing
            },
            Command::PageDown => {
                self.move_selection(visible_rows as isize, visible_rows);
                Action::Nothing
            },
            Command::Home => {
                self.selected = 0;
                self.scroll = 0;
                Action::Nothing
            },
            Command::End => {
                if self.snapshot.entries.len() > 0 {
                    self.selected = self.snapshot.entries.len() - 1;
                }
                Action::Nothing
            },
            Command::Enter => match self.enter_selected() {
                Some(dir) => Action::Open { dir },
                None => Action::Nothing,
            },
            Command::Back => match self.go_up() {
                Some(dir) => Action::Open { dir },
                None => Action::Nothing,
            },
            Command::ToggleSort => {
                self.state.toggle_sort();
                Action::Nothing
            },
            Command::Scan => {
                if self.snapshot.scanning {
                    self.state.stop_scan();
                    Action::Nothing
                } else if self.state.scan(now) {
                    Action::Launch
                } else {
                    Action::Nothing
                }
            },
            Command::Delete => {
                self.prompt_delete();
                Action::Nothing
            },
            Command::Drives => Action::Drives,
            Command::ConfirmYes => match &self.dialog {
                Dialog::ConfirmDelete { path, is_dir, .. } => Action::Delete {
                    path: path.clone(),
                    is_dir: *is_dir,
                },
                _ => Action::Nothing,
            },
            Command::Cancel => {
                self.dialog = Dialog::Closed;
                Action::Nothing
            },
            Command::PickUp => {
                pick_drive(&mut self.dialog, true);
                Action::Nothing
            },
            Command::PickDown => {
                pick_drive(&mut self.dialog, false);
                Action::Nothing
            },
            Command::PickSelect => {
                let picked: Option<FsPath> = match &self.dialog {
                    Dialog::DrivePicker { mounts, selected } => Some(mounts[*selected].path.clone()),
                    _ => None,
                };
                match picked {
                    Some(path) => {
                        self.start_over();
                        self.dialog = Dialog::Closed;
                        Action::Switch { path }
                    },
                    None => Action::Nothing,
                }
            },
            Command::NextTab => {
                self.tab = match self.tab {
                    Tab::Explorer => Tab::Overview,
                    Tab::Overview => Tab::Explorer,
                };
                Action::Nothing
            },
        }
    }

    /// Whether [`Browser::perform`] overflows no index and has a drive where it
    /// needs one.
    pub fn command_has_room(&self, command: Command, visible_rows: usize) -> (r: bool)
        ensures
            r == self@.command_fits(command, visible_rows as int),
    {
        let forward: Option<bool> = match command {
            Command::MoveUp => Some(false),
            Command::MoveDown => Some(true),
            Command::PageUp => Some(false),
            Command::PageDown => Some(true),
            _ => None,
        };
        let steps: usize = match command {
            Command::PageUp => visible_rows,
            Command::PageDown => visible_rows,
            _ => 1,
        };
        match forward {
            None => match command {
                Command::PickDown => self.dialog.offers_drives(),
                Command::PickSelect => self.dialog.offers_drives(),
                _ => true,
            },
            Some(forward) => {
                if visible_rows > isize::MAX as usize {
                    return false;
                }
                if self.snapshot.entries.len() == 0 {
                    return true;
                }
                let delta: isize = if forward {
                    steps as isize
                } else {
                    -(steps as isize)
                };
                crate::app::move_has_room(
                    self.selected,
                    self.scroll,
                    delta,
                    visible_rows,
                    self.snapshot.entries.len(),
                )
            },
        }
    }
}

impl Dialog {
    /// Computes [`DialogView::has_drives`].
    pub fn offers_drives(&self) -> (r: bool)
        ensures
            r == self@.has_drives(),
    {
        match self {
            Dialog::DrivePicker { mounts, .. } => mounts.len() > 0,
            _ => true,
        }
    }
}

/// Selects the next or the previous drive, as far as there are drives.
pub fn pick_drive(dialog: &mut Dialog, up: bool)
    requires
        old(dialog)@.valid(),
        !up ==> old(dialog)@.has_drives(),
    ensures
        final(dialog)@ == picked(old(dialog)@, up),
        final(dialog)@.valid(),
{
    let mut taken = Dialog::Closed;
    std::mem::swap(&mut taken, dialog);
    *dialog = match taken {
        Dialog::DrivePicker { mounts, selected } => {
            let to: usize = if up {
                selected.saturating_sub(1)
            } else if selected < mounts.len() - 1 {
                selected + 1
            } else {
                mounts.len() - 1
            };
            Dialog::DrivePicker { mounts, selected: to }
        },
        other => other,
    };
}

/// Computes [`drive_of`].
pub fn find_drive(mounts: &Vec<MountPoint>, root: &FsPath) -> (r: usize)
    ensures
        r == drive_of(crate::mounts::mount_views(mounts@), root@),
        mounts@.len() > 0 ==> r < mounts@.len(),
{
    let ghost views = crate::mounts::mount_views(mounts@);
    let mut i: usize = 0;
    assert(views.skip(0) =~= views);
    while i < mounts.len()
        invariant
            i <= mounts@.len(),
            views == crate::mounts::mount_views(mounts@),
            match drive_after(views.skip(i as int), root@) {
                Some(k) => drive_after(views, root@) == Some(k + i),
                None => drive_after(views, root@) is None,
            },
        decreases mounts@.len() - i,
    {
        assert(views.skip(i as int)[0] == mounts@[i as int]@);
        assert(views.skip(i as int).drop_first() =~= views.skip(i + 1));
        if root.starts_with(&mounts[i].path) {
            return i;
        }
        i += 1;
    }
    0
}

/// Going up after entering a directory leads back: the same selection, the
/// same scroll and the same way back, to the directory that was left.
pub proof fn law_back_undoes_enter(browser: BrowserView, inside: BrowserView)
    requires
        browser.row() is Some,
        browser.row()->0.is_dir,
        !browser.row()->0.is_parent,
        inside == (BrowserView {
            app: inside.app,
            snapshot: inside.snapshot,
            selected: inside.selected,
            scroll: inside.scroll,
            ..browser.entering().0
        }),
    ensures
        ({
            let (back, target) = inside.going_up();
            &&& target == Some(browser.app.current_dir)
            &&& back.selected == browser.selected
            &&& back.scroll == browser.scroll
            &&& back.history == browser.history
        }),
{
    assert(inside.history.drop_last() =~= browser.history);
}

/// The row that leads to the parent is never up for deletion.
pub proof fn law_parent_is_never_deleted(browser: BrowserView)
    requires
        browser.row() is Some,
        browser.row()->0.is_parent,
    ensures
        browser.prompting() == browser,
{
}

/// A taken snapshot leaves the selection on a row, where there are rows.
pub proof fn law_selection_is_on_a_row(browser: BrowserView)
    requires
        browser.snapshot.entries.len() > 0,
        browser.snapshot.entries.len() <= usize::MAX,
    ensures
        browser.clamped().row() is Some,
{
}

} // verus!
