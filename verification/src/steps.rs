//! What one step of a user leads to, told from what is on the screen.
use vstd::prelude::*;

use crate::app::AppView;
use crate::app::ListedView;
use crate::browse::ActionView;
use crate::browse::BrowserView;
use crate::browse::Command;
use crate::browse::DialogView;
use crate::browse::Tab;
use crate::path::SpelledView;
use crate::scan::ScanView;

verus! {

/// Asking for deletion and confirming deletes the selected row: what is asked
/// about in between is its name, path, kind and size, what is deleted is at its
/// path and of its kind, and nothing else changes.
pub proof fn law_confirmed_deletion_is_of_the_row(
    browser: BrowserView,
    visible: int,
    asked: std::time::Instant,
    asking: BrowserView,
    first: ActionView,
    confirmed: std::time::Instant,
    after: BrowserView,
    second: ActionView,
)
    requires
        browser.selected < browser.snapshot.entries.len(),
        !browser.snapshot.entries[browser.selected as int].is_parent,
        browser.obeys(Command::Delete, visible, asked, asking, first),
        asking.obeys(Command::ConfirmYes, visible, confirmed, after, second),
    ensures
        ({
            let row = browser.snapshot.entries[browser.selected as int];
            &&& first is Nothing
            &&& asking.dialog is ConfirmDelete
            &&& asking.dialog->name == row.name
            &&& asking.dialog->path == row.path
            &&& asking.dialog->is_dir == row.is_dir
            &&& asking.dialog->size == row.size
            &&& asking == (BrowserView { dialog: asking.dialog, ..browser })
            &&& second is Delete
            &&& second->Delete_path == row.path
            &&& second->Delete_is_dir == row.is_dir
            &&& after == asking
        }),
{
}

/// With the row that leads to the parent selected, or none, nothing is asked
/// and a confirmation deletes nothing.
pub proof fn law_nothing_else_is_deleted(
    browser: BrowserView,
    visible: int,
    asked: std::time::Instant,
    asking: BrowserView,
    first: ActionView,
    confirmed: std::time::Instant,
    after: BrowserView,
    second: ActionView,
)
    requires
        browser.dialog is Closed,
        browser.selected < browser.snapshot.entries.len()
            ==> browser.snapshot.entries[browser.selected as int].is_parent,
        browser.obeys(Command::Delete, visible, asked, asking, first),
        asking.obeys(Command::ConfirmYes, visible, confirmed, after, second),
    ensures
        asking == browser,
        after == browser,
        first is Nothing,
        second is Nothing,
{
}

/// Only a confirmation deletes, and only what the open dialog names.
pub proof fn law_deletion_needs_the_dialog(
    browser: BrowserView,
    command: Command,
    visible: int,
    now: std::time::Instant,
    after: BrowserView,
    action: ActionView,
)
    requires
        browser.obeys(command, visible, now, after, action),
        action is Delete,
    ensures
        command == Command::ConfirmYes,
        browser.dialog is ConfirmDelete,
        action->Delete_path == browser.dialog->path,
        action->Delete_is_dir == browser.dialog->is_dir,
        after == browser,
{
}

/// A deletion that was done closes the dialog and shows the directory as read
/// anew; one that failed shows why, and leaves the rest as it is.
pub proof fn law_deletion_is_reported(
    browser: BrowserView,
    outcome: Result<(), String>,
    listing: Option<Seq<ListedView>>,
    after: BrowserView,
)
    requires
        browser.dialog is ConfirmDelete,
        browser.deletes_to(outcome, listing, after),
    ensures
        outcome is Ok ==> after.dialog is Closed && browser.app.loads_to(listing, after.app),
        outcome is Err ==> after.app == browser.app && after.dialog is DeleteResult
            && !after.dialog->success && after.dialog->message == "Failed to delete: "@
            + outcome->Err_0@,
        after == (BrowserView { app: after.app, dialog: after.dialog, ..browser }),
{
}

/// Entering a directory opens it, remembers where one was, and starts at its
/// first row; entering a file does nothing.
pub proof fn law_entering_opens_the_row(
    browser: BrowserView,
    visible: int,
    now: std::time::Instant,
    after: BrowserView,
    action: ActionView,
)
    requires
        browser.obeys(Command::Enter, visible, now, after, action),
    ensures
        browser.selected >= browser.snapshot.entries.len() ==> after == browser && action
            is Nothing,
        browser.selected < browser.snapshot.entries.len() ==> ({
            let row = browser.snapshot.entries[browser.selected as int];
            &&& !row.is_dir ==> after == browser && action is Nothing
            &&& row.is_dir && !row.is_parent ==> {
                &&& action is Open
                &&& action->dir == row.path
                &&& after.selected == 0
                &&& after.scroll == 0
                &&& after.history.len() == browser.history.len() + 1
                &&& after.history.last() == (
                    browser.app.current_dir,
                    browser.selected,
                    browser.scroll,
                )
                &&& after.history.drop_last() == browser.history
            }
            &&& row.is_dir && row.is_parent ==> browser.obeys(
                Command::Back,
                visible,
                now,
                after,
                action,
            )
        }),
        after == (BrowserView {
            history: after.history,
            selected: after.selected,
            scroll: after.scroll,
            ..browser
        }),
{
    assert(browser.history.push(
        (browser.app.current_dir, browser.selected, browser.scroll),
    ).drop_last() =~= browser.history);
}

/// The way back leads where one was last, with the row and the scroll that one
/// had there; with no way back it leads to the parent, if there is one.
pub proof fn law_back_leads_back(
    browser: BrowserView,
    visible: int,
    now: std::time::Instant,
    after: BrowserView,
    action: ActionView,
)
    requires
        browser.obeys(Command::Back, visible, now, after, action),
    ensures
        browser.history.len() > 0 ==> {
            &&& action is Open
            &&& (action->dir, after.selected, after.scroll) == browser.history.last()
            &&& after.history == browser.history.drop_last()
        },
        browser.history.len() == 0 && browser.app.current_dir.parent() is Some ==> {
            &&& action is Open
            &&& Some(action->dir) == browser.app.current_dir.parent()
            &&& after.selected == 0
            &&& after.scroll == 0
            &&& after.history.len() == 0
        },
        browser.history.len() == 0 && browser.app.current_dir.parent() is None ==> after
            == browser && action is Nothing,
        after == (BrowserView {
            history: after.history,
            selected: after.selected,
            scroll: after.scroll,
            ..browser
        }),
{
}

/// A move goes as many rows as it asks for, down or up, and stops at the last
/// or the first row; the list scrolls no further than it must to keep the
/// selection in view.
pub proof fn law_moves_stop_at_the_ends(
    selected: int,
    scroll: int,
    delta: int,
    visible: int,
    len: int,
)
    requires
        0 <= selected < len,
        0 <= scroll,
        0 < visible,
    ensures
        ({
            let now = crate::app::moved(selected, delta, len);
            let first = crate::app::scrolled(now, scroll, visible);
            &&& 0 <= now < len
            &&& 0 <= selected + delta < len ==> now == selected + delta
            &&& selected + delta >= len ==> now == len - 1
            &&& selected + delta < 0 ==> now == 0
            &&& scroll <= now < scroll + visible ==> first == scroll
            &&& now < scroll ==> first == now
            &&& now >= scroll + visible ==> first + visible == now + 1
        }),
{
}

/// The four moves: one row or one page, down or up, on the rows that are shown.
pub proof fn law_moves_go_by_a_row_or_a_page(
    browser: BrowserView,
    command: Command,
    visible: int,
    now: std::time::Instant,
    after: BrowserView,
    action: ActionView,
)
    requires
        command == Command::MoveUp || command == Command::MoveDown || command == Command::PageUp
            || command == Command::PageDown,
        browser.selected < browser.snapshot.entries.len() <= usize::MAX,
        0 < visible <= isize::MAX,
        browser.obeys(command, visible, now, after, action),
    ensures
        ({
            let to = browser.selected as int + if command == Command::MoveUp {
                -1
            } else if command == Command::MoveDown {
                1
            } else if command == Command::PageUp {
                -visible
            } else {
                visible
            };
            let len = browser.snapshot.entries.len();
            &&& to < 0 ==> after.selected == 0
            &&& 0 <= to < len ==> after.selected == to
            &&& to >= len ==> after.selected == len - 1
            &&& after.scroll <= after.selected < after.scroll + visible
            &&& browser.scroll <= after.selected < browser.scroll + visible ==> after.scroll
                == browser.scroll
        }),
        action is Nothing,
        after == (BrowserView { selected: after.selected, scroll: after.scroll, ..browser }),
{
}

/// With no rows a move changes nothing.
pub proof fn law_moves_need_rows(
    browser: BrowserView,
    command: Command,
    visible: int,
    now: std::time::Instant,
    after: BrowserView,
    action: ActionView,
)
    requires
        command == Command::MoveUp || command == Command::MoveDown || command == Command::PageUp
            || command == Command::PageDown,
        browser.snapshot.entries.len() == 0,
        browser.obeys(command, visible, now, after, action),
    ensures
        after == browser,
        action is Nothing,
{
}

/// Home selects the first row and End the last.
pub proof fn law_home_and_end(
    browser: BrowserView,
    visible: int,
    now: std::time::Instant,
    home: BrowserView,
    first: ActionView,
    end: BrowserView,
    second: ActionView,
)
    requires
        browser.snapshot.entries.len() <= usize::MAX,
        browser.obeys(Command::Home, visible, now, home, first),
        browser.obeys(Command::End, visible, now, end, second),
    ensures
        home == (BrowserView { selected: 0, scroll: 0, ..browser }),
        end == (BrowserView { selected: end.selected, ..browser }),
        browser.snapshot.entries.len() > 0 ==> end.selected + 1
            == browser.snapshot.entries.len(),
        browser.snapshot.entries.len() == 0 ==> end == browser,
        first is Nothing,
        second is Nothing,
{
}

/// Two tabs: what is shown changes with each request and is back after two.
pub proof fn law_two_tabs(
    browser: BrowserView,
    visible: int,
    now: std::time::Instant,
    once: BrowserView,
    first: ActionView,
    twice: BrowserView,
    second: ActionView,
)
    requires
        browser.obeys(Command::NextTab, visible, now, once, first),
        once.obeys(Command::NextTab, visible, now, twice, second),
    ensures
        once.tab != browser.tab,
        once == (BrowserView { tab: once.tab, ..browser }),
        twice == browser,
        first is Nothing,
        second is Nothing,
{
}

/// A scan that is shown as running is asked to stop, and nothing else changes.
/// Else, unless one runs after all, everything that was found is forgotten and
/// a scan of the current directory begins now.
pub proof fn law_scan_starts_or_stops(
    browser: BrowserView,
    visible: int,
    now: std::time::Instant,
    after: BrowserView,
    action: ActionView,
)
    requires
        browser.obeys(Command::Scan, visible, now, after, action),
    ensures
        browser.snapshot.scanning ==> after.app.scan.cancel && action is Nothing && after.app == (
        AppView { scan: (ScanView { cancel: true, ..browser.app.scan }), ..browser.app }),
        !browser.snapshot.scanning && browser.app.scan.scanning ==> after == browser && action
            is Nothing,
        !browser.snapshot.scanning && !browser.app.scan.scanning ==> action is Launch
            && is_started(after.app.scan, now) && after.app == (AppView {
            scan: after.app.scan,
            scan_root: browser.app.current_dir,
            ..browser.app
        }),
        after == (BrowserView { app: after.app, ..browser }),
{
}

/// Whether a scan has found nothing.
pub open spec fn is_blank(scan: ScanView) -> bool {
    &&& scan.dir_sizes.dom() == Set::<crate::path::PathView>::empty()
    &&& scan.completed == Set::<crate::path::PathView>::empty()
    &&& scan.seen_inodes == Set::<(u64, u64)>::empty()
    &&& scan.ext_stats.dom() == Set::<Seq<char>>::empty()
    &&& scan.files_scanned == 0
    &&& scan.dirs_scanned == 0
    &&& scan.total_bytes == 0
    &&& scan.aliased_files == 0
    &&& scan.top_files.len() == 0
    &&& scan.top_files_min == 0
    &&& scan.top_dirs.len() == 0
    &&& scan.top_dirs_min == 0
    &&& scan.top_exts.len() == 0
    &&& scan.deepest_depth == 0
    &&& scan.deepest_path.1 == 0
    &&& scan.deepest_path.0.bytes.len() == 0
    &&& scan.size_names.dom() == Set::<crate::path::PathView>::empty()
    &&& scan.dir_completion.dom() == Set::<crate::path::PathView>::empty()
}

/// Whether a scan runs since `now` and has found nothing yet.
pub open spec fn is_started(scan: ScanView, now: std::time::Instant) -> bool {
    &&& is_blank(scan)
    &&& scan.scanning
    &&& !scan.cancel
    &&& scan.scan_start == Some(now)
}

/// A new controller shows the root, by size, and either has never scanned or
/// scans it since `now`.
pub proof fn law_controller_starts_at_the_root(root: SpelledView, now: std::time::Instant)
    ensures
        ({
            let idle = AppView::fresh(root);
            &&& idle.current_dir == root
            &&& idle.scan_root == root
            &&& idle.sort_by_size
            &&& idle.selected == 0
            &&& idle.scroll == 0
            &&& idle.history.len() == 0
            &&& idle.entries.len() == 0
            &&& idle.frame_count == 0
            &&& is_blank(idle.scan)
            &&& !idle.scan.scanning
            &&& !idle.scan.cancel
            &&& idle.scan.scan_start is None
            &&& is_started(idle.begun(now).scan, now)
            &&& idle.begun(now) == (AppView { scan: idle.begun(now).scan, ..idle })
        }),
{
}

/// Scanning the current directory anew, or moving to another drive, forgets
/// what was found, begins now, and changes the rest only where it says so.
pub proof fn law_scan_begins_anew(app: AppView, drive: SpelledView, now: std::time::Instant)
    requires
        !app.scan.scanning,
    ensures
        ({
            let again = app.cleared(app.current_dir).begun(now);
            &&& is_started(again.scan, now)
            &&& again == (AppView { scan: again.scan, scan_root: app.current_dir, ..app })
        }),
        ({
            let there = app.cleared(drive).moved_to(drive).begun(now);
            &&& is_started(there.scan, now)
            &&& there.current_dir == drive
            &&& there.scan_root == drive
            &&& there.history.len() == 0
            &&& there.selected == 0
            &&& there.scroll == 0
            &&& there == (AppView {
                scan: there.scan,
                current_dir: drive,
                scan_root: drive,
                history: there.history,
                selected: 0,
                scroll: 0,
                ..app
            })
        }),
        ({
            let idle = app.cleared(drive).moved_to(drive).stopped();
            &&& is_blank(idle.scan)
            &&& !idle.scan.scanning
            &&& idle.scan.scan_start is None
            &&& idle.scan.cancel
            &&& idle.current_dir == drive
            &&& idle.scan_root == drive
            &&& idle.history.len() == 0
        }),
{
}

/// The dialogs: one is closed by Cancel and by nothing else a key asks for but
/// a picked drive, which is then to be scanned from its first row on.
pub proof fn law_dialogs_close(
    browser: BrowserView,
    visible: int,
    now: std::time::Instant,
    closed: BrowserView,
    first: ActionView,
    chosen: BrowserView,
    second: ActionView,
)
    requires
        browser.dialog is DrivePicker,
        browser.dialog->selected < browser.dialog->mounts.len(),
        browser.obeys(Command::Cancel, visible, now, closed, first),
        browser.obeys(Command::PickSelect, visible, now, chosen, second),
    ensures
        closed == (BrowserView { dialog: DialogView::Closed, ..browser }),
        first is Nothing,
        second is Switch,
        second->Switch_path == browser.dialog->mounts[browser.dialog->selected as int].path,
        chosen.dialog is Closed,
        chosen.selected == 0,
        chosen.scroll == 0,
        chosen.history.len() == 0,
        chosen == (BrowserView {
            dialog: DialogView::Closed,
            selected: 0,
            scroll: 0,
            history: chosen.history,
            ..browser
        }),
{
}

/// In the drive picker one goes up or down by one drive, and stops at the first
/// and the last.
pub proof fn law_picker_moves_by_one(
    browser: BrowserView,
    visible: int,
    now: std::time::Instant,
    up: BrowserView,
    first: ActionView,
    down: BrowserView,
    second: ActionView,
)
    requires
        browser.dialog is DrivePicker,
        browser.dialog->selected < browser.dialog->mounts.len() <= usize::MAX,
        browser.obeys(Command::PickUp, visible, now, up, first),
        browser.obeys(Command::PickDown, visible, now, down, second),
    ensures
        ({
            let at = browser.dialog->selected;
            let mounts = browser.dialog->mounts;
            &&& up.dialog is DrivePicker
            &&& down.dialog is DrivePicker
            &&& up.dialog->mounts == mounts
            &&& down.dialog->mounts == mounts
            &&& at > 0 ==> up.dialog->selected == at - 1
            &&& at == 0 ==> up.dialog->selected == 0
            &&& at + 1 < mounts.len() ==> down.dialog->selected == at + 1
            &&& at + 1 == mounts.len() ==> down.dialog->selected == at
        }),
        up == (BrowserView { dialog: up.dialog, ..browser }),
        down == (BrowserView { dialog: down.dialog, ..browser }),
        first is Nothing,
        second is Nothing,
{
}

/// The remaining commands change nothing of what is held, but for the order of
/// the listing.
pub proof fn law_other_commands(
    browser: BrowserView,
    command: Command,
    visible: int,
    now: std::time::Instant,
    after: BrowserView,
    action: ActionView,
)
    requires
        browser.obeys(command, visible, now, after, action),
    ensures
        command == Command::Quit <==> action is Quit,
        command == Command::Drives <==> action is Drives,
        action is Launch ==> command == Command::Scan,
        action is Switch ==> command == Command::PickSelect && browser.dialog is DrivePicker,
        action is Open ==> command == Command::Enter || command == Command::Back,
        command == Command::Nothing || command == Command::Quit || command == Command::Drives
            ==> after == browser,
        command == Command::ToggleSort ==> {
            &&& after.app.sort_by_size != browser.app.sort_by_size
            &&& after.app.entries.to_multiset() == browser.app.entries.to_multiset()
            &&& after.app.entry_source == after.app.entries
            &&& after.app == (AppView {
                sort_by_size: !browser.app.sort_by_size,
                entries: after.app.entries,
                entry_source: after.app.entries,
                ..browser.app
            })
            &&& after == (BrowserView { app: after.app, ..browser })
        },
{
    if command == Command::ToggleSort {
        let flipped = AppView { sort_by_size: !browser.app.sort_by_size, ..browser.app };
        crate::order::law_sorting_permutes(
            flipped.entries,
            after.app.entries,
            crate::app::entry_rank(flipped.sort_by_size, flipped.scan),
        );
    }
}

/// A new frontend shows the listing, on its first row, with no dialog, no rows
/// yet and no way back.
pub proof fn law_frontend_starts_empty(app: AppView)
    ensures
        ({
            let browser = BrowserView::fresh(app);
            &&& browser.app == app
            &&& browser.dialog is Closed
            &&& browser.tab == Tab::Explorer
            &&& browser.selected == 0
            &&& browser.scroll == 0
            &&& browser.history.len() == 0
            &&& browser.snapshot.entries.len() == 0
            &&& !browser.snapshot.scanning
            &&& browser.snapshot.files_scanned == 0
            &&& browser.snapshot.dirs_scanned == 0
            &&& browser.snapshot.total_bytes == 0
            &&& browser.snapshot.total_entry_size == 0
            &&& browser.snapshot.top_files.len() == 0
            &&& browser.snapshot.top_dirs.len() == 0
            &&& browser.snapshot.top_exts.len() == 0
            &&& browser.snapshot.scan_start is None
        }),
{
}

/// A snapshot with fewer rows leaves the selection on the last of them, and one
/// with enough rows where it was.
pub proof fn law_selection_is_kept(browser: BrowserView)
    requires
        browser.snapshot.entries.len() <= usize::MAX,
    ensures
        ({
            let after = browser.clamped();
            let len = browser.snapshot.entries.len();
            &&& browser.selected < len ==> after == browser
            &&& 0 < len <= browser.selected ==> after.selected + 1 == len
            &&& len == 0 ==> after.selected == 0
            &&& after == (BrowserView { selected: after.selected, ..browser })
        }),
{
}

/// The drive of a scan is the first that its root is on or below; the first of
/// all where it is on none.
pub proof fn law_drive_is_that_of_the_root(
    mounts: Seq<crate::mounts::MountView>,
    root: crate::path::PathView,
)
    requires
        mounts.len() > 0,
    ensures
        ({
            let at = crate::browse::drive_of(mounts, root);
            &&& 0 <= at < mounts.len()
            &&& forall|k: int|
                0 <= k < at ==> !crate::census::is_on(root, (#[trigger] mounts[k]).path.at)
            &&& crate::census::is_on(root, mounts[at].path.at) || at == 0 && forall|k: int|
                0 <= k < mounts.len() ==> !crate::census::is_on(
                    root,
                    (#[trigger] mounts[k]).path.at,
                )
        }),
{
    lemma_drive_after(mounts, root);
    lemma_drive_after(mounts.drop_first(), root);
    crate::census::law_path_starts_with_what_it_is_on(root, mounts[0].path.at);
    let rest = mounts.drop_first();
    assert forall|k: int| 0 < k < mounts.len() implies mounts[k] == rest[k - 1] by {}
}

proof fn lemma_drive_after(
    mounts: Seq<crate::mounts::MountView>,
    root: crate::path::PathView,
)
    ensures
        match crate::browse::drive_after(mounts, root) {
            Some(at) => {
                &&& 0 <= at < mounts.len()
                &&& crate::census::is_on(root, mounts[at].path.at)
                &&& forall|k: int|
                    0 <= k < at ==> !crate::census::is_on(root, (#[trigger] mounts[k]).path.at)
            },
            None => forall|k: int|
                0 <= k < mounts.len() ==> !crate::census::is_on(
                    root,
                    (#[trigger] mounts[k]).path.at,
                ),
        },
    decreases mounts.len(),
{
    if mounts.len() > 0 {
        let rest = mounts.drop_first();
        lemma_drive_after(rest, root);
        crate::census::law_path_starts_with_what_it_is_on(root, mounts[0].path.at);
        assert forall|k: int| 0 < k < mounts.len() implies mounts[k] == rest[k - 1] by {}
    }
}

/// What entering the selected row of a listing leads to: into a directory, up
/// by the row that leads to the parent, nowhere by a file.
pub proof fn law_listing_is_entered(app: AppView)
    requires
        app.selected < app.entries.len(),
    ensures
        ({
            let row = app.entries[app.selected as int];
            &&& row.is_dir && !row.is_parent ==> app.enters() == Some(row.path)
                && !app.enters_parent()
            &&& row.is_dir && row.is_parent ==> app.enters() is None && app.enters_parent()
            &&& !row.is_dir ==> app.enters() is None && !app.enters_parent()
        }),
{
}

/// Entering a directory shows it from its first row on and remembers where one
/// was; nothing else changes.
pub proof fn law_entered_directory_is_shown(app: AppView, dir: SpelledView)
    ensures
        ({
            let inside = app.entering(dir);
            &&& inside.current_dir == dir
            &&& inside.selected == 0
            &&& inside.scroll == 0
            &&& inside.history.len() == app.history.len() + 1
            &&& inside.history.last() == (app.current_dir, app.selected, app.scroll)
            &&& inside == (AppView {
                current_dir: dir,
                selected: 0,
                scroll: 0,
                history: inside.history,
                ..app
            })
        }),
{
}

/// Going up leads back where one was, with the row and the scroll that one had
/// there. With no way back it leads to the parent, on the row that one came
/// from if that is there, and from where there is no parent nowhere.
pub proof fn law_going_up_leads_up(
    app: AppView,
    listing: Option<Seq<ListedView>>,
    after: AppView,
)
    requires
        app.rises_to(listing, after),
    ensures
        app.history.len() > 0 ==> {
            &&& (after.current_dir, after.selected, after.scroll) == app.history.last()
            &&& after.history == app.history.drop_last()
        },
        app.history.len() == 0 && app.current_dir.parent() is None ==> after == app,
        app.history.len() == 0 && app.current_dir.parent() is Some ==> {
            &&& Some(after.current_dir) == app.current_dir.parent()
            &&& after.scroll == 0
            &&& after.history.len() == 0
            &&& (exists|i: int|
                0 <= i < after.entries.len() && (#[trigger] after.entries[i]).path.at
                    == app.current_dir.at) ==> after.selected < after.entries.len()
                && after.entries[after.selected as int].path.at == app.current_dir.at
            &&& (forall|i: int|
                0 <= i < after.entries.len() ==> (#[trigger] after.entries[i]).path.at
                    != app.current_dir.at) ==> after.selected == 0
        },
        after.scan == app.scan,
        after.scan_root == app.scan_root,
        after.sort_by_size == app.sort_by_size,
{
    crate::rows::law_row_is_found_by_path(after.entries, app.current_dir.at);
}

/// A move is possible wherever the numbers are far from the limits of an index.
pub proof fn law_move_finds_room(
    selected: int,
    scroll: int,
    delta: int,
    visible: int,
    len: int,
)
    requires
        0 <= selected <= i32::MAX,
        0 <= scroll <= i32::MAX,
        -i32::MAX <= delta <= i32::MAX,
        0 <= visible <= i32::MAX,
        0 < len <= i32::MAX,
    ensures
        crate::app::move_fits(selected, scroll, delta, visible, len),
{
}

/// A command is possible wherever the numbers are far from the limits of an
/// index; to pick a drive there must be one.
pub proof fn law_command_finds_room(browser: BrowserView, command: Command, visible: int)
    requires
        browser.selected <= i32::MAX,
        browser.scroll <= i32::MAX,
        browser.snapshot.entries.len() <= i32::MAX,
        0 <= visible < i32::MAX,
    ensures
        command != Command::PickDown && command != Command::PickSelect ==> browser.command_fits(
            command,
            visible,
        ),
        browser.dialog is DrivePicker && browser.dialog->mounts.len() > 0
            ==> browser.command_fits(command, visible),
        !(browser.dialog is DrivePicker) ==> browser.command_fits(command, visible),
{
}

/// Leaving by the window tells a running scan to stop and changes nothing else.
pub proof fn law_leaving_stops_the_scan(browser: BrowserView)
    ensures
        ({
            let after = crate::gui::stopped(browser);
            &&& after.app.scan == (ScanView { cancel: true, ..browser.app.scan })
            &&& after.app == (AppView { scan: after.app.scan, ..browser.app })
            &&& after == (BrowserView { app: after.app, ..browser })
        }),
{
}

/// Going to a place forgets the way back and starts at its first row.
pub proof fn law_going_to_a_place_starts_over(browser: BrowserView, app: AppView, dir: SpelledView)
    ensures
        ({
            let after = browser.at_start();
            &&& after.history.len() == 0
            &&& after.selected == 0
            &&& after.scroll == 0
            &&& after == (BrowserView {
                history: after.history,
                selected: 0,
                scroll: 0,
                ..browser
            })
        }),
        ({
            let there = app.moved_to(dir);
            &&& there.current_dir == dir
            &&& there.history.len() == 0
            &&& there.selected == 0
            &&& there.scroll == 0
            &&& there == (AppView {
                current_dir: dir,
                history: there.history,
                selected: 0,
                scroll: 0,
                ..app
            })
        }),
{
}

} // verus!
