//! The controller between a frontend and the scan: the directory that is
//! shown, its rows, the selection and the way back.
use vstd::prelude::*;
use vstd::string::StringExecFns;

use crate::model::DirEntry;
use crate::model::EntryView;
use crate::order::Rank;
use crate::order::RankView;
use crate::path::FsPath;
use crate::path::PathView;
use crate::path::SpelledView;
use crate::scan::ScanState;
use crate::scan::ScanView;
use crate::text::lossy;

verus! {

/// What is read of an entry of a directory: nothing where even its type could
/// not be read; for a file, its number of blocks if that could be read.
#[derive(Clone, Copy, Debug)]
pub enum ListedKind {
    Unknown,
    Link,
    Dir,
    File { blocks: Option<u64> },
}

/// An entry of a directory as it was read.
#[derive(Debug)]
pub struct ListedEntry {
    pub path: FsPath,
    pub name: Vec<u8>,
    pub kind: ListedKind,
}

/// An entry of a directory as it was read.
#[verifier::ext_equal]
pub struct ListedView {
    pub path: SpelledView,
    pub name: Seq<u8>,
    pub kind: ListedKind,
}

impl View for ListedEntry {
    type V = ListedView;

    open spec fn view(&self) -> ListedView {
        ListedView { path: self.path.named(), name: self.name@, kind: self.kind }
    }
}

/// The view of a listing, if the directory could be read.
pub open spec fn listing_view(listing: Option<Vec<ListedEntry>>) -> Option<Seq<ListedView>> {
    match listing {
        Some(list) => Some(Seq::new(list@.len(), |i: int| list@[i]@)),
        None => None,
    }
}

/// The size on disk of a file with so many blocks, 0 if that is not known.
pub open spec fn listed_size(kind: ListedKind) -> int {
    match kind {
        ListedKind::File { blocks: Some(blocks) } => blocks * crate::util::BLOCK,
        _ => 0,
    }
}

/// Whether every size of a listing can be stated.
pub open spec fn listing_fits(listing: Option<Seq<ListedView>>) -> bool {
    match listing {
        Some(list) => forall|i: int|
            0 <= i < list.len() ==> listed_size((#[trigger] list[i]).kind) <= u64::MAX,
        None => true,
    }
}

/// Whether an entry is shown: links are not, nor what could not be read.
pub open spec fn is_shown(kind: ListedKind) -> bool {
    match kind {
        ListedKind::Dir => true,
        ListedKind::File { .. } => true,
        _ => false,
    }
}

/// The row of an entry.
pub open spec fn row_of(entry: ListedView) -> EntryView {
    EntryView {
        name: crate::text::lossy_text(entry.name),
        path: crate::util::without_unc_prefix(entry.path),
        is_dir: entry.kind is Dir,
        file_size: listed_size(entry.kind) as u64,
        is_parent: false,
    }
}

/// The rows of a listing, in its order.
pub open spec fn rows_of(list: Seq<ListedView>) -> Seq<EntryView>
    decreases list.len(),
{
    if list.len() == 0 {
        Seq::empty()
    } else if is_shown(list.last().kind) {
        rows_of(list.drop_last()).push(row_of(list.last()))
    } else {
        rows_of(list.drop_last())
    }
}

/// The row that leads to the parent, where there is one.
pub open spec fn parent_rows(dir: SpelledView) -> Seq<EntryView> {
    match dir.parent() {
        Some(parent) => seq![
            EntryView {
                name: ".."@,
                path: parent,
                is_dir: true,
                file_size: 0,
                is_parent: true,
            },
        ],
        None => Seq::empty(),
    }
}

/// The state of the controller.
#[verifier::ext_equal]
pub struct AppView {
    pub current_dir: SpelledView,
    pub scan_root: SpelledView,
    pub entries: Seq<EntryView>,
    pub selected: usize,
    pub scroll: usize,
    pub history: Seq<(SpelledView, usize, usize)>,
    pub sort_by_size: bool,
    pub frame_count: usize,
    pub scan: ScanView,
    pub entry_source: Seq<EntryView>,
}

/// The controller's state.
pub struct AppState {
    pub current_dir: FsPath,
    pub scan_root: FsPath,
    pub entries: Vec<DirEntry>,
    pub selected: usize,
    pub scroll: usize,
    pub history: Vec<(FsPath, usize, usize)>,
    pub sort_by_size: bool,
    pub frame_count: usize,
    pub scan_state: ScanState,
    /// The rows as snapshots are built from: name, path, whether it is a
    /// directory, whether it leads to the parent, and file size.
    pub entry_source: Vec<(String, FsPath, bool, bool, u64)>,
}

/// The views of a way back.
pub open spec fn history_views(history: Seq<(FsPath, usize, usize)>) -> Seq<
    (SpelledView, usize, usize),
> {
    Seq::new(history.len(), |i: int| (history[i].0.named(), history[i].1, history[i].2))
}

impl View for AppState {
    type V = AppView;

    open spec fn view(&self) -> AppView {
        AppView {
            current_dir: self.current_dir.named(),
            scan_root: self.scan_root.named(),
            entries: crate::model::entry_views(self.entries@),
            selected: self.selected,
            scroll: self.scroll,
            history: history_views(self.history@),
            sort_by_size: self.sort_by_size,
            frame_count: self.frame_count,
            scan: self.scan_state@,
            entry_source: crate::snapshot::source_views(self.entry_source@),
        }
    }
}

/// The rank of a row: the row that leads to the parent comes first, then the
/// largest, or the names in order.
pub open spec fn entry_rank(by_size: bool, scan: ScanView) -> spec_fn(EntryView) -> RankView {
    |entry: EntryView|
        if by_size {
            entry.rank_by_size(scan)
        } else {
            entry.rank_by_name()
        }
}

/// The selection after a move by `delta` among `len` rows.
pub open spec fn moved(selected: int, delta: int, len: int) -> int {
    if delta > 0 {
        if selected + delta < len {
            selected + delta
        } else {
            len - 1
        }
    } else if selected + delta > 0 {
        selected + delta
    } else {
        0
    }
}

/// The first visible row after the selection moved to `selected`.
pub open spec fn scrolled(selected: int, scroll: int, visible: int) -> int {
    let low = if selected < scroll {
        selected
    } else {
        scroll
    };
    if selected >= low + visible {
        selected - visible + 1
    } else {
        low
    }
}

/// Whether a move overflows no index.
pub open spec fn move_fits(
    selected: int,
    scroll: int,
    delta: int,
    visible: int,
    len: int,
) -> bool {
    let now = moved(selected, delta, len);
    let low = if now < scroll {
        now
    } else {
        scroll
    };
    &&& delta > isize::MIN
    &&& delta > 0 ==> selected + delta <= usize::MAX
    &&& low + visible <= usize::MAX
    &&& visible == 0 ==> now < usize::MAX
}

/// The place of the first row with `path`.
pub open spec fn row_at(entries: Seq<EntryView>, path: PathView) -> Option<int>
    decreases entries.len(),
{
    if entries.len() == 0 {
        None
    } else {
        match row_at(entries.drop_last(), path) {
            Some(i) => Some(i),
            None => if entries.last().path.at == path {
                Some(entries.len() - 1)
            } else {
                None
            },
        }
    }
}

impl AppView {
    /// A controller that shows nothing yet of `root`.
    pub open spec fn fresh(root: SpelledView) -> AppView {
        AppView {
            current_dir: root,
            scan_root: root,
            entries: Seq::empty(),
            selected: 0,
            scroll: 0,
            history: Seq::empty(),
            sort_by_size: true,
            frame_count: 0,
            scan: ScanView::fresh(),
            entry_source: Seq::empty(),
        }
    }

    /// Whether `after` is this state with its rows in order, and given out for
    /// snapshots.
    pub open spec fn sorts_to(self, after: AppView) -> bool {
        &&& crate::order::stably_sorted(
            self.entries,
            after.entries,
            entry_rank(self.sort_by_size, self.scan),
        )
        &&& after == (AppView {
            entries: after.entries,
            entry_source: after.entries,
            ..self
        })
    }

    /// Whether `after` is this state with the rows of the current directory,
    /// as `listing` has them. Where the directory could not be read, only the
    /// row that leads to the parent is there. Either way the rows are given out
    /// for snapshots.
    pub open spec fn loads_to(self, listing: Option<Seq<ListedView>>, after: AppView) -> bool {
        let first = parent_rows(self.current_dir);
        match listing {
            None => after == (AppView { entries: first, entry_source: first, ..self }),
            Some(list) => (AppView { entries: first + rows_of(list), ..self }).sorts_to(after),
        }
    }

    /// The state on the way into `dir`, before its rows are loaded.
    pub open spec fn entering(self, dir: SpelledView) -> AppView {
        AppView {
            history: self.history.push((self.current_dir, self.selected, self.scroll)),
            current_dir: dir,
            selected: 0,
            scroll: 0,
            ..self
        }
    }

    /// The state on the way up, before the rows are loaded, if there is a way.
    pub open spec fn rising(self) -> Option<AppView> {
        if self.history.len() > 0 {
            let (dir, selected, scroll) = self.history.last();
            Some(
                AppView {
                    history: self.history.drop_last(),
                    current_dir: dir,
                    selected,
                    scroll,
                    ..self
                },
            )
        } else {
            match self.current_dir.parent() {
                Some(parent) => Some(
                    AppView { current_dir: parent, selected: 0, scroll: 0, ..self },
                ),
                None => None,
            }
        }
    }

    /// Whether `after` is this state after going up: back to where the
    /// directory was entered from, or to its parent with the directory
    /// selected.
    pub open spec fn rises_to(self, listing: Option<Seq<ListedView>>, after: AppView) -> bool {
        match self.rising() {
            None => after == self,
            Some(above) => if self.history.len() > 0 {
                above.loads_to(listing, after)
            } else {
                let found = row_at(after.entries, self.current_dir.at);
                &&& above.loads_to(listing, AppView { selected: 0, ..after })
                &&& after.selected == match found {
                    Some(i) => i,
                    None => 0,
                }
            },
        }
    }

    /// Whether the selection is on a row, where there are rows.
    pub open spec fn selects_a_row(self) -> bool {
        self.entries.len() > 0 ==> self.selected < self.entries.len()
    }

    /// The directory that entering the selected row leads into, if it is one
    /// that is not the way up.
    pub open spec fn enters(self) -> Option<SpelledView> {
        if self.entries.len() == 0 {
            None
        } else {
            let entry = self.entries[self.selected as int];
            if entry.is_dir && !entry.is_parent {
                Some(entry.path)
            } else {
                None
            }
        }
    }

    /// Whether the selected row is the way up.
    pub open spec fn enters_parent(self) -> bool {
        self.entries.len() > 0 && self.entries[self.selected as int].is_dir
            && self.entries[self.selected as int].is_parent
    }

    /// The state with all that was found forgotten and `root` to be scanned.
    pub open spec fn cleared(self, root: SpelledView) -> AppView {
        AppView {
            scan: ScanView {
                scanning: self.scan.scanning,
                cancel: self.scan.cancel,
                ..ScanView::fresh()
            },
            scan_root: root,
            ..self
        }
    }

    /// The state with a scan begun at `now`.
    pub open spec fn begun(self, now: std::time::Instant) -> AppView {
        AppView {
            scan: ScanView {
                cancel: false,
                scan_start: Some(now),
                scanning: true,
                ..self.scan
            },
            ..self
        }
    }

    /// The state with the scan asked to stop.
    pub open spec fn stopped(self) -> AppView {
        AppView { scan: ScanView { cancel: true, ..self.scan }, ..self }
    }

    /// The state shown from `root`, with the way back forgotten.
    pub open spec fn moved_to(self, root: SpelledView) -> AppView {
        AppView {
            current_dir: root,
            history: Seq::empty(),
            selected: 0,
            scroll: 0,
            ..self
        }
    }
}

/// The rows of a listing.
fn read_rows(list: &Vec<ListedEntry>, rows: &mut Vec<DirEntry>)
    requires
        listing_fits(Some(Seq::new(list@.len(), |i: int| list@[i]@))),
    ensures
        crate::model::entry_views(final(rows)@) == crate::model::entry_views(old(rows)@) + rows_of(
            Seq::new(list@.len(), |i: int| list@[i]@),
        ),
{
    let ghost first = crate::model::entry_views(rows@);
    let ghost views = Seq::new(list@.len(), |i: int| list@[i]@);
    let mut i: usize = 0;
    assert(first + rows_of(views.take(0)) =~= first);
    while i < list.len()
        invariant
            i <= list@.len(),
            views == Seq::new(list@.len(), |i: int| list@[i]@),
            listing_fits(Some(views)),
            crate::model::entry_views(rows@) == first + rows_of(views.take(i as int)),
        decreases list@.len() - i,
    {
        let entry = &list[i];
        assert(views[i as int] == entry@);
        assert(views.take(i + 1).drop_last() =~= views.take(i as int));
        assert(views.take(i + 1).last() == entry@);
        assert(listed_size(views[i as int].kind) <= u64::MAX);
        let (shown, is_dir, blocks): (bool, bool, u64) = match entry.kind {
            ListedKind::Unknown => (false, false, 0),
            ListedKind::Link => (false, false, 0),
            ListedKind::Dir => (true, true, 0),
            ListedKind::File { blocks } => match blocks {
                Some(n) => (true, false, n),
                None => (true, false, 0),
            },
        };
        if shown {
            let row = DirEntry {
                name: lossy(&entry.name),
                path: crate::util::strip_unc_prefix(entry.path.clone()),
                is_dir,
                file_size: crate::util::allocated_size(blocks),
                is_parent: false,
            };
            assert(row@ =~= row_of(entry@));
            let ghost before = rows@;
            rows.push(row);
            assert(crate::model::entry_views(rows@) =~= crate::model::entry_views(before).push(
                row@,
            ));
            assert(first + rows_of(views.take(i as int)).push(row@) =~= (first + rows_of(
                views.take(i as int),
            )).push(row@));
        }
        i += 1;
    }
    assert(views.take(views.len() as int) =~= views);
}

/// The rows in order: by size, or by name.
pub fn sorted_rows(entries: &Vec<DirEntry>, by_size: bool, scan: &ScanState) -> (r: Vec<DirEntry>)
    ensures
        crate::order::stably_sorted(
            crate::model::entry_views(entries@),
            crate::model::entry_views(r@),
            entry_rank(by_size, scan@),
        ),
{
    let ghost before = crate::model::entry_views(entries@);
    let ghost rank = entry_rank(by_size, scan@);
    let mut ranks: Vec<Rank> = Vec::new();
    let mut i: usize = 0;
    while i < entries.len()
        invariant
            i <= entries@.len(),
            rank == entry_rank(by_size, scan@),
            ranks@.len() == i,
            forall|k: int| 0 <= k < i ==> (#[trigger] ranks@[k])@ == rank(entries@[k]@),
        decreases entries@.len() - i,
    {
        let e = &entries[i];
        let made = if by_size {
            let size: u64 = if e.is_dir {
                match scan.get_size(&e.path) {
                    Some(size) => size,
                    None => 0,
                }
            } else {
                e.file_size
            };
            Rank { pinned: e.is_parent, weight: size, text: Vec::new() }
        } else {
            Rank { pinned: e.is_parent, weight: 0, text: crate::text::sort_key(e.name.as_str()) }
        };
        assert(made@ =~= rank(entries@[i as int]@));
        ranks.push(made);
        i += 1;
    }
    let order = crate::order::stable_order(&ranks);
    let ghost at = crate::order::places(order@);
    assert(crate::order::rank_views(ranks@) =~= before.map_values(rank));
    let mut sorted: Vec<DirEntry> = Vec::new();
    let mut j: usize = 0;
    while j < order.len()
        invariant
            j <= order@.len(),
            before == crate::model::entry_views(entries@),
            at == crate::order::places(order@),
            at.len() == before.len(),
            sorted@.len() == j,
            forall|k: int| 0 <= k < at.len() ==> 0 <= #[trigger] at[k] < before.len(),
            forall|k: int| 0 <= k < j ==> (#[trigger] sorted@[k])@ == before[at[k]],
        decreases order@.len() - j,
    {
        assert(at[j as int] == order@[j as int]);
        sorted.push(entries[order[j]].clone());
        j += 1;
    }
    assert(crate::model::entry_views(sorted@) =~= crate::order::picked(before, at));
    sorted
}

/// Computes [`listing_fits`].
pub fn listing_has_room(listing: &Option<Vec<ListedEntry>>) -> (r: bool)
    ensures
        r == listing_fits(listing_view(*listing)),
{
    match listing {
        None => true,
        Some(list) => {
            let ghost views = listing_view(*listing)->0;
            let mut i: usize = 0;
            while i < list.len()
                invariant
                    i <= list@.len(),
                    views == Seq::new(list@.len(), |i: int| list@[i]@),
                    listing_view(*listing) == Some(views),
                    forall|k: int|
                        0 <= k < i ==> listed_size((#[trigger] views[k]).kind) <= u64::MAX,
                decreases list@.len() - i,
            {
                let blocks: u64 = match list[i].kind {
                    ListedKind::File { blocks: Some(n) } => n,
                    _ => 0,
                };
                assert(views[i as int] == list@[i as int]@);
                assert(listed_size(views[i as int].kind) == blocks * crate::util::BLOCK);
                if blocks > u64::MAX / crate::util::BLOCK {
                    return false;
                }
                i += 1;
            }
            true
        },
    }
}

impl AppState {
    /// A controller of `root` with its rows loaded and a scan begun at `now`.
    pub fn new(
        root: &FsPath,
        listing: &Option<Vec<ListedEntry>>,
        now: std::time::Instant,
    ) -> (r: AppState)
        requires
            listing_fits(listing_view(*listing)),
        ensures
            AppView::fresh(root.named()).begun(now).loads_to(listing_view(*listing), r@),
    {
        let mut app = AppState::unloaded(root);
        app.scan_state.begin_scan(now);
        app.load_entries(listing);
        app
    }

    /// A controller of `root` with its rows loaded and no scan begun.
    pub fn new_idle(root: &FsPath, listing: &Option<Vec<ListedEntry>>) -> (r: AppState)
        requires
            listing_fits(listing_view(*listing)),
        ensures
            AppView::fresh(root.named()).loads_to(listing_view(*listing), r@),
    {
        let mut app = AppState::unloaded(root);
        app.load_entries(listing);
        app
    }

    fn unloaded(root: &FsPath) -> (r: AppState)
        ensures
            r@ == AppView::fresh(root.named()),
    {
        let r = AppState {
            current_dir: root.clone(),
            scan_root: root.clone(),
            entries: Vec::new(),
            selected: 0,
            scroll: 0,
            history: Vec::new(),
            sort_by_size: true,
            frame_count: 0,
            scan_state: ScanState::new(),
            entry_source: Vec::new(),
        };
        assert(r@ =~= AppView::fresh(root.named()));
        r
    }

    /// Gives the rows out for snapshots.
    pub fn sync_entry_source(&mut self)
        ensures
            final(self)@ == (AppView { entry_source: old(self)@.entries, ..old(self)@ }),
    {
        let ghost before = self@;
        let mut data: Vec<(String, FsPath, bool, bool, u64)> = Vec::new();
        let mut i: usize = 0;
        while i < self.entries.len()
            invariant
                i <= self.entries@.len(),
                self@ == before,
                data@.len() == i,
                forall|k: int|
                    0 <= k < i ==> crate::snapshot::source_view(#[trigger] data@[k])
                        == self.entries@[k]@,
            decreases self.entries@.len() - i,
        {
            let e = &self.entries[i];
            data.push((e.name.clone(), e.path.clone(), e.is_dir, e.is_parent, e.file_size));
            i += 1;
        }
        self.entry_source = data;
        assert(self@.entry_source =~= before.entries);
        assert(self@ =~= (AppView { entry_source: before.entries, ..before }));
    }

    /// Whether a scan was begun, be it running or over, and whatever it has
    /// found.
    pub fn has_scanned(&self) -> (r: bool)
        ensures
            r == (self@.scan.scan_start is Some),
    {
        self.scan_state.scan_start.is_some()
    }

    /// Begins a scan of the current directory at `now` unless one is running;
    /// the answer is whether it did, and the walker is to be launched.
    pub fn scan(&mut self, now: std::time::Instant) -> (r: bool)
        ensures
            r == !old(self)@.scan.scanning,
            !r ==> final(self)@ == old(self)@,
            r ==> final(self)@ == old(self)@.cleared(old(self)@.current_dir).begun(now),
    {
        if self.scan_state.is_scanning() {
            return false;
        }
        let ghost before = self@;
        self.scan_state.clear();
        self.scan_root = self.current_dir.clone();
        self.scan_state.begin_scan(now);
        assert(self@ =~= before.cleared(before.current_dir).begun(now));
        true
    }

    /// Asks the running scan to stop.
    pub fn stop_scan(&mut self)
        ensures
            final(self)@ == old(self)@.stopped(),
    {
        self.scan_state.cancel = true;
    }

    /// Loads the rows of the current directory.
    pub fn load_entries(&mut self, listing: &Option<Vec<ListedEntry>>)
        requires
            listing_fits(listing_view(*listing)),
        ensures
            old(self)@.loads_to(listing_view(*listing), final(self)@),
    {
        let ghost before = self@;
        self.entries = Vec::new();
        match self.current_dir.parent() {
            None => {},
            Some(parent) => {
                self.entries.push(
                    DirEntry {
                        name: String::from_str(".."),
                        path: parent,
                        is_dir: true,
                        file_size: 0,
                        is_parent: true,
                    },
                );
            },
        }
        assert(self@.entries =~= parent_rows(before.current_dir));
        assert(self@ =~= (AppView { entries: parent_rows(before.current_dir), ..before }));
        match listing {
            None => {
                self.sync_entry_source();
            },
            Some(list) => {
                read_rows(list, &mut self.entries);
                assert(self@ =~= (AppView {
                    entries: parent_rows(before.current_dir) + rows_of(listing_view(*listing)->0),
                    ..before
                }));
                self.sort_entries();
            },
        }
    }

    /// Puts the rows in order and gives them out for snapshots.
    pub fn sort_entries(&mut self)
        ensures
            old(self)@.sorts_to(final(self)@),
    {
        let ghost before = self@;
        self.entries = sorted_rows(&self.entries, self.sort_by_size, &self.scan_state);
        self.sync_entry_source();
        assert(self@ =~= (AppView {
            entries: self@.entries,
            entry_source: self@.entries,
            ..before
        }));
    }

    /// Whether the rows' sizes add up without overflow.
    pub fn total_has_room(&self) -> (r: bool)
        ensures
            r == (crate::model::sizes_sum(self@.entries, self@.scan) <= u64::MAX),
    {
        let mut sum: u64 = 0;
        let mut i: usize = 0;
        let ghost views = self@.entries;
        while i < self.entries.len()
            invariant
                i <= self.entries@.len(),
                views == self@.entries,
                sum == crate::model::sizes_sum(views.take(i as int), self@.scan),
            decreases self.entries@.len() - i,
        {
            let size: u64 = self.entries[i].current_size(&self.scan_state);
            assert(views.take(i + 1).drop_last() =~= views.take(i as int));
            assert(views.take(i + 1).last() == self.entries@[i as int]@);
            if sum > u64::MAX - size {
                proof {
                    crate::snapshot::lemma_sum_grows(views, self@.scan, i + 1);
                }
                return false;
            }
            sum += size;
            i += 1;
        }
        assert(views.take(views.len() as int) =~= views);
        true
    }

    /// The sum of the rows' sizes.
    pub fn total_size(&self) -> (r: u64)
        requires
            crate::model::sizes_sum(self@.entries, self@.scan) <= u64::MAX,
        ensures
            r == crate::model::sizes_sum(self@.entries, self@.scan),
    {
        let mut sum: u64 = 0;
        let mut i: usize = 0;
        let ghost views = self@.entries;
        while i < self.entries.len()
            invariant
                i <= self.entries@.len(),
                views == self@.entries,
                crate::model::sizes_sum(views, self@.scan) <= u64::MAX,
                sum == crate::model::sizes_sum(views.take(i as int), self@.scan),
            decreases self.entries@.len() - i,
        {
            let size: u64 = self.entries[i].current_size(&self.scan_state);
            proof {
                assert(views.take(i + 1).drop_last() =~= views.take(i as int));
                assert(views.take(i + 1).last() == self.entries@[i as int]@);
                crate::snapshot::lemma_sum_grows(views, self@.scan, i + 1);
            }
            sum += size;
            i += 1;
        }
        assert(views.take(views.len() as int) =~= views);
        sum
    }

    /// The directory that [`AppState::enter_dir`] loads, if it loads one.
    pub fn enter_target(&self) -> (r: Option<FsPath>)
        requires
            self@.selects_a_row(),
        ensures
            match self@.enters() {
                Some(dir) => r is Some && r->0.named() == dir,
                None => if self@.enters_parent() {
                    match self@.rising() {
                        Some(above) => r is Some && r->0.named() == above.current_dir,
                        None => r is None,
                    }
                } else {
                    r is None
                },
            },
    {
        if self.entries.len() == 0 {
            return None;
        }
        let entry = &self.entries[self.selected];
        if !entry.is_dir {
            return None;
        }
        if entry.is_parent {
            return self.up_target();
        }
        Some(entry.path.clone())
    }

    /// Enters the selected row: a directory becomes the current one, the row
    /// that leads to the parent goes up, and a file does nothing. `listing` is
    /// that of [`AppState::enter_target`].
    pub fn enter_dir(&mut self, listing: &Option<Vec<ListedEntry>>)
        requires
            old(self)@.selects_a_row(),
            listing_fits(listing_view(*listing)),
        ensures
            match old(self)@.enters() {
                Some(dir) => old(self)@.entering(dir).loads_to(
                    listing_view(*listing),
                    final(self)@,
                ),
                None => if old(self)@.enters_parent() {
                    old(self)@.rises_to(listing_view(*listing), final(self)@)
                } else {
                    final(self)@ == old(self)@
                },
            },
    {
        if self.entries.len() == 0 {
            return ;
        }
        let ghost before = self@;
        let entry = &self.entries[self.selected];
        if !entry.is_dir {
            return ;
        }
        if entry.is_parent {
            self.go_up(listing);
            return ;
        }
        let new_dir = entry.path.clone();
        let left = self.current_dir.clone();
        let ghost way = self.history@;
        self.history.push((left, self.selected, self.scroll));
        assert(history_views(self.history@) =~= history_views(way).push(
            (before.current_dir, before.selected, before.scroll),
        ));
        self.current_dir = new_dir;
        self.selected = 0;
        self.scroll = 0;
        assert(self@ =~= before.entering(before.enters()->0));
        self.load_entries(listing);
    }

    /// Makes `path` the current directory, unless it is already, and forgets
    /// the way back. `listing` is that of `path`.
    pub fn navigate_to(&mut self, path: FsPath, listing: &Option<Vec<ListedEntry>>)
        requires
            listing_fits(listing_view(*listing)),
        ensures
            if path@ == old(self)@.current_dir.at {
                final(self)@ == old(self)@
            } else {
                old(self)@.moved_to(path.named()).loads_to(listing_view(*listing), final(self)@)
            },
    {
        if path.same(&self.current_dir) {
            return ;
        }
        let ghost before = self@;
        self.history = Vec::new();
        self.current_dir = path;
        self.selected = 0;
        self.scroll = 0;
        assert(self@ =~= before.moved_to(self.current_dir.named()));
        self.load_entries(listing);
    }

    /// Makes `path` the current directory and loads its rows. The way back and
    /// the selection stay. `listing` is that of `path`.
    pub fn set_directory(&mut self, path: FsPath, listing: &Option<Vec<ListedEntry>>)
        requires
            listing_fits(listing_view(*listing)),
        ensures
            (AppView { current_dir: path.named(), ..old(self)@ }).loads_to(
                listing_view(*listing),
                final(self)@,
            ),
    {
        let ghost before = self@;
        self.current_dir = path;
        assert(self@ =~= (AppView { current_dir: self.current_dir.named(), ..before }));
        self.load_entries(listing);
    }

    /// The directory that [`AppState::go_up`] loads, if it loads one.
    pub fn up_target(&self) -> (r: Option<FsPath>)
        ensures
            match self@.rising() {
                Some(above) => r is Some && r->0.named() == above.current_dir,
                None => r is None,
            },
    {
        if self.history.len() > 0 {
            return Some(self.history[self.history.len() - 1].0.clone());
        }
        self.current_dir.parent()
    }

    /// Goes back to where the current directory was entered from, or to its
    /// parent with the directory selected. `listing` is that of
    /// [`AppState::up_target`].
    pub fn go_up(&mut self, listing: &Option<Vec<ListedEntry>>)
        requires
            listing_fits(listing_view(*listing)),
        ensures
            old(self)@.rises_to(listing_view(*listing), final(self)@),
    {
        let ghost before = self@;
        let ghost way = self.history@;
        match self.history.pop() {
            Some((dir, selected, scroll)) => {
                self.current_dir = dir;
                self.selected = selected;
                self.scroll = scroll;
                assert(history_views(self.history@) =~= history_views(way).drop_last());
                assert(self@ =~= before.rising()->0);
                self.load_entries(listing);
            },
            None => {
                assert(history_views(self.history@) =~= Seq::<(SpelledView, usize, usize)>::empty());
                let left = self.current_dir.clone();
                match self.current_dir.parent() {
                    None => {},
                    Some(parent) => {
                        self.current_dir = parent;
                        self.selected = 0;
                        self.scroll = 0;
                        assert(self@ =~= before.rising()->0);
                        self.load_entries(listing);
                        let ghost loaded = self@;
                        match self.row_of_path(&left) {
                            Some(i) => {
                                self.selected = i;
                            },
                            None => {},
                        }
                        assert((AppView { selected: 0, ..self@ }) =~= loaded);
                    },
                }
            },
        }
    }

    /// The place of the first row with `path`.
    pub fn row_of_path(&self, path: &FsPath) -> (r: Option<usize>)
        ensures
            match r {
                Some(i) => row_at(self@.entries, path@) == Some(i as int),
                None => row_at(self@.entries, path@) is None,
            },
    {
        let mut i: usize = 0;
        let ghost views = self@.entries;
        while i < self.entries.len()
            invariant
                i <= self.entries@.len(),
                views == self@.entries,
                row_at(views.take(i as int), path@) is None,
            decreases self.entries@.len() - i,
        {
            assert(views.take(i + 1).drop_last() =~= views.take(i as int));
            assert(views.take(i + 1).last() == self.entries@[i as int]@);
            if self.entries[i].path.same(path) {
                proof {
                    lemma_row_stays(views, path@, i + 1);
                }
                return Some(i);
            }
            i += 1;
        }
        assert(views.take(views.len() as int) =~= views);
        None
    }

    /// Moves the selection by `delta` rows, as far as there are rows, and
    /// scrolls so that it is among the `visible_rows`.
    pub fn move_selection(&mut self, delta: isize, visible_rows: usize)
        requires
            old(self)@.entries.len() > 0 ==> move_fits(
                old(self)@.selected as int,
                old(self)@.scroll as int,
                delta as int,
                visible_rows as int,
                old(self)@.entries.len() as int,
            ),
        ensures
            if old(self)@.entries.len() == 0 {
                final(self)@ == old(self)@
            } else {
                let now = moved(
                    old(self)@.selected as int,
                    delta as int,
                    old(self)@.entries.len() as int,
                );
                final(self)@ == (AppView {
                    selected: now as usize,
                    scroll: scrolled(
                        now,
                        old(self)@.scroll as int,
                        visible_rows as int,
                    ) as usize,
                    ..old(self)@
                })
            },
    {
        if self.entries.len() == 0 {
            return ;
        }
        let (selected, scroll) = shift_selection(
            self.selected,
            self.scroll,
            delta,
            visible_rows,
            self.entries.len(),
        );
        self.selected = selected;
        self.scroll = scroll;
    }

    /// Switches between the two orders of rows.
    pub fn toggle_sort(&mut self)
        ensures
            (AppView { sort_by_size: !old(self)@.sort_by_size, ..old(self)@ }).sorts_to(
                final(self)@,
            ),
    {
        let ghost before = self@;
        self.sort_by_size = !self.sort_by_size;
        assert(self@ =~= (AppView { sort_by_size: !before.sort_by_size, ..before }));
        self.sort_entries();
    }

    /// Begins a scan of the current directory anew at `now` and loads its rows.
    /// A scan that was running has been asked to stop and has ended.
    pub fn rescan(&mut self, listing: &Option<Vec<ListedEntry>>, now: std::time::Instant)
        requires
            !old(self)@.scan.scanning,
            listing_fits(listing_view(*listing)),
        ensures
            old(self)@.cleared(old(self)@.current_dir).begun(now).loads_to(
                listing_view(*listing),
                final(self)@,
            ),
    {
        let ghost before = self@;
        self.scan_state.clear();
        self.scan_root = self.current_dir.clone();
        self.scan_state.begin_scan(now);
        assert(self@ =~= before.cleared(before.current_dir).begun(now));
        self.load_entries(listing);
    }

    /// Name, path, whether it is a directory, and size of the selected row,
    /// which is to be deleted.
    pub fn delete_selected(&self) -> (r: Result<(String, FsPath, bool, u64), String>)
        requires
            self@.selects_a_row(),
        ensures
            match r {
                Ok(found) => {
                    let entry = self@.entries[self@.selected as int];
                    &&& self@.entries.len() > 0
                    &&& found.0@ == entry.name
                    &&& found.1.named() == entry.path
                    &&& found.2 == entry.is_dir
                    &&& found.3 == entry.size_now(self@.scan)
                },
                Err(message) => self@.entries.len() == 0 && message@ == "No entries"@,
            },
    {
        if self.entries.len() == 0 {
            return Err(String::from_str("No entries"));
        }
        let entry = &self.entries[self.selected];
        Ok(
            (
                entry.name.clone(),
                entry.path.clone(),
                entry.is_dir,
                entry.current_size(&self.scan_state),
            ),
        )
    }

    /// What follows a deletion: the rows are loaded anew, or the reason why it
    /// failed is told.
    pub fn execute_delete(
        &mut self,
        outcome: Result<(), String>,
        listing: &Option<Vec<ListedEntry>>,
    ) -> (r: Result<(), String>)
        requires
            listing_fits(listing_view(*listing)),
        ensures
            match outcome {
                Ok(_) => r is Ok && old(self)@.loads_to(listing_view(*listing), final(self)@),
                Err(reason) => final(self)@ == old(self)@ && r is Err && r->Err_0@
                    == "Failed to delete: "@ + reason@,
            },
    {
        match outcome {
            Ok(()) => {
                self.load_entries(listing);
                Ok(())
            },
            Err(reason) => {
                let mut message = String::from_str("Failed to delete: ");
                message.append(reason.as_str());
                Err(message)
            },
        }
    }

    /// Shows `path` and begins a scan of it at `now`. A scan that was running
    /// has been asked to stop and has ended.
    pub fn switch_drive(
        &mut self,
        path: FsPath,
        listing: &Option<Vec<ListedEntry>>,
        now: std::time::Instant,
    )
        requires
            !old(self)@.scan.scanning,
            listing_fits(listing_view(*listing)),
        ensures
            old(self)@.cleared(path.named()).moved_to(path.named()).begun(now).loads_to(
                listing_view(*listing),
                final(self)@,
            ),
    {
        let ghost before = self@;
        let ghost root = path.named();
        self.leave_for(path);
        self.scan_state.begin_scan(now);
        assert(self@ =~= before.cleared(root).moved_to(root).begun(now));
        self.load_entries(listing);
    }

    /// Shows `path` without a scan. A scan that was running has been asked to
    /// stop and has ended, and none goes on until one is begun.
    pub fn switch_drive_idle(&mut self, path: FsPath, listing: &Option<Vec<ListedEntry>>)
        requires
            !old(self)@.scan.scanning,
            listing_fits(listing_view(*listing)),
        ensures
            ({
                let there = old(self)@.cleared(path.named()).moved_to(path.named());
                there.stopped().loads_to(
                    listing_view(*listing),
                    final(self)@,
                )
            }),
    {
        let ghost before = self@;
        let ghost root = path.named();
        self.leave_for(path);
        self.scan_state.cancel = true;
        proof {
            let there = before.cleared(root).moved_to(root);
            assert(self@ =~= there.stopped());
        }
        self.load_entries(listing);
    }

    fn leave_for(&mut self, path: FsPath)
        ensures
            final(self)@ == old(self)@.cleared(path.named()).moved_to(path.named()),
    {
        let ghost before = self@;
        self.scan_state.clear();
        self.scan_root = path.clone();
        self.current_dir = path;
        self.history = Vec::new();
        self.selected = 0;
        self.scroll = 0;
        assert(self@ =~= before.cleared(path.named()).moved_to(path.named()));
    }
}

/// Computes [`move_fits`].
pub fn move_has_room(
    selected: usize,
    scroll: usize,
    delta: isize,
    visible: usize,
    len: usize,
) -> (r: bool)
    requires
        len > 0,
    ensures
        r == move_fits(selected as int, scroll as int, delta as int, visible as int, len as int),
{
    if delta == isize::MIN {
        return false;
    }
    let now: usize = if delta > 0 {
        if selected > usize::MAX - delta as usize {
            return false;
        }
        let to: usize = selected + delta as usize;
        if to < len {
            to
        } else {
            len - 1
        }
    } else {
        let back: usize = (-delta) as usize;
        if back < selected {
            selected - back
        } else {
            0
        }
    };
    let low: usize = if now < scroll {
        now
    } else {
        scroll
    };
    low <= usize::MAX - visible && (visible > 0 || now < usize::MAX)
}

/// The selection and the first visible row after a move among `len` rows.
pub fn shift_selection(
    selected: usize,
    scroll: usize,
    delta: isize,
    visible: usize,
    len: usize,
) -> (r: (usize, usize))
    requires
        len > 0,
        move_fits(
            selected as int,
            scroll as int,
            delta as int,
            visible as int,
            len as int,
        ),
    ensures
        r.0 == moved(selected as int, delta as int, len as int),
        r.1 == scrolled(r.0 as int, scroll as int, visible as int),
{
    let now: usize = if delta > 0 {
        let to: usize = selected + delta as usize;
        if to < len {
            to
        } else {
            len - 1
        }
    } else {
        let back: usize = (-delta) as usize;
        if back < selected {
            selected - back
        } else {
            0
        }
    };
    let low: usize = if now < scroll {
        now
    } else {
        scroll
    };
    if now >= low + visible {
        (now, now - visible + 1)
    } else {
        (now, low)
    }
}

proof fn lemma_row_stays(entries: Seq<EntryView>, path: PathView, n: int)
    requires
        0 <= n <= entries.len(),
        row_at(entries.take(n), path) is Some,
    ensures
        row_at(entries, path) == row_at(entries.take(n), path),
    decreases entries.len(),
{
    if n == entries.len() {
        assert(entries.take(n) =~= entries);
    } else {
        assert(entries.drop_last().take(n) =~= entries.take(n));
        lemma_row_stays(entries.drop_last(), path, n);
    }
}

/// A move keeps the selection on a row and brings it into view.
pub proof fn law_selection_stays_in_view(
    selected: int,
    scroll: int,
    delta: int,
    visible: int,
    len: int,
)
    requires
        0 <= selected < len,
        0 <= scroll,
        0 < visible,
    ensures
        ({
            let now = moved(selected, delta, len);
            let first = scrolled(now, scroll, visible);
            &&& 0 <= now < len
            &&& 0 <= first <= now < first + visible
        }),
{
}

/// Going up after entering a directory leads back: to the same directory, the
/// same selection, the same scroll and the same way back.
pub proof fn law_up_undoes_enter(
    app: AppView,
    dir: SpelledView,
    inside: Option<Seq<ListedView>>,
    within: AppView,
    outside: Option<Seq<ListedView>>,
    back: AppView,
)
    requires
        app.entering(dir).loads_to(inside, within),
        within.rises_to(outside, back),
    ensures
        back.current_dir == app.current_dir,
        back.selected == app.selected,
        back.scroll == app.scroll,
        back.history == app.history,
        back.scan_root == app.scan_root,
        back.scan == app.scan,
        back.sort_by_size == app.sort_by_size,
{
    assert(within.history == app.history.push((app.current_dir, app.selected, app.scroll)));
    assert(within.history.drop_last() =~= app.history);
}

/// Switching the order of rows twice gives the first order again.
pub proof fn law_toggling_twice(app: AppView, once: AppView, twice: AppView)
    requires
        (AppView { sort_by_size: !app.sort_by_size, ..app }).sorts_to(once),
        (AppView { sort_by_size: !once.sort_by_size, ..once }).sorts_to(twice),
    ensures
        twice.sort_by_size == app.sort_by_size,
        twice.entries.to_multiset() == app.entries.to_multiset(),
        twice.entry_source == twice.entries,
{
    crate::order::law_sorting_permutes(
        app.entries,
        once.entries,
        entry_rank(!app.sort_by_size, app.scan),
    );
    crate::order::law_sorting_permutes(
        once.entries,
        twice.entries,
        entry_rank(!once.sort_by_size, once.scan),
    );
}

/// Whether or not a directory could be read when it is loaded, what is given
/// out for snapshots is what is shown.
pub proof fn law_source_is_what_is_shown(
    app: AppView,
    listing: Option<Seq<ListedView>>,
    after: AppView,
)
    requires
        app.loads_to(listing, after),
    ensures
        after.entry_source == after.entries,
        after.current_dir == app.current_dir,
        after.selected == app.selected,
{
}

} // verus!
