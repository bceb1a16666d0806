//! What a frontend renders: a copy of the scan's state as of one moment.
use vstd::prelude::*;

use crate::model::EntryView;
use crate::order::Rank;
use crate::order::RankView;
use crate::path::FsPath;
use crate::path::SpelledView;
use crate::scan::ExtensionStat;
use crate::scan::ExtensionView;
use crate::scan::ScanState;
use crate::scan::ScanView;
use crate::top::SizedEntry;
use crate::top::SizedView;

verus! {

/// One row of a listing, ready to be shown.
#[verifier::ext_equal]
pub struct RowView {
    pub name: Seq<char>,
    pub path: SpelledView,
    pub is_dir: bool,
    pub is_parent: bool,
    pub size: u64,
    pub scanning: bool,
}

/// One row of a listing, ready to be shown.
#[derive(Debug)]
pub struct EntrySnapshot {
    /// Display name (e.g. `"src"`, `".."`).
    pub name: String,
    /// Absolute path; for the row that leads to the parent, the parent.
    pub path: FsPath,
    pub is_dir: bool,
    /// Whether this is the row that leads to the parent.
    pub is_parent: bool,
    /// Size in bytes; 0 for the row that leads to the parent.
    pub size: u64,
    /// Whether this is a directory that is still being walked. Always false
    /// for files and for the row that leads to the parent.
    pub scanning: bool,
}

impl View for EntrySnapshot {
    type V = RowView;

    open spec fn view(&self) -> RowView {
        RowView {
            name: self.name@,
            path: self.path.named(),
            is_dir: self.is_dir,
            is_parent: self.is_parent,
            size: self.size,
            scanning: self.scanning,
        }
    }
}

impl Clone for EntrySnapshot {
    fn clone(&self) -> (r: EntrySnapshot)
        ensures
            r@ == self@,
    {
        EntrySnapshot {
            name: self.name.clone(),
            path: self.path.clone(),
            is_dir: self.is_dir,
            is_parent: self.is_parent,
            size: self.size,
            scanning: self.scanning,
        }
    }
}

/// The views of a list of rows.
pub open spec fn snapshot_rows(rows: Seq<EntrySnapshot>) -> Seq<RowView> {
    Seq::new(rows.len(), |i: int| rows[i]@)
}

/// Everything the UI needs to render one frame.
#[verifier::ext_equal]
pub struct SnapshotView {
    pub scanning: bool,
    pub files_scanned: u64,
    pub dirs_scanned: u64,
    pub total_bytes: u64,
    pub entries: Seq<RowView>,
    pub total_entry_size: u64,
    pub top_files: Seq<SizedView>,
    pub top_dirs: Seq<SizedView>,
    pub top_exts: Seq<ExtensionView>,
    pub deepest: (SpelledView, usize),
    pub scan_start: Option<std::time::Instant>,
}

/// Everything the UI needs to render one frame.
pub struct UiSnapshot {
    /// Whether the scan is currently in progress.
    pub scanning: bool,
    /// Total unique files counted.
    pub files_scanned: u64,
    /// Total directories visited.
    pub dirs_scanned: u64,
    /// Total bytes counted across all unique files.
    pub total_bytes: u64,
    /// The current directory's listing, sorted as the UI requested.
    pub entries: Vec<EntrySnapshot>,
    /// The sum of the rows' sizes. The row that leads to the parent has none,
    /// so this is the current directory's total.
    pub total_entry_size: u64,
    /// The biggest files so far.
    pub top_files: Vec<SizedEntry>,
    /// The biggest directories so far.
    pub top_dirs: Vec<SizedEntry>,
    /// The top extensions by total size.
    pub top_exts: Vec<ExtensionStat>,
    /// Path and depth of the deepest directory encountered so far.
    pub deepest: (FsPath, usize),
    /// When the current scan started.
    pub scan_start: Option<std::time::Instant>,
}

impl View for UiSnapshot {
    type V = SnapshotView;

    open spec fn view(&self) -> SnapshotView {
        SnapshotView {
            scanning: self.scanning,
            files_scanned: self.files_scanned,
            dirs_scanned: self.dirs_scanned,
            total_bytes: self.total_bytes,
            entries: snapshot_rows(self.entries@),
            total_entry_size: self.total_entry_size,
            top_files: crate::top::sized_views(self.top_files@),
            top_dirs: crate::top::sized_views(self.top_dirs@),
            top_exts: crate::scan::extension_views(self.top_exts@),
            deepest: (self.deepest.0.named(), self.deepest.1),
            scan_start: self.scan_start,
        }
    }
}

impl SnapshotView {
    /// A snapshot with all counters at 0 and all lists empty.
    pub open spec fn blank() -> SnapshotView {
        SnapshotView {
            scanning: false,
            files_scanned: 0,
            dirs_scanned: 0,
            total_bytes: 0,
            entries: Seq::empty(),
            total_entry_size: 0,
            top_files: Seq::empty(),
            top_dirs: Seq::empty(),
            top_exts: Seq::empty(),
            deepest: (crate::scan::no_path(), 0),
            scan_start: None,
        }
    }
}

impl UiSnapshot {
    /// A snapshot with all counters at 0 and all lists empty.
    pub fn empty() -> (r: UiSnapshot)
        ensures
            r@ == SnapshotView::blank(),
    {
        let r = UiSnapshot {
            scanning: false,
            files_scanned: 0,
            dirs_scanned: 0,
            total_bytes: 0,
            entries: Vec::new(),
            total_entry_size: 0,
            top_files: Vec::new(),
            top_dirs: Vec::new(),
            top_exts: Vec::new(),
            deepest: (FsPath::empty(), 0),
            scan_start: None,
        };
        assert(r@.entries =~= Seq::<RowView>::empty());
        assert(r@.top_files =~= Seq::<SizedView>::empty());
        assert(r@.top_dirs =~= Seq::<SizedView>::empty());
        assert(r@.top_exts =~= Seq::<ExtensionView>::empty());
        r
    }
}

/// The row that a tuple of name, path, whether it is a directory, whether it
/// leads to the parent, and file size stands for.
pub open spec fn source_view(row: (String, FsPath, bool, bool, u64)) -> EntryView {
    EntryView {
        name: row.0@,
        path: row.1.named(),
        is_dir: row.2,
        is_parent: row.3,
        file_size: row.4,
    }
}

/// The views of a list of such tuples.
pub open spec fn source_views(rows: Seq<(String, FsPath, bool, bool, u64)>) -> Seq<EntryView> {
    Seq::new(rows.len(), |i: int| source_view(rows[i]))
}

/// A row as it is to be shown.
pub open spec fn shown(entry: EntryView, scan: ScanView) -> RowView {
    RowView {
        name: entry.name,
        path: entry.path,
        is_dir: entry.is_dir,
        is_parent: entry.is_parent,
        size: entry.size_now(scan),
        scanning: entry.scanning_now(scan),
    }
}

/// The rows of a listing as they are to be shown, in the order of the listing.
pub open spec fn shown_rows(entries: Seq<EntryView>, scan: ScanView) -> Seq<RowView> {
    Seq::new(entries.len(), |i: int| shown(entries[i], scan))
}

/// The rank of a row: the row that leads to the parent comes first, then the
/// largest, or the names in order.
pub open spec fn row_rank(by_size: bool) -> spec_fn(RowView) -> RankView {
    |row: RowView|
        if by_size {
            RankView { pinned: row.is_parent, weight: row.size as nat, text: Seq::empty() }
        } else {
            RankView {
                pinned: row.is_parent,
                weight: 0,
                text: crate::text::sort_bytes(row.name),
            }
        }
}

/// Whether a snapshot shows a scan and a listing as of one moment.
pub open spec fn is_snapshot_of(
    snapshot: SnapshotView,
    scan: ScanView,
    entries: Seq<EntryView>,
    by_size: bool,
) -> bool {
    &&& crate::order::stably_sorted(
        shown_rows(entries, scan),
        snapshot.entries,
        row_rank(by_size),
    )
    &&& snapshot == (SnapshotView {
        scanning: scan.scanning,
        files_scanned: scan.files_scanned,
        dirs_scanned: scan.dirs_scanned,
        total_bytes: scan.total_bytes,
        entries: snapshot.entries,
        total_entry_size: crate::model::sizes_sum(entries, scan) as u64,
        top_files: scan.top_files,
        top_dirs: scan.top_dirs,
        top_exts: scan.top_exts,
        deepest: scan.deepest_path,
        scan_start: scan.scan_start,
    })
}

fn copy_sized(list: &Vec<SizedEntry>) -> (r: Vec<SizedEntry>)
    ensures
        crate::top::sized_views(r@) == crate::top::sized_views(list@),
{
    let mut out: Vec<SizedEntry> = Vec::new();
    let mut i: usize = 0;
    while i < list.len()
        invariant
            i <= list@.len(),
            out@.len() == i,
            forall|k: int| 0 <= k < i ==> (#[trigger] out@[k])@ == list@[k]@,
        decreases list@.len() - i,
    {
        out.push(list[i].clone());
        i += 1;
    }
    assert(crate::top::sized_views(out@) =~= crate::top::sized_views(list@));
    out
}

fn copy_stats(list: &Vec<ExtensionStat>) -> (r: Vec<ExtensionStat>)
    ensures
        crate::scan::extension_views(r@) == crate::scan::extension_views(list@),
{
    let mut out: Vec<ExtensionStat> = Vec::new();
    let mut i: usize = 0;
    while i < list.len()
        invariant
            i <= list@.len(),
            out@.len() == i,
            forall|k: int| 0 <= k < i ==> (#[trigger] out@[k])@ == list@[k]@,
        decreases list@.len() - i,
    {
        out.push(list[i].clone());
        i += 1;
    }
    assert(crate::scan::extension_views(out@) =~= crate::scan::extension_views(list@));
    out
}

/// The size to show of a row of a listing.
fn row_size(scan: &ScanState, row: &(String, FsPath, bool, bool, u64)) -> (r: u64)
    ensures
        r == source_view(*row).size_now(scan@),
{
    if row.3 {
        0
    } else if row.2 {
        match scan.get_size(&row.1) {
            Some(size) => size,
            None => 0,
        }
    } else {
        row.4
    }
}

/// Whether the sizes of a listing add up without overflow.
pub fn sizes_fit(scan: &ScanState, entries: &Vec<(String, FsPath, bool, bool, u64)>) -> (r: bool)
    ensures
        r == (crate::model::sizes_sum(source_views(entries@), scan@) <= u64::MAX),
{
    let mut sum: u64 = 0;
    let mut i: usize = 0;
    let ghost views = source_views(entries@);
    while i < entries.len()
        invariant
            i <= entries@.len(),
            views == source_views(entries@),
            sum == crate::model::sizes_sum(views.take(i as int), scan@),
        decreases entries@.len() - i,
    {
        let size: u64 = row_size(scan, &entries[i]);
        assert(views.take(i + 1).drop_last() =~= views.take(i as int));
        assert(views.take(i + 1).last() == source_view(entries@[i as int]));
        if sum > u64::MAX - size {
            proof {
                lemma_sum_grows(views, scan@, i + 1);
            }
            return false;
        }
        sum += size;
        i += 1;
    }
    assert(views.take(views.len() as int) =~= views);
    true
}

pub proof fn lemma_sum_grows(entries: Seq<EntryView>, scan: ScanView, n: int)
    requires
        0 <= n <= entries.len(),
    ensures
        crate::model::sizes_sum(entries.take(n), scan) <= crate::model::sizes_sum(entries, scan),
    decreases entries.len(),
{
    if n == entries.len() {
        assert(entries.take(n) =~= entries);
    } else {
        lemma_sum_grows(entries.drop_last(), scan, n);
        assert(entries.drop_last().take(n) =~= entries.take(n));
    }
}

/// Builds a snapshot from the scan and the listing that the frontend shows,
/// given as tuples of name, path, whether it is a directory, whether it leads
/// to the parent, and file size.
pub fn build_snapshot(
    scan: &ScanState,
    entries: &Vec<(String, FsPath, bool, bool, u64)>,
    sort_by_size: bool,
) -> (r: UiSnapshot)
    requires
        crate::model::sizes_sum(source_views(entries@), scan@) <= u64::MAX,
    ensures
        is_snapshot_of(r@, scan@, source_views(entries@), sort_by_size),
{
    let ghost views = source_views(entries@);
    let ghost before = shown_rows(views, scan@);
    let scanning: bool = scan.is_scanning();
    let mut rows: Vec<EntrySnapshot> = Vec::new();
    let mut ranks: Vec<Rank> = Vec::new();
    let mut total: u64 = 0;
    let mut i: usize = 0;
    while i < entries.len()
        invariant
            i <= entries@.len(),
            views == source_views(entries@),
            before == shown_rows(views, scan@),
            scanning == scan@.scanning,
            rows@.len() == i,
            ranks@.len() == i,
            crate::model::sizes_sum(views, scan@) <= u64::MAX,
            total == crate::model::sizes_sum(views.take(i as int), scan@),
            forall|k: int| 0 <= k < i ==> (#[trigger] rows@[k])@ == before[k],
            forall|k: int|
                0 <= k < i ==> (#[trigger] ranks@[k])@ == row_rank(sort_by_size)(before[k]),
        decreases entries@.len() - i,
    {
        let entry = &entries[i];
        let size: u64 = row_size(scan, entry);
        proof {
            assert(views.take(i + 1).drop_last() =~= views.take(i as int));
            assert(views.take(i + 1).last() == source_view(entries@[i as int]));
            lemma_sum_grows(views, scan@, i + 1);
        }
        total += size;
        rows.push(
            EntrySnapshot {
                name: entry.0.clone(),
                path: entry.1.clone(),
                is_dir: entry.2,
                is_parent: entry.3,
                size,
                scanning: entry.2 && !entry.3 && scanning && !scan.is_completed(&entry.1),
            },
        );
        let rank = if sort_by_size {
            Rank { pinned: entry.3, weight: size, text: Vec::new() }
        } else {
            Rank { pinned: entry.3, weight: 0, text: crate::text::sort_key(entry.0.as_str()) }
        };
        assert(rank@ =~= row_rank(sort_by_size)(before[i as int]));
        ranks.push(rank);
        i += 1;
    }
    assert(views.take(views.len() as int) =~= views);
    let order = crate::order::stable_order(&ranks);
    let ghost at = crate::order::places(order@);
    assert(crate::order::rank_views(ranks@) =~= before.map_values(row_rank(sort_by_size)));
    let mut sorted: Vec<EntrySnapshot> = Vec::new();
    let mut j: usize = 0;
    while j < order.len()
        invariant
            j <= order@.len(),
            at == crate::order::places(order@),
            rows@.len() == before.len(),
            at.len() == before.len(),
            sorted@.len() == j,
            forall|k: int| 0 <= k < before.len() ==> (#[trigger] rows@[k])@ == before[k],
            forall|k: int| 0 <= k < at.len() ==> 0 <= #[trigger] at[k] < before.len(),
            forall|k: int| 0 <= k < j ==> (#[trigger] sorted@[k])@ == before[at[k]],
        decreases order@.len() - j,
    {
        assert(at[j as int] == order@[j as int]);
        sorted.push(rows[order[j]].clone());
        j += 1;
    }
    let r = UiSnapshot {
        scanning,
        files_scanned: scan.files_scanned(),
        dirs_scanned: scan.dirs_scanned,
        total_bytes: scan.total_bytes,
        entries: sorted,
        total_entry_size: total,
        top_files: copy_sized(&scan.top_files),
        top_dirs: copy_sized(&scan.top_dirs),
        top_exts: copy_stats(&scan.top_exts_cache),
        deepest: (scan.deepest_path.0.clone(), scan.deepest_path.1),
        scan_start: scan.scan_start,
    };
    assert(r@.entries =~= crate::order::picked(before, at));
    r
}

/// A snapshot shows every row of the listing once: none is lost, added or
/// doubled.
pub proof fn law_snapshot_permutes(
    snapshot: SnapshotView,
    scan: ScanView,
    entries: Seq<EntryView>,
    by_size: bool,
)
    requires
        is_snapshot_of(snapshot, scan, entries, by_size),
    ensures
        snapshot.entries.len() == entries.len(),
        snapshot.entries.to_multiset() == shown_rows(entries, scan).to_multiset(),
{
    let before = shown_rows(entries, scan);
    let rank = row_rank(by_size);
    crate::order::law_sorting_permutes(before, snapshot.entries, rank);
    let order = choose|order: Seq<int>| #[trigger]
        crate::order::is_stable_order(before.map_values(rank), order) && snapshot.entries
            == crate::order::picked(before, order);
    assert(order.len() == before.len());
}

/// The order that was asked for changes nothing but the order of the rows.
pub proof fn law_order_changes_nothing_else(
    sized: SnapshotView,
    named: SnapshotView,
    scan: ScanView,
    entries: Seq<EntryView>,
)
    requires
        is_snapshot_of(sized, scan, entries, true),
        is_snapshot_of(named, scan, entries, false),
    ensures
        sized.entries.to_multiset() == named.entries.to_multiset(),
        sized == (SnapshotView { entries: sized.entries, ..named }),
{
    law_snapshot_permutes(sized, scan, entries, true);
    law_snapshot_permutes(named, scan, entries, false);
}

/// A snapshot has the row that leads to the parent first, and the rest from the
/// largest to the smallest or with their names in order, as was asked for.
pub proof fn law_snapshot_rows(
    snapshot: SnapshotView,
    scan: ScanView,
    entries: Seq<EntryView>,
    by_size: bool,
    i: int,
    j: int,
)
    requires
        is_snapshot_of(snapshot, scan, entries, by_size),
        0 <= i < j < snapshot.entries.len(),
    ensures
        snapshot.entries[j].is_parent ==> snapshot.entries[i].is_parent,
        by_size && snapshot.entries[i].is_parent == snapshot.entries[j].is_parent
            ==> snapshot.entries[i].size >= snapshot.entries[j].size,
        !by_size && snapshot.entries[i].is_parent == snapshot.entries[j].is_parent
            ==> !crate::order::text_before(
            crate::text::sort_bytes(snapshot.entries[j].name),
            crate::text::sort_bytes(snapshot.entries[i].name),
        ),
{
    let before = shown_rows(entries, scan);
    let rank = row_rank(by_size);
    crate::order::law_sorted_rows_are_in_order(before, snapshot.entries, rank);
    assert(!rank(snapshot.entries[j]).before(rank(snapshot.entries[i])));
}

/// The total of a snapshot counts nothing for the row that leads to the
/// parent, and that row has size 0 and is never being walked.
pub proof fn law_parent_never_inflates(
    snapshot: SnapshotView,
    scan: ScanView,
    entries: Seq<EntryView>,
    by_size: bool,
    i: int,
)
    requires
        is_snapshot_of(snapshot, scan, entries, by_size),
        0 <= i < snapshot.entries.len(),
        crate::model::sizes_sum(entries, scan) <= u64::MAX,
    ensures
        snapshot.total_entry_size == crate::model::sizes_sum(
            entries.filter(|e: EntryView| !e.is_parent),
            scan,
        ),
        snapshot.entries[i].is_parent ==> snapshot.entries[i].size == 0
            && !snapshot.entries[i].scanning,
{
    crate::model::law_parent_row_adds_nothing(entries, scan);
    let before = shown_rows(entries, scan);
    let order = choose|order: Seq<int>| #[trigger]
        crate::order::is_stable_order(before.map_values(row_rank(by_size)), order)
            && snapshot.entries == crate::order::picked(before, order);
    assert(0 <= order[i] < before.len());
    assert(snapshot.entries[i] == before[order[i]]);
}

} // verus!
