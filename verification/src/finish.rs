//! What a scan holds when it has ended, and what it keeps on the way.
use vstd::prelude::*;

use crate::path::PathView;
use crate::path::SpelledView;
use crate::scan::ScanView;
use crate::top::SizedView;
use crate::walk::EntryKind;
use crate::walk::ThreadView;
use crate::walk::WalkView;

verus! {

/// Whether a scan goes from one state to the next: a thread meets an entry, or
/// hands over the rest of what it has.
pub open spec fn goes_to(scan: ScanView, next: ScanView) -> bool {
    ||| exists|thread: ThreadView, entry: WalkView, after: ThreadView| #[trigger]
        thread.processes(scan, entry, after, next, true)
    ||| exists|thread: ThreadView|
        thread.flush_fits(scan) && #[trigger] scan.takes_rest(thread, next)
}

/// Whether a scan goes through these states.
pub open spec fn is_course(scans: Seq<ScanView>) -> bool {
    scans.len() > 0 && forall|i: int|
        0 <= i < scans.len() - 1 ==> goes_to(#[trigger] scans[i], scans[i + 1])
}

/// Whether the list of the biggest directories is what `recs` leave in it, each
/// recorded with no more than it has now.
spec fn recorded(scan: ScanView, recs: Seq<SizedView>) -> bool {
    &&& scan.top_dirs == crate::top::dirs_entered(recs)
    &&& scan.top_dirs_min == crate::top::entry_floor(scan.top_dirs)
    &&& crate::top::never_shrinks(recs)
    &&& forall|i: int|
        0 <= i < recs.len() ==> (#[trigger] recs[i]).size <= crate::scan::size_in(
            scan.dir_sizes,
            recs[i].path.at,
        ) && scan.completed.contains(recs[i].path.at)
}

spec fn marks(dirs: Seq<SpelledView>, sizes: Map<PathView, u64>) -> Seq<SizedView> {
    Seq::new(
        dirs.len(),
        |i: int| SizedView { path: dirs[i], size: crate::scan::size_in(sizes, dirs[i].at) },
    )
}

proof fn lemma_marks(
    scan: ScanView,
    recs: Seq<SizedView>,
    dirs: Seq<SpelledView>,
    sizes: Map<PathView, u64>,
)
    requires
        recorded(scan, recs),
        sizes == scan.dir_sizes,
        forall|i: int| 0 <= i < dirs.len() ==> scan.completed.contains((#[trigger] dirs[i]).at),
    ensures
        recorded(scan.with_completed_dirs(dirs, sizes), recs + marks(dirs, sizes)),
        scan.with_completed_dirs(dirs, sizes).dir_sizes == sizes,
        scan.with_completed_dirs(dirs, sizes).completed == scan.completed,
    decreases dirs.len(),
{
    let all = recs + marks(dirs, sizes);
    if dirs.len() == 0 {
        assert(all =~= recs);
    } else {
        let rest = dirs.drop_last();
        assert forall|i: int| 0 <= i < rest.len() implies scan.completed.contains(
            (#[trigger] rest[i]).at,
        ) by {
            assert(rest[i] == dirs[i]);
        }
        assert(scan.completed.contains(dirs[dirs.len() - 1].at));
        lemma_marks(scan, recs, rest, sizes);
        let before = recs + marks(rest, sizes);
        assert(all.drop_last() =~= before);
        assert(all.last() == (SizedView {
            path: dirs.last(),
            size: crate::scan::size_in(sizes, dirs.last().at),
        }));
        assert forall|i: int, j: int|
            0 <= i < j < all.len() && (#[trigger] all[i]).path.at == (
            #[trigger] all[j]).path.at implies all[i].size <= all[j].size by {
            assert(before[i] == all[i]);
            if j < before.len() {
                assert(before[j] == all[j]);
            }
        }
        assert forall|i: int| 0 <= i < all.len() implies (#[trigger] all[i]).size
            <= crate::scan::size_in(sizes, all[i].path.at) && scan.completed.contains(
            all[i].path.at,
        ) by {
            if i < before.len() {
                assert(before[i] == all[i]);
            }
        }
    }
}

proof fn lemma_places_are_marked(completed: Set<PathView>, dirs: Seq<SpelledView>)
    ensures
        forall|i: int|
            0 <= i < dirs.len() ==> completed.union(
                crate::path::places(dirs).to_set(),
            ).contains((#[trigger] dirs[i]).at),
{
    let places = crate::path::places(dirs);
    assert forall|i: int| 0 <= i < dirs.len() implies completed.union(places.to_set()).contains(
        (#[trigger] dirs[i]).at,
    ) by {
        assert(places[i] == dirs[i].at);
        assert(places.contains(places[i]));
    }
}

proof fn lemma_taking_records(
    scan: ScanView,
    recs: Seq<SizedView>,
    thread: ThreadView,
    after: ScanView,
) -> (more: Seq<SizedView>)
    requires
        recorded(scan, recs),
        thread.flush_fits(scan),
        scan.takes(thread, after),
    ensures
        recorded(after, more),
{
    let done = choose|done: Seq<SpelledView>| #[trigger] scan.takes_batch(thread, done, after);
    let base = ScanView {
        dir_sizes: crate::walk::sizes_added(scan.dir_sizes, thread.dir_sizes),
        size_names: thread.size_names.union_prefer_right(scan.size_names),
        dir_completion: after.dir_completion,
        ..scan
    };
    let marked = ScanView {
        completed: base.completed.union(crate::path::places(done).to_set()),
        ..base
    };
    assert forall|i: int| 0 <= i < recs.len() implies (#[trigger] recs[i]).size
        <= crate::scan::size_in(marked.dir_sizes, recs[i].path.at) && marked.completed.contains(
        recs[i].path.at,
    ) by {
        let dir = recs[i].path.at;
        if thread.dir_sizes.contains_key(dir) {
            assert(crate::scan::size_in(scan.dir_sizes, dir) + thread.dir_sizes[dir]
                <= u64::MAX);
        }
    }
    lemma_places_are_marked(base.completed, done);
    lemma_marks(marked, recs, done, base.dir_sizes);
    recs + marks(done, base.dir_sizes)
}

#[verifier::spinoff_prover]
proof fn lemma_step_records(scan: ScanView, recs: Seq<SizedView>, next: ScanView) -> (more: Seq<
    SizedView,
>)
    requires
        recorded(scan, recs),
        goes_to(scan, next),
    ensures
        recorded(next, more),
{
    if exists|thread: ThreadView, entry: WalkView, after: ThreadView| #[trigger]
        thread.processes(scan, entry, after, next, true) {
        let (thread, entry, after) = choose|
            thread: ThreadView,
            entry: WalkView,
            after: ThreadView,
        | #[trigger]
            thread.processes(scan, entry, after, next, true);
        let (met_thread, met) = thread.taken(scan, entry);
        assert(met.top_dirs == scan.top_dirs && met.top_dirs_min == scan.top_dirs_min
            && met.dir_sizes == scan.dir_sizes && met.completed == scan.completed);
        assert(recorded(met, recs));
        if thread.is_due(scan, entry) {
            let flushed = choose|flushed: ScanView| #[trigger]
                met.takes(met_thread, flushed) && crate::walk::interval_counted(
                    flushed,
                    met_thread,
                    next,
                );
            lemma_taking_records(met, recs, met_thread, flushed)
        } else {
            recs
        }
    } else {
        let thread = choose|thread: ThreadView|
            thread.flush_fits(scan) && #[trigger] scan.takes_rest(thread, next);
        let flushed = choose|flushed: ScanView| #[trigger]
            scan.takes(thread, flushed) && next == crate::walk::rest_counted(flushed, thread);
        lemma_taking_records(scan, recs, thread, flushed)
    }
}

proof fn lemma_course_records(scans: Seq<ScanView>, n: nat) -> (recs: Seq<SizedView>)
    requires
        is_course(scans),
        n < scans.len(),
        scans[0].top_dirs.len() == 0,
        scans[0].top_dirs_min == 0,
    ensures
        recorded(scans[n as int], recs),
    decreases n,
{
    if n == 0 {
        let recs = Seq::<SizedView>::empty();
        assert(scans[0].top_dirs =~= recs);
        recs
    } else {
        let recs = lemma_course_records(scans, (n - 1) as nat);
        assert(goes_to(scans[n - 1], scans[n - 1 + 1]));
        lemma_step_records(scans[n - 1], recs, scans[n as int])
    }
}

proof fn lemma_last_of_marks(
    recs: Seq<SizedView>,
    dirs: Seq<SpelledView>,
    sizes: Map<PathView, u64>,
    path: PathView,
)
    requires
        forall|i: int|
            0 <= i < recs.len() ==> (#[trigger] recs[i]).size <= crate::scan::size_in(
                sizes,
                recs[i].path.at,
            ),
    ensures
        crate::path::places(dirs).contains(path) ==> crate::top::last_recorded(
            recs + marks(dirs, sizes),
            path,
        ) == crate::scan::size_in(sizes, path),
        crate::top::last_recorded(recs + marks(dirs, sizes), path) <= crate::scan::size_in(
            sizes,
            path,
        ),
    decreases recs.len() + dirs.len(),
{
    let all = recs + marks(dirs, sizes);
    if dirs.len() > 0 {
        let rest = dirs.drop_last();
        lemma_last_of_marks(recs, rest, sizes, path);
        assert(all.drop_last() =~= recs + marks(rest, sizes));
        assert(crate::path::places(rest) =~= crate::path::places(dirs).drop_last());
        if crate::path::places(dirs).contains(path) && dirs.last().at != path {
            let k = choose|k: int|
                0 <= k < crate::path::places(dirs).len() && crate::path::places(dirs)[k] == path;
            assert(crate::path::places(rest)[k] == path);
        }
    } else if recs.len() > 0 {
        assert(all =~= recs);
        let rest = recs.drop_last();
        assert forall|i: int| 0 <= i < rest.len() implies (#[trigger] rest[i]).size
            <= crate::scan::size_in(sizes, rest[i].path.at) by {
            assert(rest[i] == recs[i]);
        }
        lemma_last_of_marks(rest, dirs, sizes, path);
        assert(rest + marks(dirs, sizes) =~= all.drop_last());
    }
}

/// A scan that has ended by itself lists the ten biggest directories, or all
/// that have a size where these are fewer: each once, from the largest to the
/// smallest, with the bytes that the scan has for it, and none that is left out
/// has more than one that is listed.
#[verifier::spinoff_prover]
pub proof fn law_ended_scan_lists_the_biggest(scans: Seq<ScanView>, after: ScanView)
    requires
        is_course(scans),
        scans[0].top_dirs.len() == 0,
        scans[0].top_dirs_min == 0,
        !scans.last().cancel,
        scans.last().ends_as(after),
    ensures
        ({
            let list = after.top_dirs;
            let sizes = after.dir_sizes;
            &&& sizes == scans.last().dir_sizes
            &&& list.len() <= 10
            &&& forall|i: int|
                0 <= i < list.len() ==> (#[trigger] list[i]).size > 0 && sizes.contains_key(
                    list[i].path.at,
                ) && list[i].size == sizes[list[i].path.at]
            &&& forall|i: int, j: int|
                0 <= i < j < list.len() ==> (#[trigger] list[i]).size >= (#[trigger] list[j]).size
                    && list[i].path.at != list[j].path.at
            &&& forall|dir: PathView| #[trigger]
                sizes.contains_key(dir) && !crate::top::lists_path(list, dir) ==> if list.len()
                    < 10 {
                    sizes[dir] == 0
                } else {
                    forall|i: int| 0 <= i < 10 ==> sizes[dir] <= (#[trigger] list[i]).size
                }
        }),
{
    let scan = scans.last();
    let recs = lemma_course_records(scans, (scans.len() - 1) as nat);
    let dirs = choose|dirs: Seq<SpelledView>| #[trigger] scan.ends_with_marks(dirs, after);
    let marked = ScanView {
        completed: scan.completed.union(crate::path::places(dirs).to_set()),
        ..scan
    };
    assert(recorded(marked, recs));
    lemma_places_are_marked(scan.completed, dirs);
    lemma_marks(marked, recs, dirs, scan.dir_sizes);
    let all = recs + marks(dirs, scan.dir_sizes);
    crate::top::law_dirs_hold_the_largest(all);
    let list = after.top_dirs;
    let sizes = after.dir_sizes;
    assert(list == crate::top::dirs_entered(all));
    assert forall|i: int| 0 <= i < list.len() implies (#[trigger] list[i]).size > 0
        && sizes.contains_key(list[i].path.at) && list[i].size == sizes[list[i].path.at] by {
        let dir = list[i].path.at;
        lemma_last_of_marks(recs, dirs, sizes, dir);
        assert(sizes.contains_key(dir));
        assert(crate::path::places(dirs).to_set().contains(dir));
        assert(crate::path::places(dirs).contains(dir));
    }
    assert forall|dir: PathView| #[trigger]
        sizes.contains_key(dir) && !crate::top::lists_path(list, dir) implies if list.len() < 10 {
        sizes[dir] == 0
    } else {
        forall|i: int| 0 <= i < 10 ==> sizes[dir] <= (#[trigger] list[i]).size
    } by {
        lemma_last_of_marks(recs, dirs, sizes, dir);
        assert(crate::path::places(dirs).to_set().contains(dir));
        assert(crate::path::places(dirs).contains(dir));
        assert(crate::top::last_recorded(all, dir) <= crate::top::entry_floor(list));
        if list.len() >= 10 {
            assert forall|i: int| 0 <= i < 10 implies sizes[dir] <= (#[trigger] list[i]).size by {
                assert(list[i].size >= list[list.len() - 1].size);
            }
        }
    }
}

/// At any time the biggest directories that are listed are completed ones, at
/// most ten, each once, from the largest to the smallest, and none with more
/// bytes than the scan has for it.
pub proof fn law_listed_directories_are_completed(scans: Seq<ScanView>)
    requires
        is_course(scans),
        scans[0].top_dirs.len() == 0,
        scans[0].top_dirs_min == 0,
    ensures
        ({
            let scan = scans.last();
            let list = scan.top_dirs;
            &&& list.len() <= 10
            &&& forall|i: int|
                0 <= i < list.len() ==> (#[trigger] list[i]).size > 0 && scan.completed.contains(
                    list[i].path.at,
                ) && scan.dir_sizes.contains_key(list[i].path.at) && list[i].size
                    <= scan.dir_sizes[list[i].path.at]
            &&& forall|i: int, j: int|
                0 <= i < j < list.len() ==> (#[trigger] list[i]).size >= (#[trigger] list[j]).size
                    && list[i].path.at != list[j].path.at
        }),
{
    let scan = scans.last();
    let list = scan.top_dirs;
    let recs = lemma_course_records(scans, (scans.len() - 1) as nat);
    crate::top::law_dirs_hold_the_largest(recs);
    assert forall|i: int| 0 <= i < list.len() implies (#[trigger] list[i]).size > 0
        && scan.completed.contains(list[i].path.at) && scan.dir_sizes.contains_key(
        list[i].path.at,
    ) && list[i].size <= scan.dir_sizes[list[i].path.at] by {
        crate::top::lemma_recorded_is_met(recs, list[i].path.at);
    }
}

/// An ended scan runs no more and keeps what it counted. By itself it has every
/// directory completed that it has a size for; told to stop, none more than
/// before. It lists the fifteen extensions with the most bytes, or all where
/// these are fewer, each with its number of files and its bytes.
pub proof fn law_ended_scan_keeps_its_counts(scan: ScanView, after: ScanView)
    requires
        scan.ends_as(after),
    ensures
        !after.scanning,
        after == (ScanView {
            scanning: false,
            completed: after.completed,
            top_dirs: after.top_dirs,
            top_dirs_min: after.top_dirs_min,
            top_exts: after.top_exts,
            ..scan
        }),
        scan.cancel ==> after.completed == scan.completed && after.top_dirs == scan.top_dirs,
        !scan.cancel ==> forall|dir: PathView| #[trigger]
            after.completed.contains(dir) <==> scan.completed.contains(dir)
                || scan.dir_sizes.contains_key(dir),
        ({
            let rows = after.top_exts;
            let stats = scan.ext_stats;
            &&& rows.len() == if stats.dom().len() < 15 {
                stats.dom().len()
            } else {
                15
            }
            &&& forall|i: int|
                0 <= i < rows.len() ==> stats.contains_key((#[trigger] rows[i]).extension)
                    && rows[i].count == stats[rows[i].extension].0 && rows[i].total_size
                    == stats[rows[i].extension].1
            &&& forall|i: int, j: int|
                0 <= i < j < rows.len() ==> (#[trigger] rows[i]).extension != (
                #[trigger] rows[j]).extension && rows[i].total_size >= rows[j].total_size
            &&& forall|ext: Seq<char>, k: int|
                #![trigger stats.contains_key(ext), rows[k]]
                stats.contains_key(ext) && 0 <= k < rows.len() && (forall|j: int|
                    0 <= j < rows.len() ==> (#[trigger] rows[j]).extension != ext)
                    ==> stats[ext].1 <= rows[k].total_size
        }),
{
    let dirs = choose|dirs: Seq<SpelledView>| #[trigger] scan.ends_with_marks(dirs, after);
    crate::walk::lemma_marking_keeps_the_rest(scan, dirs);
    let places = crate::path::places(dirs);
    if scan.cancel {
        if dirs.len() > 0 {
            assert(places.to_set().contains(places[0]));
        }
        assert(after.completed =~= scan.completed);
        assert(scan.with_marked(dirs).top_dirs == scan.top_dirs);
    }
    assert forall|dir: PathView| !scan.cancel implies (#[trigger] after.completed.contains(dir)
        <==> scan.completed.contains(dir) || scan.dir_sizes.contains_key(dir)) by {
        assert(places.to_set().contains(dir) <==> scan.marked_at_end().contains(dir));
    }
}

/// What a thread meets and hands over never takes back what the scan has: no
/// directory loses bytes, its completion or its spelling, no counter of directories or bytes
/// and no seen inode is lost, and a scan that is told to stop stays told.
pub proof fn law_course_takes_nothing_back(scan: ScanView, next: ScanView, dir: PathView)
    requires
        goes_to(scan, next),
    ensures
        scan.dir_sizes.contains_key(dir) ==> next.dir_sizes.contains_key(dir)
            && scan.dir_sizes[dir] <= next.dir_sizes[dir],
        scan.completed.contains(dir) ==> next.completed.contains(dir),
        scan.size_names.contains_key(dir) ==> next.size_names.contains_key(dir)
            && next.size_names[dir] == scan.size_names[dir],
        scan.seen_inodes.subset_of(next.seen_inodes),
        scan.deepest_depth <= next.deepest_depth,
        scan.deepest_path.1 <= next.deepest_path.1,
        scan.deepest_path.1 == next.deepest_path.1 ==> next.deepest_path == scan.deepest_path,
        next.scanning == scan.scanning,
        next.cancel == scan.cancel,
        next.scan_start == scan.scan_start,
{
    if exists|thread: ThreadView, entry: WalkView, after: ThreadView| #[trigger]
        thread.processes(scan, entry, after, next, true) {
        let (thread, entry, after) = choose|
            thread: ThreadView,
            entry: WalkView,
            after: ThreadView,
        | #[trigger]
            thread.processes(scan, entry, after, next, true);
        let (met_thread, met) = thread.taken(scan, entry);
        if thread.is_due(scan, entry) {
            let flushed = choose|flushed: ScanView| #[trigger]
                met.takes(met_thread, flushed) && crate::walk::interval_counted(
                    flushed,
                    met_thread,
                    next,
                );
            lemma_taking_grows(met, met_thread, flushed, dir);
        }
    } else {
        let thread = choose|thread: ThreadView|
            thread.flush_fits(scan) && #[trigger] scan.takes_rest(thread, next);
        let flushed = choose|flushed: ScanView| #[trigger]
            scan.takes(thread, flushed) && next == crate::walk::rest_counted(flushed, thread);
        lemma_taking_grows(scan, thread, flushed, dir);
    }
}

proof fn lemma_taking_grows(scan: ScanView, thread: ThreadView, after: ScanView, dir: PathView)
    requires
        scan.takes(thread, after),
        thread.flush_fits(scan),
    ensures
        scan.dir_sizes.contains_key(dir) ==> after.dir_sizes.contains_key(dir)
            && scan.dir_sizes[dir] <= after.dir_sizes[dir],
        scan.completed.contains(dir) ==> after.completed.contains(dir),
        scan.size_names.contains_key(dir) ==> after.size_names.contains_key(dir)
            && after.size_names[dir] == scan.size_names[dir],
        after.seen_inodes == scan.seen_inodes,
        after.deepest_depth == scan.deepest_depth,
        after.deepest_path == scan.deepest_path,
        after.scanning == scan.scanning,
        after.cancel == scan.cancel,
        after.scan_start == scan.scan_start,
{
    crate::walk::lemma_taking_keeps_the_rest(scan, thread, after);
    let done = choose|done: Seq<SpelledView>| #[trigger] scan.takes_batch(thread, done, after);
    let base = ScanView {
        dir_sizes: crate::walk::sizes_added(scan.dir_sizes, thread.dir_sizes),
        size_names: thread.size_names.union_prefer_right(scan.size_names),
        dir_completion: after.dir_completion,
        ..scan
    };
    crate::walk::lemma_marking_keeps_the_rest(base, done);
    if thread.dir_sizes.contains_key(dir) {
        assert(crate::scan::size_in(scan.dir_sizes, dir) + thread.dir_sizes[dir] <= u64::MAX);
    }
}

/// An entry is turned down for want of room only where a counter is near its
/// limit: with room for one more file of its bytes in each, it is met.
pub proof fn law_entry_finds_room(thread: ThreadView, scan: ScanView, entry: WalkView)
    requires
        crate::census::disk_bytes(entry) <= u64::MAX,
        thread.count < u64::MAX,
        forall|dir: PathView| #[trigger]
            thread.dir_sizes.contains_key(dir) ==> thread.dir_sizes[dir]
                + crate::census::disk_bytes(entry) <= u64::MAX,
        forall|ext: Seq<char>| #[trigger]
            thread.ext_stats.contains_key(ext) ==> thread.ext_stats[ext].0 < u64::MAX
                && thread.ext_stats[ext].1 + crate::census::disk_bytes(entry) <= u64::MAX,
        forall|dir: PathView| #[trigger]
            thread.yielded.contains_key(dir) ==> thread.yielded[dir] < usize::MAX,
    ensures
        thread.entry_fits(scan, entry),
{
}

/// What a thread has is turned down for want of room only where a counter of
/// the scan is near its limit.
pub proof fn law_batch_finds_room(thread: ThreadView, scan: ScanView, most: nat)
    requires
        forall|dir: PathView| #[trigger]
            thread.dir_sizes.contains_key(dir) && scan.dir_sizes.contains_key(dir)
                ==> thread.dir_sizes[dir] + scan.dir_sizes[dir] <= u64::MAX,
        forall|dir: PathView| #[trigger]
            thread.yielded.contains_key(dir) ==> thread.yielded[dir] <= most,
        forall|dir: PathView| #[trigger]
            scan.dir_completion.contains_key(dir) ==> scan.dir_completion[dir].0 <= most,
        most + most + scan.dir_completion.dom().len() + thread.listed.len()
            + thread.yielded.dom().len() < usize::MAX,
    ensures
        thread.flush_fits(scan),
{
}

/// The deepest directory that a thread hands over is the first of the deepest
/// that it met.
pub proof fn law_deepest_was_met(
    root: PathView,
    entries: Seq<WalkView>,
    threads: Seq<ThreadView>,
    scans: Seq<ScanView>,
    after: ScanView,
)
    requires
        crate::life::is_life(root, entries, threads, scans),
        scans[0].deepest_path.1 == 0,
        scans.last().takes_rest(threads.last(), after),
    ensures
        forall|i: int|
            0 <= i < entries.len() && (#[trigger] entries[i]).kind is Dir ==> entries[i].depth
                <= after.deepest_path.1,
        after.deepest_path.1 > 0 ==> exists|i: int|
            0 <= i < entries.len() && is_deepest(
                entries,
                entries.len() as int,
                i,
                after.deepest_path,
            ),
{
    let n = entries.len();
    lemma_deepest(root, entries, threads, scans, n);
    let (thread, scan) = (threads[n as int], scans[n as int]);
    let flushed = choose|flushed: ScanView| #[trigger]
        scan.takes(thread, flushed) && after == crate::walk::rest_counted(flushed, thread);
    crate::walk::lemma_taking_keeps_the_rest(scan, thread, flushed);
}

/// Whether the entry at place `i` is the first of the deepest directories among
/// the first `n`.
pub open spec fn is_deepest(
    entries: Seq<WalkView>,
    n: int,
    i: int,
    deepest: (SpelledView, usize),
) -> bool {
    &&& entries[i].kind is Dir
    &&& deepest == (crate::census::place(entries[i]), entries[i].depth)
    &&& forall|k: int|
        0 <= k < i && (#[trigger] entries[k]).kind is Dir ==> entries[k].depth < entries[i].depth
    &&& forall|k: int|
        0 <= k < n && (#[trigger] entries[k]).kind is Dir ==> entries[k].depth <= entries[i].depth
}

#[verifier::spinoff_prover]
proof fn lemma_deepest(
    root: PathView,
    entries: Seq<WalkView>,
    threads: Seq<ThreadView>,
    scans: Seq<ScanView>,
    n: nat,
)
    requires
        crate::life::is_life(root, entries, threads, scans),
        scans[0].deepest_path.1 == 0,
        n <= entries.len(),
    ensures
        scans[n as int].deepest_path.1 == 0,
        forall|i: int|
            0 <= i < n && (#[trigger] entries[i]).kind is Dir ==> entries[i].depth
                <= threads[n as int].deepest.1,
        threads[n as int].deepest.1 > 0 ==> exists|i: int|
            0 <= i < n && is_deepest(entries, n as int, i, threads[n as int].deepest),
    decreases n,
{
    if n > 0 {
        let last = n - 1;
        lemma_deepest(root, entries, threads, scans, last as nat);
        let (thread, scan) = (threads[last], scans[last]);
        let (after, after_scan) = (threads[last + 1], scans[last + 1]);
        assert(thread.processes(scan, entries[last], after, after_scan, true));
        let (met_thread, met) = thread.taken(scan, entries[last]);
        if thread.is_due(scan, entries[last]) {
            let flushed = choose|flushed: ScanView| #[trigger]
                met.takes(met_thread, flushed) && crate::walk::interval_counted(
                    flushed,
                    met_thread,
                    after_scan,
                );
            crate::walk::lemma_taking_keeps_the_rest(met, met_thread, flushed);
        }
        if after.deepest.1 > 0 {
            if after.deepest == thread.deepest {
                let i = choose|i: int|
                    0 <= i < last && is_deepest(entries, last, i, thread.deepest);
                assert(is_deepest(entries, n as int, i, after.deepest));
            } else {
                assert(is_deepest(entries, n as int, last, after.deepest));
            }
        }
    }
}

/// A directory keeps the spelling that it was first met with, and that is the
/// beginning of the path of a file below it.
pub proof fn law_first_spelling_stays(
    thread: ThreadView,
    scan: ScanView,
    entry: WalkView,
    dir: PathView,
)
    requires
        crate::census::place(entry).at == crate::path::path_of(crate::census::place(entry).bytes),
    ensures
        ({
            let after = thread.taken(scan, entry).0;
            &&& thread.size_names.contains_key(dir) ==> after.size_names.contains_key(dir)
                && after.size_names[dir] == thread.size_names[dir]
            &&& !thread.size_names.contains_key(dir) && after.size_names.contains_key(dir) ==> {
                &&& after.size_names[dir].at == dir
                &&& crate::path::path_of(after.size_names[dir].bytes) == dir
                &&& after.size_names[dir].bytes.is_prefix_of(crate::census::place(entry).bytes)
            }
            &&& after.size_names.contains_key(dir) && !thread.size_names.contains_key(dir)
                ==> after.dir_sizes.contains_key(dir)
        }),
{
    let after = thread.taken(scan, entry).0;
    if !thread.size_names.contains_key(dir) && after.size_names.contains_key(dir) {
        crate::path::law_way_up_passes_each_directory(crate::census::place(entry), dir);
    }
}

/// A path that has a spelling keeps it; else it takes the one it is met with.
pub proof fn law_spelling_is_kept(
    names: Map<PathView, SpelledView>,
    path: SpelledView,
    other: PathView,
)
    ensures
        ({
            let after = crate::scan::name_kept(names, path);
            &&& names.contains_key(other) ==> after.contains_key(other) && after[other]
                == names[other]
            &&& !names.contains_key(path.at) ==> after.contains_key(path.at) && after[path.at]
                == path
            &&& other != path.at ==> (after.contains_key(other) <==> names.contains_key(other))
        }),
{
}

/// Statistics are turned down for want of room only where a number of files or
/// of bytes would overflow; merged, each extension has the sum of both.
pub proof fn law_statistics_add_up(
    stats: Map<Seq<char>, (u64, u64)>,
    more: Map<Seq<char>, (u64, u64)>,
    ext: Seq<char>,
)
    requires
        forall|e: Seq<char>| #[trigger]
            stats.contains_key(e) && more.contains_key(e) ==> stats[e].0 + more[e].0 <= u64::MAX
                && stats[e].1 + more[e].1 <= u64::MAX,
    ensures
        crate::scan::stats_fit(stats, more),
        ({
            let all = crate::scan::stats_merged(stats, more);
            &&& all.contains_key(ext) <==> stats.contains_key(ext) || more.contains_key(ext)
            &&& stats.contains_key(ext) && more.contains_key(ext) ==> all[ext].0 == stats[ext].0
                + more[ext].0 && all[ext].1 == stats[ext].1 + more[ext].1
            &&& stats.contains_key(ext) && !more.contains_key(ext) ==> all[ext] == stats[ext]
            &&& !stats.contains_key(ext) && more.contains_key(ext) ==> all[ext] == more[ext]
        }),
{
}

/// Each completed directory counts towards the one that it is in, once, and the
/// root towards none.
pub proof fn law_children_are_counted_once(
    a: Seq<PathView>,
    b: Seq<PathView>,
    one: PathView,
    root: PathView,
    dir: PathView,
)
    ensures
        crate::completion::children_done(a + b, root, dir) == crate::completion::children_done(a, root, dir) + crate::completion::children_done(
            b,
            root,
            dir,
        ),
        crate::completion::children_done(seq![one], root, dir) == if one != root && one.parts.len() > 0
            && one.absolute == dir.absolute && one.parts.drop_last() == dir.parts {
            1nat
        } else {
            0nat
        },
    decreases b.len(),
{
    assert(seq![one].drop_last() =~= Seq::<PathView>::empty());
    assert(crate::completion::children_done(seq![one].drop_last(), root, dir) == 0);
    if b.len() == 0 {
        assert(a + b =~= a);
    } else {
        law_children_are_counted_once(a, b.drop_last(), one, root, dir);
        assert((a + b).drop_last() =~= a + b.drop_last());
        assert((a + b).last() == b.last());
    }
}

/// What is known of a directory's number of entries is what was listed last;
/// what was accounted for before stays, and a batch adds to it.
pub proof fn law_tally_adds_up(
    tally: Map<PathView, (usize, usize)>,
    listed: Seq<(PathView, usize)>,
    dir: PathView,
    expected: usize,
    batch: Map<PathView, usize>,
    other: PathView,
)
    requires
        crate::completion::yields(tally, other) + crate::completion::batch_count(batch, other) <= usize::MAX,
    ensures
        ({
            let known = crate::completion::registered(tally, listed.push((dir, expected)));
            let before = crate::completion::registered(tally, listed);
            &&& known.contains_key(dir)
            &&& known[dir].1 == expected
            &&& known[dir].0 == if before.contains_key(dir) {
                before[dir].0
            } else {
                0
            }
            &&& other != dir ==> (known.contains_key(other) <==> before.contains_key(other)) && (
            before.contains_key(other) ==> known[other] == before[other])
        }),
        ({
            let after = crate::completion::accounted(tally, batch);
            &&& after.contains_key(other) <==> tally.contains_key(other) || batch.contains_key(
                other,
            )
            &&& tally.contains_key(other) && batch.contains_key(other) ==> after[other].0
                == tally[other].0 + batch[other] && after[other].1 == tally[other].1
            &&& tally.contains_key(other) && !batch.contains_key(other) ==> after[other]
                == tally[other]
            &&& !tally.contains_key(other) && batch.contains_key(other) ==> after[other] == (
                batch[other],
                usize::MAX,
            )
        }),
{
    assert(listed.push((dir, expected)).drop_last() =~= listed);
}

} // verus!
