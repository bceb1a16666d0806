//! What one walker thread adds to a scan from its start to its end.
use vstd::prelude::*;

use crate::path::PathView;
use crate::scan::ScanView;
use crate::walk::EntryKind;
use crate::walk::ThreadView;
use crate::walk::WalkView;

verus! {

/// Whether a thread that starts with nothing meets `entries` one after the
/// other, through the states `threads`, with the scan in the states `scans`.
pub open spec fn is_life(
    root: PathView,
    entries: Seq<WalkView>,
    threads: Seq<ThreadView>,
    scans: Seq<ScanView>,
) -> bool {
    &&& threads.len() == entries.len() + 1
    &&& scans.len() == entries.len() + 1
    &&& threads[0] == ThreadView::fresh(root)
    &&& forall|i: int|
        0 <= i < entries.len() ==> threads[i].processes(
            scans[i],
            #[trigger] entries[i],
            threads[i + 1],
            scans[i + 1],
            true,
        )
}

/// The file that an entry counts as, with its size: none for a directory, a
/// link, or a file whose inode was counted before.
pub open spec fn counted_file(scan: ScanView, entry: WalkView) -> Option<(PathView, u64)> {
    match entry.kind {
        EntryKind::File { meta } if !crate::walk::is_alias(scan, meta) => Some(
            (
                crate::util::without_unc_prefix(entry.path).at,
                crate::walk::size_of_meta(meta) as u64,
            ),
        ),
        _ => None,
    }
}

/// The files among the first `n` entries that were counted, with their sizes.
pub open spec fn counted_files(
    entries: Seq<WalkView>,
    scans: Seq<ScanView>,
    n: nat,
) -> Seq<(PathView, u64)>
    decreases n,
{
    if n == 0 {
        Seq::empty()
    } else {
        let before = counted_files(entries, scans, (n - 1) as nat);
        match counted_file(scans[n - 1], entries[n - 1]) {
            Some(file) => before.push(file),
            None => before,
        }
    }
}

/// The sum of the sizes of the files that count towards `dir`.
pub open spec fn size_below(files: Seq<(PathView, u64)>, root: PathView, dir: PathView) -> nat
    decreases files.len(),
{
    if files.len() == 0 {
        0
    } else {
        size_below(files.drop_last(), root, dir) + if crate::walk::charges(
            files.last().0,
            root,
            dir,
        ) {
            files.last().1 as nat
        } else {
            0
        }
    }
}

/// The number and the sum of the sizes of the files with an extension.
pub open spec fn with_extension(files: Seq<(PathView, u64)>, ext: Seq<char>) -> (nat, nat)
    decreases files.len(),
{
    if files.len() == 0 {
        (0, 0)
    } else {
        let before = with_extension(files.drop_last(), ext);
        if crate::walk::ext_key(files.last().0) == Some(ext) {
            (before.0 + 1, before.1 + files.last().1 as nat)
        } else {
            before
        }
    }
}

/// What holds of the states in between: what the thread holds and what the
/// scan has from it add up to what was met.
spec fn adds_up(
    root: PathView,
    first: ScanView,
    files: Seq<(PathView, u64)>,
    thread: ThreadView,
    scan: ScanView,
    dir: PathView,
    ext: Seq<char>,
) -> bool {
    &&& thread.root == root
    &&& thread.count == files.len()
    &&& first.files_scanned + files.len() <= u64::MAX ==> scan.files_scanned + thread.count
        % crate::walk::FLUSH_INTERVAL == first.files_scanned + files.len()
    &&& crate::scan::size_in(scan.dir_sizes, dir) + crate::scan::size_in(thread.dir_sizes, dir)
        == crate::scan::size_in(first.dir_sizes, dir) + size_below(files, root, dir)
    &&& crate::scan::stat_in(scan.ext_stats, ext).0 + crate::scan::stat_in(thread.ext_stats, ext).0
        == crate::scan::stat_in(first.ext_stats, ext).0 + with_extension(files, ext).0
    &&& crate::scan::stat_in(scan.ext_stats, ext).1 + crate::scan::stat_in(thread.ext_stats, ext).1
        == crate::scan::stat_in(first.ext_stats, ext).1 + with_extension(files, ext).1
    &&& scan.deepest_path == first.deepest_path
}

/// Meeting an entry, before anything is handed over: as [`adds_up`] has it but
/// for the files of a full interval, which the scan does not have yet.
proof fn lemma_meeting(
    root: PathView,
    first: ScanView,
    files: Seq<(PathView, u64)>,
    thread: ThreadView,
    scan: ScanView,
    entry: WalkView,
    dir: PathView,
    ext: Seq<char>,
)
    requires
        adds_up(root, first, files, thread, scan, dir, ext),
        thread.entry_fits(scan, entry),
    ensures
        ({
            let (met_thread, met_scan) = thread.taken(scan, entry);
            let more = match counted_file(scan, entry) {
                Some(file) => files.push(file),
                None => files,
            };
            &&& thread.is_due(scan, entry) ==> met_thread.count % crate::walk::FLUSH_INTERVAL == 0
                && (first.files_scanned + more.len() <= u64::MAX ==> met_scan.files_scanned
                + crate::walk::FLUSH_INTERVAL == first.files_scanned + more.len())
            &&& !thread.is_due(scan, entry) && first.files_scanned + more.len() <= u64::MAX
                ==> met_scan.files_scanned + met_thread.count % crate::walk::FLUSH_INTERVAL
                == first.files_scanned + more.len()
            &&& met_thread.root == root
            &&& met_thread.count == more.len()
            &&& crate::scan::size_in(met_scan.dir_sizes, dir) + crate::scan::size_in(
                met_thread.dir_sizes,
                dir,
            ) == crate::scan::size_in(first.dir_sizes, dir) + size_below(more, root, dir)
            &&& crate::scan::stat_in(met_scan.ext_stats, ext).0 + crate::scan::stat_in(
                met_thread.ext_stats,
                ext,
            ).0 == crate::scan::stat_in(first.ext_stats, ext).0 + with_extension(more, ext).0
            &&& crate::scan::stat_in(met_scan.ext_stats, ext).1 + crate::scan::stat_in(
                met_thread.ext_stats,
                ext,
            ).1 == crate::scan::stat_in(first.ext_stats, ext).1 + with_extension(more, ext).1
            &&& met_scan.deepest_path == first.deepest_path
        }),
{
    let (met_thread, met_scan) = thread.taken(scan, entry);
    let path = crate::util::without_unc_prefix(entry.path).at;
    match counted_file(scan, entry) {
        Some(file) => {
            let more = files.push(file);
            let len = file.1;
            let interval = crate::walk::FLUSH_INTERVAL as int;
            let count = thread.count as int;
            assert(more.drop_last() =~= files);
            assert((count + 1) % interval == if count % interval == interval - 1 {
                0
            } else {
                count % interval + 1
            });
            let yielded = thread.with_yield(
                crate::util::without_unc_prefix(entry.path),
                entry.depth,
            );
            assert(yielded.dir_sizes == thread.dir_sizes);
            if crate::walk::charges(path, root, dir) {
                assert(crate::scan::size_in(thread.dir_sizes, dir) + len <= u64::MAX);
            }
            assert(crate::scan::size_in(met_thread.dir_sizes, dir) == crate::scan::size_in(
                thread.dir_sizes,
                dir,
            ) + if crate::walk::charges(path, root, dir) {
                len as int
            } else {
                0
            });
        },
        None => {},
    }
}

proof fn lemma_life_adds_up(
    root: PathView,
    entries: Seq<WalkView>,
    threads: Seq<ThreadView>,
    scans: Seq<ScanView>,
    n: nat,
    dir: PathView,
    ext: Seq<char>,
)
    requires
        is_life(root, entries, threads, scans),
        n <= entries.len(),
    ensures
        adds_up(
            root,
            scans[0],
            counted_files(entries, scans, n),
            threads[n as int],
            scans[n as int],
            dir,
            ext,
        ),
    decreases n,
{
    if n > 0 {
        let i = n - 1;
        lemma_life_adds_up(root, entries, threads, scans, i as nat, dir, ext);
        let files = counted_files(entries, scans, i as nat);
        let (thread, scan) = (threads[i], scans[i]);
        let entry = entries[i];
        let (met_thread, met_scan) = thread.taken(scan, entry);
        let (after, after_scan) = (threads[i + 1], scans[i + 1]);
        assert(thread.processes(scan, entry, after, after_scan, true));
        lemma_meeting(root, scans[0], files, thread, scan, entry, dir, ext);
        if thread.is_due(scan, entry) {
            let flushed = choose|flushed: ScanView| #[trigger]
                met_scan.takes(met_thread, flushed) && crate::walk::interval_counted(
                    flushed,
                    met_thread,
                    after_scan,
                );
            lemma_handing_adds(met_scan, met_thread, flushed, dir, ext);
        }
    }
}

pub proof fn lemma_handing_adds(
    scan: ScanView,
    thread: ThreadView,
    flushed: ScanView,
    dir: PathView,
    ext: Seq<char>,
)
    requires
        scan.takes(thread, flushed),
        thread.flush_fits(scan),
        crate::scan::stats_fit(scan.ext_stats, thread.ext_stats),
    ensures
        crate::scan::size_in(flushed.dir_sizes, dir) == crate::scan::size_in(scan.dir_sizes, dir)
            + crate::scan::size_in(thread.dir_sizes, dir),
        ({
            let merged = crate::scan::stats_merged(flushed.ext_stats, thread.ext_stats);
            &&& crate::scan::stat_in(merged, ext).0 == crate::scan::stat_in(scan.ext_stats, ext).0
                + crate::scan::stat_in(thread.ext_stats, ext).0
            &&& crate::scan::stat_in(merged, ext).1 == crate::scan::stat_in(scan.ext_stats, ext).1
                + crate::scan::stat_in(thread.ext_stats, ext).1
        }),
        flushed.files_scanned == scan.files_scanned,
        flushed.deepest_path == scan.deepest_path,
{
    crate::walk::lemma_taking_keeps_the_rest(scan, thread, flushed);
    if thread.dir_sizes.contains_key(dir) {
        assert(crate::scan::size_in(scan.dir_sizes, dir) + thread.dir_sizes[dir] <= u64::MAX);
    }
    if thread.ext_stats.contains_key(ext) {
        assert(crate::scan::stat_in(scan.ext_stats, ext).0 + thread.ext_stats[ext].0 <= u64::MAX);
    }
}

proof fn lemma_deepest_is_kept(
    root: PathView,
    entries: Seq<WalkView>,
    threads: Seq<ThreadView>,
    scans: Seq<ScanView>,
    n: nat,
    i: int,
)
    requires
        is_life(root, entries, threads, scans),
        0 <= i < n <= entries.len(),
        entries[i].kind is Dir,
    ensures
        entries[i].depth <= threads[n as int].deepest.1,
    decreases n,
{
    let last = n - 1;
    assert(threads[last].processes(
        scans[last],
        entries[last],
        threads[last + 1],
        scans[last + 1],
        true,
    ));
    if i < last {
        lemma_deepest_is_kept(root, entries, threads, scans, last as nat, i);
    }
}

/// A thread adds to the scan exactly what it met, and nothing twice: the number
/// of files grows by the files that it counted, the size of every directory by
/// those of them that count towards it, the statistics of every extension by
/// those with that extension; and no directory that it met is deeper than the
/// deepest.
pub proof fn law_thread_adds_what_it_met(
    root: PathView,
    entries: Seq<WalkView>,
    threads: Seq<ThreadView>,
    scans: Seq<ScanView>,
    after: ScanView,
    dir: PathView,
    ext: Seq<char>,
)
    requires
        is_life(root, entries, threads, scans),
        threads.last().flush_fits(scans.last()),
        crate::scan::stats_fit(scans.last().ext_stats, threads.last().ext_stats),
        scans.last().takes_rest(threads.last(), after),
    ensures
        ({
            let first = scans[0];
            let files = counted_files(entries, scans, entries.len());
            &&& first.files_scanned + files.len() <= u64::MAX ==> after.files_scanned
                == first.files_scanned + files.len()
            &&& crate::scan::size_in(after.dir_sizes, dir) == crate::scan::size_in(
                first.dir_sizes,
                dir,
            ) + size_below(files, root, dir)
            &&& crate::scan::stat_in(after.ext_stats, ext).0 == crate::scan::stat_in(
                first.ext_stats,
                ext,
            ).0 + with_extension(files, ext).0
            &&& crate::scan::stat_in(after.ext_stats, ext).1 == crate::scan::stat_in(
                first.ext_stats,
                ext,
            ).1 + with_extension(files, ext).1
            &&& first.deepest_path.1 <= after.deepest_path.1
        }),
        forall|i: int|
            0 <= i < entries.len() && (#[trigger] entries[i]).kind is Dir ==> entries[i].depth
                <= after.deepest_path.1,
{
    let n = entries.len();
    let (thread, scan) = (threads[n as int], scans[n as int]);
    lemma_life_adds_up(root, entries, threads, scans, n, dir, ext);
    let flushed = choose|flushed: ScanView| #[trigger]
        scan.takes(thread, flushed) && after == crate::walk::rest_counted(flushed, thread);
    lemma_handing_adds(scan, thread, flushed, dir, ext);
    assert forall|i: int| 0 <= i < entries.len() && (#[trigger] entries[i]).kind is Dir implies
        entries[i].depth <= after.deepest_path.1 by {
        lemma_deepest_is_kept(root, entries, threads, scans, n, i);
    }
}

/// A thread counts no more files than its counter can hold, and the scan has
/// those of its full intervals.
pub proof fn lemma_count_fits(
    root: PathView,
    entries: Seq<WalkView>,
    threads: Seq<ThreadView>,
    scans: Seq<ScanView>,
    n: nat,
)
    requires
        is_life(root, entries, threads, scans),
        n <= entries.len(),
        scans[0].files_scanned == 0,
    ensures
        counted_files(entries, scans, n).len() <= u64::MAX,
        scans[n as int].files_scanned == counted_files(entries, scans, n).len()
            - counted_files(entries, scans, n).len() % 5000,
{
    let dir = PathView { absolute: true, parts: Seq::empty() };
    lemma_life_adds_up(root, entries, threads, scans, n, dir, Seq::empty());
}

} // verus!
