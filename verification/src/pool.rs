//! What several threads count together, told from the entries that they meet.
use vstd::prelude::*;

use crate::path::PathView;
use crate::scan::ScanView;
use crate::walk::EntryKind;
use crate::walk::ThreadView;
use crate::walk::WalkView;

verus! {

/// Whether threads that begin at `root` meet `entries` one after the other, the
/// entry at each place by the thread that `who` names, with the threads and the
/// scan in these states.
pub open spec fn is_pool_walk(
    root: PathView,
    entries: Seq<WalkView>,
    who: Seq<int>,
    pools: Seq<Seq<ThreadView>>,
    scans: Seq<ScanView>,
) -> bool {
    &&& who.len() == entries.len()
    &&& pools.len() == entries.len() + 1
    &&& scans.len() == entries.len() + 1
    &&& forall|t: int| 0 <= t < pools[0].len() ==> #[trigger] pools[0][t] == ThreadView::fresh(root)
    &&& forall|i: int|
        0 <= i < entries.len() ==> 0 <= who[i] < pools[i].len() && pools[i][who[i]].processes(
            scans[i],
            #[trigger] entries[i],
            pools[i + 1][who[i]],
            scans[i + 1],
            true,
        ) && pools[i + 1] == pools[i].update(who[i], pools[i + 1][who[i]])
}

/// Whether the threads of a pool then hand over the rest of what they have, one
/// after the other, with the scan in these states.
pub open spec fn hands_over(pool: Seq<ThreadView>, scans: Seq<ScanView>) -> bool {
    &&& scans.len() == pool.len() + 1
    &&& forall|t: int|
        0 <= t < pool.len() ==> (#[trigger] pool[t]).flush_fits(scans[t])
            && crate::scan::stats_fit(scans[t].ext_stats, pool[t].ext_stats)
            && scans[t].takes_rest(pool[t], scans[t + 1])
}

/// The sum of what each thread of a pool has.
spec fn pool_sum(pool: Seq<ThreadView>, share: spec_fn(ThreadView) -> nat) -> nat
    decreases pool.len(),
{
    if pool.len() == 0 {
        0
    } else {
        pool_sum(pool.drop_last(), share) + share(pool.last())
    }
}

proof fn lemma_pool_update(
    pool: Seq<ThreadView>,
    t: int,
    thread: ThreadView,
    share: spec_fn(ThreadView) -> nat,
)
    requires
        0 <= t < pool.len(),
    ensures
        pool_sum(pool.update(t, thread), share) + share(pool[t]) == pool_sum(pool, share) + share(
            thread,
        ),
    decreases pool.len(),
{
    let after = pool.update(t, thread);
    if t < pool.len() - 1 {
        lemma_pool_update(pool.drop_last(), t, thread, share);
        assert(after.drop_last() =~= pool.drop_last().update(t, thread));
    } else {
        assert(after.drop_last() =~= pool.drop_last());
    }
}

proof fn lemma_pool_of_none(pool: Seq<ThreadView>, share: spec_fn(ThreadView) -> nat)
    requires
        forall|t: int| 0 <= t < pool.len() ==> share(#[trigger] pool[t]) == 0,
    ensures
        pool_sum(pool, share) == 0,
    decreases pool.len(),
{
    if pool.len() > 0 {
        let rest = pool.drop_last();
        assert(share(pool[pool.len() - 1]) == 0);
        assert forall|t: int| 0 <= t < rest.len() implies share(#[trigger] rest[t]) == 0 by {
            assert(rest[t] == pool[t]);
        }
        lemma_pool_of_none(rest, share);
    }
}

/// Files that a thread has not handed over yet.
spec fn files_of() -> spec_fn(ThreadView) -> nat {
    |t: ThreadView| (t.count % 5000) as nat
}

spec fn size_of(dir: PathView) -> spec_fn(ThreadView) -> nat {
    |t: ThreadView| crate::scan::size_in(t.dir_sizes, dir) as nat
}

spec fn number_of(ext: Seq<char>) -> spec_fn(ThreadView) -> nat {
    |t: ThreadView| crate::scan::stat_in(t.ext_stats, ext).0 as nat
}

spec fn bytes_of(ext: Seq<char>) -> spec_fn(ThreadView) -> nat {
    |t: ThreadView| crate::scan::stat_in(t.ext_stats, ext).1 as nat
}

/// What the entry at place `n` adds: files, bytes below `dir`, files and bytes
/// with the extension `ext`.
spec fn added(
    root: PathView,
    entries: Seq<WalkView>,
    n: int,
    dir: PathView,
    ext: Seq<char>,
) -> (nat, nat, nat, nat) {
    let bytes = crate::census::disk_bytes(entries[n]);
    let at = crate::census::place(entries[n]).at;
    if !crate::census::counts(entries, n) {
        (0, 0, 0, 0)
    } else {
        let has = crate::census::has_extension(at, ext);
        (
            1,
            if crate::census::is_within(dir, root) && crate::census::goes_below(at, dir) {
                bytes
            } else {
                0
            },
            if has {
                1
            } else {
                0
            },
            if has {
                bytes
            } else {
                0
            },
        )
    }
}

/// What a thread and the scan have together grows by what the entry adds.
#[verifier::spinoff_prover]
proof fn lemma_meeting(
    root: PathView,
    entries: Seq<WalkView>,
    n: int,
    thread: ThreadView,
    scan: ScanView,
    after: ThreadView,
    after_scan: ScanView,
    dir: PathView,
    ext: Seq<char>,
)
    requires
        0 <= n < entries.len(),
        thread.root == root,
        crate::census::files_below(entries, root),
        crate::census::counts(entries, n) == (crate::life::counted_file(scan, entries[n]) is Some),
        crate::census::counts(entries, n) ==> crate::life::counted_file(scan, entries[n])->0 == (
            crate::census::place(entries[n]).at,
            crate::census::disk_bytes(entries[n]) as u64,
        ) && crate::census::disk_bytes(entries[n]) <= u64::MAX,
        thread.processes(scan, entries[n], after, after_scan, true),
        scan.files_scanned + 5000 <= u64::MAX,
    ensures
        ({
            let (f, s, c, b) = added(root, entries, n, dir, ext);
            &&& after.root == root
            &&& after_scan.files_scanned + files_of()(after) == scan.files_scanned + files_of()(
                thread,
            ) + f
            &&& crate::scan::size_in(after_scan.dir_sizes, dir) + size_of(dir)(after)
                == crate::scan::size_in(scan.dir_sizes, dir) + size_of(dir)(thread) + s
            &&& crate::scan::stat_in(after_scan.ext_stats, ext).0 + number_of(ext)(after)
                == crate::scan::stat_in(scan.ext_stats, ext).0 + number_of(ext)(thread) + c
            &&& crate::scan::stat_in(after_scan.ext_stats, ext).1 + bytes_of(ext)(after)
                == crate::scan::stat_in(scan.ext_stats, ext).1 + bytes_of(ext)(thread) + b
        }),
{
    let entry = entries[n];
    let at = crate::census::place(entry).at;
    let (met_thread, met) = thread.taken(scan, entry);
    if crate::census::counts(entries, n) {
        crate::census::lemma_charged(at, root, dir);
        crate::census::law_extension_is_what_follows_the_last_dot(at, ext);
        if crate::walk::charges(at, root, dir) {
            assert(crate::scan::size_in(thread.dir_sizes, dir) + crate::census::disk_bytes(entry)
                <= u64::MAX);
        }
    }
    if thread.is_due(scan, entry) {
        let flushed = choose|flushed: ScanView| #[trigger]
            met.takes(met_thread, flushed) && crate::walk::interval_counted(
                flushed,
                met_thread,
                after_scan,
            );
        crate::life::lemma_handing_adds(met, met_thread, flushed, dir, ext);
    }
}

spec fn together(
    root: PathView,
    entries: Seq<WalkView>,
    n: nat,
    pool: Seq<ThreadView>,
    scan: ScanView,
    dir: PathView,
    ext: Seq<char>,
) -> bool {
    let places = crate::census::counted_places(entries, n);
    &&& forall|t: int| 0 <= t < pool.len() ==> (#[trigger] pool[t]).root == root
    &&& scan.files_scanned + pool_sum(pool, files_of()) == places.len()
    &&& crate::scan::size_in(scan.dir_sizes, dir) + pool_sum(pool, size_of(dir))
        == if crate::census::is_within(dir, root) {
        crate::census::bytes_below(entries, places, dir)
    } else {
        0
    }
    &&& crate::scan::stat_in(scan.ext_stats, ext).0 + pool_sum(pool, number_of(ext))
        == crate::census::extension_total(entries, places, ext).0
    &&& crate::scan::stat_in(scan.ext_stats, ext).1 + pool_sum(pool, bytes_of(ext))
        == crate::census::extension_total(entries, places, ext).1
}

proof fn lemma_pool_is_walk(
    root: PathView,
    entries: Seq<WalkView>,
    who: Seq<int>,
    pools: Seq<Seq<ThreadView>>,
    scans: Seq<ScanView>,
)
    requires
        is_pool_walk(root, entries, who, pools, scans),
    ensures
        crate::census::is_walk(
            entries,
            Seq::new(entries.len(), |i: int| pools[i][who[i]]),
            Seq::new(entries.len(), |i: int| pools[i + 1][who[i]]),
            scans,
        ),
{
}

#[verifier::spinoff_prover]
proof fn lemma_together(
    root: PathView,
    entries: Seq<WalkView>,
    who: Seq<int>,
    pools: Seq<Seq<ThreadView>>,
    scans: Seq<ScanView>,
    n: nat,
    dir: PathView,
    ext: Seq<char>,
)
    requires
        is_pool_walk(root, entries, who, pools, scans),
        crate::census::files_below(entries, root),
        crate::census::is_untouched(scans[0]),
        scans[0].files_scanned == 0,
        scans[0].dir_sizes == Map::<PathView, u64>::empty(),
        scans[0].ext_stats == Map::<Seq<char>, (u64, u64)>::empty(),
        n <= entries.len(),
        entries.len() + 5000 <= u64::MAX,
    ensures
        together(root, entries, n, pools[n as int], scans[n as int], dir, ext),
        crate::census::counted_places(entries, n).len() <= n,
    decreases n,
{
    if n == 0 {
        let pool = pools[0];
        lemma_pool_of_none(pool, files_of());
        lemma_pool_of_none(pool, size_of(dir));
        lemma_pool_of_none(pool, number_of(ext));
        lemma_pool_of_none(pool, bytes_of(ext));
        assert(crate::census::counted_places(entries, 0).len() == 0);
    } else {
        let i = n - 1;
        lemma_together(root, entries, who, pools, scans, i as nat, dir, ext);
        lemma_pool_is_walk(root, entries, who, pools, scans);
        crate::census::lemma_walk_stands(
            entries,
            Seq::new(entries.len(), |k: int| pools[k][who[k]]),
            Seq::new(entries.len(), |k: int| pools[k + 1][who[k]]),
            scans,
            i as nat,
        );
        let t = who[i];
        let (before, after) = (pools[i], pools[i + 1]);
        let entry = entries[i];
        assert(before[t].processes(scans[i], entry, after[t], scans[i + 1], true));
        crate::census::lemma_step(
            entries,
            i as nat,
            before[t],
            scans[i],
            after[t],
            scans[i + 1],
        );
        lemma_meeting(
            root,
            entries,
            i,
            before[t],
            scans[i],
            after[t],
            scans[i + 1],
            dir,
            ext,
        );
        lemma_pool_update(before, t, after[t], files_of());
        lemma_pool_update(before, t, after[t], size_of(dir));
        lemma_pool_update(before, t, after[t], number_of(ext));
        lemma_pool_update(before, t, after[t], bytes_of(ext));
        let places = crate::census::counted_places(entries, n);
        if crate::census::counts(entries, i) {
            assert(places.drop_last() =~= crate::census::counted_places(entries, i as nat));
        }
    }
}

proof fn lemma_handed_over(
    pool: Seq<ThreadView>,
    scans: Seq<ScanView>,
    n: nat,
    dir: PathView,
    ext: Seq<char>,
)
    requires
        hands_over(pool, scans),
        n <= pool.len(),
        scans[0].files_scanned + pool_sum(pool, files_of()) <= u64::MAX,
    ensures
        scans[n as int].files_scanned == scans[0].files_scanned + pool_sum(
            pool.take(n as int),
            files_of(),
        ),
        crate::scan::size_in(scans[n as int].dir_sizes, dir) == crate::scan::size_in(
            scans[0].dir_sizes,
            dir,
        ) + pool_sum(pool.take(n as int), size_of(dir)),
        crate::scan::stat_in(scans[n as int].ext_stats, ext).0 == crate::scan::stat_in(
            scans[0].ext_stats,
            ext,
        ).0 + pool_sum(pool.take(n as int), number_of(ext)),
        crate::scan::stat_in(scans[n as int].ext_stats, ext).1 == crate::scan::stat_in(
            scans[0].ext_stats,
            ext,
        ).1 + pool_sum(pool.take(n as int), bytes_of(ext)),
        scans[n as int].total_bytes == scans[0].total_bytes,
        scans[n as int].aliased_files == scans[0].aliased_files,
        scans[n as int].dirs_scanned == scans[0].dirs_scanned,
        scans[n as int].top_files == scans[0].top_files,
    decreases n,
{
    if n > 0 {
        let i = n - 1;
        lemma_handed_over(pool, scans, i as nat, dir, ext);
        let (thread, scan, after) = (pool[i], scans[i], scans[i + 1]);
        assert(pool.take(n as int).drop_last() =~= pool.take(i));
        assert(pool.take(n as int).last() == thread);
        let flushed = choose|flushed: ScanView| #[trigger]
            scan.takes(thread, flushed) && after == crate::walk::rest_counted(flushed, thread);
        crate::life::lemma_handing_adds(scan, thread, flushed, dir, ext);
        crate::walk::law_handing_over_keeps_inodes(scan, thread, after);
        lemma_part_of_pool(pool, n as int, files_of());
    }
}

proof fn lemma_part_of_pool(pool: Seq<ThreadView>, n: int, share: spec_fn(ThreadView) -> nat)
    requires
        0 <= n <= pool.len(),
    ensures
        pool_sum(pool.take(n), share) <= pool_sum(pool, share),
    decreases pool.len(),
{
    if n == pool.len() {
        assert(pool.take(n) =~= pool);
    } else {
        lemma_part_of_pool(pool.drop_last(), n, share);
        assert(pool.drop_last().take(n) =~= pool.take(n));
    }
}

/// From a scan that has found nothing, threads that meet entries below their
/// root, in whatever order, and then hand over what they have, leave in the
/// scan: as many files as there are devices and inodes among them and their
/// bytes, every directory down from the root with the bytes of those below it,
/// every extension with the number and the bytes of those that have it, and the
/// ten largest of them.
pub proof fn law_threads_count_each_inode_once(
    root: PathView,
    entries: Seq<WalkView>,
    who: Seq<int>,
    pools: Seq<Seq<ThreadView>>,
    scans: Seq<ScanView>,
    ends: Seq<ScanView>,
    dir: PathView,
    ext: Seq<char>,
)
    requires
        is_pool_walk(root, entries, who, pools, scans),
        crate::census::files_below(entries, root),
        crate::census::is_untouched(scans[0]),
        scans[0].files_scanned == 0,
        scans[0].dir_sizes == Map::<PathView, u64>::empty(),
        scans[0].ext_stats == Map::<Seq<char>, (u64, u64)>::empty(),
        entries.len() + 5000 <= u64::MAX,
        hands_over(pools.last(), ends),
        ends[0] == scans.last(),
    ensures
        ({
            let places = crate::census::counted_places(entries, entries.len());
            let scan = ends.last();
            &&& scan.files_scanned == places.len()
            &&& crate::census::bytes_at(entries, places) <= u64::MAX ==> scan.total_bytes
                == crate::census::bytes_at(entries, places)
            &&& scan.aliased_files == crate::census::alias_count(entries, entries.len())
            &&& scan.dirs_scanned == crate::census::dir_count(entries, entries.len())
            &&& crate::census::is_within(dir, root) ==> crate::census::bytes_below(
                entries,
                places,
                dir,
            ) == if scan.dir_sizes.contains_key(dir) {
                scan.dir_sizes[dir]
            } else {
                0
            }
            &&& crate::census::extension_total(entries, places, ext) == if scan.ext_stats.contains_key(
                ext,
            ) {
                (scan.ext_stats[ext].0 as nat, scan.ext_stats[ext].1 as nat)
            } else {
                (0nat, 0nat)
            }
            &&& crate::census::holds_the_ten_largest(
                scan.top_files,
                crate::census::sized_at(entries, places),
            )
        }),
{
    let n = entries.len();
    let pool = pools.last();
    lemma_together(root, entries, who, pools, scans, n, dir, ext);
    lemma_handed_over(pool, ends, pool.len(), dir, ext);
    assert(pool.take(pool.len() as int) =~= pool);
    lemma_pool_is_walk(root, entries, who, pools, scans);
    crate::census::law_each_inode_counts_once(
        entries,
        Seq::new(entries.len(), |k: int| pools[k][who[k]]),
        Seq::new(entries.len(), |k: int| pools[k + 1][who[k]]),
        scans,
    );
    lemma_counts_within(entries, n);
}

proof fn lemma_counts_within(entries: Seq<WalkView>, n: nat)
    ensures
        crate::census::alias_count(entries, n) <= n,
        crate::census::dir_count(entries, n) <= n,
    decreases n,
{
    if n > 0 {
        lemma_counts_within(entries, (n - 1) as nat);
    }
}

} // verus!
