//! A whole scan: any number of threads that meet the entries of a tree and
//! hand over what they have met, in any order.
use vstd::prelude::*;

use crate::app::AppView;
use crate::path::PathView;
use crate::path::SpelledView;
use crate::scan::ScanView;
use crate::tree::TreeView;
use crate::walk::EntryKind;
use crate::walk::ThreadView;
use crate::walk::WalkView;

verus! {

/// A scan under way: the scan and its threads, which of these have ended, what
/// was met, what of it each thread still holds, what was handed over, which
/// files were counted, and their inodes, where these could be read.
#[verifier::ext_equal]
pub struct RunView {
    pub scan: ScanView,
    pub threads: Seq<ThreadView>,
    pub ended: Seq<bool>,
    pub met_dirs: Set<PathView>,
    pub met_leaves: Set<PathView>,
    pub held_dirs: Seq<Set<PathView>>,
    pub held_leaves: Seq<Set<PathView>>,
    pub dirs: Set<PathView>,
    pub leaves: Set<PathView>,
    pub files: Set<PathView>,
    pub inodes: Map<PathView, (u64, u64)>,
}

/// Whether some thread holds a path.
pub open spec fn is_held(held: Seq<Set<PathView>>, path: PathView) -> bool {
    exists|i: int| 0 <= i < held.len() && #[trigger] held[i].contains(path)
}

/// Whether what was met is what was handed over or is held, and nothing of it
/// twice.
pub open spec fn is_parted(
    met: Set<PathView>,
    handed: Set<PathView>,
    held: Seq<Set<PathView>>,
) -> bool {
    &&& forall|path: PathView| #[trigger]
        met.contains(path) <==> handed.contains(path) || is_held(held, path)
    &&& forall|i: int, path: PathView|
        0 <= i < held.len() && #[trigger] held[i].contains(path) ==> !handed.contains(path)
    &&& forall|i: int, j: int, path: PathView|
        0 <= i < held.len() && 0 <= j < held.len() && i != j && #[trigger] held[i].contains(path)
            ==> !(#[trigger] held[j].contains(path))
}

/// The sum of some numbers.
pub open spec fn sum_of(numbers: Seq<nat>) -> nat
    decreases numbers.len(),
{
    if numbers.len() == 0 {
        0
    } else {
        sum_of(numbers.drop_last()) + numbers.last()
    }
}

impl RunView {
    /// How many files each thread has counted since its last interval.
    pub open spec fn pending(self) -> Seq<nat> {
        Seq::new(
            self.threads.len(),
            |i: int|
                if self.ended[i] {
                    0
                } else {
                    (self.threads[i].count % crate::walk::FLUSH_INTERVAL) as nat
                },
        )
    }

    /// A scan with `n` threads that have met nothing.
    pub open spec fn start(scan: ScanView, root: PathView, n: nat) -> RunView {
        RunView {
            scan,
            threads: Seq::new(n, |i: int| ThreadView::fresh(root)),
            ended: Seq::new(n, |i: int| false),
            met_dirs: Set::empty(),
            met_leaves: Set::empty(),
            held_dirs: Seq::new(n, |i: int| Set::empty()),
            held_leaves: Seq::new(n, |i: int| Set::empty()),
            dirs: Set::empty(),
            leaves: Set::empty(),
            files: Set::empty(),
            inodes: Map::empty(),
        }
    }

    /// The run once thread `i` has met an entry at `path`.
    pub open spec fn meeting(
        self,
        i: int,
        path: PathView,
        kind: EntryKind,
        thread: ThreadView,
        scan: ScanView,
    ) -> RunView {
        let met = RunView { scan, threads: self.threads.update(i, thread), ..self };
        match kind {
            EntryKind::Dir { .. } => RunView {
                met_dirs: self.met_dirs.insert(path),
                held_dirs: self.held_dirs.update(i, self.held_dirs[i].insert(path)),
                ..met
            },
            _ => RunView {
                met_leaves: self.met_leaves.insert(path),
                held_leaves: self.held_leaves.update(i, self.held_leaves[i].insert(path)),
                files: match kind {
                    EntryKind::File { meta } if !crate::walk::is_alias(self.scan, meta) => {
                        self.files.insert(path)
                    },
                    _ => self.files,
                },
                inodes: match kind {
                    EntryKind::File { meta: Some(meta) } if !crate::walk::is_alias(
                        self.scan,
                        Some(meta),
                    ) => self.inodes.insert(path, (meta.dev, meta.ino)),
                    _ => self.inodes,
                },
                ..met
            },
        }
    }

    /// The run once thread `i` has handed over what it held.
    pub open spec fn releasing(self, i: int, thread: ThreadView, scan: ScanView) -> RunView {
        RunView {
            scan,
            threads: self.threads.update(i, thread),
            dirs: self.dirs.union(self.held_dirs[i]),
            leaves: self.leaves.union(self.held_leaves[i]),
            held_dirs: self.held_dirs.update(i, Set::empty()),
            held_leaves: self.held_leaves.update(i, Set::empty()),
            ..self
        }
    }

    /// The run once thread `i` has processed an entry, which left `thread` and
    /// `scan`.
    pub open spec fn processing(
        self,
        i: int,
        entry: WalkView,
        thread: ThreadView,
        scan: ScanView,
    ) -> RunView {
        let path = crate::util::without_unc_prefix(entry.path).at;
        let (met_thread, met_scan) = self.threads[i].taken(self.scan, entry);
        let met = self.meeting(i, path, entry.kind, met_thread, met_scan);
        if self.threads[i].is_due(self.scan, entry) {
            met.releasing(i, thread, scan)
        } else {
            met
        }
    }

    /// The run once thread `i` has ended, which left `scan`.
    pub open spec fn ending(self, i: int, scan: ScanView) -> RunView {
        RunView {
            ended: self.ended.update(i, true),
            ..self.releasing(i, self.threads[i].flushed(), scan)
        }
    }
}

/// Whether entries, sizes and completion are where they belong.
pub open spec fn places_hold(
    tree: TreeView,
    weight: spec_fn(PathView) -> nat,
    run: RunView,
) -> bool {
    &&& tree.valid()
    &&& run.ended.len() == run.threads.len()
    &&& run.held_dirs.len() == run.threads.len()
    &&& run.held_leaves.len() == run.threads.len()
    &&& crate::tree::stands_at(tree, weight, run.scan, run.dirs, run.leaves)
    &&& forall|i: int|
        0 <= i < run.threads.len() ==> crate::tree::gathers(
            tree,
            weight,
            #[trigger] run.threads[i],
            run.held_dirs[i],
            run.held_leaves[i],
        )
    &&& forall|i: int|
        0 <= i < run.threads.len() && #[trigger] run.ended[i] ==> run.held_dirs[i]
            =~= Set::<PathView>::empty() && run.held_leaves[i] =~= Set::<PathView>::empty()
    &&& is_parted(run.met_dirs, run.dirs, run.held_dirs)
    &&& is_parted(run.met_leaves, run.leaves, run.held_leaves)
    &&& run.met_dirs.subset_of(tree.dirs)
    &&& run.met_leaves.subset_of(tree.leaves)
}

/// Whether bytes and files are counted right, as far as the counters can hold
/// them: every byte that was met, and every counted file once its thread's
/// interval is full or the thread has ended.
pub open spec fn counts_hold(
    tree: TreeView,
    weight: spec_fn(PathView) -> nat,
    run: RunView,
) -> bool {
    &&& crate::tree::sum_over(tree.leaves, weight) <= u64::MAX ==> run.scan.total_bytes
        == crate::tree::sum_over(run.met_leaves, weight)
    &&& run.files.subset_of(run.met_leaves)
    &&& tree.leaves.len() <= u64::MAX ==> run.scan.files_scanned + sum_of(run.pending())
        == run.files.len()
}

/// Whether every directory above a counted file, up to the root, has a size,
/// be it 0: in the scan once the file was handed over, and with the thread that
/// holds it before.
pub open spec fn sizes_exist(tree: TreeView, run: RunView) -> bool {
    &&& forall|path: PathView, dir: PathView|
        run.files.contains(path) && run.leaves.contains(path) && #[trigger] crate::walk::charges(
            path,
            tree.root,
            dir,
        ) ==> run.scan.dir_sizes.contains_key(dir)
    &&& forall|i: int, path: PathView, dir: PathView|
        0 <= i < run.threads.len() && run.files.contains(path)
            && #[trigger] run.held_leaves[i].contains(path) && #[trigger] crate::walk::charges(
            path,
            tree.root,
            dir,
        ) ==> run.threads[i].dir_sizes.contains_key(dir)
}

/// Whether every inode belongs to a counted file and to no other, and is known
/// as counted.
pub open spec fn inodes_hold(run: RunView) -> bool {
    &&& forall|path: PathView| #[trigger]
        run.inodes.contains_key(path) ==> run.files.contains(path)
            && run.scan.seen_inodes.contains(run.inodes[path])
    &&& forall|a: PathView, b: PathView|
        #![trigger run.inodes.contains_key(a), run.inodes.contains_key(b)]
        run.inodes.contains_key(a) && run.inodes.contains_key(b) && a != b ==> run.inodes[a]
            != run.inodes[b]
}

/// Whether a run is as it should be.
pub open spec fn run_holds(
    tree: TreeView,
    weight: spec_fn(PathView) -> nat,
    run: RunView,
) -> bool {
    &&& places_hold(tree, weight, run)
    &&& counts_hold(tree, weight, run)
    &&& sizes_exist(tree, run)
    &&& inodes_hold(run)
}

/// Whether an entry is one of the tree that no thread has met: a directory
/// with its number of entries, or a file or link with the size that counts for
/// it.
pub open spec fn is_new(
    tree: TreeView,
    weight: spec_fn(PathView) -> nat,
    run: RunView,
    entry: WalkView,
) -> bool {
    let path = crate::util::without_unc_prefix(entry.path).at;
    match entry.kind {
        EntryKind::Dir { expected } => {
            &&& tree.dirs.contains(path)
            &&& !run.met_dirs.contains(path)
            &&& expected == tree.entries(path)
            &&& expected != usize::MAX
        },
        _ => {
            &&& tree.leaves.contains(path)
            &&& !run.met_leaves.contains(path)
            &&& entry.depth > 0
            &&& weight(path) == match entry.kind {
                EntryKind::File { meta } if !crate::walk::is_alias(run.scan, meta) => {
                    crate::walk::size_of_meta(meta)
                },
                _ => 0,
            }
        },
    }
}

/// Whether a scan has found nothing yet.
pub open spec fn is_blank(scan: ScanView) -> bool {
    &&& scan.dir_sizes == Map::<PathView, u64>::empty()
    &&& scan.completed == Set::<PathView>::empty()
    &&& scan.dir_completion == Map::<PathView, (usize, usize)>::empty()
    &&& scan.total_bytes == 0
    &&& scan.files_scanned == 0
}

proof fn lemma_same_standing(
    tree: TreeView,
    weight: spec_fn(PathView) -> nat,
    scan: ScanView,
    after: ScanView,
    dirs: Set<PathView>,
    leaves: Set<PathView>,
)
    requires
        crate::tree::stands_at(tree, weight, scan, dirs, leaves),
        after.dir_sizes == scan.dir_sizes,
        after.completed == scan.completed,
        after.dir_completion == scan.dir_completion,
    ensures
        crate::tree::stands_at(tree, weight, after, dirs, leaves),
{
    assert forall|dir: PathView|
        after.completed.contains(dir) implies #[trigger] crate::tree::is_rightly_completed(
        tree,
        after,
        leaves,
        dir,
    ) by {
        assert(crate::tree::is_rightly_completed(tree, scan, leaves, dir));
    }
    assert forall|dir: PathView|
        !after.completed.contains(dir) implies #[trigger] crate::tree::is_rightly_open(
        tree,
        after,
        dirs,
        leaves,
        dir,
    ) by {
        assert(crate::tree::is_rightly_open(tree, scan, dirs, leaves, dir));
    }
}

proof fn lemma_holding(
    met: Set<PathView>,
    handed: Set<PathView>,
    held: Seq<Set<PathView>>,
    i: int,
    path: PathView,
)
    requires
        is_parted(met, handed, held),
        0 <= i < held.len(),
        !met.contains(path),
    ensures
        is_parted(met.insert(path), handed, held.update(i, held[i].insert(path))),
{
    let after = held.update(i, held[i].insert(path));
    assert forall|p: PathView| #[trigger]
        met.insert(path).contains(p) <==> handed.contains(p) || is_held(after, p) by {
        assert(met.contains(p) <==> handed.contains(p) || is_held(held, p));
        if is_held(held, p) {
            let k = choose|k: int| 0 <= k < held.len() && #[trigger] held[k].contains(p);
            assert(after[k].contains(p));
        }
        if p == path {
            assert(after[i].contains(p));
        }
        if is_held(after, p) && p != path {
            let k = choose|k: int| 0 <= k < after.len() && #[trigger] after[k].contains(p);
            assert(held[k].contains(p));
        }
    }
    assert(!met.contains(path));
    assert(!handed.contains(path) && !is_held(held, path));
    assert forall|k: int, p: PathView|
        0 <= k < after.len() && #[trigger] after[k].contains(p) implies !handed.contains(p) by {
        if p != path {
            assert(held[k].contains(p));
        }
    }
    assert forall|k: int, j: int, p: PathView|
        0 <= k < after.len() && 0 <= j < after.len() && k != j && #[trigger] after[k].contains(p)
        implies !(#[trigger] after[j].contains(p)) by {
        if p == path {
            assert(!held[k].contains(p) && !held[j].contains(p));
        } else {
            assert(held[k].contains(p));
        }
    }
}

proof fn lemma_releasing(
    met: Set<PathView>,
    handed: Set<PathView>,
    held: Seq<Set<PathView>>,
    i: int,
)
    requires
        is_parted(met, handed, held),
        0 <= i < held.len(),
    ensures
        is_parted(met, handed.union(held[i]), held.update(i, Set::empty())),
        handed.disjoint(held[i]),
{
    let after = held.update(i, Set::<PathView>::empty());
    assert forall|p: PathView| handed.contains(p) implies !held[i].contains(p) by {
        if held[i].contains(p) {
            assert(!handed.contains(p));
        }
    }
    assert forall|p: PathView| #[trigger]
        met.contains(p) <==> handed.union(held[i]).contains(p) || is_held(after, p) by {
        if is_held(held, p) {
            let k = choose|k: int| 0 <= k < held.len() && #[trigger] held[k].contains(p);
            if k != i {
                assert(after[k].contains(p));
            }
        }
        if held[i].contains(p) {
            assert(is_held(held, p));
        }
        if is_held(after, p) {
            let k = choose|k: int| 0 <= k < after.len() && #[trigger] after[k].contains(p);
            assert(held[k].contains(p));
        }
    }
    assert forall|k: int, p: PathView|
        0 <= k < after.len() && #[trigger] after[k].contains(p) implies !handed.union(
        held[i],
    ).contains(p) by {
        assert(k != i);
        assert(held[k].contains(p));
        assert(!handed.contains(p));
        if held[i].contains(p) {
            assert(!held[k].contains(p));
        }
    }
    assert forall|k: int, j: int, p: PathView|
        0 <= k < after.len() && 0 <= j < after.len() && k != j && #[trigger] after[k].contains(p)
        implies !(#[trigger] after[j].contains(p)) by {
        assert(held[k].contains(p));
        if j != i {
            assert(!held[j].contains(p));
        }
    }
}

proof fn lemma_meeting_keeps_places(
    tree: TreeView,
    weight: spec_fn(PathView) -> nat,
    run: RunView,
    i: int,
    entry: WalkView,
)
    requires
        places_hold(tree, weight, run),
        0 <= i < run.threads.len(),
        !run.ended[i],
        is_new(tree, weight, run, entry),
        run.threads[i].entry_fits(run.scan, entry),
    ensures
        ({
            let path = crate::util::without_unc_prefix(entry.path).at;
            let (thread, scan) = run.threads[i].taken(run.scan, entry);
            places_hold(tree, weight, run.meeting(i, path, entry.kind, thread, scan))
        }),
{
    let path = crate::util::without_unc_prefix(entry.path).at;
    let (thread, scan) = run.threads[i].taken(run.scan, entry);
    let after = run.meeting(i, path, entry.kind, thread, scan);
    let old_thread = run.threads[i];
    lemma_same_standing(tree, weight, run.scan, scan, run.dirs, run.leaves);
    match entry.kind {
        EntryKind::Dir { .. } => {
            assert(!run.held_dirs[i].contains(path)) by {
                if run.held_dirs[i].contains(path) {
                    assert(is_held(run.held_dirs, path));
                }
            }
            crate::tree::law_directory_is_gathered(
                tree,
                weight,
                old_thread,
                run.scan,
                run.held_dirs[i],
                run.held_leaves[i],
                crate::util::without_unc_prefix(entry.path),
                entry.depth,
                entry.kind,
            );
            lemma_holding(run.met_dirs, run.dirs, run.held_dirs, i, path);
        },
        _ => {
            assert(!run.held_leaves[i].contains(path)) by {
                if run.held_leaves[i].contains(path) {
                    assert(is_held(run.held_leaves, path));
                }
            }
            crate::tree::law_leaf_is_gathered(
                tree,
                weight,
                old_thread,
                run.scan,
                run.held_dirs[i],
                run.held_leaves[i],
                crate::util::without_unc_prefix(entry.path),
                entry.depth,
                entry.kind,
            );
            lemma_holding(run.met_leaves, run.leaves, run.held_leaves, i, path);
        },
    }
    assert forall|k: int| 0 <= k < after.threads.len() implies crate::tree::gathers(
        tree,
        weight,
        #[trigger] after.threads[k],
        after.held_dirs[k],
        after.held_leaves[k],
    ) by {
        if k != i {
            assert(after.threads[k] == run.threads[k]);
        }
    }
}

proof fn lemma_releasing_keeps_places(
    tree: TreeView,
    weight: spec_fn(PathView) -> nat,
    run: RunView,
    i: int,
    thread: ThreadView,
    scan: ScanView,
)
    requires
        places_hold(tree, weight, run),
        0 <= i < run.threads.len(),
        run.threads[i].flush_fits(run.scan),
        run.scan.takes_interval(run.threads[i], scan) || run.scan.takes_rest(
            run.threads[i],
            scan,
        ),
        thread == (ThreadView { ext_stats: thread.ext_stats, ..run.threads[i].flushed() }),
    ensures
        places_hold(tree, weight, run.releasing(i, thread, scan)),
{
    let after = run.releasing(i, thread, scan);
    lemma_releasing(run.met_dirs, run.dirs, run.held_dirs, i);
    lemma_releasing(run.met_leaves, run.leaves, run.held_leaves, i);
    crate::tree::law_counting_files_leaves_completion(
        tree,
        weight,
        run.scan,
        run.threads[i],
        scan,
        run.dirs,
        run.leaves,
        run.held_dirs[i],
        run.held_leaves[i],
    );
    assert forall|k: int| 0 <= k < after.threads.len() implies crate::tree::gathers(
        tree,
        weight,
        #[trigger] after.threads[k],
        after.held_dirs[k],
        after.held_leaves[k],
    ) by {
        if k != i {
            assert(after.threads[k] == run.threads[k]);
        } else {
            let flushed = run.threads[i].flushed();
            assert(crate::tree::gathers(tree, weight, flushed, Set::empty(), Set::empty()));
        }
    }
}

proof fn lemma_meeting_keeps_sizes(
    tree: TreeView,
    weight: spec_fn(PathView) -> nat,
    run: RunView,
    i: int,
    entry: WalkView,
)
    requires
        run_holds(tree, weight, run),
        0 <= i < run.threads.len(),
        is_new(tree, weight, run, entry),
    ensures
        ({
            let path = crate::util::without_unc_prefix(entry.path).at;
            let (thread, scan) = run.threads[i].taken(run.scan, entry);
            sizes_exist(tree, run.meeting(i, path, entry.kind, thread, scan))
        }),
{
    let path = crate::util::without_unc_prefix(entry.path).at;
    let (thread, scan) = run.threads[i].taken(run.scan, entry);
    let after = run.meeting(i, path, entry.kind, thread, scan);
    assert(thread.root == tree.root);
    assert(scan.dir_sizes == run.scan.dir_sizes);
    assert forall|p: PathView, dir: PathView|
        after.files.contains(p) && after.leaves.contains(p) && #[trigger] crate::walk::charges(
            p,
            tree.root,
            dir,
        ) implies after.scan.dir_sizes.contains_key(dir) by {
        if !run.files.contains(p) {
            assert(p == path);
            assert(run.met_leaves.contains(p));
        }
    }
    assert forall|k: int, p: PathView, dir: PathView|
        0 <= k < after.threads.len() && after.files.contains(p)
            && #[trigger] after.held_leaves[k].contains(p) && #[trigger] crate::walk::charges(
            p,
            tree.root,
            dir,
        ) implies after.threads[k].dir_sizes.contains_key(dir) by {
        if run.held_leaves[k].contains(p) {
            assert(is_held(run.held_leaves, p));
            assert(run.met_leaves.contains(p));
            assert(run.files.contains(p)) by {
                if p == path {
                    assert(!(entry.kind is Dir) ==> !run.met_leaves.contains(p));
                }
            }
            assert(run.threads[k].dir_sizes.contains_key(dir));
        } else {
            assert(k == i && p == path);
        }
    }
}

proof fn lemma_releasing_keeps_sizes(
    tree: TreeView,
    run: RunView,
    i: int,
    thread: ThreadView,
    scan: ScanView,
)
    requires
        sizes_exist(tree, run),
        run.held_leaves.len() == run.threads.len(),
        0 <= i < run.threads.len(),
        run.scan.takes_interval(run.threads[i], scan) || run.scan.takes_rest(
            run.threads[i],
            scan,
        ),
    ensures
        sizes_exist(tree, run.releasing(i, thread, scan)),
{
    let after = run.releasing(i, thread, scan);
    let old_thread = run.threads[i];
    let flushed = if run.scan.takes_interval(old_thread, scan) {
        choose|flushed: ScanView| #[trigger]
            run.scan.takes(old_thread, flushed) && crate::walk::interval_counted(
                flushed,
                old_thread,
                scan,
            )
    } else {
        choose|flushed: ScanView| #[trigger]
            run.scan.takes(old_thread, flushed) && scan == crate::walk::rest_counted(
                flushed,
                old_thread,
            )
    };
    crate::walk::lemma_taking_keeps_the_rest(run.scan, old_thread, flushed);
    assert(scan.dir_sizes == crate::walk::sizes_added(run.scan.dir_sizes, old_thread.dir_sizes));
    assert forall|p: PathView, dir: PathView|
        after.files.contains(p) && after.leaves.contains(p) && #[trigger] crate::walk::charges(
            p,
            tree.root,
            dir,
        ) implies after.scan.dir_sizes.contains_key(dir) by {
        if run.held_leaves[i].contains(p) {
            assert(old_thread.dir_sizes.contains_key(dir));
        }
    }
    assert forall|k: int, p: PathView, dir: PathView|
        0 <= k < after.threads.len() && after.files.contains(p)
            && #[trigger] after.held_leaves[k].contains(p) && #[trigger] crate::walk::charges(
            p,
            tree.root,
            dir,
        ) implies after.threads[k].dir_sizes.contains_key(dir) by {
        assert(k != i);
        assert(run.held_leaves[k].contains(p));
    }
}

proof fn lemma_meeting_keeps_inodes(
    tree: TreeView,
    weight: spec_fn(PathView) -> nat,
    run: RunView,
    i: int,
    entry: WalkView,
)
    requires
        run_holds(tree, weight, run),
        0 <= i < run.threads.len(),
        is_new(tree, weight, run, entry),
    ensures
        ({
            let path = crate::util::without_unc_prefix(entry.path).at;
            let (thread, scan) = run.threads[i].taken(run.scan, entry);
            inodes_hold(run.meeting(i, path, entry.kind, thread, scan))
        }),
{
    let path = crate::util::without_unc_prefix(entry.path).at;
    let (thread, scan) = run.threads[i].taken(run.scan, entry);
    let after = run.meeting(i, path, entry.kind, thread, scan);
    assert forall|p: PathView| #[trigger] after.inodes.contains_key(p) implies after.files.contains(
        p,
    ) && after.scan.seen_inodes.contains(after.inodes[p]) by {
        if run.inodes.contains_key(p) {
            assert(run.files.contains(p) && run.scan.seen_inodes.contains(run.inodes[p]));
            assert(run.met_leaves.contains(p));
        }
    }
    assert forall|a: PathView, b: PathView|
        #![trigger after.inodes.contains_key(a), after.inodes.contains_key(b)]
        after.inodes.contains_key(a) && after.inodes.contains_key(b) && a
            != b implies after.inodes[a] != after.inodes[b] by {
        assert(run.inodes.contains_key(a) || a == path);
        assert(run.inodes.contains_key(b) || b == path);
        if run.inodes.contains_key(a) {
            assert(run.met_leaves.contains(a));
        }
        if run.inodes.contains_key(b) {
            assert(run.met_leaves.contains(b));
        }
    }
}

proof fn lemma_sum_update(numbers: Seq<nat>, i: int, n: nat)
    requires
        0 <= i < numbers.len(),
    ensures
        sum_of(numbers.update(i, n)) == sum_of(numbers) - numbers[i] + n,
        sum_of(numbers) >= numbers[i],
    decreases numbers.len(),
{
    if i == numbers.len() - 1 {
        assert(numbers.update(i, n).drop_last() =~= numbers.drop_last());
    } else {
        lemma_sum_update(numbers.drop_last(), i, n);
        assert(numbers.update(i, n).drop_last() =~= numbers.drop_last().update(i, n));
    }
}

proof fn lemma_sum_of_part(
    set: Set<PathView>,
    part: Set<PathView>,
    weight: spec_fn(PathView) -> nat,
)
    requires
        set.finite(),
        part.subset_of(set),
    ensures
        part.finite(),
        crate::tree::sum_over(part, weight) <= crate::tree::sum_over(set, weight),
    decreases set.len(),
{
    vstd::set_lib::lemma_set_subset_finite(set, part);
    if part.len() > 0 {
        let one = part.choose();
        crate::tree::lemma_sum_without(set, weight, one);
        crate::tree::lemma_sum_without(part, weight, one);
        lemma_sum_of_part(set.remove(one), part.remove(one), weight);
    }
}

proof fn lemma_processing_keeps_counts(
    tree: TreeView,
    weight: spec_fn(PathView) -> nat,
    run: RunView,
    i: int,
    entry: WalkView,
    thread: ThreadView,
    scan: ScanView,
)
    requires
        run_holds(tree, weight, run),
        0 <= i < run.threads.len(),
        !run.ended[i],
        is_new(tree, weight, run, entry),
        run.threads[i].processes(run.scan, entry, thread, scan, true),
    ensures
        counts_hold(tree, weight, run.processing(i, entry, thread, scan)),
{
    let path = crate::util::without_unc_prefix(entry.path).at;
    let old_thread = run.threads[i];
    let (met_thread, met_scan) = old_thread.taken(run.scan, entry);
    let after = run.processing(i, entry, thread, scan);
    let due = old_thread.is_due(run.scan, entry);
    let interval = crate::walk::FLUSH_INTERVAL as int;
    if due {
        crate::walk::law_handing_over_keeps_inodes(met_scan, met_thread, scan);
        let flushed = choose|flushed: ScanView| #[trigger]
            met_scan.takes(met_thread, flushed) && crate::walk::interval_counted(
                flushed,
                met_thread,
                scan,
            );
        crate::walk::lemma_taking_keeps_the_rest(met_scan, met_thread, flushed);
    }
    lemma_sum_of_part(tree.leaves, run.met_leaves, weight);
    let counted = match entry.kind {
        EntryKind::File { meta } => !crate::walk::is_alias(run.scan, meta),
        _ => false,
    };
    let is_leaf = !(entry.kind is Dir);
    if is_leaf {
        let met = run.met_leaves.insert(path);
        lemma_sum_of_part(tree.leaves, met, weight);
        crate::tree::lemma_sum_without(met, weight, path);
        assert(met.remove(path) =~= run.met_leaves);
    }
    assert(run.files.finite()) by {
        vstd::set_lib::lemma_set_subset_finite(run.met_leaves, run.files);
    }
    vstd::set_lib::lemma_len_subset(run.files, run.met_leaves);
    vstd::set_lib::lemma_len_subset(after.met_leaves, tree.leaves);
    if counted {
        assert(!run.files.contains(path));
        vstd::set_lib::lemma_len_subset(run.files.insert(path), run.met_leaves.insert(path));
    }
    let old_count = old_thread.count as int;
    if counted {
        assert((old_count + 1) % interval == if old_count % interval == interval - 1 {
            0
        } else {
            old_count % interval + 1
        });
    }
    let pending = if after.ended[i] {
        0nat
    } else {
        (after.threads[i].count % crate::walk::FLUSH_INTERVAL) as nat
    };
    lemma_sum_update(run.pending(), i, pending);
    assert(after.pending() =~= run.pending().update(i, pending));
}

/// A scan that has found nothing, with threads that have met nothing, is as it
/// should be. A scan is so when the program starts and when it begins anew.
pub proof fn law_run_begins(
    tree: TreeView,
    weight: spec_fn(PathView) -> nat,
    app: AppView,
    root: SpelledView,
    now: std::time::Instant,
    n: nat,
)
    requires
        tree.valid(),
        tree.root == root.at,
    ensures
        run_holds(tree, weight, RunView::start(ScanView::fresh(), tree.root, n)),
        run_holds(
            tree,
            weight,
            RunView::start(app.cleared(root).begun(now).scan, tree.root, n),
        ),
{
    lemma_blank_run(tree, weight, ScanView::fresh(), n);
    lemma_blank_run(tree, weight, app.cleared(root).begun(now).scan, n);
}

proof fn lemma_blank_run(
    tree: TreeView,
    weight: spec_fn(PathView) -> nat,
    scan: ScanView,
    n: nat,
)
    requires
        tree.valid(),
        is_blank(scan),
    ensures
        run_holds(tree, weight, RunView::start(scan, tree.root, n)),
{
    let run = RunView::start(scan, tree.root, n);
    crate::tree::law_nothing_at_first(tree, weight);
    lemma_same_standing(tree, weight, ScanView::fresh(), scan, Set::empty(), Set::empty());
    assert forall|path: PathView| !is_held(run.held_dirs, path) && !is_held(
        run.held_leaves,
        path,
    ) by {}
    lemma_zeros(run.pending());
}

proof fn lemma_zeros(numbers: Seq<nat>)
    requires
        forall|i: int| 0 <= i < numbers.len() ==> numbers[i] == 0,
    ensures
        sum_of(numbers) == 0,
    decreases numbers.len(),
{
    if numbers.len() > 0 {
        lemma_zeros(numbers.drop_last());
    }
}

/// A run stays as it should be when any of its threads processes any entry
/// that no thread has met.
pub proof fn law_run_processes(
    tree: TreeView,
    weight: spec_fn(PathView) -> nat,
    run: RunView,
    i: int,
    entry: WalkView,
    thread: ThreadView,
    scan: ScanView,
)
    requires
        run_holds(tree, weight, run),
        0 <= i < run.threads.len(),
        !run.ended[i],
        is_new(tree, weight, run, entry),
        run.threads[i].processes(run.scan, entry, thread, scan, true),
    ensures
        run_holds(tree, weight, run.processing(i, entry, thread, scan)),
        run.processing(i, entry, thread, scan).scan == scan,
        run.processing(i, entry, thread, scan).threads == run.threads.update(i, thread),
{
    let path = crate::util::without_unc_prefix(entry.path).at;
    let (met_thread, met_scan) = run.threads[i].taken(run.scan, entry);
    let met = run.meeting(i, path, entry.kind, met_thread, met_scan);
    lemma_meeting_keeps_places(tree, weight, run, i, entry);
    lemma_processing_keeps_counts(tree, weight, run, i, entry, thread, scan);
    lemma_meeting_keeps_sizes(tree, weight, run, i, entry);
    lemma_meeting_keeps_inodes(tree, weight, run, i, entry);
    if run.threads[i].is_due(run.scan, entry) {
        assert(met.threads[i] == met_thread);
        lemma_releasing_keeps_places(tree, weight, met, i, thread, scan);
        lemma_releasing_keeps_sizes(tree, met, i, thread, scan);
        crate::walk::law_handing_over_keeps_inodes(met_scan, met_thread, scan);
        assert(inodes_hold(run.processing(i, entry, thread, scan))) by {
            assert(inodes_hold(met));
        }
        assert(met.threads.update(i, thread) =~= run.threads.update(i, thread));
    }
}

/// A run stays as it should be when any of its threads ends.
pub proof fn law_run_lets_threads_end(
    tree: TreeView,
    weight: spec_fn(PathView) -> nat,
    run: RunView,
    i: int,
    scan: ScanView,
)
    requires
        run_holds(tree, weight, run),
        0 <= i < run.threads.len(),
        !run.ended[i],
        run.threads[i].flush_fits(run.scan),
        run.scan.takes_rest(run.threads[i], scan),
    ensures
        run_holds(tree, weight, run.ending(i, scan)),
{
    let thread = run.threads[i];
    let after = run.ending(i, scan);
    lemma_releasing_keeps_places(tree, weight, run, i, thread.flushed(), scan);
    lemma_releasing_keeps_sizes(tree, run, i, thread.flushed(), scan);
    let released = run.releasing(i, thread.flushed(), scan);
    assert(places_hold(tree, weight, released));
    crate::walk::law_handing_over_keeps_inodes(run.scan, thread, scan);
    let flushed = choose|flushed: ScanView| #[trigger]
        run.scan.takes(thread, flushed) && scan == crate::walk::rest_counted(flushed, thread);
    crate::walk::lemma_taking_keeps_the_rest(run.scan, thread, flushed);
    lemma_sum_update(run.pending(), i, 0);
    assert(after.pending() =~= run.pending().update(i, 0));
    assert(run.pending()[i] == thread.count % crate::walk::FLUSH_INTERVAL);
    vstd::set_lib::lemma_set_subset_finite(tree.leaves, run.met_leaves);
    vstd::set_lib::lemma_len_subset(run.files, run.met_leaves);
    vstd::set_lib::lemma_len_subset(run.met_leaves, tree.leaves);
}

/// A run stays as it should be when the scan is asked to stop.
pub proof fn law_run_is_asked_to_stop(
    tree: TreeView,
    weight: spec_fn(PathView) -> nat,
    run: RunView,
    app: AppView,
)
    requires
        run_holds(tree, weight, run),
        app.scan == run.scan,
    ensures
        run_holds(tree, weight, RunView { scan: app.stopped().scan, ..run }),
{
    let after = RunView { scan: app.stopped().scan, ..run };
    lemma_same_standing(tree, weight, run.scan, after.scan, run.dirs, run.leaves);
    assert(after.pending() =~= run.pending());
    assert(inodes_hold(after)) by {
        assert(inodes_hold(run));
    }
}

/// No two counted files of a run have the same inode, and that of each is one
/// that the scan knows as counted.
pub proof fn law_no_inode_is_counted_twice(
    tree: TreeView,
    weight: spec_fn(PathView) -> nat,
    run: RunView,
    a: PathView,
    b: PathView,
)
    requires
        run_holds(tree, weight, run),
        run.inodes.contains_key(a),
        run.inodes.contains_key(b),
    ensures
        run.files.contains(a),
        run.files.contains(b),
        run.scan.seen_inodes.contains(run.inodes[a]),
        run.inodes[a] == run.inodes[b] ==> a == b,
{
}

/// A scan that ends once every thread has ended and everything was met leaves
/// every directory of the tree completed and no other, each with the total of
/// the files below it; bytes and files are counted in full; and every directory
/// above a counted file has a size, be it 0, the root among them.
pub proof fn law_run_ends(
    tree: TreeView,
    weight: spec_fn(PathView) -> nat,
    run: RunView,
    after: ScanView,
    dir: PathView,
)
    requires
        run_holds(tree, weight, run),
        forall|i: int| 0 <= i < run.threads.len() ==> #[trigger] run.ended[i],
        run.met_dirs == tree.dirs,
        run.met_leaves == tree.leaves,
        run.scan.ends_as(after),
    ensures
        after.completed == tree.dirs,
        tree.dirs.contains(dir) ==> crate::scan::size_in(after.dir_sizes, dir)
            == crate::tree::sum_over(
            tree.leaves.filter(|leaf: PathView| leaf.strictly_under(dir)),
            weight,
        ),
        crate::tree::sum_over(tree.leaves, weight) <= u64::MAX ==> after.total_bytes
            == crate::tree::sum_over(tree.leaves, weight),
        tree.leaves.len() <= u64::MAX ==> after.files_scanned == run.files.len(),
        forall|file: PathView|
            run.files.contains(file) && #[trigger] crate::walk::charges(file, tree.root, dir)
                ==> after.dir_sizes.contains_key(dir),
        run.files.len() > 0 ==> after.dir_sizes.contains_key(tree.root),
{
    assert forall|path: PathView| !is_held(run.held_dirs, path) && !is_held(
        run.held_leaves,
        path,
    ) by {
        if is_held(run.held_dirs, path) {
            let i = choose|i: int|
                0 <= i < run.held_dirs.len() && #[trigger] run.held_dirs[i].contains(path);
            assert(run.ended[i]);
        }
        if is_held(run.held_leaves, path) {
            let i = choose|i: int|
                0 <= i < run.held_leaves.len() && #[trigger] run.held_leaves[i].contains(path);
            assert(run.ended[i]);
        }
    }
    assert(run.dirs =~= tree.dirs);
    assert(run.leaves =~= tree.leaves);
    crate::tree::law_ended_scan_is_complete(tree, weight, run.scan, after, dir);
    lemma_zeros(run.pending());
    let marks = choose|marks: Seq<SpelledView>| #[trigger] run.scan.ends_with_marks(marks, after);
    crate::walk::lemma_marking_keeps_the_rest(run.scan, marks);
    vstd::set_lib::lemma_set_subset_finite(tree.leaves, run.files);
    if run.files.len() > 0 {
        let file = run.files.choose();
        assert(run.files.contains(file));
        assert(tree.leaves.contains(file));
        assert(crate::walk::charges(file, tree.root, tree.root));
    }
}

/// However a scan ends, what it calls completed is whole: told to stop, or
/// with everything met, every file and link below a completed directory was
/// met, every directory below it is completed, and its size is the total of
/// all files below it.
pub proof fn law_end_is_honest(
    tree: TreeView,
    weight: spec_fn(PathView) -> nat,
    run: RunView,
    after: ScanView,
    dir: PathView,
    path: PathView,
)
    requires
        run_holds(tree, weight, run),
        run.scan.cancel || ({
            &&& forall|i: int| 0 <= i < run.threads.len() ==> #[trigger] run.ended[i]
            &&& run.met_dirs == tree.dirs
            &&& run.met_leaves == tree.leaves
        }),
        run.scan.ends_as(after),
        after.completed.contains(dir),
    ensures
        tree.dirs.contains(dir),
        crate::scan::size_in(after.dir_sizes, dir) == crate::tree::sum_over(
            tree.leaves.filter(|leaf: PathView| leaf.strictly_under(dir)),
            weight,
        ),
        path.strictly_under(dir) && tree.leaves.contains(path) ==> run.met_leaves.contains(path),
        path.strictly_under(dir) && tree.dirs.contains(path) ==> after.completed.contains(path),
{
    if run.scan.cancel {
        crate::tree::law_stopped_scan_stands(
            tree,
            weight,
            run.scan,
            after,
            run.dirs,
            run.leaves,
        );
        crate::tree::law_completed_size_is_final(
            tree,
            weight,
            after,
            run.dirs,
            run.leaves,
            dir,
        );
        if path.strictly_under(dir) {
            crate::tree::law_completed_is_whole(
                tree,
                weight,
                after,
                run.dirs,
                run.leaves,
                dir,
                path,
            );
        }
    } else {
        law_run_ends(tree, weight, run, after, dir);
    }
}

} // verus!
