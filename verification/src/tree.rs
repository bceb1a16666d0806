//! What holds of a scan as it walks a whole tree.
//!
//! A tree is scanned by any number of threads, each handing over what it has
//! met in batches. Whatever the order, a directory is marked as completed only
//! when everything below it has been handed over, its size is then final, and
//! once everything has been handed over every directory is completed.
use vstd::prelude::*;

use crate::path::PathView;
use crate::path::SpelledView;
use crate::scan::ScanView;
use crate::walk::EntryKind;
use crate::walk::ThreadView;

verus! {

/// A directory tree: its directories, and its files and links.
pub struct TreeView {
    pub root: PathView,
    pub dirs: Set<PathView>,
    pub leaves: Set<PathView>,
}

/// The files and links of `leaves` that stand in `dir`.
pub open spec fn leaves_in(leaves: Set<PathView>, dir: PathView) -> Set<PathView> {
    leaves.filter(|leaf: PathView| leaf.parent() == Some(dir))
}

/// The directories of `dirs` that stand in `dir`.
pub open spec fn dirs_in(dirs: Set<PathView>, root: PathView, dir: PathView) -> Set<PathView> {
    dirs.filter(|child: PathView| crate::completion::counts_towards(child, root, dir))
}

impl TreeView {
    /// Everything hangs together from the root.
    pub open spec fn valid(self) -> bool {
        &&& self.dirs.finite()
        &&& self.leaves.finite()
        &&& self.dirs.contains(self.root)
        &&& forall|dir: PathView| #[trigger]
            self.dirs.contains(dir) ==> dir == self.root || (dir.strictly_under(self.root)
                && self.dirs.contains(dir.parent()->0))
        &&& forall|leaf: PathView| #[trigger]
            self.leaves.contains(leaf) ==> leaf.strictly_under(self.root) && self.dirs.contains(
                leaf.parent()->0,
            )
    }

    /// How many entries a directory has.
    pub open spec fn entries(self, dir: PathView) -> nat {
        leaves_in(self.leaves, dir).len() + dirs_in(self.dirs, self.root, dir).len()
    }
}

/// The sum of `weight` over a finite set.
pub open spec fn sum_over(set: Set<PathView>, weight: spec_fn(PathView) -> nat) -> nat
    decreases set.len(),
    when set.finite()
{
    if set.len() == 0 {
        0
    } else {
        let one = set.choose();
        weight(one) + sum_over(set.remove(one), weight)
    }
}

/// The total that `leaves` count towards `dir`.
pub open spec fn total(
    leaves: Set<PathView>,
    weight: spec_fn(PathView) -> nat,
    root: PathView,
    dir: PathView,
) -> nat {
    sum_over(leaves.filter(|leaf: PathView| crate::walk::charges(leaf, root, dir)), weight)
}

/// Whether `sizes` holds what `leaves` count towards each directory.
pub open spec fn sizes_total(
    tree: TreeView,
    weight: spec_fn(PathView) -> nat,
    sizes: Map<PathView, u64>,
    leaves: Set<PathView>,
) -> bool {
    &&& leaves.subset_of(tree.leaves)
    &&& forall|dir: PathView| #[trigger]
        crate::scan::size_in(sizes, dir) == total(leaves, weight, tree.root, dir)
    &&& forall|dir: PathView| #[trigger] sizes.contains_key(dir) ==> tree.dirs.contains(dir)
}

/// Whether what a thread has gathered is exactly that it met `dirs` and
/// `leaves`, where `weight` is the size counted for a file or link.
pub open spec fn gathers(
    tree: TreeView,
    weight: spec_fn(PathView) -> nat,
    thread: ThreadView,
    dirs: Set<PathView>,
    leaves: Set<PathView>,
) -> bool {
    &&& thread.root == tree.root
    &&& dirs.subset_of(tree.dirs)
    &&& forall|dir: PathView| #[trigger]
        dirs.contains(dir) <==> exists|i: int|
            0 <= i < thread.listed.len() && (#[trigger] thread.listed[i]).0 == dir
    &&& forall|i: int|
        0 <= i < thread.listed.len() ==> (#[trigger] thread.listed[i]).1 == tree.entries(
            thread.listed[i].0,
        ) && thread.listed[i].1 != usize::MAX
    &&& forall|i: int, j: int|
        0 <= i < j < thread.listed.len() ==> (#[trigger] thread.listed[i]).0 != (
        #[trigger] thread.listed[j]).0
    &&& forall|dir: PathView| #[trigger]
        crate::completion::batch_count(thread.yielded, dir) == leaves_in(leaves, dir).len()
    &&& forall|dir: PathView| #[trigger]
        thread.yielded.contains_key(dir) ==> thread.yielded[dir] > 0
    &&& sizes_total(tree, weight, thread.dir_sizes, leaves)
}

/// Whether a completed directory is so rightly: every file and link in it was
/// handed over and every directory in it is completed.
pub open spec fn is_rightly_completed(
    tree: TreeView,
    scan: ScanView,
    leaves: Set<PathView>,
    dir: PathView,
) -> bool {
    &&& !scan.dir_completion.contains_key(dir)
    &&& leaves_in(tree.leaves, dir).subset_of(leaves)
    &&& dirs_in(tree.dirs, tree.root, dir).subset_of(scan.completed)
}

/// Whether the tally of a directory that is not completed is right: it counts
/// the files and links in it that were handed over and the directories in it
/// that are completed, and knows the number of its entries if the directory
/// was handed over.
pub open spec fn is_rightly_open(
    tree: TreeView,
    scan: ScanView,
    dirs: Set<PathView>,
    leaves: Set<PathView>,
    dir: PathView,
) -> bool {
    let tally = scan.dir_completion;
    &&& crate::completion::yields(tally, dir) == leaves_in(leaves, dir).len() + dirs_in(
        scan.completed,
        tree.root,
        dir,
    ).len()
    &&& dirs.contains(dir) ==> tally.contains_key(dir) && tally[dir].1 == tree.entries(dir)
        && tally[dir].1 != usize::MAX
    &&& !dirs.contains(dir) && tally.contains_key(dir) ==> tally[dir].1 == usize::MAX
}

/// Whether the scan stands exactly where the handing over of `dirs` and
/// `leaves` brings it.
pub open spec fn stands_at(
    tree: TreeView,
    weight: spec_fn(PathView) -> nat,
    scan: ScanView,
    dirs: Set<PathView>,
    leaves: Set<PathView>,
) -> bool {
    &&& dirs.subset_of(tree.dirs)
    &&& scan.completed.subset_of(dirs)
    &&& sizes_total(tree, weight, scan.dir_sizes, leaves)
    &&& crate::completion::is_settled(scan.dir_completion)
    &&& forall|dir: PathView|
        scan.completed.contains(dir) ==> #[trigger] is_rightly_completed(tree, scan, leaves, dir)
    &&& forall|dir: PathView|
        !scan.completed.contains(dir) ==> #[trigger] is_rightly_open(
            tree,
            scan,
            dirs,
            leaves,
            dir,
        )
}

pub proof fn lemma_sum_without(
    set: Set<PathView>,
    weight: spec_fn(PathView) -> nat,
    one: PathView,
)
    requires
        set.finite(),
        set.contains(one),
    ensures
        sum_over(set, weight) == weight(one) + sum_over(set.remove(one), weight),
    decreases set.len(),
{
    let first = set.choose();
    if first != one {
        let rest = set.remove(first);
        lemma_sum_without(rest, weight, one);
        lemma_sum_without(set.remove(one), weight, first);
        assert(rest.remove(one) =~= set.remove(one).remove(first));
    }
}

proof fn lemma_sum_of_union(
    a: Set<PathView>,
    b: Set<PathView>,
    weight: spec_fn(PathView) -> nat,
)
    requires
        a.finite(),
        b.finite(),
        a.disjoint(b),
    ensures
        sum_over(a.union(b), weight) == sum_over(a, weight) + sum_over(b, weight),
    decreases b.len(),
{
    if b.len() == 0 {
        assert(b =~= Set::<PathView>::empty());
        assert(a.union(b) =~= a);
    } else {
        let one = b.choose();
        lemma_sum_of_union(a, b.remove(one), weight);
        lemma_sum_without(a.union(b), weight, one);
        assert(a.union(b).remove(one) =~= a.union(b.remove(one)));
    }
}

proof fn lemma_count_of_union(
    a: Set<PathView>,
    b: Set<PathView>,
    p: spec_fn(PathView) -> bool,
)
    requires
        a.finite(),
        b.finite(),
        a.disjoint(b),
    ensures
        a.union(b).filter(p).len() == a.filter(p).len() + b.filter(p).len(),
        a.union(b).filter(p).finite(),
        a.filter(p).finite(),
        b.filter(p).finite(),
        a.filter(p).disjoint(b.filter(p)),
        a.union(b).filter(p) == a.filter(p).union(b.filter(p)),
{
    vstd::set_lib::lemma_len_subset(a.filter(p), a);
    vstd::set_lib::lemma_len_subset(b.filter(p), b);
    assert(a.union(b).filter(p) =~= a.filter(p).union(b.filter(p)));
    vstd::set_lib::lemma_set_disjoint_lens(a.filter(p), b.filter(p));
}

proof fn lemma_children_done_counts(done: Seq<PathView>, root: PathView, dir: PathView)
    requires
        done.no_duplicates(),
    ensures
        crate::completion::children_done(done, root, dir) == dirs_in(
            done.to_set(),
            root,
            dir,
        ).len(),
        done.to_set().finite(),
    decreases done.len(),
{
    done.unique_seq_to_set();
    let p = |child: PathView| crate::completion::counts_towards(child, root, dir);
    if done.len() == 0 {
        assert(dirs_in(done.to_set(), root, dir) =~= Set::<PathView>::empty());
    } else {
        let rest = done.drop_last();
        let last = done.last();
        lemma_children_done_counts(rest, root, dir);
        assert(done =~= rest.push(last));
        assert(!rest.contains(last)) by {
            if rest.contains(last) {
                let i = choose|i: int| 0 <= i < rest.len() && rest[i] == last;
                assert(done[i] == done[done.len() - 1]);
            }
        }
        assert(done.to_set() =~= rest.to_set().insert(last)) by {
            assert forall|d: PathView| done.to_set().contains(d) == rest.to_set().insert(
                last,
            ).contains(d) by {
                if done.contains(d) {
                    let i = choose|i: int| 0 <= i < done.len() && done[i] == d;
                    if i < rest.len() {
                        assert(rest[i] == d);
                    }
                }
                if rest.contains(d) {
                    let i = choose|i: int| 0 <= i < rest.len() && rest[i] == d;
                    assert(done[i] == d);
                }
                assert(done[done.len() - 1] == last);
            }
        }
        vstd::set_lib::lemma_len_subset(dirs_in(rest.to_set(), root, dir), rest.to_set());
        if p(last) {
            assert(dirs_in(done.to_set(), root, dir) =~= dirs_in(rest.to_set(), root, dir).insert(
                last,
            ));
        } else {
            assert(dirs_in(done.to_set(), root, dir) =~= dirs_in(rest.to_set(), root, dir));
        }
    }
}

/// A directory that is above a file or link of the tree, and not above the
/// root, is in the tree.
proof fn lemma_charged_is_in_tree(tree: TreeView, path: PathView, dir: PathView)
    requires
        tree.valid(),
        tree.leaves.contains(path) || (tree.dirs.contains(path) && path != tree.root),
        crate::walk::charges(path, tree.root, dir),
    ensures
        tree.dirs.contains(dir),
    decreases path.parts.len(),
{
    let root = tree.root;
    assert(path.strictly_under(root));
    let up = path.parent()->0;
    assert(tree.dirs.contains(up));
    if up != dir {
        lemma_under_parent(path, dir);
        if up == root {
            assert(root.strictly_under(dir));
        } else {
            lemma_charged_is_in_tree(tree, up, dir);
        }
    }
}

/// What is above a path is its parent or above its parent.
proof fn lemma_under_parent(path: PathView, dir: PathView)
    requires
        path.strictly_under(dir),
    ensures
        path.parent() is Some,
        path.parent()->0 == dir || path.parent()->0.strictly_under(dir),
{
    let up = path.parent()->0;
    assert(dir.parts =~= path.parts.take(dir.parts.len() as int));
    if dir.parts.len() == up.parts.len() {
        assert(dir.parts =~= up.parts);
    } else {
        assert(up.parts.take(dir.parts.len() as int) =~= dir.parts);
        assert(dir.parts.is_prefix_of(up.parts));
    }
}


/// Nothing has been handed over when a scan begins afresh, and a thread that
/// has met nothing has gathered nothing.
pub proof fn law_nothing_at_first(tree: TreeView, weight: spec_fn(PathView) -> nat)
    requires
        tree.valid(),
    ensures
        stands_at(tree, weight, ScanView::fresh(), Set::empty(), Set::empty()),
        gathers(tree, weight, ThreadView::fresh(tree.root), Set::empty(), Set::empty()),
{
    let none = Set::<PathView>::empty();
    assert forall|dir: PathView| #[trigger] total(none, weight, tree.root, dir) == 0 by {
        assert(none.filter(|leaf: PathView| crate::walk::charges(leaf, tree.root, dir)) =~= none);
    }
    assert forall|dir: PathView| #[trigger] leaves_in(none, dir).len() == 0 by {
        assert(leaves_in(none, dir) =~= none);
    }
    assert forall|dir: PathView| #[trigger] dirs_in(none, tree.root, dir).len() == 0 by {
        assert(dirs_in(none, tree.root, dir) =~= none);
    }
}

proof fn lemma_gathering_a_leaf(
    tree: TreeView,
    weight: spec_fn(PathView) -> nat,
    sizes: Map<PathView, u64>,
    leaves: Set<PathView>,
    path: PathView,
    len: u64,
)
    requires
        tree.valid(),
        sizes_total(tree, weight, sizes, leaves),
        tree.leaves.contains(path),
        !leaves.contains(path),
        weight(path) == len,
        crate::walk::charge_fits(sizes, path, tree.root, len),
    ensures
        sizes_total(
            tree,
            weight,
            crate::walk::sizes_charged(sizes, path, tree.root, len),
            leaves.insert(path),
        ),
{
    let after = crate::walk::sizes_charged(sizes, path, tree.root, len);
    vstd::set_lib::lemma_len_subset(leaves, tree.leaves);
    assert forall|dir: PathView| #[trigger] crate::scan::size_in(after, dir) == total(
        leaves.insert(path),
        weight,
        tree.root,
        dir,
    ) by {
        lemma_total_with(leaves, weight, tree.root, dir, path);
        assert(crate::scan::size_in(sizes, dir) == total(leaves, weight, tree.root, dir));
    }
    assert forall|dir: PathView| #[trigger] after.contains_key(dir) implies tree.dirs.contains(
        dir,
    ) by {
        if crate::walk::charges(path, tree.root, dir) {
            lemma_charged_is_in_tree(tree, path, dir);
        }
    }
}

proof fn lemma_total_with(
    leaves: Set<PathView>,
    weight: spec_fn(PathView) -> nat,
    root: PathView,
    dir: PathView,
    path: PathView,
)
    requires
        leaves.finite(),
        !leaves.contains(path),
    ensures
        total(leaves.insert(path), weight, root, dir) == total(leaves, weight, root, dir) + if crate::walk::charges(path, root, dir) {
            weight(path)
        } else {
            0
        },
{
    let p = |leaf: PathView| crate::walk::charges(leaf, root, dir);
    vstd::set_lib::lemma_len_subset(leaves.filter(p), leaves);
    vstd::set_lib::lemma_len_subset(leaves.insert(path).filter(p), leaves.insert(path));
    if crate::walk::charges(path, root, dir) {
        lemma_sum_without(leaves.insert(path).filter(p), weight, path);
        assert(leaves.insert(path).filter(p).remove(path) =~= leaves.filter(p));
    } else {
        assert(leaves.insert(path).filter(p) =~= leaves.filter(p));
    }
}

proof fn lemma_leaves_with(leaves: Set<PathView>, path: PathView, dir: PathView)
    requires
        leaves.finite(),
        !leaves.contains(path),
    ensures
        leaves_in(leaves.insert(path), dir).len() == leaves_in(leaves, dir).len()
            + if path.parent() == Some(dir) {
            1nat
        } else {
            0nat
        },
{
    vstd::set_lib::lemma_len_subset(leaves_in(leaves, dir), leaves);
    if path.parent() == Some(dir) {
        assert(leaves_in(leaves.insert(path), dir) =~= leaves_in(leaves, dir).insert(path));
    } else {
        assert(leaves_in(leaves.insert(path), dir) =~= leaves_in(leaves, dir));
    }
}

/// Meeting a directory of the tree for the first time, with its number of
/// entries, is gathered.
pub proof fn law_directory_is_gathered(
    tree: TreeView,
    weight: spec_fn(PathView) -> nat,
    thread: ThreadView,
    scan: ScanView,
    dirs: Set<PathView>,
    leaves: Set<PathView>,
    named: SpelledView,
    depth: usize,
    kind: EntryKind,
)
    requires
        tree.valid(),
        gathers(tree, weight, thread, dirs, leaves),
        tree.dirs.contains(named.at),
        !dirs.contains(named.at),
        kind matches EntryKind::Dir { expected } && expected == tree.entries(named.at) && expected
            != usize::MAX,
    ensures
        gathers(
            tree,
            weight,
            thread.taken_at(scan, named, depth, kind).0,
            dirs.insert(named.at),
            leaves,
        ),
{
    let path = named.at;
    let after = thread.taken_at(scan, named, depth, kind).0;
    let listed = after.listed;
    let n = thread.listed.len() as int;
    assert(listed[n].0 == path);
    assert forall|dir: PathView| #[trigger] dirs.insert(path).contains(dir) <==> exists|i: int|
        0 <= i < listed.len() && (#[trigger] listed[i]).0 == dir by {
        if dirs.contains(dir) {
            let i = choose|i: int|
                0 <= i < thread.listed.len() && (#[trigger] thread.listed[i]).0 == dir;
            assert(listed[i].0 == dir);
        }
        if exists|i: int| 0 <= i < listed.len() && (#[trigger] listed[i]).0 == dir {
            let i = choose|i: int| 0 <= i < listed.len() && (#[trigger] listed[i]).0 == dir;
            if i < n {
                assert(thread.listed[i].0 == dir);
            }
        }
    }
    assert forall|i: int, j: int| 0 <= i < j < listed.len() implies (#[trigger] listed[i]).0 != (
    #[trigger] listed[j]).0 by {
        assert(thread.listed[i].0 == listed[i].0);
        assert(dirs.contains(thread.listed[i].0));
        if j < n {
            assert(thread.listed[j].0 == listed[j].0);
        }
    }
    assert forall|i: int| 0 <= i < listed.len() implies (#[trigger] listed[i]).1 == tree.entries(
        listed[i].0,
    ) && listed[i].1 != usize::MAX by {
        if i < n {
            assert(thread.listed[i].1 == tree.entries(thread.listed[i].0));
        }
    }
}

/// Meeting a file or link of the tree for the first time is gathered, with the
/// size that was counted for it: none for a link, nor for a file whose inode
/// was counted before.
pub proof fn law_leaf_is_gathered(
    tree: TreeView,
    weight: spec_fn(PathView) -> nat,
    thread: ThreadView,
    scan: ScanView,
    dirs: Set<PathView>,
    leaves: Set<PathView>,
    named: SpelledView,
    depth: usize,
    kind: EntryKind,
)
    requires
        tree.valid(),
        gathers(tree, weight, thread, dirs, leaves),
        depth > 0,
        tree.leaves.contains(named.at),
        !leaves.contains(named.at),
        thread.yield_fits(named.at, depth),
        match kind {
            EntryKind::Dir { .. } => false,
            EntryKind::File { meta } => if crate::walk::is_alias(scan, meta) {
                weight(named.at) == 0
            } else {
                let len = crate::walk::size_of_meta(meta);
                &&& weight(named.at) == len
                &&& len <= u64::MAX
                &&& crate::walk::charge_fits(thread.dir_sizes, named.at, tree.root, len as u64)
            },
            EntryKind::Other => weight(named.at) == 0,
        },
    ensures
        gathers(
            tree,
            weight,
            thread.taken_at(scan, named, depth, kind).0,
            dirs,
            leaves.insert(named.at),
        ),
{
    let path = named.at;
    let after = thread.taken_at(scan, named, depth, kind).0;
    let more = leaves.insert(path);
    assert(after.listed == thread.listed);
    vstd::set_lib::lemma_len_subset(leaves, tree.leaves);
    assert(path.strictly_under(tree.root));
    assert forall|dir: PathView| #[trigger]
        crate::completion::batch_count(after.yielded, dir) == leaves_in(more, dir).len() by {
        lemma_leaves_with(leaves, path, dir);
        assert(crate::completion::batch_count(thread.yielded, dir) == leaves_in(leaves, dir).len());
    }
    assert forall|dir: PathView| #[trigger] after.yielded.contains_key(dir) implies after.yielded[dir]
        > 0 by {
        if dir == path.parent()->0 {
            assert(crate::completion::batch_count(thread.yielded, dir) >= 0);
        } else {
            assert(thread.yielded.contains_key(dir));
        }
    }
    match kind {
        EntryKind::File { meta } if !crate::walk::is_alias(scan, meta) => {
            lemma_gathering_a_leaf(
                tree,
                weight,
                thread.dir_sizes,
                leaves,
                path,
                crate::walk::size_of_meta(meta) as u64,
            );
            assert(after.dir_sizes == crate::walk::sizes_charged(
                thread.dir_sizes,
                path,
                tree.root,
                crate::walk::size_of_meta(meta) as u64,
            ));
        },
        _ => {
            assert forall|dir: PathView| #[trigger] crate::scan::size_in(after.dir_sizes, dir)
                == total(more, weight, tree.root, dir) by {
                lemma_total_with(leaves, weight, tree.root, dir, path);
                assert(crate::scan::size_in(thread.dir_sizes, dir) == total(
                    leaves,
                    weight,
                    tree.root,
                    dir,
                ));
            }
        },
    }
}

/// What the tally says once the numbers of entries in `listed`, each
/// directory's once, are known.
proof fn lemma_registered_at(
    tally: Map<PathView, (usize, usize)>,
    listed: Seq<(PathView, usize)>,
    dir: PathView,
)
    requires
        forall|i: int, j: int|
            0 <= i < j < listed.len() ==> (#[trigger] listed[i]).0 != (#[trigger] listed[j]).0,
    ensures
        crate::completion::yields(crate::completion::registered(tally, listed), dir)
            == crate::completion::yields(tally, dir),
        (exists|i: int| 0 <= i < listed.len() && (#[trigger] listed[i]).0 == dir) ==> {
            &&& crate::completion::registered(tally, listed).contains_key(dir)
            &&& exists|i: int|
                0 <= i < listed.len() && (#[trigger] listed[i]).0 == dir
                    && crate::completion::registered(tally, listed)[dir].1 == listed[i].1
        },
        !(exists|i: int| 0 <= i < listed.len() && (#[trigger] listed[i]).0 == dir) ==> {
            &&& crate::completion::registered(tally, listed).contains_key(dir)
                == tally.contains_key(dir)
            &&& crate::completion::registered(tally, listed)[dir] == tally[dir]
        },
    decreases listed.len(),
{
    if listed.len() > 0 {
        let rest = listed.drop_last();
        assert forall|i: int, j: int| 0 <= i < j < rest.len() implies (#[trigger] rest[i]).0 != (
        #[trigger] rest[j]).0 by {
            assert(listed[i].0 != listed[j].0);
        }
        lemma_registered_at(tally, rest, dir);
        let n = rest.len() as int;
        let before = crate::completion::registered(tally, rest);
        let after = crate::completion::registered(tally, listed);
        assert(after == before.insert(
            listed[n].0,
            (crate::completion::yields(before, listed[n].0) as usize, listed[n].1),
        ));
        if listed[n].0 == dir {
            assert(after[dir].1 == listed[n].1);
        } else {
            if exists|i: int| 0 <= i < listed.len() && (#[trigger] listed[i]).0 == dir {
                let i = choose|i: int| 0 <= i < listed.len() && (#[trigger] listed[i]).0 == dir;
                assert(rest[i].0 == dir);
                let k = choose|k: int|
                    0 <= k < rest.len() && (#[trigger] rest[k]).0 == dir && before[dir].1
                        == rest[k].1;
                assert(listed[k].0 == dir && after[dir].1 == listed[k].1);
            } else {
                assert(!(exists|i: int| 0 <= i < rest.len() && (#[trigger] rest[i]).0 == dir)) by {
                    if exists|i: int| 0 <= i < rest.len() && (#[trigger] rest[i]).0 == dir {
                        let i = choose|i: int| 0 <= i < rest.len() && (#[trigger] rest[i]).0 == dir;
                        assert(listed[i].0 == dir);
                    }
                }
            }
        }
    }
}

/// Sizes that are handed over add up.
pub proof fn law_sizes_add_up(
    tree: TreeView,
    weight: spec_fn(PathView) -> nat,
    sizes: Map<PathView, u64>,
    more: Map<PathView, u64>,
    leaves: Set<PathView>,
    others: Set<PathView>,
)
    requires
        tree.valid(),
        sizes_total(tree, weight, sizes, leaves),
        sizes_total(tree, weight, more, others),
        leaves.disjoint(others),
        crate::walk::sizes_fit(sizes, more),
    ensures
        sizes_total(tree, weight, crate::walk::sizes_added(sizes, more), leaves.union(others)),
{
    let after = crate::walk::sizes_added(sizes, more);
    vstd::set_lib::lemma_len_subset(leaves, tree.leaves);
    vstd::set_lib::lemma_len_subset(others, tree.leaves);
    assert forall|dir: PathView| #[trigger] crate::scan::size_in(after, dir) == total(
        leaves.union(others),
        weight,
        tree.root,
        dir,
    ) by {
        let p = |leaf: PathView| crate::walk::charges(leaf, tree.root, dir);
        lemma_count_of_union(leaves, others, p);
        lemma_sum_of_union(leaves.filter(p), others.filter(p), weight);
        assert(crate::scan::size_in(sizes, dir) == total(leaves, weight, tree.root, dir));
        assert(crate::scan::size_in(more, dir) == total(others, weight, tree.root, dir));
        if more.contains_key(dir) {
            assert(crate::scan::size_in(sizes, dir) + more[dir] <= u64::MAX);
        }
    }
}

proof fn lemma_counts_within(tree: TreeView, leaves: Set<PathView>, dirs: Set<PathView>, dir: PathView)
    requires
        tree.valid(),
        leaves.subset_of(tree.leaves),
        dirs.subset_of(tree.dirs),
    ensures
        leaves_in(leaves, dir).len() + dirs_in(dirs, tree.root, dir).len() <= tree.entries(dir),
        leaves_in(leaves, dir).len() + dirs_in(dirs, tree.root, dir).len() >= tree.entries(dir) ==> {
            &&& leaves_in(tree.leaves, dir).subset_of(leaves)
            &&& dirs_in(tree.dirs, tree.root, dir).subset_of(dirs)
        },
{
    let some_leaves = leaves_in(leaves, dir);
    let all_leaves = leaves_in(tree.leaves, dir);
    let some_dirs = dirs_in(dirs, tree.root, dir);
    let all_dirs = dirs_in(tree.dirs, tree.root, dir);
    vstd::set_lib::lemma_len_subset(all_leaves, tree.leaves);
    vstd::set_lib::lemma_len_subset(all_dirs, tree.dirs);
    vstd::set_lib::lemma_len_subset(some_leaves, all_leaves);
    vstd::set_lib::lemma_len_subset(some_dirs, all_dirs);
    if some_leaves.len() + some_dirs.len() >= tree.entries(dir) {
        vstd::set_lib::lemma_subset_equality(some_leaves, all_leaves);
        vstd::set_lib::lemma_subset_equality(some_dirs, all_dirs);
        assert forall|x: PathView| all_leaves.contains(x) implies leaves.contains(x) by {
            assert(some_leaves.contains(x));
        }
        assert forall|x: PathView| all_dirs.contains(x) implies dirs.contains(x) by {
            assert(some_dirs.contains(x));
        }
    }
}

/// The tally `open` that a batch gives, in terms of what was handed over.
proof fn lemma_open_tally(
    tree: TreeView,
    weight: spec_fn(PathView) -> nat,
    scan: ScanView,
    thread: ThreadView,
    dirs: Set<PathView>,
    leaves: Set<PathView>,
    new_dirs: Set<PathView>,
    new_leaves: Set<PathView>,
    dir: PathView,
)
    requires
        tree.valid(),
        stands_at(tree, weight, scan, dirs, leaves),
        gathers(tree, weight, thread, new_dirs, new_leaves),
        dirs.disjoint(new_dirs),
        leaves.disjoint(new_leaves),
        thread.flush_fits(scan),
    ensures
        ({
            let open = crate::completion::accounted(
                crate::completion::registered(scan.dir_completion, thread.listed),
                thread.yielded,
            );
            &&& scan.completed.contains(dir) ==> !open.contains_key(dir)
            &&& !scan.completed.contains(dir) ==> {
                &&& crate::completion::yields(open, dir) == leaves_in(
                    leaves.union(new_leaves),
                    dir,
                ).len() + dirs_in(scan.completed, tree.root, dir).len()
                &&& dirs.union(new_dirs).contains(dir) ==> open.contains_key(dir) && open[dir].1
                    == tree.entries(dir) && open[dir].1 != usize::MAX
                &&& !dirs.union(new_dirs).contains(dir) && open.contains_key(dir) ==> open[dir].1
                    == usize::MAX
            }
        }),
{
    let tally = scan.dir_completion;
    let reg = crate::completion::registered(tally, thread.listed);
    let open = crate::completion::accounted(reg, thread.yielded);
    lemma_registered_at(tally, thread.listed, dir);
    vstd::set_lib::lemma_len_subset(leaves, tree.leaves);
    vstd::set_lib::lemma_len_subset(new_leaves, tree.leaves);
    lemma_count_of_union(leaves, new_leaves, |leaf: PathView| leaf.parent() == Some(dir));
    assert(crate::completion::batch_count(thread.yielded, dir) == leaves_in(
        new_leaves,
        dir,
    ).len());
    assert(crate::completion::yields(tally, dir) + crate::completion::batch_count(
        thread.yielded,
        dir,
    ) + tally.dom().len() + thread.listed.len() + thread.yielded.dom().len() < usize::MAX);
    let is_listed = exists|i: int|
        0 <= i < thread.listed.len() && (#[trigger] thread.listed[i]).0 == dir;
    assert(new_dirs.contains(dir) <==> is_listed);
    if scan.completed.contains(dir) {
        assert(is_rightly_completed(tree, scan, leaves, dir));
        assert(!is_listed);
        assert(leaves_in(new_leaves, dir) =~= Set::<PathView>::empty()) by {
            assert forall|x: PathView| !leaves_in(new_leaves, dir).contains(x) by {
                if leaves_in(new_leaves, dir).contains(x) {
                    assert(tree.leaves.contains(x));
                    assert(leaves_in(tree.leaves, dir).contains(x));
                    assert(leaves.contains(x));
                }
            }
        }
        assert(!tally.contains_key(dir));
        assert(!thread.yielded.contains_key(dir));
    } else {
        assert(is_rightly_open(tree, scan, dirs, leaves, dir));
        if is_listed {
            let i = choose|i: int|
                0 <= i < thread.listed.len() && (#[trigger] thread.listed[i]).0 == dir
                    && reg[dir].1 == thread.listed[i].1;
            assert(thread.listed[i].1 == tree.entries(thread.listed[i].0));
        }
    }
}

/// Whatever a thread hands over, the scan stands where that brings it.
///
/// In particular a directory is marked as completed by this only if every file
/// and link in it was handed over and every directory in it is completed.
pub proof fn law_handing_over(
    tree: TreeView,
    weight: spec_fn(PathView) -> nat,
    scan: ScanView,
    thread: ThreadView,
    after: ScanView,
    dirs: Set<PathView>,
    leaves: Set<PathView>,
    new_dirs: Set<PathView>,
    new_leaves: Set<PathView>,
)
    requires
        tree.valid(),
        stands_at(tree, weight, scan, dirs, leaves),
        gathers(tree, weight, thread, new_dirs, new_leaves),
        dirs.disjoint(new_dirs),
        leaves.disjoint(new_leaves),
        thread.flush_fits(scan),
        scan.takes(thread, after),
    ensures
        stands_at(tree, weight, after, dirs.union(new_dirs), leaves.union(new_leaves)),
{
    let names = choose|names: Seq<SpelledView>| #[trigger] scan.takes_batch(thread, names, after);
    let done = crate::path::places(names);
    let open = crate::completion::accounted(
        crate::completion::registered(scan.dir_completion, thread.listed),
        thread.yielded,
    );
    let root = tree.root;
    let all_dirs = dirs.union(new_dirs);
    let all_leaves = leaves.union(new_leaves);
    let just = done.to_set();
    let completed = scan.completed.union(just);
    crate::walk::lemma_taking_keeps_the_rest(scan, thread, after);
    crate::walk::lemma_marking_keeps_the_rest(
        ScanView {
            dir_sizes: crate::walk::sizes_added(scan.dir_sizes, thread.dir_sizes),
            size_names: thread.size_names.union_prefer_right(scan.size_names),
            dir_completion: after.dir_completion,
            ..scan
        },
        names,
    );
    assert(after.completed == completed);
    law_sizes_add_up(tree, weight, scan.dir_sizes, thread.dir_sizes, leaves, new_leaves);
    assert forall|dir: PathView| done.contains(dir) implies all_dirs.contains(dir)
        && !scan.completed.contains(dir) by {
        lemma_open_tally(tree, weight, scan, thread, dirs, leaves, new_dirs, new_leaves, dir);
    }
    vstd::set_lib::lemma_len_subset(scan.completed, tree.dirs);
    done.unique_seq_to_set();
    assert(completed.subset_of(all_dirs)) by {
        assert forall|dir: PathView| completed.contains(dir) implies all_dirs.contains(dir) by {
            if just.contains(dir) {
                assert(done.contains(dir));
            }
        }
    }
    assert(completed.subset_of(tree.dirs));
    assert(scan.completed.disjoint(just)) by {
        assert forall|dir: PathView| just.contains(dir) implies !scan.completed.contains(dir) by {
            assert(done.contains(dir));
        }
    }
    assert forall|dir: PathView|
        dirs_in(completed, root, dir).len() == #[trigger] dirs_in(scan.completed, root, dir).len()
            + crate::completion::children_done(done, root, dir) by {
        lemma_count_of_union(
            scan.completed,
            just,
            |child: PathView| crate::completion::counts_towards(child, root, dir),
        );
        lemma_children_done_counts(done, root, dir);
    }
    assert forall|dir: PathView| completed.contains(dir) implies #[trigger] is_rightly_completed(
        tree,
        after,
        all_leaves,
        dir,
    ) by {
        lemma_open_tally(tree, weight, scan, thread, dirs, leaves, new_dirs, new_leaves, dir);
        assert(dirs_in(completed, root, dir).len() == dirs_in(scan.completed, root, dir).len()
            + crate::completion::children_done(done, root, dir));
        if scan.completed.contains(dir) {
            assert(is_rightly_completed(tree, scan, leaves, dir));
            assert(!done.contains(dir));
            assert(crate::completion::children_done(done, root, dir) == 0) by {
                lemma_children_done_counts(done, root, dir);
                assert(dirs_in(just, root, dir) =~= Set::<PathView>::empty()) by {
                    assert forall|x: PathView| !dirs_in(just, root, dir).contains(x) by {
                        if dirs_in(just, root, dir).contains(x) {
                            assert(done.contains(x));
                            assert(tree.dirs.contains(x));
                            assert(dirs_in(tree.dirs, root, dir).contains(x));
                            assert(scan.completed.contains(x));
                        }
                    }
                }
            }
        } else {
            assert(done.contains(dir));
            lemma_counts_within(tree, all_leaves, completed, dir);
        }
    }
    assert forall|dir: PathView| !completed.contains(dir) implies #[trigger] is_rightly_open(
        tree,
        after,
        all_dirs,
        all_leaves,
        dir,
    ) by {
        lemma_open_tally(tree, weight, scan, thread, dirs, leaves, new_dirs, new_leaves, dir);
        assert(dirs_in(completed, root, dir).len() == dirs_in(scan.completed, root, dir).len()
            + crate::completion::children_done(done, root, dir));
        assert(!just.contains(dir));
        assert(!done.contains(dir));
        assert(after.dir_completion.contains_key(dir) <==> open.contains_key(dir)
            || crate::completion::children_done(done, root, dir) > 0);
    }
}

/// A completed directory is completed for good: every file and link below it
/// was handed over, and every directory below it is completed.
pub proof fn law_completed_is_whole(
    tree: TreeView,
    weight: spec_fn(PathView) -> nat,
    scan: ScanView,
    dirs: Set<PathView>,
    leaves: Set<PathView>,
    dir: PathView,
    path: PathView,
)
    requires
        tree.valid(),
        stands_at(tree, weight, scan, dirs, leaves),
        scan.completed.contains(dir),
        path.strictly_under(dir),
    ensures
        tree.leaves.contains(path) ==> leaves.contains(path),
        tree.dirs.contains(path) ==> scan.completed.contains(path),
    decreases path.parts.len(),
{
    if tree.leaves.contains(path) || tree.dirs.contains(path) {
        assert(tree.dirs.contains(dir));
        assert(path != tree.root);
        lemma_under_parent(path, dir);
        let up = path.parent()->0;
        assert(tree.dirs.contains(up));
        if up != dir {
            law_completed_is_whole(tree, weight, scan, dirs, leaves, dir, up);
        }
        assert(scan.completed.contains(up));
        assert(is_rightly_completed(tree, scan, leaves, up));
        if tree.leaves.contains(path) {
            assert(leaves_in(tree.leaves, up).contains(path));
        }
        if tree.dirs.contains(path) {
            assert(dirs_in(tree.dirs, tree.root, up).contains(path));
        }
    }
}

/// The size of a completed directory is final: it is the total of all files
/// below it, those that are still to be met elsewhere included.
pub proof fn law_completed_size_is_final(
    tree: TreeView,
    weight: spec_fn(PathView) -> nat,
    scan: ScanView,
    dirs: Set<PathView>,
    leaves: Set<PathView>,
    dir: PathView,
)
    requires
        tree.valid(),
        stands_at(tree, weight, scan, dirs, leaves),
        scan.completed.contains(dir),
    ensures
        crate::scan::size_in(scan.dir_sizes, dir) == sum_over(
            tree.leaves.filter(|leaf: PathView| leaf.strictly_under(dir)),
            weight,
        ),
{
    assert(tree.dirs.contains(dir));
    let counted = leaves.filter(|leaf: PathView| crate::walk::charges(leaf, tree.root, dir));
    let below = tree.leaves.filter(|leaf: PathView| leaf.strictly_under(dir));
    assert forall|path: PathView| counted.contains(path) == below.contains(path) by {
        if below.contains(path) {
            law_completed_is_whole(tree, weight, scan, dirs, leaves, dir, path);
            assert(!tree.root.strictly_under(dir));
        }
    }
    assert(counted =~= below);
    assert(crate::scan::size_in(scan.dir_sizes, dir) == total(leaves, weight, tree.root, dir));
}

proof fn lemma_depth_is_bounded(dirs: Set<PathView>) -> (bound: nat)
    requires
        dirs.finite(),
    ensures
        forall|dir: PathView| #[trigger] dirs.contains(dir) ==> dir.parts.len() <= bound,
    decreases dirs.len(),
{
    if dirs.len() == 0 {
        0
    } else {
        let one = dirs.choose();
        let rest = lemma_depth_is_bounded(dirs.remove(one));
        let bound = if one.parts.len() > rest {
            one.parts.len()
        } else {
            rest
        };
        assert forall|dir: PathView| #[trigger] dirs.contains(dir) implies dir.parts.len()
            <= bound by {
            if dir != one {
                assert(dirs.remove(one).contains(dir));
            }
        }
        bound
    }
}

proof fn lemma_directory_completes(
    tree: TreeView,
    weight: spec_fn(PathView) -> nat,
    scan: ScanView,
    dir: PathView,
    bound: nat,
)
    requires
        tree.valid(),
        stands_at(tree, weight, scan, tree.dirs, tree.leaves),
        tree.dirs.contains(dir),
        forall|d: PathView| #[trigger] tree.dirs.contains(d) ==> d.parts.len() <= bound,
    ensures
        scan.completed.contains(dir),
    decreases bound - dir.parts.len(),
{
    let inside = dirs_in(tree.dirs, tree.root, dir);
    assert forall|child: PathView| inside.contains(child) implies scan.completed.contains(
        child,
    ) by {
        assert(tree.dirs.contains(child));
        lemma_directory_completes(tree, weight, scan, child, bound);
    }
    assert(dirs_in(scan.completed, tree.root, dir) =~= inside);
    if !scan.completed.contains(dir) {
        assert(is_rightly_open(tree, scan, tree.dirs, tree.leaves, dir));
        assert(crate::completion::yields(scan.dir_completion, dir) == tree.entries(dir));
        assert(crate::completion::is_ready(scan.dir_completion, dir));
    }
}

/// Once everything has been handed over, every directory is completed, the
/// empty ones too.
pub proof fn law_everything_completes(
    tree: TreeView,
    weight: spec_fn(PathView) -> nat,
    scan: ScanView,
)
    requires
        tree.valid(),
        stands_at(tree, weight, scan, tree.dirs, tree.leaves),
    ensures
        scan.completed == tree.dirs,
{
    let bound = lemma_depth_is_bounded(tree.dirs);
    assert forall|dir: PathView| tree.dirs.contains(dir) implies scan.completed.contains(dir) by {
        lemma_directory_completes(tree, weight, scan, dir, bound);
    }
    assert(scan.completed =~= tree.dirs);
}

/// A scan that ends once everything has been handed over leaves exactly the
/// directories of the tree completed, each with the total of the files below
/// it.
pub proof fn law_ended_scan_is_complete(
    tree: TreeView,
    weight: spec_fn(PathView) -> nat,
    scan: ScanView,
    after: ScanView,
    dir: PathView,
)
    requires
        tree.valid(),
        stands_at(tree, weight, scan, tree.dirs, tree.leaves),
        scan.ends_as(after),
    ensures
        after.completed == tree.dirs,
        tree.dirs.contains(dir) ==> crate::scan::size_in(after.dir_sizes, dir) == sum_over(
            tree.leaves.filter(|leaf: PathView| leaf.strictly_under(dir)),
            weight,
        ),
{
    law_everything_completes(tree, weight, scan);
    let names = choose|names: Seq<SpelledView>| #[trigger] scan.ends_with_marks(names, after);
    let marks = crate::path::places(names);
    crate::walk::lemma_marking_keeps_the_rest(scan, names);
    assert forall|d: PathView| marks.to_set().contains(d) implies tree.dirs.contains(d) by {
        assert(scan.marked_at_end().contains(d));
        assert(scan.dir_sizes.contains_key(d));
    }
    assert(scan.completed.union(marks.to_set()) =~= tree.dirs);
    if tree.dirs.contains(dir) {
        law_completed_size_is_final(tree, weight, scan, tree.dirs, tree.leaves, dir);
    }
}

/// A scan that was told to stop and ends is no further than it was: what was
/// completed is so rightly, and nothing else is called completed.
pub proof fn law_stopped_scan_stands(
    tree: TreeView,
    weight: spec_fn(PathView) -> nat,
    scan: ScanView,
    after: ScanView,
    dirs: Set<PathView>,
    leaves: Set<PathView>,
)
    requires
        stands_at(tree, weight, scan, dirs, leaves),
        scan.cancel,
        scan.ends_as(after),
    ensures
        after.completed == scan.completed,
        after.top_dirs == scan.top_dirs,
        stands_at(tree, weight, after, dirs, leaves),
{
    let names = choose|names: Seq<SpelledView>| #[trigger] scan.ends_with_marks(names, after);
    assert(names.len() == 0) by {
        if names.len() > 0 {
            let marks = crate::path::places(names);
            assert(marks.contains(marks[0]));
            assert(marks.to_set().contains(marks[0]));
        }
    }
    crate::walk::lemma_marking_keeps_the_rest(scan, names);
    assert(crate::path::places(names) =~= Seq::<PathView>::empty());
    assert(after.completed =~= scan.completed);
    assert forall|dir: PathView| after.completed.contains(dir) implies #[trigger] is_rightly_completed(
        tree,
        after,
        leaves,
        dir,
    ) by {
        assert(is_rightly_completed(tree, scan, leaves, dir));
    }
    assert forall|dir: PathView| !after.completed.contains(dir) implies #[trigger] is_rightly_open(
        tree,
        after,
        dirs,
        leaves,
        dir,
    ) by {
        assert(is_rightly_open(tree, scan, dirs, leaves, dir));
    }
}

/// What a thread hands over after an interval, or when it ends, brings sizes
/// and completion just where handing over those alone brings them.
pub proof fn law_counting_files_leaves_completion(
    tree: TreeView,
    weight: spec_fn(PathView) -> nat,
    scan: ScanView,
    thread: ThreadView,
    after: ScanView,
    dirs: Set<PathView>,
    leaves: Set<PathView>,
    new_dirs: Set<PathView>,
    new_leaves: Set<PathView>,
)
    requires
        tree.valid(),
        stands_at(tree, weight, scan, dirs, leaves),
        gathers(tree, weight, thread, new_dirs, new_leaves),
        dirs.disjoint(new_dirs),
        leaves.disjoint(new_leaves),
        thread.flush_fits(scan),
        scan.takes_interval(thread, after) || scan.takes_rest(thread, after),
    ensures
        stands_at(tree, weight, after, dirs.union(new_dirs), leaves.union(new_leaves)),
        gathers(tree, weight, thread.flushed(), Set::empty(), Set::empty()),
{
    let flushed = if scan.takes_interval(thread, after) {
        choose|flushed: ScanView| #[trigger]
            scan.takes(thread, flushed) && crate::walk::interval_counted(flushed, thread, after)
    } else {
        choose|flushed: ScanView| #[trigger]
            scan.takes(thread, flushed) && after == crate::walk::rest_counted(flushed, thread)
    };
    law_handing_over(
        tree,
        weight,
        scan,
        thread,
        flushed,
        dirs,
        leaves,
        new_dirs,
        new_leaves,
    );
    assert(after.dir_completion == flushed.dir_completion && after.completed == flushed.completed
        && after.dir_sizes == flushed.dir_sizes);
    assert forall|dir: PathView| after.completed.contains(dir) implies #[trigger] is_rightly_completed(
        tree,
        after,
        leaves.union(new_leaves),
        dir,
    ) by {
        assert(is_rightly_completed(tree, flushed, leaves.union(new_leaves), dir));
    }
    assert forall|dir: PathView| !after.completed.contains(dir) implies #[trigger] is_rightly_open(
        tree,
        after,
        dirs.union(new_dirs),
        leaves.union(new_leaves),
        dir,
    ) by {
        assert(is_rightly_open(
            tree,
            flushed,
            dirs.union(new_dirs),
            leaves.union(new_leaves),
            dir,
        ));
    }
    law_nothing_at_first(tree, weight);
    let empty = thread.flushed();
    let fresh = ThreadView::fresh(tree.root);
    assert(empty.listed == fresh.listed && empty.yielded == fresh.yielded && empty.dir_sizes
        == fresh.dir_sizes && empty.root == fresh.root);
}

/// A thread adds to the number of files exactly those that it counted: whole
/// intervals as they fill, and the rest when it ends.
pub proof fn law_files_add_up(thread: ThreadView, path: SpelledView, len: u64)
    requires
        thread.count < u64::MAX,
    ensures
        ({
            let interval = crate::walk::FLUSH_INTERVAL as int;
            let after = thread.with_file(path, len);
            let due = (thread.count + 1) % interval == 0;
            &&& after.count == thread.count + 1
            &&& (after.count as int) / interval * interval == (thread.count as int) / interval
                * interval + if due {
                interval
            } else {
                0
            }
            &&& (after.count as int) / interval * interval + after.count as int % interval
                == after.count
        }),
{
}

} // verus!
