//! When a directory is complete.
//!
//! A directory is complete when every entry in it has been accounted for: each
//! file or link once it was met, each subdirectory once it is itself complete.
//! The tally holds, per directory, how many entries were accounted for and how
//! many it has; the latter is `usize::MAX` while it is not known.
use vstd::prelude::*;

use crate::keymap::KeyMap;
use crate::path::FsPath;
use crate::path::PathView;
use crate::path::SpelledView;

verus! {

/// How many entries of `dir` were accounted for.
pub open spec fn yields(tally: Map<PathView, (usize, usize)>, dir: PathView) -> int {
    if tally.contains_key(dir) {
        tally[dir].0 as int
    } else {
        0
    }
}

/// How many entries `dir` has, `usize::MAX` while that is not known.
pub open spec fn expects(tally: Map<PathView, (usize, usize)>, dir: PathView) -> usize {
    if tally.contains_key(dir) {
        tally[dir].1
    } else {
        usize::MAX
    }
}

/// How many entries of `dir` a batch accounts for.
pub open spec fn batch_count(batch: Map<PathView, usize>, dir: PathView) -> int {
    if batch.contains_key(dir) {
        batch[dir] as int
    } else {
        0
    }
}

/// The tally once the numbers of entries in `listed` are known.
pub open spec fn registered(
    tally: Map<PathView, (usize, usize)>,
    listed: Seq<(PathView, usize)>,
) -> Map<PathView, (usize, usize)>
    decreases listed.len(),
{
    if listed.len() == 0 {
        tally
    } else {
        let before = registered(tally, listed.drop_last());
        let (dir, expected) = listed.last();
        before.insert(dir, (yields(before, dir) as usize, expected))
    }
}

/// The tally once the entries of a batch are accounted for.
pub open spec fn accounted(
    tally: Map<PathView, (usize, usize)>,
    batch: Map<PathView, usize>,
) -> Map<PathView, (usize, usize)> {
    Map::new(
        |dir: PathView| tally.contains_key(dir) || batch.contains_key(dir),
        |dir: PathView|
            ((yields(tally, dir) + batch_count(batch, dir)) as usize, expects(tally, dir)),
    )
}

/// Whether the completion of `child` counts towards `dir`.
pub open spec fn counts_towards(child: PathView, root: PathView, dir: PathView) -> bool {
    child != root && child.parent() == Some(dir)
}

/// How many of `done` count towards `dir`.
pub open spec fn children_done(done: Seq<PathView>, root: PathView, dir: PathView) -> nat
    decreases done.len(),
{
    if done.len() == 0 {
        0
    } else {
        children_done(done.drop_last(), root, dir) + if counts_towards(done.last(), root, dir) {
            1nat
        } else {
            0nat
        }
    }
}

/// Whether every entry of `dir` is accounted for.
pub open spec fn is_ready(tally: Map<PathView, (usize, usize)>, dir: PathView) -> bool {
    &&& tally.contains_key(dir)
    &&& tally[dir].1 != usize::MAX
    &&& tally[dir].0 >= tally[dir].1
}

/// No directory in the tally has all its entries accounted for: such a
/// directory is complete, and a complete directory leaves the tally.
pub open spec fn is_settled(tally: Map<PathView, (usize, usize)>) -> bool {
    forall|dir: PathView| !#[trigger] is_ready(tally, dir)
}

/// Whether a batch speaks of `dir`.
pub open spec fn is_touched(
    listed: Seq<(PathView, usize)>,
    batch: Map<PathView, usize>,
    dir: PathView,
) -> bool {
    batch.contains_key(dir) || exists|i: int| 0 <= i < listed.len() && (#[trigger] listed[i]).0
        == dir
}

/// Whether every directory of `done` is ready by the time its turn comes: its
/// entries, with the subdirectories that stand before it, are all accounted
/// for.
pub open spec fn ready_in_turn(
    open: Map<PathView, (usize, usize)>,
    root: PathView,
    done: Seq<PathView>,
) -> bool {
    forall|i: int|
        0 <= i < done.len() ==> open[#[trigger] done[i]].0 + children_done(
            done.take(i),
            root,
            done[i],
        ) >= open[done[i]].1
}

/// Whether `done` are the directories that complete with a batch, given the
/// tally `open`: those whose entries, with the subdirectories among `done`, are
/// all accounted for, and of which the batch or a subdirectory among `done`
/// speaks. They stand in an order in which each is ready in turn.
pub open spec fn completes_exactly(
    open: Map<PathView, (usize, usize)>,
    listed: Seq<(PathView, usize)>,
    batch: Map<PathView, usize>,
    root: PathView,
    done: Seq<PathView>,
) -> bool {
    &&& done.no_duplicates()
    &&& ready_in_turn(open, root, done)
    &&& forall|dir: PathView| #[trigger]
        done.contains(dir) <==> {
            &&& open.contains_key(dir)
            &&& open[dir].1 != usize::MAX
            &&& open[dir].0 + children_done(done, root, dir) >= open[dir].1
            &&& is_touched(listed, batch, dir) || children_done(done, root, dir) > 0
        }
}

/// Whether a path stands as it was met: in the list, among the keys of the
/// batch, or as the parent of one of `before` that counts towards its parent.
pub open spec fn is_met(
    path: SpelledView,
    listed: Seq<SpelledView>,
    keys: Map<PathView, SpelledView>,
    root: PathView,
    before: Seq<SpelledView>,
) -> bool {
    ||| listed.contains(path)
    ||| keys.contains_key(path.at) && keys[path.at] == path
    ||| exists|k: int|
        0 <= k < before.len() && (#[trigger] before[k]).at != root && before[k].parent() == Some(
            path,
        )
}

/// Whether each of `done` stands as it was met, those before it among that.
pub open spec fn are_met(
    done: Seq<SpelledView>,
    listed: Seq<SpelledView>,
    keys: Map<PathView, SpelledView>,
    root: PathView,
) -> bool {
    forall|i: int|
        0 <= i < done.len() ==> is_met(#[trigger] done[i], listed, keys, root, done.take(i))
}

/// Whether `after` is the tally `open` once `done` have completed. A directory
/// that did not complete has its completed subdirectories accounted for. One
/// that did has left; where more of its subdirectories completed than it was
/// waiting for, it may stand again, with its number of entries unknown.
pub open spec fn tally_after(
    open: Map<PathView, (usize, usize)>,
    root: PathView,
    done: Seq<PathView>,
    after: Map<PathView, (usize, usize)>,
) -> bool {
    &&& forall|dir: PathView|
        !done.contains(dir) ==> {
            &&& #[trigger] after.contains_key(dir) <==> open.contains_key(dir) || children_done(
                done,
                root,
                dir,
            ) > 0
            &&& after.contains_key(dir) ==> after[dir].0 == yields(open, dir) + children_done(
                done,
                root,
                dir,
            ) && after[dir].1 == expects(open, dir)
        }
    &&& forall|dir: PathView|
        done.contains(dir) && #[trigger] after.contains_key(dir) ==> {
            &&& after[dir].1 == usize::MAX
            &&& 0 < after[dir].0 <= children_done(done, root, dir)
            &&& after[dir].0 <= open[dir].0 + children_done(done, root, dir) - open[dir].1
        }
}

/// Whether no counter can overflow: every one has room for the batch and for
/// one more entry per directory that could complete.
pub open spec fn counters_fit(
    tally: Map<PathView, (usize, usize)>,
    listed: Seq<(PathView, usize)>,
    batch: Map<PathView, usize>,
) -> bool {
    forall|dir: PathView| #[trigger]
        yields(tally, dir) + batch_count(batch, dir) + tally.dom().len() + listed.len()
            + batch.dom().len() < usize::MAX
}

/// The directories of a list with their spellings.
pub open spec fn listed_names(listed: Seq<(FsPath, usize)>) -> Seq<SpelledView> {
    Seq::new(listed.len(), |i: int| listed[i].0.named())
}

/// The views of a list of directories with their numbers of entries.
pub open spec fn listed_views(listed: Seq<(FsPath, usize)>) -> Seq<(PathView, usize)> {
    Seq::new(listed.len(), |i: int| (listed[i].0@, listed[i].1))
}

proof fn lemma_registered_facts(
    tally: Map<PathView, (usize, usize)>,
    listed: Seq<(PathView, usize)>,
)
    requires
        tally.dom().finite(),
    ensures
        registered(tally, listed).dom().finite(),
        registered(tally, listed).dom().len() <= tally.dom().len() + listed.len(),
        forall|dir: PathView| #[trigger]
            yields(registered(tally, listed), dir) == yields(tally, dir),
        forall|dir: PathView| #[trigger]
            is_ready(registered(tally, listed), dir) && !is_ready(tally, dir) ==> exists|i: int|
                0 <= i < listed.len() && (#[trigger] listed[i]).0 == dir,
    decreases listed.len(),
{
    if listed.len() > 0 {
        lemma_registered_facts(tally, listed.drop_last());
        let before = registered(tally, listed.drop_last());
        let after = registered(tally, listed);
        assert forall|dir: PathView| #[trigger] yields(after, dir) == yields(tally, dir) by {
            assert(yields(before, dir) == yields(tally, dir));
        }
        assert forall|dir: PathView| #[trigger]
            is_ready(after, dir) && !is_ready(tally, dir) implies exists|i: int|
            0 <= i < listed.len() && (#[trigger] listed[i]).0 == dir by {
            if dir == listed.last().0 {
                assert(listed[listed.len() - 1].0 == dir);
            } else {
                assert(is_ready(before, dir));
                let i = choose|i: int|
                    0 <= i < listed.drop_last().len() && (#[trigger] listed.drop_last()[i]).0
                        == dir;
                assert(listed[i].0 == dir);
            }
        }
    }
}

proof fn lemma_accounted_facts(tally: Map<PathView, (usize, usize)>, batch: Map<PathView, usize>)
    requires
        tally.dom().finite(),
        batch.dom().finite(),
        forall|dir: PathView| #[trigger]
            yields(tally, dir) + batch_count(batch, dir) <= usize::MAX,
    ensures
        accounted(tally, batch).dom().finite(),
        accounted(tally, batch).dom().len() <= tally.dom().len() + batch.dom().len(),
        forall|dir: PathView| #[trigger]
            yields(accounted(tally, batch), dir) == yields(tally, dir) + batch_count(batch, dir),
        forall|dir: PathView| #[trigger] expects(accounted(tally, batch), dir) == expects(tally, dir),
        forall|dir: PathView| #[trigger]
            is_ready(accounted(tally, batch), dir) && !is_ready(tally, dir) ==> batch.contains_key(
                dir,
            ),
{
    let after = accounted(tally, batch);
    assert(after.dom() =~= tally.dom().union(batch.dom()));
    vstd::set_lib::lemma_len_union(tally.dom(), batch.dom());
    assert forall|dir: PathView| #[trigger]
        is_ready(after, dir) && !is_ready(tally, dir) implies batch.contains_key(dir) by {
        if !batch.contains_key(dir) {
            assert(yields(after, dir) == yields(tally, dir) + batch_count(batch, dir));
        }
    }
}

proof fn lemma_children_done_bound(done: Seq<PathView>, root: PathView, dir: PathView)
    ensures
        children_done(done, root, dir) <= done.len(),
    decreases done.len(),
{
    if done.len() > 0 {
        lemma_children_done_bound(done.drop_last(), root, dir);
    }
}

/// The directories whose number of entries is known.
spec fn known(tally: Map<PathView, (usize, usize)>) -> Set<PathView> {
    tally.dom().filter(|dir: PathView| tally[dir].1 != usize::MAX)
}

/// What holds while completions are worked through.
spec fn progress(
    open: Map<PathView, (usize, usize)>,
    listed: Seq<(PathView, usize)>,
    batch: Map<PathView, usize>,
    now: Map<PathView, (usize, usize)>,
    root: PathView,
    done: Seq<PathView>,
    pending: Seq<PathView>,
) -> bool {
    &&& open.dom().finite()
    &&& now.dom().finite()
    &&& done.no_duplicates()
    &&& ready_in_turn(open, root, done)
    &&& tally_after(open, root, done, now)
    &&& forall|dir: PathView| #[trigger]
        done.contains(dir) ==> {
            &&& open.contains_key(dir)
            &&& open[dir].1 != usize::MAX
            &&& open[dir].0 + children_done(done, root, dir) >= open[dir].1
            &&& is_touched(listed, batch, dir) || children_done(done, root, dir) > 0
        }
    &&& forall|dir: PathView| #[trigger]
        is_ready(now, dir) && (is_touched(listed, batch, dir) || children_done(done, root, dir) > 0)
            ==> pending.contains(dir)
    &&& forall|dir: PathView| #[trigger]
        pending.contains(dir) ==> is_touched(listed, batch, dir) || children_done(done, root, dir)
            > 0
}

proof fn lemma_done_within(
    open: Map<PathView, (usize, usize)>,
    done: Seq<PathView>,
)
    requires
        open.dom().finite(),
        done.no_duplicates(),
        forall|dir: PathView| #[trigger] done.contains(dir) ==> open.contains_key(dir),
    ensures
        done.len() <= open.dom().len(),
{
    done.unique_seq_to_set();
    assert forall|dir: PathView| done.to_set().contains(dir) implies open.dom().contains(dir) by {
        assert(done.contains(dir));
    }
    vstd::set_lib::lemma_len_subset(done.to_set(), open.dom());
}

proof fn lemma_children_done_push(done: Seq<PathView>, root: PathView, child: PathView)
    ensures
        forall|dir: PathView| #[trigger]
            children_done(done.push(child), root, dir) == children_done(done, root, dir)
                + if counts_towards(child, root, dir) {
                1nat
            } else {
                0nat
            },
{
    assert(done.push(child).drop_last() =~= done);
}

/// One directory completes.
proof fn lemma_step_completes(
    open: Map<PathView, (usize, usize)>,
    listed: Seq<(PathView, usize)>,
    batch: Map<PathView, usize>,
    now: Map<PathView, (usize, usize)>,
    next: Map<PathView, (usize, usize)>,
    root: PathView,
    done: Seq<PathView>,
    pending: Seq<PathView>,
    rest: Seq<PathView>,
    dir: PathView,
)
    requires
        progress(open, listed, batch, now, root, done, pending),
        pending.len() > 0,
        dir == pending.last(),
        is_ready(now, dir),
        dir != root && dir.parent() is Some ==> {
            let up = dir.parent()->0;
            &&& next == now.remove(dir).insert(
                up,
                ((yields(now, up) + 1) as usize, expects(now, up)),
            )
            &&& yields(now, up) + 1 <= usize::MAX
            &&& rest == pending.drop_last().push(up)
        },
        !(dir != root && dir.parent() is Some) ==> next == now.remove(dir) && rest
            == pending.drop_last(),
    ensures
        progress(open, listed, batch, next, root, done.push(dir), rest),
        known(now).finite(),
        known(next).finite(),
        known(next).len() < known(now).len(),
{
    let grown = done.push(dir);
    lemma_children_done_push(done, root, dir);
    assert(!done.contains(dir)) by {
        if done.contains(dir) {
            assert(now.contains_key(dir));
        }
    }
    assert(grown.contains(dir)) by {
        assert(grown[done.len() as int] == dir);
    }
    assert forall|d: PathView| grown.contains(d) implies done.contains(d) || d == dir by {
        let i = choose|i: int| 0 <= i < grown.len() && grown[i] == d;
        if i < done.len() {
            assert(done[i] == d);
        }
    }
    assert forall|d: PathView| done.contains(d) implies #[trigger] grown.contains(d) by {
        let i = choose|i: int| 0 <= i < done.len() && done[i] == d;
        assert(grown[i] == d);
    }
    assert(grown.no_duplicates()) by {
        assert forall|i: int, j: int|
            0 <= i < grown.len() && 0 <= j < grown.len() && i != j implies grown[i]
            != grown[j] by {
            if i == done.len() {
                assert(done.contains(done[j]));
            } else if j == done.len() {
                assert(done.contains(done[i]));
            }
        }
    }
    let bumps = dir != root && dir.parent() is Some;
    let up = dir.parent()->0;
    if bumps {
        assert(up.parts.len() < dir.parts.len());
        assert(up != dir);
    }
    assert(now.contains_key(dir));
    assert(now[dir].0 == yields(open, dir) + children_done(done, root, dir));
    assert(now[dir].1 == expects(open, dir));
    assert(open.contains_key(dir));
    assert forall|i: int| 0 <= i < grown.len() implies open[#[trigger] grown[i]].0 + children_done(
        grown.take(i),
        root,
        grown[i],
    ) >= open[grown[i]].1 by {
        assert(grown.take(i) =~= done.take(i));
        if i < done.len() {
            assert(grown[i] == done[i]);
        } else {
            assert(done.take(i) =~= done);
        }
    }
    assert forall|d: PathView| !grown.contains(d) implies {
        &&& #[trigger] next.contains_key(d) <==> open.contains_key(d) || children_done(
            grown,
            root,
            d,
        ) > 0
        &&& next.contains_key(d) ==> next[d].0 == yields(open, d) + children_done(grown, root, d)
            && next[d].1 == expects(open, d)
    } by {
        assert(!done.contains(d));
        assert(now.contains_key(d) <==> open.contains_key(d) || children_done(done, root, d) > 0);
    }
    assert forall|d: PathView| grown.contains(d) && #[trigger] next.contains_key(d) implies {
        &&& next[d].1 == usize::MAX
        &&& 0 < next[d].0 <= children_done(grown, root, d)
        &&& next[d].0 <= open[d].0 + children_done(grown, root, d) - open[d].1
    } by {
        if d != dir {
            assert(done.contains(d));
            assert(open[d].0 + children_done(done, root, d) >= open[d].1);
            if bumps && d == up {
                if now.contains_key(d) {
                    assert(now[d].1 == usize::MAX);
                }
            } else {
                assert(now.contains_key(d));
            }
        } else {
            assert(false);
        }
    }
    assert forall|d: PathView| #[trigger] grown.contains(d) implies {
        &&& open.contains_key(d)
        &&& open[d].1 != usize::MAX
        &&& open[d].0 + children_done(grown, root, d) >= open[d].1
        &&& is_touched(listed, batch, d) || children_done(grown, root, d) > 0
    } by {
        if d != dir {
            assert(done.contains(d));
        } else {
            assert(pending.contains(dir)) by {
                assert(pending[pending.len() - 1] == dir);
            }
        }
    }
    assert forall|d: PathView| #[trigger] rest.contains(d) implies is_touched(listed, batch, d)
        || children_done(grown, root, d) > 0 by {
        let i = choose|i: int| 0 <= i < rest.len() && rest[i] == d;
        if bumps && i == rest.len() - 1 {
            assert(counts_towards(dir, root, d));
        } else {
            assert(pending[i] == d);
            assert(pending.contains(d));
        }
    }
    assert forall|d: PathView| #[trigger]
        is_ready(next, d) && (is_touched(listed, batch, d) || children_done(grown, root, d)
            > 0) implies rest.contains(d) by {
        if bumps && d == up {
            assert(rest[rest.len() - 1] == up);
        } else {
            assert(is_ready(now, d));
            assert(pending.contains(d));
            let i = choose|i: int| 0 <= i < pending.len() && pending[i] == d;
            assert(d != dir);
            assert(i < pending.len() - 1);
            assert(rest[i] == d);
        }
    }
    vstd::set_lib::lemma_len_subset(known(now), now.dom());
    vstd::set_lib::lemma_len_subset(known(next), next.dom());
    assert(known(now).contains(dir));
    assert(known(next) =~= known(now).remove(dir));
}

/// What was popped was not complete.
proof fn lemma_step_skips(
    open: Map<PathView, (usize, usize)>,
    listed: Seq<(PathView, usize)>,
    batch: Map<PathView, usize>,
    now: Map<PathView, (usize, usize)>,
    root: PathView,
    done: Seq<PathView>,
    pending: Seq<PathView>,
)
    requires
        progress(open, listed, batch, now, root, done, pending),
        pending.len() > 0,
        !is_ready(now, pending.last()),
    ensures
        progress(open, listed, batch, now, root, done, pending.drop_last()),
{
    assert forall|d: PathView| #[trigger] pending.drop_last().contains(d) implies is_touched(
        listed,
        batch,
        d,
    ) || children_done(done, root, d) > 0 by {
        let i = choose|i: int| 0 <= i < pending.drop_last().len() && pending.drop_last()[i] == d;
        assert(pending[i] == d);
        assert(pending.contains(d));
    }
    assert forall|d: PathView| #[trigger]
        is_ready(now, d) && (is_touched(listed, batch, d) || children_done(done, root, d)
            > 0) implies pending.drop_last().contains(d) by {
        assert(pending.contains(d));
        let i = choose|i: int| 0 <= i < pending.len() && pending[i] == d;
        assert(pending.drop_last()[i] == d);
    }
}

/// Computes [`counters_fit`].
pub fn counters_have_room(
    tally: &KeyMap<FsPath, (usize, usize)>,
    yielded: &KeyMap<FsPath, usize>,
    listed: &Vec<(FsPath, usize)>,
) -> (r: bool)
    ensures
        r == counters_fit(tally@, listed_views(listed@), yielded@),
{
    let known_dirs = tally.entries();
    let counts = yielded.entries();
    proof {
        crate::keymap::lemma_listed_map_is_finite(known_dirs@, tally@);
        crate::keymap::lemma_listed_map_is_finite(counts@, yielded@);
    }
    let base: u128 = known_dirs.len() as u128 + listed.len() as u128 + counts.len() as u128;
    let limit: u128 = usize::MAX as u128;
    let ghost dirs = listed_views(listed@);
    assert(forall|dir: PathView|
        yields(tally@, dir) + batch_count(yielded@, dir) + tally@.dom().len() + dirs.len()
            + yielded@.dom().len() == #[trigger] yields(tally@, dir) + batch_count(yielded@, dir)
            + base);
    if base >= limit {
        proof {
            let dir = PathView { absolute: true, parts: Seq::empty() };
            assert(yields(tally@, dir) + batch_count(yielded@, dir) + tally@.dom().len()
                + dirs.len() + yielded@.dom().len() >= usize::MAX);
        }
        return false;
    }
    let mut i: usize = 0;
    while i < known_dirs.len()
        invariant
            i <= known_dirs@.len(),
            limit == usize::MAX,
            base < limit,
            base == tally@.dom().len() + dirs.len() + yielded@.dom().len(),
            dirs == listed_views(listed@),
            crate::keymap::lists_map(known_dirs@, tally@),
            forall|k: int|
                0 <= k < i ==> yields(tally@, (#[trigger] known_dirs@[k]).0@) + batch_count(
                    yielded@,
                    known_dirs@[k].0@,
                ) + base < limit,
        decreases known_dirs@.len() - i,
    {
        assert(tally@.contains_key(known_dirs@[i as int].0@));
        let so_far: u128 = (known_dirs[i].1).0 as u128;
        let more: u128 = match yielded.get(&known_dirs[i].0) {
            Some(n) => n as u128,
            None => 0,
        };
        if so_far + more + base >= limit {
            proof {
                let dir = known_dirs@[i as int].0@;
                assert(yields(tally@, dir) + batch_count(yielded@, dir) + tally@.dom().len()
                    + dirs.len() + yielded@.dom().len() >= usize::MAX);
            }
            return false;
        }
        i += 1;
    }
    let mut j: usize = 0;
    while j < counts.len()
        invariant
            j <= counts@.len(),
            limit == usize::MAX,
            base < limit,
            base == tally@.dom().len() + dirs.len() + yielded@.dom().len(),
            dirs == listed_views(listed@),
            crate::keymap::lists_map(counts@, yielded@),
            forall|k: int|
                0 <= k < j ==> yields(tally@, (#[trigger] counts@[k]).0@) + batch_count(
                    yielded@,
                    counts@[k].0@,
                ) + base < limit,
        decreases counts@.len() - j,
    {
        assert(yielded@.contains_key(counts@[j as int].0@));
        let more: u128 = counts[j].1 as u128;
        let so_far: u128 = match tally.get(&counts[j].0) {
            Some(entry) => entry.0 as u128,
            None => 0,
        };
        if so_far + more + base >= limit {
            proof {
                let dir = counts@[j as int].0@;
                assert(yields(tally@, dir) + batch_count(yielded@, dir) + tally@.dom().len()
                    + dirs.len() + yielded@.dom().len() >= usize::MAX);
            }
            return false;
        }
        j += 1;
    }
    proof {
        assert forall|dir: PathView| #[trigger]
            yields(tally@, dir) + batch_count(yielded@, dir) + tally@.dom().len() + dirs.len()
                + yielded@.dom().len() < usize::MAX by {
            if tally@.contains_key(dir) {
                let k = choose|k: int|
                    0 <= k < known_dirs@.len() && (#[trigger] known_dirs@[k]).0@ == dir;
                assert(yields(tally@, known_dirs@[k].0@) + batch_count(
                    yielded@,
                    known_dirs@[k].0@,
                ) + base < limit);
            } else if yielded@.contains_key(dir) {
                let k = choose|k: int| 0 <= k < counts@.len() && (#[trigger] counts@[k]).0@ == dir;
                assert(yields(tally@, counts@[k].0@) + batch_count(yielded@, counts@[k].0@) + base
                    < limit);
            }
        }
    }
    true
}

proof fn lemma_met_stays(
    path: SpelledView,
    listed: Seq<SpelledView>,
    keys: Map<PathView, SpelledView>,
    root: PathView,
    before: Seq<SpelledView>,
    more: SpelledView,
)
    requires
        is_met(path, listed, keys, root, before),
    ensures
        is_met(path, listed, keys, root, before.push(more)),
{
    if exists|k: int|
        0 <= k < before.len() && (#[trigger] before[k]).at != root && before[k].parent() == Some(
            path,
        ) {
        let k = choose|k: int|
            0 <= k < before.len() && (#[trigger] before[k]).at != root && before[k].parent()
                == Some(path);
        assert(before.push(more)[k] == before[k]);
    }
}

/// Applies a batch to the tally and takes out the directories that are
/// complete with it, each counting towards its parent as it completes. The
/// root counts towards nothing. `yielded` and `listed` are emptied. Each
/// directory stands as it was met.
#[verifier::rlimit(60)]
pub fn settle(
    tally: &mut KeyMap<FsPath, (usize, usize)>,
    yielded: &mut KeyMap<FsPath, usize>,
    listed: &mut Vec<(FsPath, usize)>,
    root: &FsPath,
) -> (r: Vec<FsPath>)
    requires
        counters_fit(old(tally)@, listed_views(old(listed)@), old(yielded)@),
    ensures
        ({
            let open = accounted(
                registered(old(tally)@, listed_views(old(listed)@)),
                old(yielded)@,
            );
            &&& completes_exactly(
                open,
                listed_views(old(listed)@),
                old(yielded)@,
                root@,
                crate::path::path_views(r@),
            )
            &&& tally_after(open, root@, crate::path::path_views(r@), final(tally)@)
        }),
        are_met(
            crate::path::named_views(r@),
            listed_names(old(listed)@),
            old(yielded).names(),
            root@,
        ),
        crate::path::are_spelled(crate::path::named_views(r@)),
        is_settled(old(tally)@) ==> is_settled(final(tally)@),
        final(yielded)@ == Map::<PathView, usize>::empty(),
        final(yielded).names() == Map::<PathView, SpelledView>::empty(),
        final(listed)@ == Seq::<(FsPath, usize)>::empty(),
{
    let ghost named = listed_names(listed@);
    let ghost keys = yielded.names();
    let ghost before = tally@;
    let ghost batch = yielded@;
    let ghost dirs = listed_views(listed@);
    let ghost known_before = registered(before, dirs);
    let ghost open = accounted(known_before, batch);
    let mut pending: Vec<FsPath> = Vec::new();
    let mut i: usize = 0;
    // A lookup tells that the tally is finite.
    let _ = tally.get(root);
    let counts = yielded.entries();
    proof {
        crate::keymap::lemma_listed_map_is_finite(counts@, batch);
        lemma_registered_facts(before, dirs);
        assert forall|dir: PathView| #[trigger]
            yields(known_before, dir) + batch_count(batch, dir) <= usize::MAX by {
            assert(yields(before, dir) + batch_count(batch, dir) + before.dom().len() + dirs.len()
                + batch.dom().len() < usize::MAX);
        }
        lemma_accounted_facts(known_before, batch);
        assert(dirs.take(0) =~= Seq::<(PathView, usize)>::empty());
        assert(crate::path::path_views(pending@) =~= Seq::<PathView>::empty());
    }
    while i < listed.len()
        invariant
            i <= listed@.len(),
            dirs == listed_views(listed@),
            tally@ == registered(before, dirs.take(i as int)),
            pending@.len() == i,
            named == listed_names(listed@),
            forall|j: int| 0 <= j < i ==> (#[trigger] pending@[j]).named() == named[j],
            forall|j: int|
                0 <= j < i ==> (#[trigger] crate::path::path_views(pending@)[j]) == dirs[j].0,
        decreases listed@.len() - i,
    {
        let dir = listed[i].0.clone();
        let expected: usize = listed[i].1;
        let so_far: usize = match tally.get(&dir) {
            Some(entry) => entry.0,
            None => 0,
        };
        assert(dirs.take(i + 1).drop_last() =~= dirs.take(i as int));
        assert(dirs.take(i + 1).last() == (dir@, expected));
        tally.insert(dir.clone(), (so_far, expected));
        let ghost earlier = pending@;
        pending.push(dir);
        assert(crate::path::path_views(pending@) =~= crate::path::path_views(earlier).push(dir@));
        i += 1;
    }
    assert(dirs.take(dirs.len() as int) =~= dirs);
    let ghost listed_pending = crate::path::path_views(pending@);
    let mut j: usize = 0;
    assert(accounted(known_before, Map::empty()) =~= known_before) by {
        assert forall|dir: PathView| known_before.contains_key(dir) implies
            #[trigger] accounted(known_before, Map::empty())[dir] == known_before[dir] by {
            assert(batch_count(Map::empty(), dir) == 0);
        }
    }
    while j < counts.len()
        invariant
            j <= counts@.len(),
            crate::keymap::lists_map(counts@, batch),
            open == accounted(known_before, batch),
            forall|dir: PathView| #[trigger]
                yields(known_before, dir) + batch_count(batch, dir) <= usize::MAX,
            forall|dir: PathView|
                {
                    let met = exists|m: int| 0 <= m < j && (#[trigger] counts@[m]).0@ == dir;
                    &&& #[trigger] tally@.contains_key(dir) <==> known_before.contains_key(dir)
                        || met
                    &&& tally@.contains_key(dir) ==> tally@[dir] == (if met {
                        open[dir]
                    } else {
                        known_before[dir]
                    })
                },
            pending@.len() == listed_pending.len() + j,
            named.len() == listed_pending.len(),
            crate::keymap::lists_names(counts@, keys),
            forall|m: int|
                0 <= m < listed_pending.len() ==> (#[trigger] pending@[m]).named() == named[m],
            forall|m: int|
                listed_pending.len() <= m < pending@.len() ==> keys.contains_key(
                    (#[trigger] pending@[m]).named().at,
                ) && keys[pending@[m].named().at] == pending@[m].named(),
            forall|m: int|
                0 <= m < listed_pending.len() ==> (#[trigger] crate::path::path_views(pending@)[m])
                    == listed_pending[m],
            forall|m: int|
                0 <= m < j ==> crate::path::path_views(pending@)[listed_pending.len() + m] == (
                #[trigger] counts@[m]).0@,
        decreases counts@.len() - j,
    {
        let dir = counts[j].0.clone();
        let count: usize = counts[j].1;
        let ghost tally_before = tally@;
        assert(batch.contains_key(counts@[j as int].0@));
        assert(!(exists|m: int| 0 <= m < j && (#[trigger] counts@[m]).0@ == dir@));
        assert(yields(known_before, dir@) + batch_count(batch, dir@) <= usize::MAX);
        let (so_far, expected): (usize, usize) = match tally.get(&dir) {
            Some(entry) => entry,
            None => (0, usize::MAX),
        };
        assert(so_far == yields(known_before, dir@));
        assert(expected == expects(known_before, dir@));
        tally.insert(dir.clone(), (so_far + count, expected));
        let ghost earlier = pending@;
        pending.push(dir);
        assert(crate::path::path_views(pending@) =~= crate::path::path_views(earlier).push(dir@));
        proof {
            assert forall|d: PathView| ({
                let met = exists|m: int| 0 <= m < j + 1 && (#[trigger] counts@[m]).0@ == d;
                &&& #[trigger] tally@.contains_key(d) <==> known_before.contains_key(d) || met
                &&& tally@.contains_key(d) ==> tally@[d] == (if met {
                    open[d]
                } else {
                    known_before[d]
                })
            }) by {
                let met_before = exists|m: int| 0 <= m < j && (#[trigger] counts@[m]).0@ == d;
                let met = exists|m: int| 0 <= m < j + 1 && (#[trigger] counts@[m]).0@ == d;
                if d == dir@ {
                    assert(counts@[j as int].0@ == d);
                    assert(met);
                } else {
                    if met {
                        let m = choose|m: int| 0 <= m < j + 1 && (#[trigger] counts@[m]).0@ == d;
                        assert(m != j);
                    }
                    assert(met == met_before);
                    assert(tally_before.contains_key(d) == tally@.contains_key(d));
                }
            }
        }
        j += 1;
    }
    yielded.clear();
    listed.clear();
    let mut done: Vec<FsPath> = Vec::new();
    proof {
        assert forall|d: PathView| #[trigger] tally@.contains_key(d) == open.contains_key(d) by {
            if batch.contains_key(d) {
                let m = choose|m: int| 0 <= m < counts@.len() && (#[trigger] counts@[m]).0@ == d;
                assert(counts@[m].0@ == d);
            }
        }
        assert forall|d: PathView| tally@.contains_key(d) implies #[trigger] tally@[d]
            == open[d] by {
            if !batch.contains_key(d) {
                assert(batch_count(batch, d) == 0);
                assert(!(exists|m: int| 0 <= m < counts@.len() && (#[trigger] counts@[m]).0@ == d));
            }
        }
        assert(tally@ =~= open);
        let none = crate::path::path_views(done@);
        assert(none =~= Seq::<PathView>::empty());
        let waiting = crate::path::path_views(pending@);
        assert forall|d: PathView| #[trigger] waiting.contains(d) implies is_touched(
            dirs,
            batch,
            d,
        ) by {
            let m = choose|m: int| 0 <= m < waiting.len() && waiting[m] == d;
            if m < listed_pending.len() {
                assert(dirs[m].0 == d);
            } else {
                assert(counts@[m - listed_pending.len()].0@ == d);
                assert(batch.contains_key(d));
            }
        }
        assert forall|d: PathView| #[trigger]
            is_ready(open, d) && is_touched(dirs, batch, d) implies waiting.contains(d) by {
            if batch.contains_key(d) {
                let m = choose|m: int| 0 <= m < counts@.len() && (#[trigger] counts@[m]).0@ == d;
                assert(waiting[listed_pending.len() + m] == d);
            } else {
                let m = choose|m: int| 0 <= m < dirs.len() && (#[trigger] dirs[m]).0 == d;
                assert(listed_pending[m] == d);
                assert(waiting[m] == d);
            }
        }
        assert(progress(open, dirs, batch, tally@, root@, none, waiting));
        assert forall|m: int| 0 <= m < pending@.len() implies is_met(
            (#[trigger] pending@[m]).named(),
            named,
            keys,
            root@,
            crate::path::named_views(done@),
        ) by {
            if m < listed_pending.len() {
                assert(named[m] == pending@[m].named());
            }
        }
        assert forall|dir: PathView| #[trigger]
            yields(open, dir) + open.dom().len() < usize::MAX by {
            assert(yields(before, dir) + batch_count(batch, dir) + before.dom().len() + dirs.len()
                + batch.dom().len() < usize::MAX);
            assert(yields(known_before, dir) == yields(before, dir));
        }
    }
    while pending.len() > 0
        invariant
            progress(
                open,
                dirs,
                batch,
                tally@,
                root@,
                crate::path::path_views(done@),
                crate::path::path_views(pending@),
            ),
            crate::path::are_spelled(crate::path::named_views(done@)),
            are_met(crate::path::named_views(done@), named, keys, root@),
            forall|m: int|
                0 <= m < pending@.len() ==> is_met(
                    (#[trigger] pending@[m]).named(),
                    named,
                    keys,
                    root@,
                    crate::path::named_views(done@),
                ),
            forall|dir: PathView| #[trigger]
                yields(open, dir) + open.dom().len() < usize::MAX,
        decreases known(tally@).len(), pending@.len(),
    {
        let ghost now = tally@;
        let ghost waiting = crate::path::path_views(pending@);
        let ghost finished = crate::path::path_views(done@);
        let ghost stack = pending@;
        let dir: FsPath = pending.pop().unwrap();
        assert(stack.last() == dir);
        assert(waiting.last() == dir@);
        assert(crate::path::path_views(pending@) =~= waiting.drop_last());
        let ready: bool = match tally.get(&dir) {
            Some(entry) => entry.1 != usize::MAX && entry.0 >= entry.1,
            None => false,
        };
        assert(ready == is_ready(now, dir@));
        if !ready {
            proof {
                lemma_step_skips(open, dirs, batch, now, root@, finished, waiting);
            }
            continue;
        }
        tally.remove(&dir);
        let parent: Option<FsPath> = if dir.same(root) {
            None
        } else {
            dir.parent()
        };
        match parent {
            Some(up) => {
                proof {
                    assert(up@.parts.len() < dir@.parts.len());
                    lemma_done_within(open, finished);
                    lemma_children_done_bound(finished, root@, up@);
                    assert(yields(open, up@) + open.dom().len() < usize::MAX);
                    if finished.contains(up@) {
                        if now.contains_key(up@) {
                            assert(now[up@].0 <= children_done(finished, root@, up@));
                        }
                    } else if now.contains_key(up@) {
                        assert(now[up@].0 == yields(open, up@) + children_done(
                            finished,
                            root@,
                            up@,
                        ));
                    }
                    assert(yields(now, up@) + 1 <= usize::MAX);
                }
                let (so_far, expected): (usize, usize) = match tally.get(&up) {
                    Some(entry) => entry,
                    None => (0, usize::MAX),
                };
                assert(so_far == yields(now, up@));
                assert(expected == expects(now, up@));
                tally.insert(up.clone(), (so_far + 1, expected));
                let ghost fewer = pending@;
                pending.push(up);
                assert(crate::path::path_views(pending@) =~= crate::path::path_views(fewer).push(
                    up@,
                ));
            },
            None => {},
        }
        proof {
            lemma_step_completes(
                open,
                dirs,
                batch,
                now,
                tally@,
                root@,
                finished,
                waiting,
                crate::path::path_views(pending@),
                dir@,
            );
        }
        let ghost names = crate::path::named_views(done@);
        assert(dir.named() == crate::path::spelled(dir.spelling()));
        done.push(dir);
        proof {
            let grown = names.push(dir.named());
            assert(crate::path::named_views(done@) =~= grown);
            assert forall|i: int| 0 <= i < grown.len() implies is_met(
                #[trigger] grown[i],
                named,
                keys,
                root@,
                grown.take(i),
            ) by {
                assert(grown.take(i) =~= names.take(i));
                if i < names.len() {
                    assert(grown[i] == names[i]);
                } else {
                    assert(names.take(i) =~= names);
                }
            }
            assert forall|m: int| 0 <= m < pending@.len() implies is_met(
                (#[trigger] pending@[m]).named(),
                named,
                keys,
                root@,
                grown,
            ) by {
                if m < stack.len() - 1 {
                    assert(pending@[m] == stack[m]);
                    lemma_met_stays(pending@[m].named(), named, keys, root@, names, dir.named());
                } else {
                    assert(grown[names.len() as int] == dir.named());
                }
            }
        }
        assert(crate::path::path_views(done@) =~= finished.push(dir@));
    }
    proof {
        let finished = crate::path::path_views(done@);
        assert(crate::path::path_views(pending@) =~= Seq::<PathView>::empty());
        assert forall|dir: PathView| #[trigger]
            finished.contains(dir) <==> {
                &&& open.contains_key(dir)
                &&& open[dir].1 != usize::MAX
                &&& open[dir].0 + children_done(finished, root@, dir) >= open[dir].1
                &&& is_touched(dirs, batch, dir) || children_done(finished, root@, dir) > 0
            } by {
            if !finished.contains(dir) && open.contains_key(dir) && open[dir].1 != usize::MAX
                && open[dir].0 + children_done(finished, root@, dir) >= open[dir].1 && (is_touched(
                dirs,
                batch,
                dir,
            ) || children_done(finished, root@, dir) > 0) {
                assert(tally@.contains_key(dir));
                assert(is_ready(tally@, dir));
                assert(crate::path::path_views(pending@).contains(dir));
            }
        }
        if is_settled(before) {
            assert forall|dir: PathView| !#[trigger] is_ready(tally@, dir) by {
                if is_ready(tally@, dir) {
                    assert(!is_ready(before, dir));
                    assert(!finished.contains(dir));
                    assert(!is_touched(dirs, batch, dir));
                    assert(is_ready(open, dir));
                    assert(is_ready(known_before, dir));
                }
            }
        }
    }
    done
}

} // verus!
