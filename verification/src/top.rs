//! Lists of the largest files and directories.
use vstd::prelude::*;

use crate::path::FsPath;
use crate::path::PathView;
use crate::path::SpelledView;

verus! {

/// How many entries a list of the largest holds.
pub const TOP_N: usize = 10;

/// A tracked large file or directory.
#[verifier::ext_equal]
pub struct SizedView {
    pub path: SpelledView,
    pub size: u64,
}

/// A tracked large file or directory.
#[derive(Debug)]
pub struct SizedEntry {
    pub path: FsPath,
    pub size: u64,
}

impl View for SizedEntry {
    type V = SizedView;

    open spec fn view(&self) -> SizedView {
        SizedView { path: self.path.named(), size: self.size }
    }
}

impl Clone for SizedEntry {
    fn clone(&self) -> (r: SizedEntry)
        ensures
            r@ == self@,
    {
        SizedEntry { path: self.path.clone(), size: self.size }
    }
}

/// The views of a list of entries.
pub open spec fn sized_views(list: Seq<SizedEntry>) -> Seq<SizedView> {
    Seq::new(list.len(), |i: int| list[i]@)
}

/// `list` with `entry` put in from the end, past the smaller ones.
pub open spec fn placed(list: Seq<SizedView>, entry: SizedView) -> Seq<SizedView>
    decreases list.len(),
{
    if list.len() == 0 || list.last().size >= entry.size {
        list.push(entry)
    } else {
        placed(list.drop_last(), entry).push(list.last())
    }
}

/// The entries from the largest to the smallest; equal ones keep their order.
pub open spec fn by_size(list: Seq<SizedView>) -> Seq<SizedView>
    decreases list.len(),
{
    if list.len() == 0 {
        list
    } else {
        placed(by_size(list.drop_last()), list.last())
    }
}

/// The first `n` of a list, or all of it if it is shorter.
pub open spec fn first_n<T>(list: Seq<T>, n: nat) -> Seq<T> {
    if list.len() <= n {
        list
    } else {
        list.take(n as int)
    }
}

/// The size of the last entry, 0 if there is none.
pub open spec fn last_size(list: Seq<SizedView>) -> u64 {
    if list.len() == 0 {
        0
    } else {
        list.last().size
    }
}

/// The size that an entry must exceed to enter the list: that of its last
/// entry once the list is full.
pub open spec fn entry_floor(list: Seq<SizedView>) -> u64 {
    if list.len() >= TOP_N {
        last_size(list)
    } else {
        0
    }
}

/// The largest of the list.
pub open spec fn largest(list: Seq<SizedView>) -> Seq<SizedView> {
    first_n(by_size(list), TOP_N as nat)
}

/// The list after a file was met: it enters where there is room or where it is
/// larger than the last entry.
pub open spec fn file_entered(list: Seq<SizedView>, entry: SizedView) -> Seq<SizedView> {
    if list.len() < TOP_N || entry.size > last_size(list) {
        largest(list.push(entry))
    } else {
        list
    }
}

/// The place of the first entry with `path`.
pub open spec fn place_of(list: Seq<SizedView>, path: PathView) -> Option<int>
    decreases list.len(),
{
    if list.len() == 0 {
        None
    } else {
        match place_of(list.drop_last(), path) {
            Some(i) => Some(i),
            None => if list.last().path.at == path {
                Some(list.len() - 1)
            } else {
                None
            },
        }
    }
}

/// The list after a directory was completed: its entry is brought up to date
/// if it has one, and keeps its spelling; otherwise it enters as a file does.
pub open spec fn dir_entered(list: Seq<SizedView>, entry: SizedView) -> Seq<SizedView> {
    largest(
        match place_of(list, entry.path.at) {
            Some(i) => list.update(i, SizedView { path: list[i].path, size: entry.size }),
            None => if list.len() < TOP_N || entry.size > last_size(list) {
                list.push(entry)
            } else {
                list
            },
        },
    )
}

proof fn lemma_placed_splits(list: Seq<SizedView>, entry: SizedView, k: int)
    requires
        0 <= k <= list.len(),
        k > 0 ==> list[k - 1].size >= entry.size,
        forall|i: int| k <= i < list.len() ==> (#[trigger] list[i]).size < entry.size,
    ensures
        placed(list, entry) == list.take(k) + seq![entry] + list.skip(k),
    decreases list.len(),
{
    if k == list.len() {
        assert(list.take(k) + seq![entry] + list.skip(k) =~= list.push(entry));
    } else {
        assert(list.last() == list[list.len() - 1]);
        lemma_placed_splits(list.drop_last(), entry, k);
        assert(list.take(k) + seq![entry] + list.skip(k) =~= (list.drop_last().take(k)
            + seq![entry] + list.drop_last().skip(k)).push(list.last()));
    }
}

/// Puts `entry` in from the end, past the smaller ones.
fn place(list: &mut Vec<SizedEntry>, entry: SizedEntry)
    ensures
        sized_views(final(list)@) == placed(sized_views(old(list)@), entry@),
{
    let ghost before = list@;
    let mut k: usize = list.len();
    while k > 0 && list[k - 1].size < entry.size
        invariant
            list@ == before,
            k <= before.len(),
            forall|i: int| k <= i < before.len() ==> (#[trigger] before[i]).size < entry.size,
        decreases k,
    {
        k -= 1;
    }
    proof {
        assert forall|i: int| k <= i < before.len() implies (
        #[trigger] sized_views(before)[i]).size < entry@.size by {
            assert(before[i].size < entry.size);
        }
        lemma_placed_splits(sized_views(before), entry@, k as int);
    }
    let ghost added = entry@;
    list.insert(k, entry);
    assert(sized_views(list@) =~= sized_views(before).take(k as int) + seq![added] + sized_views(
        before,
    ).skip(k as int));
}

/// Orders entries from the largest to the smallest and keeps the first
/// [`TOP_N`].
fn keep_largest(list: Vec<SizedEntry>) -> (r: Vec<SizedEntry>)
    ensures
        sized_views(r@) == largest(sized_views(list@)),
{
    let mut out: Vec<SizedEntry> = Vec::new();
    let mut i: usize = 0;
    assert(sized_views(out@) =~= by_size(sized_views(list@).take(0)));
    while i < list.len()
        invariant
            i <= list.len(),
            sized_views(out@) == by_size(sized_views(list@).take(i as int)),
        decreases list.len() - i,
    {
        let entry = list[i].clone();
        assert(sized_views(list@).take(i + 1).drop_last() =~= sized_views(list@).take(i as int));
        assert(sized_views(list@).take(i + 1).last() == entry@);
        place(&mut out, entry);
        i += 1;
    }
    assert(sized_views(list@).take(list@.len() as int) =~= sized_views(list@));
    let ghost sorted = out@;
    if out.len() > TOP_N {
        out.truncate(TOP_N);
        assert(sized_views(out@) =~= sized_views(sorted).take(TOP_N as int));
    }
    out
}

/// Computes [`last_size`].
fn smallest_kept(list: &Vec<SizedEntry>) -> (r: u64)
    ensures
        r == last_size(sized_views(list@)),
{
    if list.len() == 0 {
        0
    } else {
        list[list.len() - 1].size
    }
}

/// Computes [`entry_floor`].
pub fn floor_of(list: &Vec<SizedEntry>) -> (r: u64)
    ensures
        r == entry_floor(sized_views(list@)),
{
    if list.len() >= TOP_N {
        smallest_kept(list)
    } else {
        0
    }
}

/// Enters a file in the list; the answer is whether the list was rebuilt.
pub fn enter_file(list: Vec<SizedEntry>, path: &FsPath, size: u64) -> (r: (Vec<SizedEntry>, bool))
    ensures
        sized_views(r.0@) == file_entered(sized_views(list@), SizedView { path: path.named(), size }),
        r.1 == (list@.len() < TOP_N || size > last_size(sized_views(list@))),
{
    let mut list = list;
    let ghost before = list@;
    if list.len() < TOP_N || size > smallest_kept(&list) {
        list.push(SizedEntry { path: path.clone(), size });
        assert(sized_views(list@) =~= sized_views(before).push(SizedView { path: path.named(), size }));
        (keep_largest(list), true)
    } else {
        (list, false)
    }
}

/// The place of the first entry with `path`.
fn find_path(list: &Vec<SizedEntry>, path: &FsPath) -> (r: Option<usize>)
    ensures
        match r {
            Some(i) => i < list@.len() && place_of(sized_views(list@), path@) == Some(i as int),
            None => place_of(sized_views(list@), path@) is None,
        },
{
    let mut i: usize = 0;
    let ghost views = sized_views(list@);
    while i < list.len()
        invariant
            i <= list.len(),
            views == sized_views(list@),
            place_of(views.take(i as int), path@) is None,
        decreases list.len() - i,
    {
        assert(views.take(i + 1).drop_last() =~= views.take(i as int));
        assert(views.take(i + 1).last() == list@[i as int]@);
        if list[i].path.same(path) {
            proof {
                lemma_place_stays(views, path@, i + 1);
            }
            return Some(i);
        }
        i += 1;
    }
    assert(views.take(views.len() as int) =~= views);
    None
}

proof fn lemma_place_stays(list: Seq<SizedView>, path: PathView, n: int)
    requires
        0 <= n <= list.len(),
        place_of(list.take(n), path) is Some,
    ensures
        place_of(list, path) == place_of(list.take(n), path),
    decreases list.len(),
{
    if n == list.len() {
        assert(list.take(n) =~= list);
    } else {
        assert(list.drop_last().take(n) =~= list.take(n));
        lemma_place_stays(list.drop_last(), path, n);
    }
}

/// Enters a completed directory in the list.
pub fn enter_dir(list: Vec<SizedEntry>, path: &FsPath, size: u64) -> (r: Vec<SizedEntry>)
    ensures
        sized_views(r@) == dir_entered(sized_views(list@), SizedView { path: path.named(), size }),
{
    let mut list = list;
    let ghost before = list@;
    let ghost entry = SizedView { path: path.named(), size };
    match find_path(&list, path) {
        Some(i) => {
            let kept = list[i].path.clone();
            list[i] = SizedEntry { path: kept, size };
            assert(sized_views(list@) =~= sized_views(before).update(
                i as int,
                SizedView { path: sized_views(before)[i as int].path, size },
            ));
        },
        None => {
            if list.len() < TOP_N || size > smallest_kept(&list) {
                list.push(SizedEntry { path: path.clone(), size });
                assert(sized_views(list@) =~= sized_views(before).push(entry));
            }
        },
    }
    keep_largest(list)
}

/// Whether a list runs from the largest to the smallest.
pub open spec fn descending(list: Seq<SizedView>) -> bool {
    forall|i: int, j: int|
        0 <= i < j < list.len() ==> (#[trigger] list[i]).size >= (#[trigger] list[j]).size
}

proof fn lemma_placed_facts(list: Seq<SizedView>, entry: SizedView)
    requires
        descending(list),
    ensures
        descending(placed(list, entry)),
        placed(list, entry).len() == list.len() + 1,
        placed(list, entry).to_multiset() == list.to_multiset().insert(entry),
        list.len() > 0 ==> placed(list, entry).last().size <= list.last().size,
        placed(list, entry).last().size <= entry.size,
    decreases list.len(),
{
    list.to_multiset_ensures();
    if list.len() == 0 || list.last().size >= entry.size {
        let out = list.push(entry);
        assert forall|i: int, j: int| 0 <= i < j < out.len() implies (#[trigger] out[i]).size >= (
        #[trigger] out[j]).size by {
            if j == list.len() {
                assert(list[i].size >= list[list.len() - 1].size || i == list.len() - 1);
            }
        }
    } else {
        let rest = list.drop_last();
        assert(descending(rest)) by {
            assert forall|i: int, j: int| 0 <= i < j < rest.len() implies (
            #[trigger] rest[i]).size >= (#[trigger] rest[j]).size by {
                assert(list[i].size >= list[j].size);
            }
        }
        lemma_placed_facts(rest, entry);
        let inner = placed(rest, entry);
        let out = inner.push(list.last());
        lemma_all_at_least(rest, entry, list.last().size);
        assert forall|i: int, j: int| 0 <= i < j < out.len() implies (#[trigger] out[i]).size >= (
        #[trigger] out[j]).size by {
            if j == inner.len() {
                assert(inner[i].size >= list.last().size);
            } else {
                assert(inner[i].size >= inner[j].size);
            }
        }
        inner.to_multiset_ensures();
        rest.to_multiset_ensures();
        assert(list =~= rest.push(list.last()));
        assert(out.to_multiset() =~= list.to_multiset().insert(entry));
    }
}

proof fn lemma_all_at_least(list: Seq<SizedView>, entry: SizedView, bound: u64)
    requires
        entry.size >= bound,
        forall|i: int| 0 <= i < list.len() ==> (#[trigger] list[i]).size >= bound,
    ensures
        forall|i: int|
            0 <= i < placed(list, entry).len() ==> (#[trigger] placed(list, entry)[i]).size
                >= bound,
    decreases list.len(),
{
    if !(list.len() == 0 || list.last().size >= entry.size) {
        assert(list.last() == list[list.len() - 1]);
        assert forall|i: int| 0 <= i < list.drop_last().len() implies (
        #[trigger] list.drop_last()[i]).size >= bound by {
            assert(list.drop_last()[i] == list[i]);
        }
        lemma_all_at_least(list.drop_last(), entry, bound);
        let inner = placed(list.drop_last(), entry);
        assert forall|i: int| 0 <= i < placed(list, entry).len() implies (
        #[trigger] placed(list, entry)[i]).size >= bound by {
            if i < inner.len() {
                assert(placed(list, entry)[i] == inner[i]);
            }
        }
    } else {
        assert forall|i: int| 0 <= i < placed(list, entry).len() implies (
        #[trigger] placed(list, entry)[i]).size >= bound by {
            if i < list.len() {
                assert(placed(list, entry)[i] == list[i]);
            }
        }
    }
}

/// Ordering by size keeps every entry and puts the larger first.
pub proof fn law_by_size_orders(list: Seq<SizedView>)
    ensures
        descending(by_size(list)),
        by_size(list).len() == list.len(),
        by_size(list).to_multiset() == list.to_multiset(),
    decreases list.len(),
{
    if list.len() > 0 {
        law_by_size_orders(list.drop_last());
        lemma_placed_facts(by_size(list.drop_last()), list.last());
        list.drop_last().to_multiset_ensures();
        assert(list =~= list.drop_last().push(list.last()));
    }
}

/// The list after each of `files` was met in turn.
pub open spec fn files_entered(files: Seq<SizedView>) -> Seq<SizedView>
    decreases files.len(),
{
    if files.len() == 0 {
        Seq::empty()
    } else {
        let before = files_entered(files.drop_last());
        if files.last().size <= entry_floor(before) {
            before
        } else {
            file_entered(before, files.last())
        }
    }
}

/// How many of the entries have a positive size.
pub open spec fn positive_count(files: Seq<SizedView>) -> nat
    decreases files.len(),
{
    if files.len() == 0 {
        0
    } else if files.last().size > 0 {
        positive_count(files.drop_last()) + 1
    } else {
        positive_count(files.drop_last())
    }
}

/// After any files, the list runs from large to small and holds as many of
/// those with a positive size as were met, up to [`TOP_N`]. Each entry comes
/// from a file of its own, and what was met and is left out is no larger than
/// any entry, with the list full.
pub proof fn law_list_holds_the_largest(files: Seq<SizedView>)
    ensures
        descending(files_entered(files)),
        files_entered(files).len() == if positive_count(files) <= TOP_N {
            positive_count(files)
        } else {
            TOP_N as nat
        },
        forall|i: int|
            0 <= i < files_entered(files).len() ==> (#[trigger] files_entered(files)[i]).size > 0,
        files_entered(files).to_multiset().subset_of(files.to_multiset()),
        forall|e: SizedView| #[trigger]
            files.to_multiset().count(e) > files_entered(files).to_multiset().count(e) ==> e.size
                <= entry_floor(files_entered(files)),
    decreases files.len(),
{
    if files.len() > 0 {
        let earlier = files.drop_last();
        let entry = files.last();
        law_list_holds_the_largest(earlier);
        let before = files_entered(earlier);
        let after = files_entered(files);
        assert(files =~= earlier.push(entry));
        earlier.to_multiset_ensures();
        assert(files.to_multiset() =~= earlier.to_multiset().insert(entry));
        assert forall|e: SizedView| #[trigger]
            before.to_multiset().count(e) <= files.to_multiset().count(e) by {
            assert(before.to_multiset().count(e) <= earlier.to_multiset().count(e));
        }
        if entry.size > entry_floor(before) {
            lemma_entering(before, entry);
            let sorted = placed(before, entry);
            sorted.to_multiset_ensures();
            if before.len() == TOP_N {
                assert(sorted =~= after.push(sorted.last()));
                after.to_multiset_ensures();
                assert(sorted.to_multiset() =~= after.to_multiset().insert(sorted.last()));
            } else {
                assert(after =~= sorted);
            }
            assert forall|e: SizedView| #[trigger]
                after.to_multiset().count(e) <= files.to_multiset().count(e) by {
                assert(after.to_multiset().count(e) <= sorted.to_multiset().count(e));
                assert(before.to_multiset().count(e) <= earlier.to_multiset().count(e));
            }
            assert forall|i: int| 0 <= i < after.len() implies (#[trigger] after[i]).size > 0 by {
                assert(sorted[i] == after[i]);
                assert(sorted.to_multiset().count(sorted[i]) > 0);
                if sorted[i] != entry {
                    before.to_multiset_ensures();
                    assert(before.contains(sorted[i]));
                }
            }
            assert forall|e: SizedView| #[trigger]
                files.to_multiset().count(e) > after.to_multiset().count(e) implies e.size
                <= entry_floor(after) by {
                assert(sorted.to_multiset().count(e) == before.to_multiset().insert(entry).count(e));
                assert(earlier.to_multiset().count(e) > before.to_multiset().count(e) || (
                before.len() == TOP_N && e == sorted.last()));
            }
        } else {
            assert forall|e: SizedView| #[trigger]
                files.to_multiset().count(e) > after.to_multiset().count(e) implies e.size
                <= entry_floor(after) by {
                assert(earlier.to_multiset().count(e) > before.to_multiset().count(e) || e
                    == entry);
            }
        }
    } else {
        assert(files_entered(files) =~= files);
    }
}

/// What entering does to a list that runs from large to small.
proof fn lemma_entering(before: Seq<SizedView>, entry: SizedView)
    requires
        descending(before),
        before.len() <= TOP_N,
        entry.size > entry_floor(before),
    ensures
        file_entered(before, entry) == first_n(placed(before, entry), TOP_N as nat),
        placed(before, entry).len() == before.len() + 1,
        placed(before, entry).to_multiset() == before.to_multiset().insert(entry),
        descending(placed(before, entry)),
        descending(file_entered(before, entry)),
        entry_floor(before) <= entry_floor(file_entered(before, entry)),
        before.len() == TOP_N ==> placed(before, entry).last().size <= entry_floor(
            file_entered(before, entry),
        ),
{
    let grown = before.push(entry);
    assert(grown.drop_last() =~= before);
    lemma_descending_is_fixed(before);
    lemma_placed_facts(before, entry);
    let sorted = placed(before, entry);
    let after = file_entered(before, entry);
    assert(by_size(grown) == sorted);
    assert forall|i: int, j: int| 0 <= i < j < after.len() implies (#[trigger] after[i]).size >= (
    #[trigger] after[j]).size by {
        assert(sorted[i].size >= sorted[j].size);
    }
    if before.len() == TOP_N {
        lemma_placed_splits_somewhere(before, entry);
        assert(after.last() == sorted[TOP_N - 1]);
        assert(sorted[TOP_N - 1].size >= sorted[TOP_N as int].size);
    }
}

/// The list after each of `dirs` was completed in turn.
pub open spec fn dirs_entered(dirs: Seq<SizedView>) -> Seq<SizedView>
    decreases dirs.len(),
{
    if dirs.len() == 0 {
        Seq::empty()
    } else {
        let before = dirs_entered(dirs.drop_last());
        if dirs.last().size <= entry_floor(before) {
            before
        } else {
            dir_entered(before, dirs.last())
        }
    }
}

/// The size that was last recorded for a path, 0 if none was.
pub open spec fn last_recorded(dirs: Seq<SizedView>, path: PathView) -> u64
    decreases dirs.len(),
{
    if dirs.len() == 0 {
        0
    } else if dirs.last().path.at == path {
        dirs.last().size
    } else {
        last_recorded(dirs.drop_last(), path)
    }
}

/// Whether no path is recorded with a smaller size than before.
pub open spec fn never_shrinks(dirs: Seq<SizedView>) -> bool {
    forall|i: int, j: int|
        0 <= i < j < dirs.len() && (#[trigger] dirs[i]).path.at == (#[trigger] dirs[j]).path.at
            ==> dirs[i].size <= dirs[j].size
}

/// Whether no path stands twice in a list.
pub open spec fn paths_differ(list: Seq<SizedView>) -> bool {
    forall|i: int, j: int|
        0 <= i < j < list.len() ==> (#[trigger] list[i]).path.at != (#[trigger] list[j]).path.at
}

/// Whether a path stands in a list.
pub open spec fn lists_path(list: Seq<SizedView>, path: PathView) -> bool {
    exists|i: int| 0 <= i < list.len() && (#[trigger] list[i]).path.at == path
}

/// After any directories were completed, none with a smaller size than it had
/// before, the list runs from large to small, holds no path twice and no size
/// of 0, and each entry has the size that was last recorded for its path. A
/// path that is left out was last recorded with no more than the last entry
/// has where the list is full, and with 0 where it is not.
pub proof fn law_dirs_hold_the_largest(dirs: Seq<SizedView>)
    requires
        never_shrinks(dirs),
    ensures
        descending(dirs_entered(dirs)),
        dirs_entered(dirs).len() <= TOP_N,
        paths_differ(dirs_entered(dirs)),
        forall|i: int|
            0 <= i < dirs_entered(dirs).len() ==> (#[trigger] dirs_entered(dirs)[i]).size > 0
                && dirs_entered(dirs)[i].size == last_recorded(
                dirs,
                dirs_entered(dirs)[i].path.at,
            ),
        forall|path: PathView|
            !lists_path(dirs_entered(dirs), path) ==> #[trigger] last_recorded(dirs, path)
                <= entry_floor(dirs_entered(dirs)),
    decreases dirs.len(),
{
    if dirs.len() > 0 {
        let earlier = dirs.drop_last();
        let entry = dirs.last();
        assert(never_shrinks(earlier)) by {
            assert forall|i: int, j: int|
                0 <= i < j < earlier.len() && (#[trigger] earlier[i]).path.at == (
                #[trigger] earlier[j]).path.at implies earlier[i].size <= earlier[j].size by {
                assert(dirs[i].size <= dirs[j].size);
            }
        }
        law_dirs_hold_the_largest(earlier);
        lemma_recorded_is_met(earlier, entry.path.at);
        let before = dirs_entered(earlier);
        if entry.size > entry_floor(before) {
            lemma_dir_entering(earlier, entry);
        } else {
            lemma_dir_left_out(earlier, entry);
        }
        assert(dirs =~= earlier.push(entry));
    }
}

/// What was last recorded for a path is 0 or was met.
pub proof fn lemma_recorded_is_met(dirs: Seq<SizedView>, path: PathView)
    ensures
        last_recorded(dirs, path) == 0 || exists|i: int|
            0 <= i < dirs.len() && (#[trigger] dirs[i]).path.at == path && dirs[i].size
                == last_recorded(dirs, path),
    decreases dirs.len(),
{
    if dirs.len() > 0 {
        if dirs.last().path.at == path {
            assert(dirs[dirs.len() - 1].path.at == path);
        } else {
            lemma_recorded_is_met(dirs.drop_last(), path);
            if last_recorded(dirs, path) != 0 {
                let i = choose|i: int|
                    0 <= i < dirs.drop_last().len() && (#[trigger] dirs.drop_last()[i]).path.at
                        == path && dirs.drop_last()[i].size == last_recorded(
                        dirs.drop_last(),
                        path,
                    );
                assert(dirs[i].path.at == path);
            }
        }
    }
}

/// What the law on completed directories says of a list.
spec fn holds_the_largest(list: Seq<SizedView>, dirs: Seq<SizedView>) -> bool {
    &&& descending(list)
    &&& list.len() <= TOP_N
    &&& paths_differ(list)
    &&& forall|i: int|
        0 <= i < list.len() ==> (#[trigger] list[i]).size > 0 && list[i].size == last_recorded(
            dirs,
            list[i].path.at,
        )
    &&& forall|path: PathView|
        !lists_path(list, path) ==> #[trigger] last_recorded(dirs, path) <= entry_floor(list)
}

proof fn lemma_dir_left_out(earlier: Seq<SizedView>, entry: SizedView)
    requires
        holds_the_largest(dirs_entered(earlier), earlier),
        last_recorded(earlier, entry.path.at) <= entry.size <= entry_floor(dirs_entered(earlier)),
    ensures
        holds_the_largest(dirs_entered(earlier), earlier.push(entry)),
{
    let list = dirs_entered(earlier);
    let dirs = earlier.push(entry);
    assert(dirs.drop_last() =~= earlier);
    assert forall|i: int| 0 <= i < list.len() implies (#[trigger] list[i]).size > 0
        && list[i].size == last_recorded(dirs, list[i].path.at) by {
        assert(list[i].size == last_recorded(earlier, list[i].path.at));
        assert(i == list.len() - 1 || list[i].size >= list[list.len() - 1].size);
    }
    assert forall|path: PathView| !lists_path(list, path) implies #[trigger] last_recorded(
        dirs,
        path,
    ) <= entry_floor(list) by {
        assert(last_recorded(earlier, path) <= entry_floor(list));
    }
}

/// The first entry with a path is one with that path.
proof fn lemma_place_found(list: Seq<SizedView>, path: PathView)
    ensures
        match place_of(list, path) {
            Some(i) => 0 <= i < list.len() && list[i].path.at == path,
            None => !lists_path(list, path),
        },
    decreases list.len(),
{
    if list.len() > 0 {
        lemma_place_found(list.drop_last(), path);
        if place_of(list, path) is None && lists_path(list, path) {
            let i = choose|i: int| 0 <= i < list.len() && (#[trigger] list[i]).path.at == path;
            if i < list.len() - 1 {
                assert(list.drop_last()[i].path.at == path);
            }
        }
    }
}

/// An order of a list holds the same entries, and no path twice if the list
/// does not.
proof fn lemma_order_keeps(list: Seq<SizedView>, sorted: Seq<SizedView>)
    requires
        sorted.to_multiset() == list.to_multiset(),
        paths_differ(list),
    ensures
        paths_differ(sorted),
        forall|e: SizedView| #[trigger] sorted.contains(e) == list.contains(e),
{
    list.to_multiset_ensures();
    sorted.to_multiset_ensures();
    assert(list.no_duplicates()) by {
        assert forall|i: int, j: int| 0 <= i < list.len() && 0 <= j < list.len() && i
            != j implies list[i] != list[j] by {
            if i < j {
                assert(list[i].path.at != list[j].path.at);
            } else {
                assert(list[j].path.at != list[i].path.at);
            }
        }
    }
    list.lemma_multiset_has_no_duplicates();
    sorted.lemma_multiset_has_no_duplicates_conv();
    assert forall|e: SizedView| #[trigger] sorted.contains(e) == list.contains(e) by {
        assert(sorted.contains(e) <==> sorted.to_multiset().count(e) > 0);
        assert(list.contains(e) <==> list.to_multiset().count(e) > 0);
    }
    assert forall|i: int, j: int| 0 <= i < j < sorted.len() implies (#[trigger] sorted[i]).path.at
        != (#[trigger] sorted[j]).path.at by {
        assert(sorted[i] != sorted[j]);
        assert(sorted.contains(sorted[i]) && sorted.contains(sorted[j]));
        let k = choose|k: int| 0 <= k < list.len() && list[k] == sorted[i];
        let m = choose|m: int| 0 <= m < list.len() && list[m] == sorted[j];
        if k < m {
            assert(list[k].path.at != list[m].path.at);
        } else {
            assert(list[m].path.at != list[k].path.at);
        }
    }
}

proof fn lemma_dir_entering(earlier: Seq<SizedView>, entry: SizedView)
    requires
        holds_the_largest(dirs_entered(earlier), earlier),
        last_recorded(earlier, entry.path.at) <= entry.size,
        entry_floor(dirs_entered(earlier)) < entry.size,
    ensures
        holds_the_largest(dir_entered(dirs_entered(earlier), entry), earlier.push(entry)),
{
    let list = dirs_entered(earlier);
    let dirs = earlier.push(entry);
    let at = entry.path.at;
    assert(dirs.drop_last() =~= earlier);
    lemma_place_found(list, at);
    let grown = match place_of(list, at) {
        Some(i) => list.update(i, SizedView { path: list[i].path, size: entry.size }),
        None => list.push(entry),
    };
    let k = match place_of(list, at) {
        Some(i) => i,
        None => list.len() as int,
    };
    let sorted = by_size(grown);
    let after = dir_entered(list, entry);
    assert(after == first_n(sorted, TOP_N as nat));
    law_by_size_orders(grown);
    assert(paths_differ(grown)) by {
        assert forall|i: int, j: int| 0 <= i < j < grown.len() implies (#[trigger] grown[i]).path.at
            != (#[trigger] grown[j]).path.at by {
            assert(i < list.len() ==> grown[i].path == list[i].path);
            assert(j < list.len() ==> grown[j].path == list[j].path);
        }
    }
    assert forall|i: int| 0 <= i < grown.len() implies (#[trigger] grown[i]).size > 0
        && grown[i].size == last_recorded(dirs, grown[i].path.at) by {
        if i != k {
            assert(grown[i] == list[i]);
            assert(grown[k].path.at == at);
            if i < k {
                assert(grown[i].path.at != grown[k].path.at);
            } else {
                assert(grown[k].path.at != grown[i].path.at);
            }
        }
    }
    lemma_order_keeps(grown, sorted);
    grown.to_multiset_ensures();
    sorted.to_multiset_ensures();
    assert forall|i: int| 0 <= i < sorted.len() implies (#[trigger] sorted[i]).size > 0
        && sorted[i].size == last_recorded(dirs, sorted[i].path.at) by {
        assert(sorted.contains(sorted[i]));
        let m = choose|m: int| 0 <= m < grown.len() && grown[m] == sorted[i];
        assert(grown[m].size > 0);
    }
    assert forall|i: int, j: int| 0 <= i < j < after.len() implies (#[trigger] after[i]).size >= (
    #[trigger] after[j]).size && after[i].path.at != after[j].path.at by {
        assert(sorted[i].size >= sorted[j].size);
        assert(sorted[i].path.at != sorted[j].path.at);
    }
    assert forall|i: int| 0 <= i < after.len() implies (#[trigger] after[i]).size > 0
        && after[i].size == last_recorded(dirs, after[i].path.at) by {
        assert(after[i] == sorted[i]);
    }
    lemma_floor_rises(list, grown, sorted);
    assert forall|path: PathView| !lists_path(after, path) implies #[trigger] last_recorded(
        dirs,
        path,
    ) <= entry_floor(after) by {
        if lists_path(grown, path) {
            let m = choose|m: int| 0 <= m < grown.len() && (#[trigger] grown[m]).path.at == path;
            assert(grown.contains(grown[m]));
            assert(sorted.contains(grown[m]));
            let i = choose|i: int| 0 <= i < sorted.len() && sorted[i] == grown[m];
            if i < after.len() {
                assert(after[i].path.at == path);
            }
            assert(sorted[TOP_N - 1].size >= sorted[i].size);
        } else {
            assert(grown[k].path.at == at);
            assert(path != at);
            assert(!lists_path(list, path)) by {
                if lists_path(list, path) {
                    let i = choose|i: int|
                        0 <= i < list.len() && (#[trigger] list[i]).path.at == path;
                    assert(grown[i].path.at == path);
                }
            }
            assert(last_recorded(earlier, path) <= entry_floor(list));
        }
    }
}

/// Where no entry shrinks, the size to exceed does not fall.
proof fn lemma_floor_rises(list: Seq<SizedView>, grown: Seq<SizedView>, sorted: Seq<SizedView>)
    requires
        descending(list),
        list.len() <= TOP_N,
        list.len() <= grown.len() <= TOP_N + 1,
        grown.len() == sorted.len(),
        forall|i: int| 0 <= i < grown.len() ==> (#[trigger] grown[i]).size >= entry_floor(list),
        descending(sorted),
        forall|e: SizedView| #[trigger] sorted.contains(e) == grown.contains(e),
    ensures
        entry_floor(list) <= entry_floor(first_n(sorted, TOP_N as nat)),
{
    if list.len() == TOP_N {
        let e = sorted[TOP_N - 1];
        assert(first_n(sorted, TOP_N as nat).last() == e);
        assert(sorted.contains(e));
        let m = choose|m: int| 0 <= m < grown.len() && grown[m] == e;
        assert(grown[m].size >= entry_floor(list));
    }
}

/// Whatever is put in, an entry moves at most one place to the back.
proof fn lemma_placed_splits_somewhere(list: Seq<SizedView>, entry: SizedView)
    requires
        list.len() > 0,
        entry.size > list.last().size,
        descending(list),
    ensures
        placed(list, entry)[list.len() - 1].size >= list.last().size,
{
    lemma_placed_facts(list, entry);
    assert(placed(list, entry) == placed(list.drop_last(), entry).push(list.last()));
    let rest = list.drop_last();
    assert forall|i: int| 0 <= i < rest.len() implies (#[trigger] rest[i]).size
        >= list.last().size by {
        assert(list[i].size >= list[list.len() - 1].size);
    }
    lemma_all_at_least(rest, entry, list.last().size);
    assert(descending(rest)) by {
        assert forall|i: int, j: int| 0 <= i < j < rest.len() implies (#[trigger] rest[i]).size >= (
        #[trigger] rest[j]).size by {
            assert(list[i].size >= list[j].size);
        }
    }
    lemma_placed_facts(rest, entry);
}

/// A list that already runs from large to small is left as it is.
proof fn lemma_descending_is_fixed(list: Seq<SizedView>)
    requires
        descending(list),
    ensures
        by_size(list) == list,
    decreases list.len(),
{
    if list.len() > 0 {
        let rest = list.drop_last();
        assert(descending(rest)) by {
            assert forall|i: int, j: int| 0 <= i < j < rest.len() implies (
            #[trigger] rest[i]).size >= (#[trigger] rest[j]).size by {
                assert(list[i].size >= list[j].size);
            }
        }
        lemma_descending_is_fixed(rest);
        if rest.len() > 0 {
            assert(list[rest.len() - 1].size >= list[rest.len() as int].size);
        }
        assert(rest.push(list.last()) =~= list);
    }
}

/// Whether the file at place `i` goes before the one at place `j`: it is
/// larger, or of the same size and met earlier.
pub open spec fn file_goes_before(files: Seq<SizedView>, i: int, j: int) -> bool {
    files[i].size > files[j].size || (files[i].size == files[j].size && i < j)
}

/// Whether `at` are the places of the files that a list holds: each has a size,
/// each goes before the next, and all go before what is left out.
pub open spec fn holds_the_first(
    list: Seq<SizedView>,
    files: Seq<SizedView>,
    at: Seq<int>,
) -> bool {
    &&& at.len() == list.len()
    &&& at.len() <= 10
    &&& forall|k: int|
        0 <= k < at.len() ==> 0 <= #[trigger] at[k] < files.len() && files[at[k]].size > 0
            && list[k] == files[at[k]]
    &&& forall|k: int, m: int|
        0 <= k < m < at.len() ==> file_goes_before(files, #[trigger] at[k], #[trigger] at[m])
    &&& forall|i: int|
        0 <= i < files.len() && (#[trigger] files[i]).size > 0 && !at.contains(i) ==> at.len()
            == 10
    &&& forall|i: int, k: int|
        0 <= i < files.len() && files[i].size > 0 && !at.contains(i) && 0 <= k < at.len()
            ==> #[trigger] file_goes_before(files, at[k], i)
}

/// The list holds the first ten of the files with a size, by size and, among
/// equal ones, by when they were met.
pub proof fn law_earlier_files_come_first(files: Seq<SizedView>) -> (at: Seq<int>)
    ensures
        holds_the_first(files_entered(files), files, at),
    decreases files.len(),
{
    if files.len() == 0 {
        Seq::empty()
    } else {
        let earlier = files.drop_last();
        let entry = files.last();
        let before = files_entered(earlier);
        let old = law_earlier_files_come_first(earlier);
        law_list_holds_the_largest(earlier);
        assert(files =~= earlier.push(entry));
        if entry.size <= entry_floor(before) {
            lemma_file_left_out(before, earlier, old, entry);
            old
        } else {
            lemma_entering(before, entry);
            lemma_file_put_in(before, earlier, old, entry)
        }
    }
}

proof fn lemma_file_left_out(
    list: Seq<SizedView>,
    files: Seq<SizedView>,
    at: Seq<int>,
    entry: SizedView,
)
    requires
        holds_the_first(list, files, at),
        descending(list),
        entry.size <= entry_floor(list),
    ensures
        holds_the_first(list, files.push(entry), at),
{
    let more = files.push(entry);
    let n = files.len() as int;
    assert forall|k: int, m: int| 0 <= k < m < at.len() implies file_goes_before(
        more,
        #[trigger] at[k],
        #[trigger] at[m],
    ) by {
        assert(file_goes_before(files, at[k], at[m]));
    }
    assert forall|i: int|
        0 <= i < more.len() && (#[trigger] more[i]).size > 0 && !at.contains(i) implies at.len()
        == 10 by {
        if i < n {
            assert(files[i] == more[i]);
        }
    }
    assert forall|i: int, k: int|
        0 <= i < more.len() && more[i].size > 0 && !at.contains(i) && 0 <= k
            < at.len() implies #[trigger] file_goes_before(more, at[k], i) by {
        if i < n {
            assert(files[i] == more[i]);
            assert(file_goes_before(files, at[k], i));
        } else {
            assert(list[k].size >= list[list.len() - 1].size);
        }
    }
}

#[verifier::spinoff_prover]
proof fn lemma_file_put_in(
    list: Seq<SizedView>,
    files: Seq<SizedView>,
    old: Seq<int>,
    entry: SizedView,
) -> (at: Seq<int>)
    requires
        holds_the_first(list, files, old),
        descending(list),
        entry.size > entry_floor(list),
    ensures
        holds_the_first(first_n(placed(list, entry), TOP_N as nat), files.push(entry), at),
{
    let more = files.push(entry);
    let n = files.len() as int;
    let p = lemma_where_placed(list, entry);
    let all = old.take(p).push(n) + old.skip(p);
    let sorted = placed(list, entry);
    assert forall|k: int| 0 <= k < all.len() implies all[k] == if k < p {
        old[k]
    } else if k == p {
        n
    } else {
        old[k - 1]
    } by {}
    lemma_put_in_order(list, files, old, entry, p, all);
    let at = first_n(all, 10);
    assert forall|k: int| 0 <= k < at.len() implies #[trigger] at[k] == all[k] by {}
    assert forall|i: int, k: int|
        0 <= i < more.len() && more[i].size > 0 && !at.contains(i) && 0 <= k
            < at.len() implies #[trigger] file_goes_before(more, at[k], i) by {
        assert(at[k] == all[k]);
        if all.contains(i) {
            let m = choose|m: int| 0 <= m < all.len() && all[m] == i;
            if m < at.len() {
                assert(at[m] == i);
            }
            assert(file_goes_before(more, all[k], all[m]));
        } else {
            lemma_put_in_left_out(list, files, old, entry, p, all, i, k);
        }
    }
    assert forall|i: int|
        0 <= i < more.len() && (#[trigger] more[i]).size > 0 && !at.contains(i) implies at.len()
        == 10 by {
        if all.contains(i) {
            let m = choose|m: int| 0 <= m < all.len() && all[m] == i;
            if m < at.len() {
                assert(at[m] == i);
            }
        } else {
            lemma_not_among(old, n, p, all, i);
            assert(files[i] == more[i]);
        }
    }
    at
}

proof fn lemma_not_among(old: Seq<int>, n: int, p: int, all: Seq<int>, i: int)
    requires
        0 <= p <= old.len(),
        all == old.take(p).push(n) + old.skip(p),
        !all.contains(i),
    ensures
        i != n,
        !old.contains(i),
{
    assert(all[p] == n);
    if old.contains(i) {
        let m = choose|m: int| 0 <= m < old.len() && old[m] == i;
        if m < p {
            assert(all[m] == i);
        } else {
            assert(all[m + 1] == i);
        }
    }
}

proof fn lemma_put_in_order(
    list: Seq<SizedView>,
    files: Seq<SizedView>,
    old: Seq<int>,
    entry: SizedView,
    p: int,
    all: Seq<int>,
)
    requires
        holds_the_first(list, files, old),
        descending(list),
        entry.size > 0,
        0 <= p <= list.len(),
        placed(list, entry) == list.take(p).push(entry) + list.skip(p),
        p > 0 ==> list[p - 1].size >= entry.size,
        p < list.len() ==> list[p].size < entry.size,
        all == old.take(p).push(files.len() as int) + old.skip(p),
    ensures
        forall|k: int|
            0 <= k < all.len() ==> 0 <= #[trigger] all[k] < files.push(entry).len()
                && files.push(entry)[all[k]].size > 0 && placed(list, entry)[k] == files.push(
                entry,
            )[all[k]],
        forall|k: int, m: int|
            0 <= k < m < all.len() ==> file_goes_before(
                files.push(entry),
                #[trigger] all[k],
                #[trigger] all[m],
            ),
{
    let more = files.push(entry);
    let n = files.len() as int;
    assert forall|k: int| 0 <= k < all.len() implies 0 <= #[trigger] all[k] < more.len()
        && more[all[k]].size > 0 && placed(list, entry)[k] == more[all[k]] by {
        if k < p {
            assert(all[k] == old[k]);
        } else if k > p {
            assert(all[k] == old[k - 1]);
        }
    }
    assert forall|k: int, m: int| 0 <= k < m < all.len() implies file_goes_before(
        more,
        #[trigger] all[k],
        #[trigger] all[m],
    ) by {
        if m < p {
            assert(all[k] == old[k] && all[m] == old[m]);
            assert(file_goes_before(files, old[k], old[m]));
        } else if m == p {
            assert(all[k] == old[k]);
            assert(k == p - 1 || list[k].size >= list[p - 1].size);
        } else if k < p {
            assert(all[k] == old[k] && all[m] == old[m - 1]);
            assert(file_goes_before(files, old[k], old[m - 1]));
        } else if k == p {
            assert(all[m] == old[m - 1]);
            assert(m - 1 == p || list[p].size >= list[m - 1].size);
        } else {
            assert(all[k] == old[k - 1] && all[m] == old[m - 1]);
            assert(file_goes_before(files, old[k - 1], old[m - 1]));
        }
    }
}

proof fn lemma_put_in_left_out(
    list: Seq<SizedView>,
    files: Seq<SizedView>,
    old: Seq<int>,
    entry: SizedView,
    p: int,
    all: Seq<int>,
    i: int,
    k: int,
)
    requires
        holds_the_first(list, files, old),
        entry.size > entry_floor(list),
        0 <= p <= list.len(),
        all == old.take(p).push(files.len() as int) + old.skip(p),
        0 <= i < files.len() + 1,
        files.push(entry)[i].size > 0,
        !all.contains(i),
        0 <= k < all.len(),
    ensures
        file_goes_before(files.push(entry), all[k], i),
{
    let more = files.push(entry);
    lemma_not_among(old, files.len() as int, p, all, i);
    assert(files[i] == more[i]);
    assert(old.len() == 10);
    assert(file_goes_before(files, old[9], i));
    assert(list[9] == files[old[9]]);
    if k < p {
        assert(all[k] == old[k]);
        assert(file_goes_before(files, old[k], i));
    } else if k > p {
        assert(all[k] == old[k - 1]);
        assert(file_goes_before(files, old[k - 1], i));
    }
}

proof fn lemma_where_placed(list: Seq<SizedView>, entry: SizedView) -> (p: int)
    ensures
        0 <= p <= list.len(),
        placed(list, entry) == list.take(p).push(entry) + list.skip(p),
        p > 0 ==> list[p - 1].size >= entry.size,
        p < list.len() ==> list[p].size < entry.size,
    decreases list.len(),
{
    if list.len() == 0 || list.last().size >= entry.size {
        let p = list.len() as int;
        assert(list.take(p) =~= list);
        assert(list.take(p).push(entry) + list.skip(p) =~= list.push(entry));
        p
    } else {
        let rest = list.drop_last();
        let p = lemma_where_placed(rest, entry);
        assert(list.take(p) =~= rest.take(p));
        assert(list.take(p).push(entry) + list.skip(p) =~= (rest.take(p).push(entry) + rest.skip(
            p,
        )).push(list.last()));
        p
    }
}

/// A directory that is not listed enters behind those that are at least as
/// large and before the smaller ones, of which the last goes where the list was
/// full; one that is no larger than any of a full list stays out.
pub proof fn law_directory_enters_at_its_place(list: Seq<SizedView>, entry: SizedView) -> (p: int)
    requires
        descending(list),
        list.len() <= 10,
        forall|i: int| 0 <= i < list.len() ==> (#[trigger] list[i]).path.at != entry.path.at,
    ensures
        0 <= p <= list.len(),
        p > 0 ==> list[p - 1].size >= entry.size,
        p < list.len() ==> list[p].size < entry.size,
        ({
            let after = dir_entered(list, entry);
            &&& list.len() == 10 && list[9].size >= entry.size ==> after == list
            &&& list.len() < 10 || list[9].size < entry.size ==> {
                &&& after.len() == if list.len() < 10 {
                    list.len() + 1
                } else {
                    10
                }
                &&& p < after.len()
                &&& after[p] == entry
                &&& forall|k: int| 0 <= k < p ==> #[trigger] after[k] == list[k]
                &&& forall|k: int| p < k < after.len() ==> #[trigger] after[k] == list[k - 1]
            }
        }),
{
    lemma_not_listed(list, entry.path.at);
    lemma_descending_is_fixed(list);
    let p = lemma_where_placed(list, entry);
    let grown = list.push(entry);
    assert(grown.drop_last() =~= list);
    assert(by_size(grown) == placed(list, entry));
    p
}

proof fn lemma_not_listed(list: Seq<SizedView>, path: PathView)
    requires
        forall|i: int| 0 <= i < list.len() ==> (#[trigger] list[i]).path.at != path,
    ensures
        place_of(list, path) is None,
    decreases list.len(),
{
    if list.len() > 0 {
        let rest = list.drop_last();
        assert(list[list.len() - 1].path.at != path);
        assert forall|i: int| 0 <= i < rest.len() implies (#[trigger] rest[i]).path.at != path by {
            assert(list[i].path.at != path);
        }
        lemma_not_listed(rest, path);
    }
}

} // verus!
