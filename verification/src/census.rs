//! What a walk counts, told from the entries that it meets and nothing else.
use vstd::prelude::*;

use crate::path::PathView;
use crate::path::SpelledView;
use crate::scan::ScanView;
use crate::top::SizedView;
use crate::walk::EntryKind;
use crate::walk::ThreadView;
use crate::walk::WalkView;

verus! {

/// Whether threads, each in whatever state, meet `entries` one after the other
/// with the scan in the states `scans`.
pub open spec fn is_walk(
    entries: Seq<WalkView>,
    before: Seq<ThreadView>,
    after: Seq<ThreadView>,
    scans: Seq<ScanView>,
) -> bool {
    &&& before.len() == entries.len()
    &&& after.len() == entries.len()
    &&& scans.len() == entries.len() + 1
    &&& forall|i: int|
        0 <= i < entries.len() ==> before[i].processes(
            scans[i],
            #[trigger] entries[i],
            after[i],
            scans[i + 1],
            true,
        )
}

/// Whether an entry is a file with this device and inode.
pub open spec fn has_inode(entry: WalkView, dev: u64, ino: u64) -> bool {
    match entry.kind {
        EntryKind::File { meta: Some(m) } => m.dev == dev && m.ino == ino,
        _ => false,
    }
}

/// Whether one of the first `n` entries is a file with this device and inode.
pub open spec fn inode_met(entries: Seq<WalkView>, n: int, dev: u64, ino: u64) -> bool {
    exists|j: int| 0 <= j < n && has_inode(#[trigger] entries[j], dev, ino)
}

/// Whether the entry at place `i` is a file to be counted: one that no file
/// with its device and inode stands before, or of which these could not be
/// read.
pub open spec fn counts(entries: Seq<WalkView>, i: int) -> bool {
    match entries[i].kind {
        EntryKind::File { meta: Some(m) } => !inode_met(entries, i, m.dev, m.ino),
        EntryKind::File { meta: None } => true,
        _ => false,
    }
}

/// The places of the files to be counted among the first `n` entries.
pub open spec fn counted_places(entries: Seq<WalkView>, n: nat) -> Seq<int>
    decreases n,
{
    if n == 0 {
        Seq::empty()
    } else {
        let before = counted_places(entries, (n - 1) as nat);
        if counts(entries, n - 1) {
            before.push(n - 1)
        } else {
            before
        }
    }
}

/// How many of the first `n` entries are files that are not to be counted.
pub open spec fn alias_count(entries: Seq<WalkView>, n: nat) -> nat
    decreases n,
{
    if n == 0 {
        0
    } else {
        alias_count(entries, (n - 1) as nat) + if entries[n - 1].kind is File && !counts(
            entries,
            n - 1,
        ) {
            1nat
        } else {
            0nat
        }
    }
}

/// How many of the first `n` entries are directories.
pub open spec fn dir_count(entries: Seq<WalkView>, n: nat) -> nat
    decreases n,
{
    if n == 0 {
        0
    } else {
        dir_count(entries, (n - 1) as nat) + if entries[n - 1].kind is Dir {
            1nat
        } else {
            0nat
        }
    }
}

/// The bytes that a file takes on disk: 512 for each block.
pub open spec fn disk_bytes(entry: WalkView) -> nat {
    match entry.kind {
        EntryKind::File { meta: Some(m) } => m.blocks as nat * 512,
        _ => 0,
    }
}

/// Where an entry stands.
pub open spec fn place(entry: WalkView) -> SpelledView {
    crate::util::without_unc_prefix(entry.path)
}

/// The sum of the bytes of the entries at some places.
pub open spec fn bytes_at(entries: Seq<WalkView>, places: Seq<int>) -> nat
    decreases places.len(),
{
    if places.len() == 0 {
        0
    } else {
        bytes_at(entries, places.drop_last()) + disk_bytes(entries[places.last()])
    }
}

/// Whether a path starts with another's components and goes on.
pub open spec fn goes_below(path: PathView, dir: PathView) -> bool {
    &&& path.absolute == dir.absolute
    &&& dir.parts.len() < path.parts.len()
    &&& forall|k: int| 0 <= k < dir.parts.len() ==> path.parts[k] == #[trigger] dir.parts[k]
}

/// Whether `dir` is the root of the walk or below it.
pub open spec fn is_within(dir: PathView, root: PathView) -> bool {
    dir == root || goes_below(dir, root)
}

/// The sum of the bytes of the entries at some places that stand below `dir`.
pub open spec fn bytes_below(entries: Seq<WalkView>, places: Seq<int>, dir: PathView) -> nat
    decreases places.len(),
{
    if places.len() == 0 {
        0
    } else {
        bytes_below(entries, places.drop_last(), dir) + if goes_below(
            place(entries[places.last()]).at,
            dir,
        ) {
            disk_bytes(entries[places.last()])
        } else {
            0
        }
    }
}

/// Whether a name ends in a dot and `ext`, with something before the dot and no
/// other dot after it.
pub open spec fn ends_in(name: Seq<u8>, ext: Seq<u8>) -> bool {
    exists|d: int|
        0 < d < name.len() && #[trigger] name[d] == 46 && !name.skip(d + 1).contains(46) && ext
            == name.skip(d + 1)
}

/// Whether a path is one of a file with the extension `ext`: its last component
/// is not `..` and ends in a dot and something that reads, in lowercase, as
/// `ext`.
pub open spec fn has_extension(path: PathView, ext: Seq<char>) -> bool {
    &&& path.parts.len() > 0
    &&& path.parts.last() != seq![46u8, 46u8]
    &&& exists|bytes: Seq<u8>| #[trigger]
        ends_in(path.parts.last(), bytes) && ext == crate::text::lowercase_text(
            crate::text::lossy_text(bytes),
        )
}

/// How many of the entries at some places have the extension `ext`, and the sum
/// of their bytes.
pub open spec fn extension_total(
    entries: Seq<WalkView>,
    places: Seq<int>,
    ext: Seq<char>,
) -> (nat, nat)
    decreases places.len(),
{
    if places.len() == 0 {
        (0, 0)
    } else {
        let before = extension_total(entries, places.drop_last(), ext);
        if has_extension(place(entries[places.last()]).at, ext) {
            (before.0 + 1, before.1 + disk_bytes(entries[places.last()]))
        } else {
            before
        }
    }
}

/// The entries at some places with their bytes.
pub open spec fn sized_at(entries: Seq<WalkView>, places: Seq<int>) -> Seq<SizedView> {
    Seq::new(
        places.len(),
        |k: int|
            SizedView {
                path: place(entries[places[k]]),
                size: disk_bytes(entries[places[k]]) as u64,
            },
    )
}

/// How many of some entries have a size.
pub open spec fn with_size(list: Seq<SizedView>) -> nat {
    list.filter(|e: SizedView| e.size > 0).len()
}

/// Whether `list` holds ten of `all` with the largest sizes, or all that have a
/// size where these are fewer, from the largest to the smallest.
pub open spec fn holds_the_ten_largest(list: Seq<SizedView>, all: Seq<SizedView>) -> bool {
    &&& list.len() == if with_size(all) < 10 {
        with_size(all)
    } else {
        10
    }
    &&& forall|i: int| 0 <= i < list.len() ==> (#[trigger] list[i]).size > 0
    &&& forall|i: int, j: int|
        0 <= i < j < list.len() ==> (#[trigger] list[i]).size >= (#[trigger] list[j]).size
    &&& forall|e: SizedView| #[trigger]
        list.to_multiset().count(e) <= all.to_multiset().count(e)
    &&& forall|e: SizedView, i: int|
        #![trigger all.to_multiset().count(e), list[i]]
        all.to_multiset().count(e) > list.to_multiset().count(e) && 0 <= i < list.len() ==> e.size
            <= list[i].size
}

/// Whether nothing was found yet that a walk adds to.
pub open spec fn is_untouched(scan: ScanView) -> bool {
    &&& scan.seen_inodes == Set::<(u64, u64)>::empty()
    &&& scan.aliased_files == 0
    &&& scan.total_bytes == 0
    &&& scan.dirs_scanned == 0
    &&& scan.deepest_depth == 0
    &&& scan.top_files.len() == 0
    &&& scan.top_files_min == 0
}

/// What holds of the scan after the first `n` entries.
pub open spec fn stands(entries: Seq<WalkView>, scan: ScanView, n: nat) -> bool {
    let places = counted_places(entries, n);
    &&& forall|dev: u64, ino: u64| #[trigger]
        scan.seen_inodes.contains((dev, ino)) == inode_met(entries, n as int, dev, ino)
    &&& bytes_at(entries, places) <= u64::MAX ==> scan.total_bytes == bytes_at(entries, places)
    &&& alias_count(entries, n) <= u64::MAX ==> scan.aliased_files == alias_count(entries, n)
    &&& dir_count(entries, n) <= u64::MAX ==> scan.dirs_scanned == dir_count(entries, n)
    &&& scan.top_files == crate::top::files_entered(sized_at(entries, places))
    &&& scan.top_files_min == crate::top::entry_floor(scan.top_files)
    &&& is_greatest_depth(entries, n as int, scan.deepest_depth)
}

/// Whether no directory among the first `n` entries is deeper than `depth`, and
/// one is that deep unless that is 0.
pub open spec fn is_greatest_depth(entries: Seq<WalkView>, n: int, depth: usize) -> bool {
    &&& forall|i: int|
        0 <= i < n && (#[trigger] entries[i]).kind is Dir ==> entries[i].depth <= depth
    &&& depth > 0 ==> exists|i: int|
        0 <= i < n && (#[trigger] entries[i]).kind is Dir && entries[i].depth == depth
}

proof fn lemma_inode_met_grows(entries: Seq<WalkView>, n: int)
    requires
        0 <= n < entries.len(),
    ensures
        forall|dev: u64, ino: u64|
            #![trigger inode_met(entries, n + 1, dev, ino)]
            inode_met(entries, n + 1, dev, ino) == (inode_met(entries, n, dev, ino) || has_inode(
                entries[n],
                dev,
                ino,
            )),
{
    assert forall|dev: u64, ino: u64|
        #![trigger inode_met(entries, n + 1, dev, ino)]
        inode_met(entries, n + 1, dev, ino) == (inode_met(entries, n, dev, ino) || has_inode(
            entries[n],
            dev,
            ino,
        )) by {
        if inode_met(entries, n + 1, dev, ino) {
            let j = choose|j: int| 0 <= j < n + 1 && has_inode(#[trigger] entries[j], dev, ino);
            if j < n {
                assert(has_inode(entries[j], dev, ino));
            }
        }
        if inode_met(entries, n, dev, ino) {
            let j = choose|j: int| 0 <= j < n && has_inode(#[trigger] entries[j], dev, ino);
            assert(has_inode(entries[j], dev, ino));
        }
    }
}

/// The counted sizes fit in 64 bits.
#[verifier::spinoff_prover]
pub proof fn lemma_step(
    entries: Seq<WalkView>,
    n: nat,
    thread: ThreadView,
    scan: ScanView,
    after: ThreadView,
    after_scan: ScanView,
)
    requires
        n < entries.len(),
        stands(entries, scan, n),
        thread.processes(scan, entries[n as int], after, after_scan, true),
    ensures
        stands(entries, after_scan, n + 1),
        counts(entries, n as int) ==> disk_bytes(entries[n as int]) <= u64::MAX,
        counts(entries, n as int) == (crate::life::counted_file(scan, entries[n as int]) is Some),
        counts(entries, n as int) ==> crate::life::counted_file(scan, entries[n as int])->0 == (
            place(entries[n as int]).at,
            disk_bytes(entries[n as int]) as u64,
        ),
{
    let entry = entries[n as int];
    let (met_thread, met) = thread.taken(scan, entry);
    lemma_inode_met_grows(entries, n as int);
    let old_places = counted_places(entries, n);
    let places = counted_places(entries, n + 1);
    match entry.kind {
        EntryKind::File { meta: Some(m) } => {
            assert(scan.seen_inodes.contains((m.dev, m.ino)) == inode_met(
                entries,
                n as int,
                m.dev,
                m.ino,
            ));
        },
        _ => {},
    }
    if counts(entries, n as int) {
        assert(places.drop_last() =~= old_places);
        let all = sized_at(entries, places);
        assert(all.drop_last() =~= sized_at(entries, old_places));
        assert(all.last() == (SizedView {
            path: place(entry),
            size: disk_bytes(entry) as u64,
        }));
    }
    assert(is_greatest_depth(entries, (n + 1) as int, met.deepest_depth)) by {
        if met.deepest_depth > 0 {
            if met.deepest_depth == scan.deepest_depth {
                let i = choose|i: int|
                    0 <= i < n && (#[trigger] entries[i]).kind is Dir && entries[i].depth
                        == scan.deepest_depth;
                assert(entries[i].kind is Dir);
            } else {
                assert(entries[n as int].kind is Dir);
            }
        }
    }
    assert(stands(entries, met, n + 1)) by {
        assert forall|dev: u64, ino: u64| #[trigger]
            met.seen_inodes.contains((dev, ino)) == inode_met(
                entries,
                (n + 1) as int,
                dev,
                ino,
            ) by {
            assert(scan.seen_inodes.contains((dev, ino)) == inode_met(
                entries,
                n as int,
                dev,
                ino,
            ));
            assert(inode_met(entries, n as int + 1, dev, ino) == (inode_met(
                entries,
                n as int,
                dev,
                ino,
            ) || has_inode(entry, dev, ino)));
        }
    }
    if thread.is_due(scan, entry) {
        crate::walk::law_handing_over_keeps_inodes(met, met_thread, after_scan);
        let flushed = choose|flushed: ScanView| #[trigger]
            met.takes(met_thread, flushed) && crate::walk::interval_counted(
                flushed,
                met_thread,
                after_scan,
            );
        crate::walk::lemma_taking_keeps_the_rest(met, met_thread, flushed);
    }
}

pub proof fn lemma_walk_stands(
    entries: Seq<WalkView>,
    before: Seq<ThreadView>,
    after: Seq<ThreadView>,
    scans: Seq<ScanView>,
    n: nat,
)
    requires
        is_walk(entries, before, after, scans),
        is_untouched(scans[0]),
        n <= entries.len(),
    ensures
        stands(entries, scans[n as int], n),
    decreases n,
{
    if n == 0 {
        assert(sized_at(entries, counted_places(entries, 0)) =~= Seq::<SizedView>::empty());
        assert(scans[0].top_files =~= Seq::<SizedView>::empty());
        assert forall|dev: u64, ino: u64| !inode_met(entries, 0, dev, ino) by {}
    } else {
        let i = n - 1;
        lemma_walk_stands(entries, before, after, scans, i as nat);
        assert(before[i].processes(scans[i], entries[i], after[i], scans[i + 1], true));
        lemma_step(entries, i as nat, before[i], scans[i], after[i], scans[i + 1]);
    }
}

proof fn lemma_positive_count(list: Seq<SizedView>)
    ensures
        crate::top::positive_count(list) == with_size(list),
    decreases list.len(),
{
    let p = |e: SizedView| e.size > 0;
    reveal(Seq::filter);
    if list.len() > 0 {
        lemma_positive_count(list.drop_last());
    }
}

proof fn lemma_ten_largest(all: Seq<SizedView>)
    ensures
        holds_the_ten_largest(crate::top::files_entered(all), all),
{
    let list = crate::top::files_entered(all);
    crate::top::law_list_holds_the_largest(all);
    lemma_positive_count(all);
    assert forall|e: SizedView| #[trigger]
        list.to_multiset().count(e) <= all.to_multiset().count(e) by {}
    assert forall|e: SizedView, i: int|
        #![trigger all.to_multiset().count(e), list[i]]
        all.to_multiset().count(e) > list.to_multiset().count(e) && 0 <= i
            < list.len() implies e.size <= list[i].size by {
        assert(e.size <= crate::top::entry_floor(list));
        assert(i == list.len() - 1 || list[i].size >= list[list.len() - 1].size);
    }
}

/// Whatever threads meet, in whatever order, a file is left out only if one
/// with the same device and the same inode was met before it. The bytes of the
/// scan are those of the files that are not left out, 512 for each block; the
/// aliases are those that are; the directories are all that were met; and the
/// list of the biggest files holds the ten largest of those that count, of equal
/// ones the first that were met, each under its path with its bytes on disk. The greatest depth is that of a
/// directory that was met.
pub proof fn law_each_inode_counts_once(
    entries: Seq<WalkView>,
    before: Seq<ThreadView>,
    after: Seq<ThreadView>,
    scans: Seq<ScanView>,
)
    requires
        is_walk(entries, before, after, scans),
        is_untouched(scans[0]),
    ensures
        ({
            let places = counted_places(entries, entries.len());
            let scan = scans.last();
            &&& bytes_at(entries, places) <= u64::MAX ==> scan.total_bytes == bytes_at(
                entries,
                places,
            )
            &&& alias_count(entries, entries.len()) <= u64::MAX ==> scan.aliased_files
                == alias_count(entries, entries.len())
            &&& dir_count(entries, entries.len()) <= u64::MAX ==> scan.dirs_scanned == dir_count(
                entries,
                entries.len(),
            )
            &&& holds_the_ten_largest(scan.top_files, sized_at(entries, places))
            &&& exists|at: Seq<int>|
                crate::top::holds_the_first(scan.top_files, sized_at(entries, places), at)
            &&& is_greatest_depth(entries, entries.len() as int, scan.deepest_depth)
            &&& forall|dev: u64, ino: u64| #[trigger]
                scan.seen_inodes.contains((dev, ino)) == inode_met(
                    entries,
                    entries.len() as int,
                    dev,
                    ino,
                )
        }),
        forall|i: int|
            0 <= i < entries.len() && #[trigger] counts(entries, i) ==> disk_bytes(entries[i])
                <= u64::MAX,
{
    let n = entries.len();
    lemma_walk_stands(entries, before, after, scans, n);
    lemma_ten_largest(sized_at(entries, counted_places(entries, n)));
    let at = crate::top::law_earlier_files_come_first(
        sized_at(entries, counted_places(entries, n)),
    );
    assert forall|i: int| 0 <= i < entries.len() && #[trigger] counts(
        entries,
        i,
    ) implies disk_bytes(entries[i]) <= u64::MAX by {
        lemma_walk_stands(entries, before, after, scans, i as nat);
        assert(before[i].processes(scans[i], entries[i], after[i], scans[i + 1], true));
        lemma_step(entries, i as nat, before[i], scans[i], after[i], scans[i + 1]);
    }
}

/// A path has an extension exactly if its name has a dot that is not its first
/// byte, whatever follows the last such dot; and its key is the lowercase of
/// that.
pub proof fn law_extension_is_what_follows_the_last_dot(path: PathView, ext: Seq<char>)
    ensures
        crate::walk::ext_key(path) == Some(ext) <==> has_extension(path, ext),
        crate::walk::ext_key(path) is None <==> path.parts.len() == 0 || path.parts.last()
            == seq![46u8, 46u8] || forall|k: int|
            0 < k < path.parts.last().len() ==> #[trigger] path.parts.last()[k] != 46,
{
    if path.parts.len() > 0 {
        let name = path.parts.last();
        lemma_last_dot(name);
        let d = crate::path::last_dot(name);
        assert(name == seq![46u8, 46u8] <==> name.len() == 2 && name[0] == 46 && name[1] == 46) by {
            if name.len() == 2 && name[0] == 46 && name[1] == 46 {
                assert(name =~= seq![46u8, 46u8]);
            }
        }
        if d > 0 {
            assert(name[d] == 46);
            assert(!name.skip(d + 1).contains(46)) by {
                if name.skip(d + 1).contains(46) {
                    let rest = name.skip(d + 1);
                    let k = choose|k: int| 0 <= k < rest.len() && #[trigger] rest[k] == 46;
                    assert(name[d + 1 + k] == 46);
                }
            }
            assert(ends_in(name, name.skip(d + 1)));
        }
        assert forall|bytes: Seq<u8>| #[trigger] ends_in(name, bytes) implies d > 0 && bytes
            == name.skip(d + 1) by {
            let e = choose|e: int|
                0 < e < name.len() && #[trigger] name[e] == 46 && !name.skip(e + 1).contains(46)
                    && bytes == name.skip(e + 1);
            assert(e <= d);
            if e < d {
                assert(name.skip(e + 1)[d - e - 1] == 46);
            }
        }
    }
}

proof fn lemma_last_dot(name: Seq<u8>)
    ensures
        -1 <= crate::path::last_dot(name) < name.len(),
        crate::path::last_dot(name) >= 0 ==> name[crate::path::last_dot(name)] == 46,
        forall|k: int| crate::path::last_dot(name) < k < name.len() ==> name[k] != 46,
    decreases name.len(),
{
    if name.len() > 0 {
        let rest = name.drop_last();
        lemma_last_dot(rest);
        if name.last() != 46 {
            assert forall|k: int| crate::path::last_dot(name) < k < name.len() implies name[k]
                != 46 by {
                if k < rest.len() {
                    assert(rest[k] == name[k]);
                }
            }
        }
    }
}

pub proof fn lemma_charged(path: PathView, root: PathView, dir: PathView)
    requires
        goes_below(path, root),
    ensures
        crate::walk::charges(path, root, dir) == (goes_below(path, dir) && is_within(dir, root)),
{
    lemma_below(path, root);
    lemma_below(path, dir);
    lemma_below(root, dir);
    lemma_below(dir, root);
    if goes_below(path, dir) {
        if dir.parts.len() == root.parts.len() {
            assert forall|k: int| 0 <= k < dir.parts.len() implies dir.parts[k]
                == root.parts[k] by {
                assert(path.parts[k] == dir.parts[k]);
                assert(path.parts[k] == root.parts[k]);
            }
            assert(dir.parts =~= root.parts);
        } else if dir.parts.len() < root.parts.len() {
            assert forall|k: int| 0 <= k < dir.parts.len() implies root.parts[k]
                == #[trigger] dir.parts[k] by {
                assert(path.parts[k] == dir.parts[k]);
                assert(path.parts[k] == root.parts[k]);
            }
        } else {
            assert forall|k: int| 0 <= k < root.parts.len() implies dir.parts[k]
                == #[trigger] root.parts[k] by {
                assert(path.parts[k] == dir.parts[k]);
                assert(path.parts[k] == root.parts[k]);
            }
        }
    }
}

proof fn lemma_below(path: PathView, dir: PathView)
    ensures
        path.strictly_under(dir) == goes_below(path, dir),
{
    if dir.parts.len() < path.parts.len() {
        let head = path.parts.subrange(0, dir.parts.len() as int);
        if goes_below(path, dir) {
            assert forall|k: int| 0 <= k < dir.parts.len() implies head[k] == dir.parts[k] by {
                assert(path.parts[k] == dir.parts[k]);
            }
            assert(head =~= dir.parts);
        }
        if dir.parts.is_prefix_of(path.parts) {
            assert forall|k: int| 0 <= k < dir.parts.len() implies path.parts[k]
                == #[trigger] dir.parts[k] by {
                assert(head[k] == path.parts[k]);
            }
        }
    }
}

/// Whether a path is `dir`, or goes on below it; every path goes on from the
/// empty one.
pub open spec fn is_on(path: PathView, dir: PathView) -> bool {
    is_within(path, dir) || (!dir.absolute && dir.parts.len() == 0)
}

/// A path starts with another exactly if it is that or goes on below it.
pub proof fn law_path_starts_with_what_it_is_on(path: PathView, dir: PathView)
    ensures
        path.starts_with(dir) == is_on(path, dir),
{
    lemma_below(path, dir);
    if path.absolute == dir.absolute && path.parts.len() == dir.parts.len()
        && dir.parts.is_prefix_of(path.parts) {
        assert(path.parts =~= dir.parts);
    }
    if dir.parts.len() == 0 {
        assert(dir.parts =~= path.parts.subrange(0, 0));
    }
}

/// Whether every file of a walk stands below its root.
pub open spec fn files_below(entries: Seq<WalkView>, root: PathView) -> bool {
    forall|i: int|
        0 <= i < entries.len() && (#[trigger] entries[i]).kind is File ==> goes_below(
            place(entries[i]).at,
            root,
        )
}

proof fn lemma_counted_alike(
    root: PathView,
    entries: Seq<WalkView>,
    threads: Seq<ThreadView>,
    scans: Seq<ScanView>,
    n: nat,
    dir: PathView,
    ext: Seq<char>,
)
    requires
        crate::life::is_life(root, entries, threads, scans),
        is_untouched(scans[0]),
        files_below(entries, root),
        n <= entries.len(),
    ensures
        ({
            let places = counted_places(entries, n);
            let files = crate::life::counted_files(entries, scans, n);
            &&& files.len() == places.len()
            &&& crate::life::size_below(files, root, dir) == if is_within(dir, root) {
                bytes_below(entries, places, dir)
            } else {
                0
            }
            &&& crate::life::with_extension(files, ext) == extension_total(entries, places, ext)
        }),
    decreases n,
{
    if n > 0 {
        let i = n - 1;
        lemma_counted_alike(root, entries, threads, scans, i as nat, dir, ext);
        let before = threads.drop_last();
        let after = threads.drop_first();
        assert(is_walk(entries, before, after, scans)) by {
            assert forall|k: int| 0 <= k < entries.len() implies before[k].processes(
                scans[k],
                #[trigger] entries[k],
                after[k],
                scans[k + 1],
                true,
            ) by {
                assert(threads[k].processes(
                    scans[k],
                    entries[k],
                    threads[k + 1],
                    scans[k + 1],
                    true,
                ));
            }
        }
        lemma_walk_stands(entries, before, after, scans, i as nat);
        assert(threads[i].processes(scans[i], entries[i], threads[i + 1], scans[i + 1], true));
        lemma_step(entries, i as nat, threads[i], scans[i], threads[i + 1], scans[i + 1]);
        if counts(entries, i) {
            let places = counted_places(entries, n);
            let files = crate::life::counted_files(entries, scans, n);
            assert(places.drop_last() =~= counted_places(entries, i as nat));
            assert(files.drop_last() =~= crate::life::counted_files(entries, scans, i as nat));
            assert(goes_below(place(entries[i]).at, root));
            lemma_charged(place(entries[i]).at, root, dir);
            law_extension_is_what_follows_the_last_dot(place(entries[i]).at, ext);
        }
    }
}

/// From a scan that has found nothing, a thread that meets entries below its
/// root, from its start to its end, leaves in the scan: as many files as there
/// are devices and inodes among them, every directory down from the root with
/// the bytes of those files below it, and every extension with the number and
/// the bytes of those that have it.
pub proof fn law_thread_counts_each_inode_once(
    root: PathView,
    entries: Seq<WalkView>,
    threads: Seq<ThreadView>,
    scans: Seq<ScanView>,
    after: ScanView,
    dir: PathView,
    ext: Seq<char>,
)
    requires
        crate::life::is_life(root, entries, threads, scans),
        files_below(entries, root),
        is_untouched(scans[0]),
        scans[0].files_scanned == 0,
        scans[0].dir_sizes == Map::<PathView, u64>::empty(),
        scans[0].ext_stats == Map::<Seq<char>, (u64, u64)>::empty(),
        threads.last().flush_fits(scans.last()),
        crate::scan::stats_fit(scans.last().ext_stats, threads.last().ext_stats),
        scans.last().takes_rest(threads.last(), after),
    ensures
        ({
            let places = counted_places(entries, entries.len());
            &&& after.files_scanned == places.len()
            &&& bytes_at(entries, places) <= u64::MAX ==> after.total_bytes == bytes_at(
                entries,
                places,
            )
            &&& alias_count(entries, entries.len()) <= u64::MAX ==> after.aliased_files
                == alias_count(entries, entries.len())
            &&& is_within(dir, root) && bytes_below(entries, places, dir) > 0
                ==> after.dir_sizes.contains_key(dir)
            &&& after.dir_sizes.contains_key(dir) ==> after.dir_sizes[dir] == if is_within(
                dir,
                root,
            ) {
                bytes_below(entries, places, dir)
            } else {
                0
            }
            &&& after.ext_stats.contains_key(ext) ==> (
                after.ext_stats[ext].0 as nat,
                after.ext_stats[ext].1 as nat,
            ) == extension_total(entries, places, ext)
            &&& extension_total(entries, places, ext).0 > 0 ==> after.ext_stats.contains_key(ext)
            &&& holds_the_ten_largest(after.top_files, sized_at(entries, places))
            &&& scans.last().files_scanned == places.len() - places.len() % 5000
        }),
{
    let n = entries.len();
    let before = threads.drop_last();
    let next = threads.drop_first();
    assert(is_walk(entries, before, next, scans)) by {
        assert forall|k: int| 0 <= k < entries.len() implies before[k].processes(
            scans[k],
            #[trigger] entries[k],
            next[k],
            scans[k + 1],
            true,
        ) by {
            assert(threads[k].processes(scans[k], entries[k], threads[k + 1], scans[k + 1], true));
        }
    }
    law_each_inode_counts_once(entries, before, next, scans);
    lemma_counted_alike(root, entries, threads, scans, n, dir, ext);
    crate::life::law_thread_adds_what_it_met(root, entries, threads, scans, after, dir, ext);
    crate::walk::law_handing_over_keeps_inodes(scans.last(), threads.last(), after);
    crate::life::lemma_count_fits(root, entries, threads, scans, n);
}

} // verus!
