//! What one walker thread does with the entries it meets.
//!
//! A thread gathers sizes, statistics and completion counts of its own and
//! hands them to the scan in batches: sizes first, so that a directory whose
//! last entry is accounted for has its final size.
use vstd::prelude::*;

use crate::keymap::KeyMap;
use crate::path::FsPath;
use crate::path::PathView;
use crate::path::SpelledView;
use crate::scan::ScanState;
use crate::scan::ScanView;
use crate::text::lossy;
use crate::text::lowercase;

verus! {

/// How many files a thread counts between two batches.
pub const FLUSH_INTERVAL: u64 = 5000;

/// How many extensions the list of the top extensions holds.
pub const TOP_EXTS: usize = 15;

/// What is read of a file.
#[derive(Clone, Copy, Debug)]
pub struct FileMeta {
    pub dev: u64,
    pub ino: u64,
    pub blocks: u64,
}

/// What an entry is: a directory with its number of entries (0 where they
/// could not be read), a file with what could be read of it, or a link or the
/// like.
#[derive(Clone, Copy, Debug)]
pub enum EntryKind {
    Dir { expected: usize },
    File { meta: Option<FileMeta> },
    Other,
}

/// An entry that the walker met.
#[derive(Debug)]
pub struct WalkEntry {
    pub path: FsPath,
    pub depth: usize,
    pub kind: EntryKind,
}

/// An entry that the walker met.
#[verifier::ext_equal]
pub struct WalkView {
    pub path: SpelledView,
    pub depth: usize,
    pub kind: EntryKind,
}

impl View for WalkEntry {
    type V = WalkView;

    open spec fn view(&self) -> WalkView {
        WalkView { path: self.path.named(), depth: self.depth, kind: self.kind }
    }
}

/// Whether the size of what stands at `path` counts towards `dir`: `dir` is
/// above it and not above the root of the scan. For a path outside the root,
/// every directory above it counts.
pub open spec fn charges(path: PathView, root: PathView, dir: PathView) -> bool {
    path.strictly_under(dir) && !(path.strictly_under(root) && root.strictly_under(dir))
}

/// Sizes with `len` added to every directory that the path counts towards.
pub open spec fn sizes_charged(
    sizes: Map<PathView, u64>,
    path: PathView,
    root: PathView,
    len: u64,
) -> Map<PathView, u64> {
    Map::new(
        |dir: PathView| sizes.contains_key(dir) || charges(path, root, dir),
        |dir: PathView|
            if charges(path, root, dir) {
                (crate::scan::size_in(sizes, dir) + len) as u64
            } else {
                sizes[dir]
            },
    )
}

/// Whether `len` can be added to every directory that the path counts towards.
pub open spec fn charge_fits(
    sizes: Map<PathView, u64>,
    path: PathView,
    root: PathView,
    len: u64,
) -> bool {
    forall|dir: PathView| #[trigger]
        charges(path, root, dir) ==> crate::scan::size_in(sizes, dir) + len <= u64::MAX
}

/// The names of the directories that have a size, with those that the path
/// counts towards: each keeps the name it has, or is named as on the way up.
pub open spec fn names_charged(
    names: Map<PathView, SpelledView>,
    path: SpelledView,
    root: PathView,
) -> Map<PathView, SpelledView> {
    Map::new(
        |dir: PathView| names.contains_key(dir) || charges(path.at, root, dir),
        |dir: PathView|
            if names.contains_key(dir) {
                names[dir]
            } else {
                path.up_to(dir)
            },
    )
}

/// Sizes added up per directory.
pub open spec fn sizes_added(
    sizes: Map<PathView, u64>,
    more: Map<PathView, u64>,
) -> Map<PathView, u64> {
    Map::new(
        |dir: PathView| sizes.contains_key(dir) || more.contains_key(dir),
        |dir: PathView| (crate::scan::size_in(sizes, dir) + crate::scan::size_in(more, dir)) as u64,
    )
}

/// Whether sizes can be added without overflow.
pub open spec fn sizes_fit(sizes: Map<PathView, u64>, more: Map<PathView, u64>) -> bool {
    forall|dir: PathView| #[trigger]
        more.contains_key(dir) ==> crate::scan::size_in(sizes, dir) + more[dir] <= u64::MAX
}

/// The name under which a path's extension is counted: the extension, read as
/// text, in lowercase.
pub open spec fn ext_key(path: PathView) -> Option<Seq<char>> {
    match path.file_name() {
        None => None,
        Some(name) => match crate::path::extension_of(name) {
            None => None,
            Some(ext) => Some(crate::text::lowercase_text(crate::text::lossy_text(ext))),
        },
    }
}

/// The path as a directory's ancestor at `n` components.
spec fn above_at(path: PathView, n: int) -> PathView {
    PathView { absolute: path.absolute, parts: path.parts.take(n) }
}

/// What was charged once the ancestors down to `n` components were.
spec fn charged_down_to(
    before: Map<PathView, u64>,
    now: Map<PathView, u64>,
    path: PathView,
    len: u64,
    n: int,
) -> bool {
    forall|dir: PathView|
        {
            let met = path.strictly_under(dir) && dir.parts.len() >= n;
            &&& #[trigger] now.contains_key(dir) <==> before.contains_key(dir) || met
            &&& now.contains_key(dir) ==> now[dir] == if met {
                (crate::scan::size_in(before, dir) + len) as u64
            } else {
                before[dir]
            }
        }
}

/// What was named once the ancestors down to `n` components were charged.
spec fn named_down_to(
    before: Map<PathView, SpelledView>,
    now: Map<PathView, SpelledView>,
    path: SpelledView,
    n: int,
) -> bool {
    forall|dir: PathView|
        {
            let met = path.at.strictly_under(dir) && dir.parts.len() >= n;
            &&& #[trigger] now.contains_key(dir) <==> before.contains_key(dir) || met
            &&& now.contains_key(dir) ==> now[dir] == if before.contains_key(dir) {
                before[dir]
            } else {
                path.up_to(dir)
            }
        }
}

proof fn lemma_above_is_unique(path: PathView, dir: PathView)
    requires
        path.strictly_under(dir),
    ensures
        dir == above_at(path, dir.parts.len() as int),
{
    assert(dir.parts =~= path.parts.take(dir.parts.len() as int));
}

proof fn lemma_above_is_above(path: PathView, n: int)
    requires
        0 <= n < path.parts.len(),
    ensures
        path.strictly_under(above_at(path, n)),
        n > 0 ==> above_at(path, n).parent() == Some(above_at(path, n - 1)),
        above_at(path, 0).parent() is None,
        path.parent() == Some(above_at(path, path.parts.len() - 1)),
{
    assert(path.parts.take(n).is_prefix_of(path.parts));
    if n > 0 {
        assert(path.parts.take(n).drop_last() =~= path.parts.take(n - 1));
    }
    assert(path.parts.drop_last() =~= path.parts.take(path.parts.len() - 1));
}

/// Adds `len` to every directory above `path`, up to `root`.
pub fn charge(sizes: &mut KeyMap<FsPath, u64>, path: &FsPath, root: &FsPath, len: u64)
    requires
        charge_fits(old(sizes)@, path@, root@, len),
    ensures
        final(sizes)@ == sizes_charged(old(sizes)@, path@, root@, len),
        final(sizes).names() == names_charged(old(sizes).names(), path.named(), root@),
{
    let ghost before = sizes@;
    let ghost names = sizes.names();
    let mut above: Option<FsPath> = path.parent();
    let ghost mut n: int = path@.parts.len() as int;
    let mut reached: bool = false;
    proof {
        if path@.parts.len() > 0 {
            lemma_above_is_above(path@, path@.parts.len() - 1);
            crate::path::lemma_up_to(path.named(), path@, path@.parent()->0);
        }
    }
    while above.is_some() && !reached
        invariant
            0 <= n <= path@.parts.len(),
            named_down_to(names, sizes.names(), path.named(), n),
            !reached && above is Some ==> above->0.named() == path.named().up_to(above->0@),
            charge_fits(before, path@, root@, len),
            charged_down_to(before, sizes@, path@, len, n),
            !reached ==> match above {
                Some(dir) => n > 0 && dir@ == above_at(path@, n - 1),
                None => n == 0,
            },
            reached ==> n < path@.parts.len() && root@ == above_at(path@, n),
            !reached ==> forall|m: int| n <= m < path@.parts.len() ==> root@ != #[trigger] above_at(
                path@,
                m,
            ),
        decreases n,
    {
        let dir: FsPath = above.unwrap();
        proof {
            n = n - 1;
            lemma_above_is_above(path@, n);
            if root@.strictly_under(dir@) && path@.strictly_under(root@) {
                lemma_above_is_unique(path@, root@);
                assert(root@ == above_at(path@, root@.parts.len() as int));
            }
            assert(charges(path@, root@, dir@));
        }
        let ghost sizes_before = sizes@;
        let ghost names_before = sizes.names();
        let so_far: u64 = match sizes.get(&dir) {
            Some(s) => s,
            None => 0,
        };
        assert(so_far == crate::scan::size_in(before, dir@));
        sizes.insert(dir.clone(), so_far + len);
        proof {
            if dir@.parent() is Some {
                crate::path::lemma_up_to(path.named(), dir@, dir@.parent()->0);
            }
            assert forall|d: PathView| ({
                let met = path@.strictly_under(d) && d.parts.len() >= n;
                &&& #[trigger] sizes.names().contains_key(d) <==> names.contains_key(d) || met
                &&& sizes.names().contains_key(d) ==> sizes.names()[d] == if names.contains_key(
                    d,
                ) {
                    names[d]
                } else {
                    path.named().up_to(d)
                }
            }) by {
                assert(names_before.contains_key(d) == sizes_before.contains_key(d)) by {
                    assert(names_before.dom() == sizes_before.dom());
                    assert(names_before.dom().contains(d) == sizes_before.dom().contains(d));
                }
                if path@.strictly_under(d) && d.parts.len() == n {
                    lemma_above_is_unique(path@, d);
                }
            }
            assert forall|d: PathView| ({
                let met = path@.strictly_under(d) && d.parts.len() >= n;
                &&& #[trigger] sizes@.contains_key(d) <==> before.contains_key(d) || met
                &&& sizes@.contains_key(d) ==> sizes@[d] == if met {
                    (crate::scan::size_in(before, d) + len) as u64
                } else {
                    before[d]
                }
            }) by {
                assert(sizes_before.contains_key(d) == sizes_before.contains_key(d));
                if path@.strictly_under(d) && d.parts.len() == n {
                    lemma_above_is_unique(path@, d);
                }
            }
        }
        if dir.same(root) {
            reached = true;
            above = None;
        } else {
            above = dir.parent();
        }
    }
    proof {
        let after = sizes_charged(before, path@, root@, len);
        assert forall|d: PathView| charges(path@, root@, d) == (path@.strictly_under(d)
            && d.parts.len() >= n) by {
            if reached {
                lemma_above_is_above(path@, n);
                if path@.strictly_under(d) {
                    lemma_above_is_unique(path@, d);
                    if d.parts.len() < n {
                        assert(root@.strictly_under(d)) by {
                            assert(d.parts.is_prefix_of(root@.parts));
                        }
                    }
                }
            } else {
                if path@.strictly_under(root@) {
                    lemma_above_is_unique(path@, root@);
                    assert(root@ != above_at(path@, root@.parts.len() as int));
                }
            }
        }
        assert forall|d: PathView| sizes@.contains_key(d) == after.contains_key(d) by {}
        assert(sizes@ =~= after);
        let named = names_charged(names, path.named(), root@);
        assert forall|d: PathView| sizes.names().contains_key(d) == named.contains_key(d) by {}
        assert(sizes.names() =~= named);
    }
}

/// Computes [`charge_fits`].
pub fn charge_has_room(
    sizes: &KeyMap<FsPath, u64>,
    path: &FsPath,
    root: &FsPath,
    len: u64,
) -> (r: bool)
    ensures
        r == charge_fits(sizes@, path@, root@, len),
{
    let mut above: Option<FsPath> = path.parent();
    let ghost mut n: int = path@.parts.len() as int;
    let mut reached: bool = false;
    proof {
        if path@.parts.len() > 0 {
            lemma_above_is_above(path@, path@.parts.len() - 1);
        }
    }
    while above.is_some() && !reached
        invariant
            0 <= n <= path@.parts.len(),
            forall|d: PathView| #[trigger]
                path@.strictly_under(d) && d.parts.len() >= n ==> crate::scan::size_in(sizes@, d)
                    + len <= u64::MAX,
            !reached ==> match above {
                Some(dir) => n > 0 && dir@ == above_at(path@, n - 1),
                None => n == 0,
            },
            reached ==> n < path@.parts.len() && root@ == above_at(path@, n),
            !reached ==> forall|m: int| n <= m < path@.parts.len() ==> root@ != #[trigger] above_at(
                path@,
                m,
            ),
        decreases n,
    {
        let dir: FsPath = above.unwrap();
        proof {
            n = n - 1;
            lemma_above_is_above(path@, n);
            if root@.strictly_under(dir@) && path@.strictly_under(root@) {
                lemma_above_is_unique(path@, root@);
                assert(root@ == above_at(path@, root@.parts.len() as int));
            }
            assert(charges(path@, root@, dir@));
        }
        let so_far: u64 = match sizes.get(&dir) {
            Some(s) => s,
            None => 0,
        };
        if so_far > u64::MAX - len {
            return false;
        }
        proof {
            assert forall|d: PathView| #[trigger]
                path@.strictly_under(d) && d.parts.len() >= n implies crate::scan::size_in(
                sizes@,
                d,
            ) + len <= u64::MAX by {
                if d.parts.len() == n {
                    lemma_above_is_unique(path@, d);
                }
            }
        }
        if dir.same(root) {
            reached = true;
            above = None;
        } else {
            above = dir.parent();
        }
    }
    proof {
        assert forall|d: PathView| #[trigger] charges(path@, root@, d) implies crate::scan::size_in(
            sizes@,
            d,
        ) + len <= u64::MAX by {
            assert(path@.strictly_under(d));
            lemma_above_is_unique(path@, d);
            if reached {
                lemma_above_is_above(path@, n);
                if d.parts.len() < n {
                    assert(root@.strictly_under(d)) by {
                        assert(d.parts.is_prefix_of(root@.parts));
                    }
                }
            }
        }
    }
    true
}

/// Adds the sizes of `more` to `sizes` and empties `more`.
fn add_sizes(sizes: &mut KeyMap<FsPath, u64>, more: &mut KeyMap<FsPath, u64>)
    requires
        sizes_fit(old(sizes)@, old(more)@),
    ensures
        final(sizes)@ == sizes_added(old(sizes)@, old(more)@),
        final(sizes).names() == old(more).names().union_prefer_right(old(sizes).names()),
        final(more)@ == Map::<PathView, u64>::empty(),
        final(more).names() == Map::<PathView, SpelledView>::empty(),
{
    let ghost before = sizes@;
    let ghost added = more@;
    let ghost names = sizes.names();
    let ghost more_names = more.names();
    let rows = more.entries();
    let mut i: usize = 0;
    while i < rows.len()
        invariant
            i <= rows@.len(),
            crate::keymap::lists_map(rows@, added),
            crate::keymap::lists_names(rows@, more_names),
            sizes_fit(before, added),
            forall|dir: PathView|
                {
                    let met = exists|m: int| 0 <= m < i && (#[trigger] rows@[m]).0@ == dir;
                    &&& #[trigger] sizes.names().contains_key(dir) <==> names.contains_key(dir)
                        || met
                    &&& sizes.names().contains_key(dir) ==> sizes.names()[dir] == (
                    if names.contains_key(dir) {
                        names[dir]
                    } else {
                        more_names[dir]
                    })
                },
            forall|dir: PathView|
                {
                    let met = exists|m: int| 0 <= m < i && (#[trigger] rows@[m]).0@ == dir;
                    &&& #[trigger] sizes@.contains_key(dir) <==> before.contains_key(dir) || met
                    &&& sizes@.contains_key(dir) ==> sizes@[dir] == (if met {
                        sizes_added(before, added)[dir]
                    } else {
                        before[dir]
                    })
                },
        decreases rows@.len() - i,
    {
        let dir = rows[i].0.clone();
        let size: u64 = rows[i].1;
        let ghost sizes_before = sizes@;
        let ghost names_before = sizes.names();
        assert(added.contains_key(rows@[i as int].0@));
        assert(!(exists|m: int| 0 <= m < i && (#[trigger] rows@[m]).0@ == dir@));
        let so_far: u64 = match sizes.get(&dir) {
            Some(s) => s,
            None => 0,
        };
        assert(so_far == crate::scan::size_in(before, dir@));
        let ghost key = dir@;
        sizes.insert(dir, so_far + size);
        proof {
            assert forall|d: PathView| ({
                let met = exists|m: int| 0 <= m < i + 1 && (#[trigger] rows@[m]).0@ == d;
                &&& #[trigger] sizes.names().contains_key(d) <==> names.contains_key(d) || met
                &&& sizes.names().contains_key(d) ==> sizes.names()[d] == (if names.contains_key(
                    d,
                ) {
                    names[d]
                } else {
                    more_names[d]
                })
            }) by {
                let met_before = exists|m: int| 0 <= m < i && (#[trigger] rows@[m]).0@ == d;
                let met = exists|m: int| 0 <= m < i + 1 && (#[trigger] rows@[m]).0@ == d;
                assert(names_before.contains_key(d) == sizes_before.contains_key(d)) by {
                    assert(names_before.dom() == sizes_before.dom());
                    assert(names_before.dom().contains(d) == sizes_before.dom().contains(d));
                }
                if d == key {
                    assert(rows@[i as int].0@ == d);
                    assert(met);
                } else {
                    if met {
                        let m = choose|m: int| 0 <= m < i + 1 && (#[trigger] rows@[m]).0@ == d;
                        assert(m != i);
                    }
                    assert(met == met_before);
                    assert(names_before.contains_key(d) == sizes.names().contains_key(d));
                }
            }
            assert forall|d: PathView| ({
                let met = exists|m: int| 0 <= m < i + 1 && (#[trigger] rows@[m]).0@ == d;
                &&& #[trigger] sizes@.contains_key(d) <==> before.contains_key(d) || met
                &&& sizes@.contains_key(d) ==> sizes@[d] == (if met {
                    sizes_added(before, added)[d]
                } else {
                    before[d]
                })
            }) by {
                let met_before = exists|m: int| 0 <= m < i && (#[trigger] rows@[m]).0@ == d;
                let met = exists|m: int| 0 <= m < i + 1 && (#[trigger] rows@[m]).0@ == d;
                if d == key {
                    assert(rows@[i as int].0@ == d);
                    assert(met);
                } else {
                    if met {
                        let m = choose|m: int| 0 <= m < i + 1 && (#[trigger] rows@[m]).0@ == d;
                        assert(m != i);
                    }
                    assert(met == met_before);
                    assert(sizes_before.contains_key(d) == sizes@.contains_key(d));
                }
            }
        }
        i += 1;
    }
    more.clear();
    proof {
        let after = sizes_added(before, added);
        assert forall|dir: PathView| #[trigger]
            sizes@.contains_key(dir) == after.contains_key(dir) by {
            if added.contains_key(dir) {
                let m = choose|m: int| 0 <= m < rows@.len() && (#[trigger] rows@[m]).0@ == dir;
                assert(rows@[m].0@ == dir);
            }
        }
        assert forall|dir: PathView| sizes@.contains_key(dir) implies #[trigger] sizes@[dir]
            == after[dir] by {
            if !added.contains_key(dir) {
                assert(!(exists|m: int| 0 <= m < rows@.len() && (#[trigger] rows@[m]).0@ == dir));
            }
        }
        assert(sizes@ =~= after);
        let named = more_names.union_prefer_right(names);
        assert forall|dir: PathView| #[trigger]
            sizes.names().contains_key(dir) == named.contains_key(dir) by {
            assert(more_names.dom() == added.dom());
            assert(more_names.dom().contains(dir) == added.dom().contains(dir));
            if added.contains_key(dir) {
                let m = choose|m: int| 0 <= m < rows@.len() && (#[trigger] rows@[m]).0@ == dir;
                assert(rows@[m].0@ == dir);
            }
        }
        assert(sizes.names() =~= named);
    }
}

/// Computes [`sizes_fit`].
pub fn sizes_have_room(sizes: &KeyMap<FsPath, u64>, more: &KeyMap<FsPath, u64>) -> (r: bool)
    ensures
        r == sizes_fit(sizes@, more@),
{
    let rows = more.entries();
    let mut i: usize = 0;
    while i < rows.len()
        invariant
            i <= rows@.len(),
            crate::keymap::lists_map(rows@, more@),
            forall|k: int|
                0 <= k < i ==> crate::scan::size_in(sizes@, (#[trigger] rows@[k]).0@) + rows@[k].1
                    <= u64::MAX,
        decreases rows@.len() - i,
    {
        assert(more@.contains_key(rows@[i as int].0@));
        let so_far: u64 = match sizes.get(&rows[i].0) {
            Some(s) => s,
            None => 0,
        };
        if so_far > u64::MAX - rows[i].1 {
            return false;
        }
        i += 1;
    }
    assert forall|dir: PathView| #[trigger] more@.contains_key(dir) implies crate::scan::size_in(
        sizes@,
        dir,
    ) + more@[dir] <= u64::MAX by {
        let k = choose|k: int| 0 <= k < rows@.len() && (#[trigger] rows@[k]).0@ == dir;
        assert(crate::scan::size_in(sizes@, rows@[k].0@) + rows@[k].1 <= u64::MAX);
    }
    true
}

/// What a thread has gathered since it last handed over.
#[verifier::ext_equal]
pub struct ThreadView {
    pub root: PathView,
    pub dir_sizes: Map<PathView, u64>,
    /// The names of the directories in `dir_sizes`.
    pub size_names: Map<PathView, SpelledView>,
    pub ext_stats: Map<Seq<char>, (u64, u64)>,
    pub yielded: Map<PathView, usize>,
    /// The names of the directories in `yielded`.
    pub yielded_names: Map<PathView, SpelledView>,
    pub listed: Seq<(PathView, usize)>,
    /// The names of the directories in `listed`.
    pub listed_names: Seq<SpelledView>,
    pub count: u64,
    pub deepest: (SpelledView, usize),
    pub errors: u64,
}

/// State of one walker thread.
pub struct ThreadLocalState {
    /// The root of the scan.
    pub root: FsPath,
    /// Sizes per directory, not handed over yet.
    pub local_dir_sizes: KeyMap<FsPath, u64>,
    /// Extension statistics, not handed over yet.
    pub local_ext_stats: KeyMap<String, (u64, u64)>,
    /// Entries met per parent directory. Only files and links count here;
    /// subdirectories count when they are complete.
    pub local_yielded: KeyMap<FsPath, usize>,
    /// Directories met, with their numbers of entries.
    pub pending_expected: Vec<(FsPath, usize)>,
    /// Files counted by this thread.
    pub local_count: u64,
    /// The deepest directory met, with its depth.
    pub local_deepest: (FsPath, usize),
    /// Errors that the walker reported to this thread.
    pub errors: u64,
}

impl View for ThreadLocalState {
    type V = ThreadView;

    open spec fn view(&self) -> ThreadView {
        ThreadView {
            root: self.root@,
            dir_sizes: self.local_dir_sizes@,
            size_names: self.local_dir_sizes.names(),
            ext_stats: self.local_ext_stats@,
            yielded: self.local_yielded@,
            yielded_names: self.local_yielded.names(),
            listed: crate::completion::listed_views(self.pending_expected@),
            listed_names: crate::completion::listed_names(self.pending_expected@),
            count: self.local_count,
            deepest: (self.local_deepest.0.named(), self.local_deepest.1),
            errors: self.errors,
        }
    }
}

/// The size that a file takes on disk, 0 where it could not be read.
pub open spec fn size_of_meta(meta: Option<FileMeta>) -> int {
    match meta {
        Some(m) => m.blocks * crate::util::BLOCK,
        None => 0,
    }
}

/// Whether a file's inode was counted before.
pub open spec fn is_alias(scan: ScanView, meta: Option<FileMeta>) -> bool {
    match meta {
        Some(m) => scan.seen_inodes.contains((m.dev, m.ino)),
        None => false,
    }
}

/// The scan after the inode of a file was recorded.
pub open spec fn inode_recorded(scan: ScanView, meta: Option<FileMeta>) -> ScanView {
    match meta {
        Some(m) => ScanView { seen_inodes: scan.seen_inodes.insert((m.dev, m.ino)), ..scan },
        None => scan,
    }
}

/// The scan after a file that is counted.
pub open spec fn file_counted(
    scan: ScanView,
    path: SpelledView,
    meta: Option<FileMeta>,
) -> ScanView {
    let len = size_of_meta(meta) as u64;
    let seen = inode_recorded(scan, meta);
    (ScanView { total_bytes: seen.total_bytes.wrapping_add(len), ..seen }).with_top_file(path, len)
}

impl ThreadView {
    /// A thread that has met nothing.
    pub open spec fn fresh(root: PathView) -> ThreadView {
        ThreadView {
            root,
            dir_sizes: Map::empty(),
            size_names: Map::empty(),
            ext_stats: Map::empty(),
            yielded: Map::empty(),
            yielded_names: Map::empty(),
            listed: Seq::empty(),
            listed_names: Seq::empty(),
            count: 0,
            deepest: (crate::scan::no_path(), 0),
            errors: 0,
        }
    }

    /// The thread after a file or link at `path` was met, which counts as an
    /// entry of its parent. The root of the scan is nobody's entry.
    pub open spec fn with_yield(self, path: SpelledView, depth: usize) -> ThreadView {
        match path.parent() {
            Some(parent) if depth > 0 => ThreadView {
                yielded: self.yielded.insert(
                    parent.at,
                    (crate::completion::batch_count(self.yielded, parent.at) + 1) as usize,
                ),
                yielded_names: crate::scan::name_kept(self.yielded_names, parent),
                ..self
            },
            _ => self,
        }
    }

    /// The thread after a directory was met.
    pub open spec fn with_dir(self, path: SpelledView, depth: usize, expected: usize) -> ThreadView {
        ThreadView {
            listed: self.listed.push((path.at, expected)),
            listed_names: self.listed_names.push(path),
            deepest: if depth > self.deepest.1 {
                (path, depth)
            } else {
                self.deepest
            },
            ..self
        }
    }

    /// The thread after a file of size `len` was counted.
    pub open spec fn with_file(self, path: SpelledView, len: u64) -> ThreadView {
        ThreadView {
            dir_sizes: sizes_charged(self.dir_sizes, path.at, self.root, len),
            size_names: names_charged(self.size_names, path, self.root),
            ext_stats: match ext_key(path.at) {
                Some(ext) => self.ext_stats.insert(
                    ext,
                    (
                        (crate::scan::stat_in(self.ext_stats, ext).0 + 1) as u64,
                        (crate::scan::stat_in(self.ext_stats, ext).1 + len) as u64,
                    ),
                ),
                None => self.ext_stats,
            },
            count: (self.count + 1) as u64,
            ..self
        }
    }

    /// The thread and the scan after an entry was met, before anything is
    /// handed over.
    pub open spec fn taken(self, scan: ScanView, entry: WalkView) -> (ThreadView, ScanView) {
        self.taken_at(
            scan,
            crate::util::without_unc_prefix(entry.path),
            entry.depth,
            entry.kind,
        )
    }

    /// The thread and the scan after an entry was met at `path`, before
    /// anything is handed over.
    pub open spec fn taken_at(
        self,
        scan: ScanView,
        path: SpelledView,
        depth: usize,
        kind: EntryKind,
    ) -> (ThreadView, ScanView) {
        match kind {
            EntryKind::Dir { expected } => (
                self.with_dir(path, depth, expected),
                scan.with_dir(depth),
            ),
            EntryKind::File { meta } => {
                let met = self.with_yield(path, depth);
                if is_alias(scan, meta) {
                    (
                        met,
                        ScanView { aliased_files: scan.aliased_files.wrapping_add(1), ..scan },
                    )
                } else {
                    (
                        met.with_file(path, size_of_meta(meta) as u64),
                        file_counted(scan, path, meta),
                    )
                }
            },
            EntryKind::Other => (self.with_yield(path, depth), scan),
        }
    }

    /// Whether an entry makes the thread hand over.
    pub open spec fn is_due(self, scan: ScanView, entry: WalkView) -> bool {
        match entry.kind {
            EntryKind::File { meta } => !is_alias(scan, meta) && (self.count + 1)
                % FLUSH_INTERVAL as int == 0,
            _ => false,
        }
    }

    /// Whether no counter overflows when the file or link at `path` is met.
    pub open spec fn yield_fits(self, path: PathView, depth: usize) -> bool {
        match path.parent() {
            Some(parent) if depth > 0 => crate::completion::batch_count(self.yielded, parent) + 1
                <= usize::MAX,
            _ => true,
        }
    }

    /// Whether no counter overflows when a file of size `len` is counted.
    pub open spec fn file_fits(self, path: PathView, len: int) -> bool {
        &&& len <= u64::MAX
        &&& self.count + 1 <= u64::MAX
        &&& charge_fits(self.dir_sizes, path, self.root, len as u64)
        &&& match ext_key(path) {
            Some(ext) => {
                &&& crate::scan::stat_in(self.ext_stats, ext).0 + 1 <= u64::MAX
                &&& crate::scan::stat_in(self.ext_stats, ext).1 + len <= u64::MAX
            },
            None => true,
        }
    }

    /// Whether no counter overflows when an entry is met.
    pub open spec fn entry_fits(self, scan: ScanView, entry: WalkView) -> bool {
        let path = crate::util::without_unc_prefix(entry.path).at;
        match entry.kind {
            EntryKind::Dir { .. } => true,
            EntryKind::File { meta } => {
                &&& self.yield_fits(path, entry.depth)
                &&& is_alias(scan, meta) || self.file_fits(path, size_of_meta(meta))
            },
            EntryKind::Other => self.yield_fits(path, entry.depth),
        }
    }

    /// Whether no counter overflows when the thread hands over sizes and
    /// completion counts.
    pub open spec fn flush_fits(self, scan: ScanView) -> bool {
        &&& sizes_fit(scan.dir_sizes, self.dir_sizes)
        &&& crate::completion::counters_fit(scan.dir_completion, self.listed, self.yielded)
    }

    /// The thread after it handed over sizes and completion counts.
    pub open spec fn flushed(self) -> ThreadView {
        ThreadView {
            dir_sizes: Map::empty(),
            size_names: Map::empty(),
            yielded: Map::empty(),
            yielded_names: Map::empty(),
            listed: Seq::empty(),
            listed_names: Seq::empty(),
            ..self
        }
    }
}

impl ScanView {
    /// The scan with each of `dirs` recorded as completed, with its size in
    /// `sizes`.
    pub open spec fn with_completed_dirs(
        self,
        dirs: Seq<SpelledView>,
        sizes: Map<PathView, u64>,
    ) -> ScanView
        decreases dirs.len(),
    {
        if dirs.len() == 0 {
            self
        } else {
            self.with_completed_dirs(dirs.drop_last(), sizes).with_completed_dir(
                dirs.last(),
                crate::scan::size_in(sizes, dirs.last().at),
            )
        }
    }

    /// The scan with `dirs` marked as completed and recorded, each with the
    /// size that it has.
    pub open spec fn with_marked(self, dirs: Seq<SpelledView>) -> ScanView {
        (ScanView {
            completed: self.completed.union(crate::path::places(dirs).to_set()),
            ..self
        }).with_completed_dirs(dirs, self.dir_sizes)
    }

    /// Whether `after` is the scan once a thread handed over its sizes and
    /// completion counts and `done` completed with them, each as it was met.
    pub open spec fn takes_batch(
        self,
        thread: ThreadView,
        done: Seq<SpelledView>,
        after: ScanView,
    ) -> bool {
        let open = crate::completion::accounted(
            crate::completion::registered(self.dir_completion, thread.listed),
            thread.yielded,
        );
        &&& crate::completion::completes_exactly(
            open,
            thread.listed,
            thread.yielded,
            thread.root,
            crate::path::places(done),
        )
        &&& crate::completion::are_met(
            done,
            thread.listed_names,
            thread.yielded_names,
            thread.root,
        )
        &&& crate::path::are_spelled(done)
        &&& crate::completion::tally_after(
            open,
            thread.root,
            crate::path::places(done),
            after.dir_completion,
        )
        &&& after == (ScanView {
            dir_sizes: sizes_added(self.dir_sizes, thread.dir_sizes),
            size_names: thread.size_names.union_prefer_right(self.size_names),
            dir_completion: after.dir_completion,
            ..self
        }).with_marked(done)
        &&& crate::completion::is_settled(self.dir_completion) ==> crate::completion::is_settled(
            after.dir_completion,
        )
    }

    /// Whether `after` is the scan once a thread handed over its sizes and
    /// completion counts.
    pub open spec fn takes(self, thread: ThreadView, after: ScanView) -> bool {
        exists|done: Seq<SpelledView>| #[trigger] self.takes_batch(thread, done, after)
    }
}

/// Marks directories as completed and records each with the size that it has.
fn mark_completed(scan: &mut ScanState, dirs: &Vec<FsPath>)
    ensures
        final(scan)@ == old(scan)@.with_marked(crate::path::named_views(dirs@)),
{
    let ghost before = scan@;
    let ghost views = crate::path::path_views(dirs@);
    let mut sizes: Vec<u64> = Vec::new();
    let mut i: usize = 0;
    while i < dirs.len()
        invariant
            i <= dirs@.len(),
            scan@ == before,
            sizes@.len() == i,
            forall|k: int|
                0 <= k < i ==> #[trigger] sizes@[k] == crate::scan::size_in(
                    before.dir_sizes,
                    dirs@[k]@,
                ),
        decreases dirs@.len() - i,
    {
        let size: u64 = match scan.get_size(&dirs[i]) {
            Some(s) => s,
            None => 0,
        };
        sizes.push(size);
        i += 1;
    }
    let mut j: usize = 0;
    assert(views.take(0).to_set() =~= Set::<PathView>::empty());
    assert(before.completed.union(views.take(0).to_set()) =~= before.completed);
    while j < dirs.len()
        invariant
            j <= dirs@.len(),
            views == crate::path::path_views(dirs@),
            scan@ == (ScanView {
                completed: before.completed.union(views.take(j as int).to_set()),
                ..before
            }),
        decreases dirs@.len() - j,
    {
        let ghost now = scan@;
        scan.completed.insert(dirs[j].clone(), ());
        proof {
            let more = views.take(j + 1);
            assert(more =~= views.take(j as int).push(dirs@[j as int]@));
            assert forall|d: PathView| more.to_set().contains(d) == (views.take(
                j as int,
            ).to_set().contains(d) || d == dirs@[j as int]@) by {
                let less = views.take(j as int);
                if more.contains(d) {
                    let k = choose|k: int| 0 <= k < more.len() && more[k] == d;
                    if k < j {
                        assert(less[k] == d);
                    }
                }
                if less.contains(d) {
                    let k = choose|k: int| 0 <= k < less.len() && less[k] == d;
                    assert(more[k] == d);
                }
                assert(more[j as int] == dirs@[j as int]@);
            }
            assert(before.completed.union(more.to_set()) =~= now.completed.insert(
                dirs@[j as int]@,
            ));
            assert(scan@.completed =~= now.completed.insert(dirs@[j as int]@));
            assert(scan@ =~= (ScanView {
                completed: before.completed.union(more.to_set()),
                ..before
            }));
        }
        j += 1;
    }
    assert(views.take(views.len() as int) =~= views);
    let ghost marked = scan@;
    let ghost names = crate::path::named_views(dirs@);
    assert(crate::path::places(names) =~= views);
    let mut k: usize = 0;
    assert(names.take(0) =~= Seq::<SpelledView>::empty());
    while k < dirs.len()
        invariant
            k <= dirs@.len(),
            sizes@.len() == dirs@.len(),
            names == crate::path::named_views(dirs@),
            forall|m: int|
                0 <= m < dirs@.len() ==> #[trigger] sizes@[m] == crate::scan::size_in(
                    before.dir_sizes,
                    dirs@[m]@,
                ),
            scan@ == marked.with_completed_dirs(names.take(k as int), before.dir_sizes),
        decreases dirs@.len() - k,
    {
        assert(names.take(k + 1).drop_last() =~= names.take(k as int));
        assert(names.take(k + 1).last() == dirs@[k as int].named());
        scan.record_completed_dir(&dirs[k], sizes[k]);
        k += 1;
    }
    assert(names.take(names.len() as int) =~= names);
}

impl ThreadView {
    /// Whether taking in an entry, and handing over if it is time, leads to
    /// `after` and `after_scan`, with the answer whether all counters had room.
    pub open spec fn processes(
        self,
        scan: ScanView,
        entry: WalkView,
        after: ThreadView,
        after_scan: ScanView,
        room: bool,
    ) -> bool {
        let (thread, met) = self.taken(scan, entry);
        let due_room = thread.flush_fits(met) && crate::scan::stats_fit(
            met.ext_stats,
            thread.ext_stats,
        );
        if !self.entry_fits(scan, entry) {
            !room && after == self && after_scan == scan
        } else if !self.is_due(scan, entry) {
            room && after == thread && after_scan == met
        } else if !due_room {
            !room && after == thread && after_scan == met
        } else {
            &&& room
            &&& after == (ThreadView { ext_stats: Map::empty(), ..thread.flushed() })
            &&& met.takes_interval(thread, after_scan)
        }
    }
}

/// What a walker reports: an entry, or that one could not be read.
#[derive(Debug)]
pub enum Report {
    Entry(WalkEntry),
    Error,
}

/// What is to be done after a report: go on, log the error and go on, quit, or
/// give up because a counter has no room.
#[derive(Clone, Copy, Debug, PartialEq, Eq)]
pub enum Answer {
    Go,
    LogAndGo,
    Quit,
    NoRoom,
}

impl ThreadLocalState {
    /// A thread that has met nothing.
    pub fn new(root: FsPath) -> (r: ThreadLocalState)
        ensures
            r@ == ThreadView::fresh(root@),
    {
        let r = ThreadLocalState {
            root,
            local_dir_sizes: KeyMap::new(),
            local_ext_stats: KeyMap::new(),
            local_yielded: KeyMap::new(),
            pending_expected: Vec::new(),
            local_count: 0,
            local_deepest: (FsPath::empty(), 0),
            errors: 0,
        };
        assert(r@ =~= ThreadView::fresh(r.root@));
        r
    }

    /// Hands the gathered sizes over.
    pub fn flush_dir_sizes(&mut self, scan: &mut ScanState)
        requires
            sizes_fit(old(scan)@.dir_sizes, old(self)@.dir_sizes),
        ensures
            final(self)@ == (ThreadView {
                dir_sizes: Map::empty(),
                size_names: Map::empty(),
                ..old(self)@
            }),
            final(scan)@ == (ScanView {
                dir_sizes: sizes_added(old(scan)@.dir_sizes, old(self)@.dir_sizes),
                size_names: old(self)@.size_names.union_prefer_right(old(scan)@.size_names),
                ..old(scan)@
            }),
    {
        add_sizes(&mut scan.dir_sizes, &mut self.local_dir_sizes);
    }

    /// Hands the completion counts over, and marks and records the directories
    /// that are complete with them.
    pub fn flush_completions(&mut self, scan: &mut ScanState)
        requires
            crate::completion::counters_fit(
                old(scan)@.dir_completion,
                old(self)@.listed,
                old(self)@.yielded,
            ),
        ensures
            final(self)@ == (ThreadView {
                yielded: Map::empty(),
                yielded_names: Map::empty(),
                listed: Seq::empty(),
                listed_names: Seq::empty(),
                ..old(self)@
            }),
            old(scan)@.takes(
                ThreadView { dir_sizes: Map::empty(), size_names: Map::empty(), ..old(self)@ },
                final(scan)@,
            ),
    {
        let ghost thread = self@;
        let ghost before = scan@;
        let done = scan.process_completions(
            &mut self.local_yielded,
            &mut self.pending_expected,
            &self.root,
        );
        let ghost settled = scan@;
        mark_completed(scan, &done);
        proof {
            let dirs = crate::path::named_views(done@);
            assert(crate::path::places(dirs) =~= crate::path::path_views(done@));
            lemma_marking_keeps_the_rest(settled, dirs);
            assert(sizes_added(before.dir_sizes, Map::empty()) =~= before.dir_sizes);
            assert(Map::empty().union_prefer_right(before.size_names) =~= before.size_names);
            let alone = ThreadView { dir_sizes: Map::empty(), size_names: Map::empty(), ..thread };
            assert(before.takes_batch(alone, dirs, scan@));
            assert(crate::completion::listed_views(self.pending_expected@) =~= Seq::<
                (PathView, usize),
            >::empty());
            assert(crate::completion::listed_names(self.pending_expected@) =~= Seq::<
                SpelledView,
            >::empty());
        }
    }

    /// Whether [`ThreadLocalState::flush`] overflows no counter.
    pub fn flush_has_room(&self, scan: &ScanState) -> (r: bool)
        ensures
            r == self@.flush_fits(scan@),
    {
        sizes_have_room(&scan.dir_sizes, &self.local_dir_sizes) && scan.completions_fit(
            &self.local_yielded,
            &self.pending_expected,
        )
    }

    /// Hands over sizes, then completion counts.
    pub fn flush(&mut self, scan: &mut ScanState)
        requires
            old(self)@.flush_fits(old(scan)@),
        ensures
            final(self)@ == old(self)@.flushed(),
            old(scan)@.takes(old(self)@, final(scan)@),
    {
        let ghost thread = self@;
        let ghost before = scan@;
        self.flush_dir_sizes(scan);
        let ghost sized = scan@;
        self.flush_completions(scan);
        proof {
            let alone = ThreadView { dir_sizes: Map::empty(), size_names: Map::empty(), ..thread };
            let done = choose|done: Seq<SpelledView>| #[trigger]
                sized.takes_batch(alone, done, scan@);
            assert(sizes_added(sized.dir_sizes, Map::empty()) =~= sized.dir_sizes);
            assert(Map::empty().union_prefer_right(sized.size_names) =~= sized.size_names);
            assert(before.takes_batch(thread, done, scan@));
        }
    }

    /// Whether [`ThreadLocalState::take_entry`] overflows no counter.
    pub fn entry_has_room(&self, scan: &ScanState, entry: &WalkEntry) -> (r: bool)
        ensures
            r == self@.entry_fits(scan@, entry@),
    {
        let path = crate::util::strip_unc_prefix(entry.path.clone());
        match entry.kind {
            EntryKind::Dir { .. } => true,
            EntryKind::Other => self.yield_has_room(&path, entry.depth),
            EntryKind::File { meta } => {
                if !self.yield_has_room(&path, entry.depth) {
                    return false;
                }
                if scan.knows_inode(meta) {
                    return true;
                }
                let blocks: u64 = match meta {
                    Some(m) => m.blocks,
                    None => 0,
                };
                if blocks > u64::MAX / crate::util::BLOCK {
                    return false;
                }
                self.file_has_room(&path, crate::util::allocated_size(blocks))
            },
        }
    }

    fn yield_has_room(&self, path: &FsPath, depth: usize) -> (r: bool)
        ensures
            r == self@.yield_fits(path@, depth),
    {
        if depth == 0 {
            return true;
        }
        match path.parent() {
            None => true,
            Some(parent) => match self.local_yielded.get(&parent) {
                Some(n) => n < usize::MAX,
                None => true,
            },
        }
    }

    fn file_has_room(&self, path: &FsPath, len: u64) -> (r: bool)
        ensures
            r == self@.file_fits(path@, len as int),
    {
        if self.local_count == u64::MAX || !charge_has_room(
            &self.local_dir_sizes,
            path,
            &self.root,
            len,
        ) {
            return false;
        }
        match extension_key(path) {
            None => true,
            Some(ext) => {
                let so_far: (u64, u64) = match self.local_ext_stats.get(&ext) {
                    Some(s) => s,
                    None => (0, 0),
                };
                so_far.0 < u64::MAX && so_far.1 <= u64::MAX - len
            },
        }
    }

    fn note_yield(&mut self, path: &FsPath, depth: usize)
        requires
            old(self)@.yield_fits(path@, depth),
        ensures
            final(self)@ == old(self)@.with_yield(path.named(), depth),
    {
        if depth == 0 {
            return ;
        }
        match path.parent() {
            None => {},
            Some(parent) => {
                let so_far: usize = match self.local_yielded.get(&parent) {
                    Some(n) => n,
                    None => 0,
                };
                self.local_yielded.insert(parent, so_far + 1);
            },
        }
    }

    fn note_file(&mut self, path: &FsPath, len: u64)
        requires
            old(self)@.file_fits(path@, len as int),
        ensures
            final(self)@ == old(self)@.with_file(path.named(), len),
    {
        match extension_key(path) {
            None => {},
            Some(ext) => {
                let so_far: (u64, u64) = match self.local_ext_stats.get(&ext) {
                    Some(s) => s,
                    None => (0, 0),
                };
                self.local_ext_stats.insert(ext, (so_far.0 + 1, so_far.1 + len));
            },
        }
        charge(&mut self.local_dir_sizes, path, &self.root, len);
        self.local_count += 1;
    }

    /// Takes in an entry, and says whether it is time to hand over.
    pub fn take_entry(&mut self, scan: &mut ScanState, entry: &WalkEntry) -> (r: bool)
        requires
            old(self)@.entry_fits(old(scan)@, entry@),
        ensures
            (final(self)@, final(scan)@) == old(self)@.taken(old(scan)@, entry@),
            r == old(self)@.is_due(old(scan)@, entry@),
    {
        let ghost thread = self@;
        let ghost before = scan@;
        let path = crate::util::strip_unc_prefix(entry.path.clone());
        match entry.kind {
            EntryKind::Dir { expected } => {
                scan.record_dir(entry.depth);
                if entry.depth > self.local_deepest.1 {
                    self.local_deepest = (path.clone(), entry.depth);
                }
                let ghost listed = self.pending_expected@;
                self.pending_expected.push((path, expected));
                proof {
                    assert(crate::completion::listed_views(self.pending_expected@)
                        =~= crate::completion::listed_views(listed).push((path@, expected)));
                    assert(crate::completion::listed_names(self.pending_expected@)
                        =~= crate::completion::listed_names(listed).push(path.named()));
                    assert(self@ =~= thread.with_dir(path.named(), entry.depth, expected));
                }
                false
            },
            EntryKind::Other => {
                self.note_yield(&path, entry.depth);
                false
            },
            EntryKind::File { meta } => {
                self.note_yield(&path, entry.depth);
                let blocks: u64 = match meta {
                    Some(m) => m.blocks,
                    None => 0,
                };
                if let Some(m) = meta {
                    if !scan.record_inode(m.dev, m.ino) {
                        scan.aliased_files = scan.aliased_files.wrapping_add(1);
                        assert(scan@.seen_inodes =~= before.seen_inodes);
                        assert(scan@ =~= (ScanView {
                            aliased_files: before.aliased_files.wrapping_add(1),
                            ..before
                        }));
                        return false;
                    }
                }
                assert(scan@ == inode_recorded(before, meta));
                let len: u64 = crate::util::allocated_size(blocks);
                scan.total_bytes = scan.total_bytes.wrapping_add(len);
                scan.record_top_file(&path, len);
                self.note_file(&path, len);
                self.local_count % FLUSH_INTERVAL == 0
            },
        }
    }

    /// Hands over everything after [`FLUSH_INTERVAL`] more files.
    pub fn hand_over(&mut self, scan: &mut ScanState)
        requires
            old(self)@.flush_fits(old(scan)@),
            crate::scan::stats_fit(old(scan)@.ext_stats, old(self)@.ext_stats),
        ensures
            final(self)@ == (ThreadView { ext_stats: Map::empty(), ..old(self)@.flushed() }),
            old(scan)@.takes_interval(old(self)@, final(scan)@),
    {
        let ghost thread = self@;
        let ghost before = scan@;
        self.flush(scan);
        let ghost flushed = scan@;
        proof {
            lemma_taking_keeps_the_rest(before, thread, flushed);
        }
        scan.files_scanned = scan.files_scanned.wrapping_add(FLUSH_INTERVAL);
        scan.merge_ext_stats(&self.local_ext_stats);
        self.local_ext_stats.clear();
        scan.refresh_top_exts(TOP_EXTS);
        assert(before.takes(thread, flushed));
        assert(interval_counted(flushed, thread, scan@));
    }

    /// Takes in an entry, and hands over if it is time. The answer is whether
    /// all counters had room; where one had not, nothing is handed over.
    pub fn process_entry(&mut self, scan: &mut ScanState, entry: &WalkEntry) -> (r: bool)
        ensures
            old(self)@.processes(old(scan)@, entry@, final(self)@, final(scan)@, r),
    {
        if !self.entry_has_room(scan, entry) {
            return false;
        }
        if !self.take_entry(scan, entry) {
            return true;
        }
        if !self.flush_has_room(scan) || !crate::scan::stats_have_room(
            &scan.ext_stats,
            &self.local_ext_stats,
        ) {
            return false;
        }
        self.hand_over(scan);
        true
    }

    /// Hands over what is left when the thread ends. The answer is whether all
    /// counters had room; where one had not, nothing is handed over.
    pub fn finish(&mut self, scan: &mut ScanState) -> (r: bool)
        ensures
            r == (old(self)@.flush_fits(old(scan)@) && crate::scan::stats_fit(
                old(scan)@.ext_stats,
                old(self)@.ext_stats,
            )),
            !r ==> final(self)@ == old(self)@ && final(scan)@ == old(scan)@,
            r ==> final(self)@ == old(self)@.flushed() && old(scan)@.takes_rest(
                old(self)@,
                final(scan)@,
            ),
    {
        if !self.flush_has_room(scan) || !crate::scan::stats_have_room(
            &scan.ext_stats,
            &self.local_ext_stats,
        ) {
            return false;
        }
        let ghost thread = self@;
        let ghost before = scan@;
        self.flush(scan);
        let ghost flushed = scan@;
        proof {
            lemma_taking_keeps_the_rest(before, thread, flushed);
        }
        scan.files_scanned = scan.files_scanned.wrapping_add(self.local_count % FLUSH_INTERVAL);
        scan.merge_ext_stats(&self.local_ext_stats);
        if self.local_deepest.1 > 0 {
            scan.set_deepest_path(&self.local_deepest.0, self.local_deepest.1);
        }
        assert(before.takes(thread, flushed));
        assert(scan@ =~= rest_counted(flushed, thread));
        true
    }

    /// Notes an error of the walker; the answer is whether it is to be logged,
    /// which the first five of a thread are.
    pub fn note_error(&mut self) -> (r: bool)
        requires
            old(self)@.errors < u64::MAX,
        ensures
            r == (old(self)@.errors < 5),
            final(self)@ == (ThreadView { errors: (old(self)@.errors + 1) as u64, ..old(self)@ }),
    {
        let logged: bool = self.errors < 5;
        self.errors += 1;
        logged
    }
}

impl ThreadLocalState {
    /// Takes in what the walker reports, unless the scan is to stop.
    pub fn on_report(&mut self, scan: &mut ScanState, report: &Report) -> (r: Answer)
        ensures
            if old(scan)@.cancel {
                &&& r == Answer::Quit
                &&& final(self)@ == old(self)@
                &&& final(scan)@ == old(scan)@
            } else {
                match report {
                    Report::Entry(entry) => {
                        &&& r == Answer::Go || r == Answer::NoRoom
                        &&& old(self)@.processes(
                            old(scan)@,
                            entry@,
                            final(self)@,
                            final(scan)@,
                            r == Answer::Go,
                        )
                    },
                    Report::Error => {
                        &&& final(scan)@ == old(scan)@
                        &&& r == if old(self)@.errors == u64::MAX {
                            Answer::NoRoom
                        } else if old(self)@.errors < 5 {
                            Answer::LogAndGo
                        } else {
                            Answer::Go
                        }
                        &&& final(self)@ == (ThreadView {
                            errors: if old(self)@.errors == u64::MAX {
                                u64::MAX
                            } else {
                                (old(self)@.errors + 1) as u64
                            },
                            ..old(self)@
                        })
                    },
                }
            },
    {
        if scan.cancel {
            return Answer::Quit;
        }
        match report {
            Report::Entry(entry) => {
                if self.process_entry(scan, entry) {
                    Answer::Go
                } else {
                    Answer::NoRoom
                }
            },
            Report::Error => {
                if self.errors == u64::MAX {
                    Answer::NoRoom
                } else if self.note_error() {
                    Answer::LogAndGo
                } else {
                    Answer::Go
                }
            },
        }
    }
}

/// The name under which a path's extension is counted.
fn extension_key(path: &FsPath) -> (r: Option<String>)
    ensures
        match r {
            Some(ext) => ext_key(path@) == Some(ext@),
            None => ext_key(path@) is None,
        },
{
    match path.extension() {
        None => None,
        Some(ext) => {
            let text = lossy(&ext);
            Some(lowercase(text.as_str()))
        },
    }
}

impl ScanState {
    fn knows_inode(&self, meta: Option<FileMeta>) -> (r: bool)
        ensures
            r == is_alias(self@, meta),
    {
        match meta {
            None => false,
            Some(m) => self.seen_inodes.contains(m.dev, m.ino),
        }
    }

    /// Begins a scan: it is running, from `now` on, and not to stop.
    pub fn begin_scan(&mut self, now: std::time::Instant)
        ensures
            final(self)@ == (ScanView {
                cancel: false,
                scan_start: Some(now),
                scanning: true,
                ..old(self)@
            }),
    {
        self.cancel = false;
        self.scan_start = Some(now);
        self.scanning = true;
    }

    /// Ends a scan: every directory that has a size is marked and recorded as
    /// completed, and the scan is no longer running. Where it was told to stop,
    /// what is not complete stays so: nothing is marked.
    pub fn end_scan(&mut self)
        ensures
            old(self)@.ends_as(final(self)@),
            final(self)@ == (ScanView {
                completed: old(self)@.completed.union(old(self)@.marked_at_end()),
                top_dirs: final(self)@.top_dirs,
                top_dirs_min: final(self)@.top_dirs_min,
                top_exts: final(self)@.top_exts,
                scanning: false,
                ..old(self)@
            }),
            old(self)@.cancel ==> final(self)@.completed == old(self)@.completed
                && final(self)@.top_dirs == old(self)@.top_dirs && final(self)@.top_dirs_min
                == old(self)@.top_dirs_min,
    {
        let ghost before = self@;
        let mut dirs: Vec<FsPath> = Vec::new();
        let rows = if self.cancel {
            Vec::new()
        } else {
            self.dir_sizes.entries()
        };
        let mut i: usize = 0;
        while i < rows.len()
            invariant
                i <= rows@.len(),
                dirs@.len() == i,
                forall|k: int| 0 <= k < i ==> (#[trigger] dirs@[k])@ == rows@[k].0@,
                forall|k: int|
                    0 <= k < i ==> (#[trigger] dirs@[k]).named() == rows@[k].0.named()
                        && dirs@[k].named() == crate::path::spelled(dirs@[k].spelling()),
            decreases rows@.len() - i,
        {
            dirs.push(rows[i].0.clone());
            i += 1;
        }
        mark_completed(self, &dirs);
        let ghost marked = self@;
        self.refresh_top_exts(TOP_EXTS);
        self.scanning = false;
        proof {
            let names = crate::path::named_views(dirs@);
            let views = crate::path::path_views(dirs@);
            assert(crate::path::places(names) =~= views);
            lemma_marking_keeps_the_rest(before, names);
            assert forall|i: int, j: int| 0 <= i < j < views.len() implies #[trigger] views[i]
                != #[trigger] views[j] by {
                assert(rows@[i].0@ != rows@[j].0@);
            }
            assert(views.no_duplicates());
            assert(views.to_set() =~= before.marked_at_end()) by {
                assert forall|d: PathView| views.to_set().contains(d)
                    == before.marked_at_end().contains(d) by {
                    if views.contains(d) {
                        let k = choose|k: int| 0 <= k < views.len() && views[k] == d;
                        assert(before.dir_sizes.contains_key(rows@[k].0@));
                    }
                    if before.marked_at_end().contains(d) {
                        let k = choose|k: int| 0 <= k < rows@.len() && (#[trigger] rows@[k]).0@
                            == d;
                        assert(views[k] == d);
                    }
                }
            }
            assert forall|i: int| 0 <= i < names.len() implies #[trigger] names[i]
                == before.size_names[names[i].at] by {
                assert(rows@[i].0@ == names[i].at);
            }
            assert(before.ends_with_marks(names, self@));
            assert(before.completed.union(Set::empty()) =~= before.completed);
        }
    }
}

impl ScanView {
    /// Whether `after` is the scan once a thread handed over everything after
    /// [`FLUSH_INTERVAL`] more files.
    pub open spec fn takes_interval(self, thread: ThreadView, after: ScanView) -> bool {
        exists|flushed: ScanView| #[trigger]
            self.takes(thread, flushed) && interval_counted(flushed, thread, after)
    }

    /// Whether `after` is the scan once a thread handed over what was left.
    pub open spec fn takes_rest(self, thread: ThreadView, after: ScanView) -> bool {
        exists|flushed: ScanView| #[trigger]
            self.takes(thread, flushed) && after == rest_counted(flushed, thread)
    }

    /// The directories that the end of the scan marks as completed: those that
    /// have a size, unless the scan was told to stop.
    pub open spec fn marked_at_end(self) -> Set<PathView> {
        if self.cancel {
            Set::empty()
        } else {
            self.dir_sizes.dom()
        }
    }

    /// Whether `after` is the scan ended with `dirs` marked as completed, each as
    /// it is named where its size is kept.
    pub open spec fn ends_with_marks(self, dirs: Seq<SpelledView>, after: ScanView) -> bool {
        &&& crate::path::places(dirs).no_duplicates()
        &&& crate::path::places(dirs).to_set() == self.marked_at_end()
        &&& forall|i: int|
            0 <= i < dirs.len() ==> #[trigger] dirs[i] == self.size_names[dirs[i].at]
        &&& crate::path::are_spelled(dirs)
        &&& after == (ScanView {
            top_exts: after.top_exts,
            scanning: false,
            ..self.with_marked(dirs)
        })
        &&& crate::scan::are_top_exts(after.top_exts, self.ext_stats, TOP_EXTS as nat)
    }

    /// Whether `after` is the scan ended: every directory that has a size is
    /// marked as completed and recorded, in some order, unless the scan was
    /// told to stop.
    pub open spec fn ends_as(self, after: ScanView) -> bool {
        exists|dirs: Seq<SpelledView>| #[trigger] self.ends_with_marks(dirs, after)
    }
}

/// Whether `after` is the scan with one interval's files and the thread's
/// statistics counted and the top extensions refreshed.
pub open spec fn interval_counted(scan: ScanView, thread: ThreadView, after: ScanView) -> bool {
    let stats = crate::scan::stats_merged(scan.ext_stats, thread.ext_stats);
    &&& after == (ScanView {
        files_scanned: scan.files_scanned.wrapping_add(FLUSH_INTERVAL),
        ext_stats: stats,
        top_exts: after.top_exts,
        ..scan
    })
    &&& crate::scan::are_top_exts(after.top_exts, stats, TOP_EXTS as nat)
}

/// The scan with the files since a thread's last interval, its statistics and
/// its deepest directory counted.
pub open spec fn rest_counted(scan: ScanView, thread: ThreadView) -> ScanView {
    (ScanView {
        files_scanned: scan.files_scanned.wrapping_add((thread.count % FLUSH_INTERVAL) as u64),
        ext_stats: crate::scan::stats_merged(scan.ext_stats, thread.ext_stats),
        ..scan
    }).with_deepest(thread.deepest.0, thread.deepest.1)
}

proof fn lemma_recording_keeps_the_rest(
    scan: ScanView,
    dirs: Seq<SpelledView>,
    sizes: Map<PathView, u64>,
)
    ensures
        ({
            let after = scan.with_completed_dirs(dirs, sizes);
            after == (ScanView {
                top_dirs: after.top_dirs,
                top_dirs_min: after.top_dirs_min,
                ..scan
            })
        }),
    decreases dirs.len(),
{
    if dirs.len() > 0 {
        lemma_recording_keeps_the_rest(scan, dirs.drop_last(), sizes);
    }
}

/// Marking directories as completed changes the set of those, the list of the
/// largest directories, and nothing else.
pub proof fn lemma_marking_keeps_the_rest(scan: ScanView, dirs: Seq<SpelledView>)
    ensures
        scan.with_marked(dirs) == (ScanView {
            completed: scan.completed.union(crate::path::places(dirs).to_set()),
            top_dirs: scan.with_marked(dirs).top_dirs,
            top_dirs_min: scan.with_marked(dirs).top_dirs_min,
            ..scan
        }),
{
    lemma_recording_keeps_the_rest(
        ScanView {
            completed: scan.completed.union(crate::path::places(dirs).to_set()),
            ..scan
        },
        dirs,
        scan.dir_sizes,
    );
}

/// Handing over sizes and completion counts changes sizes, completion and the
/// list of the largest directories, and nothing else.
pub proof fn lemma_taking_keeps_the_rest(scan: ScanView, thread: ThreadView, after: ScanView)
    requires
        scan.takes(thread, after),
    ensures
        after == (ScanView {
            dir_sizes: sizes_added(scan.dir_sizes, thread.dir_sizes),
            size_names: thread.size_names.union_prefer_right(scan.size_names),
            dir_completion: after.dir_completion,
            completed: after.completed,
            top_dirs: after.top_dirs,
            top_dirs_min: after.top_dirs_min,
            ..scan
        }),
{
    let done = choose|done: Seq<SpelledView>| #[trigger] scan.takes_batch(thread, done, after);
    lemma_marking_keeps_the_rest(
        ScanView {
            dir_sizes: sizes_added(scan.dir_sizes, thread.dir_sizes),
            size_names: thread.size_names.union_prefer_right(scan.size_names),
            dir_completion: after.dir_completion,
            ..scan
        },
        done,
    );
}

/// Wraps `num_cpus::get`, which tells how many processors the program may use.
/// The number is that of the machine; it is at least one.
#[verifier::external_body]
fn cpu_count() -> (r: usize)
    ensures
        r >= 1,
{
    num_cpus::get()
}

/// How many threads walk on a machine with `cpus` processors: as many, and no
/// fewer than two.
pub fn threads_for(cpus: usize) -> (r: usize)
    ensures
        r == if cpus < 2 {
            2
        } else {
            cpus
        },
{
    if cpus < 2 {
        2
    } else {
        cpus
    }
}

/// How many threads walk on this machine.
pub fn walker_threads() -> (r: usize)
    ensures
        r >= 2,
{
    threads_for(cpu_count())
}

/// A file whose inode was counted before adds nothing: no size, no statistics,
/// no place among the largest. It only counts as an entry of its directory.
pub proof fn law_alias_adds_nothing(
    thread: ThreadView,
    scan: ScanView,
    path: SpelledView,
    depth: usize,
    meta: FileMeta,
)
    requires
        is_alias(scan, Some(meta)),
    ensures
        ({
            let (met, after) = thread.taken_at(
                scan,
                path,
                depth,
                EntryKind::File { meta: Some(meta) },
            );
            &&& met == thread.with_yield(path, depth)
            &&& met.dir_sizes == thread.dir_sizes && met.ext_stats == thread.ext_stats && met.count
                == thread.count
            &&& after == (ScanView {
                aliased_files: scan.aliased_files.wrapping_add(1),
                ..scan
            })
        }),
{
}

/// An inode is counted once: after any file with it was met, every file with
/// it is an alias, whatever else is met in between.
pub proof fn law_inode_is_counted_once(
    thread: ThreadView,
    scan: ScanView,
    path: SpelledView,
    depth: usize,
    kind: EntryKind,
    meta: FileMeta,
)
    ensures
        ({
            let after = thread.taken_at(scan, path, depth, kind).1;
            &&& kind == (EntryKind::File { meta: Some(meta) }) ==> is_alias(after, Some(meta))
            &&& is_alias(scan, Some(meta)) ==> is_alias(after, Some(meta))
        }),
{
}

/// Handing over leaves the counted inodes, the bytes and the largest files as
/// they are.
pub proof fn law_handing_over_keeps_inodes(scan: ScanView, thread: ThreadView, after: ScanView)
    requires
        scan.takes_interval(thread, after) || scan.takes_rest(thread, after),
    ensures
        after.seen_inodes == scan.seen_inodes,
        after.aliased_files == scan.aliased_files,
        after.total_bytes == scan.total_bytes,
        after.top_files == scan.top_files,
        after.dirs_scanned == scan.dirs_scanned,
{
    let flushed = if scan.takes_interval(thread, after) {
        choose|flushed: ScanView| #[trigger]
            scan.takes(thread, flushed) && interval_counted(flushed, thread, after)
    } else {
        choose|flushed: ScanView| #[trigger]
            scan.takes(thread, flushed) && after == rest_counted(flushed, thread)
    };
    lemma_taking_keeps_the_rest(scan, thread, flushed);
}

} // verus!
