//! The state that a running scan fills and a frontend reads.
use std::collections::HashSet;
use vstd::prelude::*;

use crate::keymap::KeyMap;
use crate::order::Rank;
use crate::order::RankView;
use crate::path::FsPath;
use crate::path::PathView;
use crate::path::SpelledView;
use crate::top::SizedEntry;
use crate::top::SizedView;

verus! {

broadcast use vstd::std_specs::hash::group_hash_axioms;

/// Declares `std::time::Instant`. It is carried, never read.
#[verifier::external_type_specification]
#[verifier::external_body]
pub struct ExInstant(std::time::Instant);

/// Per-extension statistics.
#[verifier::ext_equal]
pub struct ExtensionView {
    pub extension: Seq<char>,
    pub count: u64,
    pub total_size: u64,
}

/// Per-extension statistics.
#[derive(Debug)]
pub struct ExtensionStat {
    pub extension: String,
    pub count: u64,
    pub total_size: u64,
}

impl View for ExtensionStat {
    type V = ExtensionView;

    open spec fn view(&self) -> ExtensionView {
        ExtensionView {
            extension: self.extension@,
            count: self.count,
            total_size: self.total_size,
        }
    }
}

impl Clone for ExtensionStat {
    fn clone(&self) -> (r: ExtensionStat)
        ensures
            r@ == self@,
    {
        ExtensionStat {
            extension: self.extension.clone(),
            count: self.count,
            total_size: self.total_size,
        }
    }
}

/// The views of a list of statistics.
pub open spec fn extension_views(list: Seq<ExtensionStat>) -> Seq<ExtensionView> {
    Seq::new(list.len(), |i: int| list[i]@)
}

/// The number that stands for an inode of a device.
pub open spec fn inode_key(dev: u64, ino: u64) -> u128 {
    (dev * 0x1_0000_0000_0000_0000 + ino) as u128
}

proof fn lemma_inode_key_is_one_to_one(dev: u64, ino: u64, other_dev: u64, other_ino: u64)
    ensures
        inode_key(dev, ino) == inode_key(other_dev, other_ino) ==> dev == other_dev && ino
            == other_ino,
{
}

/// A set of inodes, each named by its device and number.
pub struct InodeSet {
    keys: HashSet<u128>,
}

impl View for InodeSet {
    type V = Set<(u64, u64)>;

    closed spec fn view(&self) -> Set<(u64, u64)> {
        Set::new(|pair: (u64, u64)| self.keys@.contains(inode_key(pair.0, pair.1)))
    }
}

impl InodeSet {
    /// The empty set.
    pub fn new() -> (r: InodeSet)
        ensures
            r@ == Set::<(u64, u64)>::empty(),
    {
        let r = InodeSet { keys: HashSet::new() };
        assert(r@ =~= Set::<(u64, u64)>::empty());
        r
    }

    /// Puts an inode in; the answer is whether it was not there.
    pub fn insert(&mut self, dev: u64, ino: u64) -> (r: bool)
        ensures
            r == !old(self)@.contains((dev, ino)),
            final(self)@ == old(self)@.insert((dev, ino)),
    {
        let key: u128 = dev as u128 * 0x1_0000_0000_0000_0000 + ino as u128;
        assert(key == inode_key(dev, ino));
        let ghost before = self@;
        let fresh = self.keys.insert(key);
        proof {
            assert forall|pair: (u64, u64)| self@.contains(pair) == before.insert(
                (dev, ino),
            ).contains(pair) by {
                lemma_inode_key_is_one_to_one(pair.0, pair.1, dev, ino);
            }
            assert(self@ =~= before.insert((dev, ino)));
        }
        fresh
    }

    /// Whether an inode is there.
    pub fn contains(&self, dev: u64, ino: u64) -> (r: bool)
        ensures
            r == self@.contains((dev, ino)),
    {
        let key: u128 = dev as u128 * 0x1_0000_0000_0000_0000 + ino as u128;
        self.keys.contains(&key)
    }

    /// Takes everything out.
    pub fn clear(&mut self)
        ensures
            final(self)@ == Set::<(u64, u64)>::empty(),
    {
        self.keys.clear();
        assert(self@ =~= Set::<(u64, u64)>::empty());
    }
}

/// What a scan has found.
#[verifier::ext_equal]
pub struct ScanView {
    pub dir_sizes: Map<PathView, u64>,
    /// The names of the directories in `dir_sizes`.
    pub size_names: Map<PathView, SpelledView>,
    pub completed: Set<PathView>,
    pub scanning: bool,
    pub files_scanned: u64,
    pub cancel: bool,
    pub top_files: Seq<SizedView>,
    pub top_files_min: u64,
    pub top_dirs: Seq<SizedView>,
    pub top_dirs_min: u64,
    pub ext_stats: Map<Seq<char>, (u64, u64)>,
    pub top_exts: Seq<ExtensionView>,
    pub total_bytes: u64,
    pub dirs_scanned: u64,
    pub deepest_depth: usize,
    pub deepest_path: (SpelledView, usize),
    pub scan_start: Option<std::time::Instant>,
    pub dir_completion: Map<PathView, (usize, usize)>,
    pub seen_inodes: Set<(u64, u64)>,
    pub aliased_files: u64,
}

/// State between the scanner and the UI.
pub struct ScanState {
    /// Accumulated size per directory (updated live during scan).
    pub dir_sizes: KeyMap<FsPath, u64>,
    /// Directories whose subtrees have been fully walked.
    pub completed: KeyMap<FsPath, ()>,
    /// Whether the scan is currently running.
    pub scanning: bool,
    /// Total files processed so far.
    pub files_scanned: u64,
    /// Set to true to request the scanner to stop.
    pub cancel: bool,
    /// The biggest files found during scan.
    pub top_files: Vec<SizedEntry>,
    /// The size that a file must exceed to be considered.
    pub top_files_min: u64,
    /// The biggest directories among those completed.
    pub top_dirs: Vec<SizedEntry>,
    /// The size that a directory must exceed to be considered.
    pub top_dirs_min: u64,
    /// Extension to number of files and their total size.
    pub ext_stats: KeyMap<String, (u64, u64)>,
    /// The top extensions as of the last refresh.
    pub top_exts_cache: Vec<ExtensionStat>,
    /// Total size of all files scanned.
    pub total_bytes: u64,
    /// Total directory count.
    pub dirs_scanned: u64,
    /// Deepest depth encountered.
    pub deepest_depth: usize,
    /// Deepest path encountered, with its depth.
    pub deepest_path: (FsPath, usize),
    /// When the current scan started.
    pub scan_start: Option<std::time::Instant>,
    /// Per directory: entries accounted for, and entries expected or
    /// `usize::MAX` if unknown.
    pub dir_completion: KeyMap<FsPath, (usize, usize)>,
    /// Device and inode of every counted file, to count hard links and
    /// doubly-reached files once.
    pub seen_inodes: InodeSet,
    /// Files skipped because their inode was already counted.
    pub aliased_files: u64,
}

impl View for ScanState {
    type V = ScanView;

    open spec fn view(&self) -> ScanView {
        ScanView {
            dir_sizes: self.dir_sizes@,
            size_names: self.dir_sizes.names(),
            completed: self.completed@.dom(),
            scanning: self.scanning,
            files_scanned: self.files_scanned,
            cancel: self.cancel,
            top_files: crate::top::sized_views(self.top_files@),
            top_files_min: self.top_files_min,
            top_dirs: crate::top::sized_views(self.top_dirs@),
            top_dirs_min: self.top_dirs_min,
            ext_stats: self.ext_stats@,
            top_exts: extension_views(self.top_exts_cache@),
            total_bytes: self.total_bytes,
            dirs_scanned: self.dirs_scanned,
            deepest_depth: self.deepest_depth,
            deepest_path: (self.deepest_path.0.named(), self.deepest_path.1),
            scan_start: self.scan_start,
            dir_completion: self.dir_completion@,
            seen_inodes: self.seen_inodes@,
            aliased_files: self.aliased_files,
        }
    }
}

/// The empty relative path.
pub open spec fn no_path() -> SpelledView {
    crate::path::spelled(Seq::empty())
}

/// Names with that of a path, unless the path has one already.
pub open spec fn name_kept(
    names: Map<PathView, SpelledView>,
    path: SpelledView,
) -> Map<PathView, SpelledView> {
    if names.contains_key(path.at) {
        names
    } else {
        names.insert(path.at, path)
    }
}

/// The size recorded for a directory, 0 if there is none.
pub open spec fn size_in(sizes: Map<PathView, u64>, dir: PathView) -> u64 {
    if sizes.contains_key(dir) {
        sizes[dir]
    } else {
        0
    }
}

/// The number of files and total size recorded for an extension.
pub open spec fn stat_in(stats: Map<Seq<char>, (u64, u64)>, ext: Seq<char>) -> (u64, u64) {
    if stats.contains_key(ext) {
        stats[ext]
    } else {
        (0, 0)
    }
}

/// Whether two sets of statistics can be added without overflow.
pub open spec fn stats_fit(
    stats: Map<Seq<char>, (u64, u64)>,
    more: Map<Seq<char>, (u64, u64)>,
) -> bool {
    forall|ext: Seq<char>| #[trigger]
        more.contains_key(ext) ==> stat_in(stats, ext).0 + more[ext].0 <= u64::MAX && stat_in(
            stats,
            ext,
        ).1 + more[ext].1 <= u64::MAX
}

/// Statistics added up per extension.
pub open spec fn stats_merged(
    stats: Map<Seq<char>, (u64, u64)>,
    more: Map<Seq<char>, (u64, u64)>,
) -> Map<Seq<char>, (u64, u64)> {
    Map::new(
        |ext: Seq<char>| stats.contains_key(ext) || more.contains_key(ext),
        |ext: Seq<char>|
            (
                (stat_in(stats, ext).0 + stat_in(more, ext).0) as u64,
                (stat_in(stats, ext).1 + stat_in(more, ext).1) as u64,
            ),
    )
}

/// Whether `rows` are the `n` extensions of the largest total size, the larger
/// first. Which of two with the same total comes first, or is left out, is open.
pub open spec fn are_top_exts(
    rows: Seq<ExtensionView>,
    stats: Map<Seq<char>, (u64, u64)>,
    n: nat,
) -> bool {
    &&& rows.len() == if stats.dom().len() <= n {
        stats.dom().len()
    } else {
        n
    }
    &&& forall|i: int|
        0 <= i < rows.len() ==> {
            let row = #[trigger] rows[i];
            stats.contains_key(row.extension) && stats[row.extension] == (
                row.count,
                row.total_size,
            )
        }
    &&& forall|i: int, j: int|
        0 <= i < j < rows.len() ==> (#[trigger] rows[i]).extension != (
        #[trigger] rows[j]).extension && rows[i].total_size >= rows[j].total_size
    &&& forall|ext: Seq<char>, i: int|
        #![trigger stats.contains_key(ext), rows[i]]
        stats.contains_key(ext) && 0 <= i < rows.len() && (forall|j: int|
            0 <= j < rows.len() ==> (#[trigger] rows[j]).extension != ext) ==> stats[ext].1
            <= rows[i].total_size
}

impl ScanView {
    /// A scan that has found nothing.
    pub open spec fn fresh() -> ScanView {
        ScanView {
            dir_sizes: Map::empty(),
            size_names: Map::empty(),
            completed: Set::empty(),
            scanning: false,
            files_scanned: 0,
            cancel: false,
            top_files: Seq::empty(),
            top_files_min: 0,
            top_dirs: Seq::empty(),
            top_dirs_min: 0,
            ext_stats: Map::empty(),
            top_exts: Seq::empty(),
            total_bytes: 0,
            dirs_scanned: 0,
            deepest_depth: 0,
            deepest_path: (no_path(), 0),
            scan_start: None,
            dir_completion: Map::empty(),
            seen_inodes: Set::empty(),
            aliased_files: 0,
        }
    }

    /// The scan with a file considered for the list of the largest.
    pub open spec fn with_top_file(self, path: SpelledView, size: u64) -> ScanView {
        let list = self.top_files;
        if size <= self.top_files_min || !(list.len() < crate::top::TOP_N || size
            > crate::top::last_size(list)) {
            self
        } else {
            let entered = crate::top::file_entered(list, SizedView { path, size });
            ScanView {
                top_files: entered,
                top_files_min: crate::top::entry_floor(entered),
                ..self
            }
        }
    }

    /// The scan with a completed directory considered for the list of the
    /// largest.
    pub open spec fn with_completed_dir(self, path: SpelledView, size: u64) -> ScanView {
        if size <= self.top_dirs_min {
            self
        } else {
            let entered = crate::top::dir_entered(self.top_dirs, SizedView { path, size });
            ScanView {
                top_dirs: entered,
                top_dirs_min: crate::top::entry_floor(entered),
                ..self
            }
        }
    }

    /// The scan with one more directory, at `depth`.
    pub open spec fn with_dir(self, depth: usize) -> ScanView {
        ScanView {
            dirs_scanned: self.dirs_scanned.wrapping_add(1),
            deepest_depth: if depth <= self.deepest_depth {
                self.deepest_depth
            } else {
                depth
            },
            ..self
        }
    }

    /// The scan with a path considered for the deepest.
    pub open spec fn with_deepest(self, path: SpelledView, depth: usize) -> ScanView {
        if depth > self.deepest_path.1 {
            ScanView { deepest_path: (path, depth), ..self }
        } else {
            self
        }
    }

    /// Whether the sizes to exceed are those of the full lists' last entries.
    pub open spec fn floors_hold(self) -> bool {
        &&& self.top_files_min == crate::top::entry_floor(self.top_files)
        &&& self.top_dirs_min == crate::top::entry_floor(self.top_dirs)
    }
}

impl ScanState {
    /// A scan that has found nothing.
    pub fn new() -> (r: ScanState)
        ensures
            r@ == ScanView::fresh(),
    {
        let r = ScanState {
            dir_sizes: KeyMap::new(),
            completed: KeyMap::new(),
            scanning: false,
            files_scanned: 0,
            cancel: false,
            top_files: Vec::new(),
            top_files_min: 0,
            top_dirs: Vec::new(),
            top_dirs_min: 0,
            ext_stats: KeyMap::new(),
            top_exts_cache: Vec::new(),
            total_bytes: 0,
            dirs_scanned: 0,
            deepest_depth: 0,
            deepest_path: (FsPath::empty(), 0),
            scan_start: None,
            dir_completion: KeyMap::new(),
            seen_inodes: InodeSet::new(),
            aliased_files: 0,
        };
        assert(r@ =~= ScanView::fresh());
        r
    }

    /// Records an inode; true if it is new and its file is to be counted.
    pub fn record_inode(&mut self, dev: u64, ino: u64) -> (r: bool)
        ensures
            r == !old(self)@.seen_inodes.contains((dev, ino)),
            final(self)@ == (ScanView {
                seen_inodes: old(self)@.seen_inodes.insert((dev, ino)),
                ..old(self)@
            }),
    {
        self.seen_inodes.insert(dev, ino)
    }

    /// The size accumulated for a directory.
    pub fn get_size(&self, path: &FsPath) -> (r: Option<u64>)
        ensures
            match r {
                Some(size) => self@.dir_sizes.contains_key(path@) && self@.dir_sizes[path@]
                    == size,
                None => !self@.dir_sizes.contains_key(path@),
            },
    {
        self.dir_sizes.get(path)
    }

    /// Whether a directory's subtree has been fully walked.
    pub fn is_completed(&self, path: &FsPath) -> (r: bool)
        ensures
            r == self@.completed.contains(path@),
    {
        self.completed.contains(path)
    }

    /// Whether the scan is running.
    pub fn is_scanning(&self) -> (r: bool)
        ensures
            r == self@.scanning,
    {
        self.scanning
    }

    /// How many files were counted.
    pub fn files_scanned(&self) -> (r: u64)
        ensures
            r == self@.files_scanned,
    {
        self.files_scanned
    }

    /// Considers a file for the list of the largest.
    pub fn record_top_file(&mut self, path: &FsPath, size: u64)
        ensures
            final(self)@ == old(self)@.with_top_file(path.named(), size),
    {
        if size <= self.top_files_min {
            return ;
        }
        let ghost before = self@;
        let mut list: Vec<SizedEntry> = Vec::new();
        std::mem::swap(&mut list, &mut self.top_files);
        let (entered, rebuilt) = crate::top::enter_file(list, path, size);
        self.top_files = entered;
        if rebuilt {
            self.top_files_min = crate::top::floor_of(&self.top_files);
        }
        assert(self@ =~= before.with_top_file(path.named(), size));
    }

    /// Counts a directory at `depth`.
    pub fn record_dir(&mut self, depth: usize)
        ensures
            final(self)@ == old(self)@.with_dir(depth),
    {
        self.dirs_scanned = self.dirs_scanned.wrapping_add(1);
        if depth > self.deepest_depth {
            self.deepest_depth = depth;
        }
    }

    /// Considers a path for the deepest.
    pub fn set_deepest_path(&mut self, path: &FsPath, depth: usize)
        ensures
            final(self)@ == old(self)@.with_deepest(path.named(), depth),
    {
        if depth > self.deepest_path.1 {
            self.deepest_path = (path.clone(), depth);
        }
    }

    /// Considers a completed directory with its final size for the list of the
    /// largest.
    pub fn record_completed_dir(&mut self, path: &FsPath, size: u64)
        ensures
            final(self)@ == old(self)@.with_completed_dir(path.named(), size),
    {
        if size <= self.top_dirs_min {
            return ;
        }
        let ghost before = self@;
        let mut list: Vec<SizedEntry> = Vec::new();
        std::mem::swap(&mut list, &mut self.top_dirs);
        self.top_dirs = crate::top::enter_dir(list, path, size);
        self.top_dirs_min = crate::top::floor_of(&self.top_dirs);
        assert(self@ =~= before.with_completed_dir(path.named(), size));
    }

    /// Adds extension statistics to those of the scan.
    pub fn merge_ext_stats(&mut self, local: &KeyMap<String, (u64, u64)>)
        requires
            stats_fit(old(self)@.ext_stats, local@),
        ensures
            final(self)@ == (ScanView {
                ext_stats: stats_merged(old(self)@.ext_stats, local@),
                ..old(self)@
            }),
    {
        let ghost before = self@;
        merge_stats(&mut self.ext_stats, local);
        assert(self@ =~= (ScanView {
            ext_stats: stats_merged(before.ext_stats, local@),
            ..before
        }));
    }

    /// Rebuilds the list of the `n` extensions of the largest total size.
    pub fn refresh_top_exts(&mut self, n: usize)
        ensures
            final(self)@ == (ScanView { top_exts: final(self)@.top_exts, ..old(self)@ }),
            are_top_exts(final(self)@.top_exts, old(self)@.ext_stats, n as nat),
    {
        self.top_exts_cache = top_exts(&self.ext_stats, n);
    }

    /// Forgets all that was found. Whether the scan is running, and whether it
    /// is to stop, stays as it is.
    pub fn clear(&mut self)
        ensures
            final(self)@ == (ScanView {
                scanning: old(self)@.scanning,
                cancel: old(self)@.cancel,
                ..ScanView::fresh()
            }),
    {
        let ghost before = self@;
        self.dir_sizes.clear();
        self.completed.clear();
        self.files_scanned = 0;
        self.top_files.clear();
        self.top_files_min = 0;
        self.top_dirs.clear();
        self.top_dirs_min = 0;
        self.ext_stats.clear();
        self.top_exts_cache = Vec::new();
        self.total_bytes = 0;
        self.dirs_scanned = 0;
        self.deepest_depth = 0;
        self.deepest_path = (FsPath::empty(), 0);
        self.scan_start = None;
        self.dir_completion.clear();
        self.seen_inodes.clear();
        self.aliased_files = 0;
        assert(self@ =~= (ScanView {
            scanning: before.scanning,
            cancel: before.cancel,
            ..ScanView::fresh()
        }));
    }

    /// Whether a batch can be applied by [`ScanState::process_completions`]
    /// without a counter overflowing.
    pub fn completions_fit(
        &self,
        yielded: &KeyMap<FsPath, usize>,
        pending_expected: &Vec<(FsPath, usize)>,
    ) -> (r: bool)
        ensures
            r == crate::completion::counters_fit(
                self@.dir_completion,
                crate::completion::listed_views(pending_expected@),
                yielded@,
            ),
    {
        crate::completion::counters_have_room(&self.dir_completion, yielded, pending_expected)
    }

    /// Applies a batch of numbers of entries, expected and met, and returns the
    /// directories that are complete with it.
    ///
    /// A directory is complete when every file or link in it has been met and
    /// every subdirectory in it is itself complete. The batch is emptied. Each
    /// directory stands as it was met: in the list, among the keys of `yielded`,
    /// or as the parent of one before it.
    pub fn process_completions(
        &mut self,
        yielded: &mut KeyMap<FsPath, usize>,
        pending_expected: &mut Vec<(FsPath, usize)>,
        root: &FsPath,
    ) -> (r: Vec<FsPath>)
        requires
            crate::completion::counters_fit(
                old(self)@.dir_completion,
                crate::completion::listed_views(old(pending_expected)@),
                old(yielded)@,
            ),
        ensures
            ({
                let listed = crate::completion::listed_views(old(pending_expected)@);
                let batch = old(yielded)@;
                let open = crate::completion::accounted(
                    crate::completion::registered(old(self)@.dir_completion, listed),
                    batch,
                );
                let done = crate::path::path_views(r@);
                &&& crate::completion::completes_exactly(open, listed, batch, root@, done)
                &&& crate::completion::tally_after(
                    open,
                    root@,
                    done,
                    final(self)@.dir_completion,
                )
            }),
            crate::completion::are_met(
                crate::path::named_views(r@),
                crate::completion::listed_names(old(pending_expected)@),
                old(yielded).names(),
                root@,
            ),
            crate::path::are_spelled(crate::path::named_views(r@)),
            crate::completion::is_settled(old(self)@.dir_completion)
                ==> crate::completion::is_settled(final(self)@.dir_completion),
            final(self)@ == (ScanView {
                dir_completion: final(self)@.dir_completion,
                ..old(self)@
            }),
            final(yielded)@ == Map::<PathView, usize>::empty(),
            final(yielded).names() == Map::<PathView, SpelledView>::empty(),
            final(pending_expected)@ == Seq::<(FsPath, usize)>::empty(),
    {
        crate::completion::settle(&mut self.dir_completion, yielded, pending_expected, root)
    }
}

/// Adds `local` to `stats` per extension.
fn merge_stats(stats: &mut KeyMap<String, (u64, u64)>, local: &KeyMap<String, (u64, u64)>)
    requires
        stats_fit(old(stats)@, local@),
    ensures
        final(stats)@ == stats_merged(old(stats)@, local@),
{
    let ghost before = stats@;
    let rows = local.entries();
    let mut i: usize = 0;
    while i < rows.len()
        invariant
            i <= rows@.len(),
            crate::keymap::lists_map(rows@, local@),
            stats_fit(before, local@),
            forall|ext: Seq<char>|
                {
                    let met = exists|m: int| 0 <= m < i && (#[trigger] rows@[m]).0@ == ext;
                    &&& #[trigger] stats@.contains_key(ext) <==> before.contains_key(ext) || met
                    &&& stats@.contains_key(ext) ==> stats@[ext] == (if met {
                        stats_merged(before, local@)[ext]
                    } else {
                        before[ext]
                    })
                },
        decreases rows@.len() - i,
    {
        let ext = rows[i].0.clone();
        let more: (u64, u64) = rows[i].1;
        let ghost stats_before = stats@;
        assert(local@.contains_key(rows@[i as int].0@));
        assert(!(exists|m: int| 0 <= m < i && (#[trigger] rows@[m]).0@ == ext@));
        let so_far: (u64, u64) = match stats.get(&ext) {
            Some(s) => s,
            None => (0, 0),
        };
        assert(so_far == stat_in(before, ext@));
        let ghost key = ext@;
        stats.insert(ext, (so_far.0 + more.0, so_far.1 + more.1));
        proof {
            assert forall|e: Seq<char>| ({
                let met = exists|m: int| 0 <= m < i + 1 && (#[trigger] rows@[m]).0@ == e;
                &&& #[trigger] stats@.contains_key(e) <==> before.contains_key(e) || met
                &&& stats@.contains_key(e) ==> stats@[e] == (if met {
                    stats_merged(before, local@)[e]
                } else {
                    before[e]
                })
            }) by {
                let met_before = exists|m: int| 0 <= m < i && (#[trigger] rows@[m]).0@ == e;
                let met = exists|m: int| 0 <= m < i + 1 && (#[trigger] rows@[m]).0@ == e;
                if e == key {
                    assert(rows@[i as int].0@ == e);
                    assert(met);
                } else {
                    if met {
                        let m = choose|m: int| 0 <= m < i + 1 && (#[trigger] rows@[m]).0@ == e;
                        assert(m != i);
                    }
                    assert(met == met_before);
                    assert(stats_before.contains_key(e) == stats@.contains_key(e));
                }
            }
        }
        i += 1;
    }
    proof {
        let merged = stats_merged(before, local@);
        assert forall|ext: Seq<char>| #[trigger]
            stats@.contains_key(ext) == merged.contains_key(ext) by {
            if local@.contains_key(ext) {
                let m = choose|m: int| 0 <= m < rows@.len() && (#[trigger] rows@[m]).0@ == ext;
                assert(rows@[m].0@ == ext);
            }
        }
        assert forall|ext: Seq<char>| stats@.contains_key(ext) implies #[trigger] stats@[ext]
            == merged[ext] by {
            if !local@.contains_key(ext) {
                assert(!(exists|m: int| 0 <= m < rows@.len() && (#[trigger] rows@[m]).0@ == ext));
            }
        }
        assert(stats@ =~= merged);
    }
}

/// The `n` extensions of the largest total size.
fn top_exts(stats: &KeyMap<String, (u64, u64)>, n: usize) -> (r: Vec<ExtensionStat>)
    ensures
        are_top_exts(extension_views(r@), stats@, n as nat),
{
    let rows = stats.entries();
    proof {
        crate::keymap::lemma_listed_map_is_finite(rows@, stats@);
    }
    let mut ranks: Vec<Rank> = Vec::new();
    let mut i: usize = 0;
    while i < rows.len()
        invariant
            i <= rows@.len(),
            ranks@.len() == i,
            forall|k: int|
                0 <= k < i ==> (#[trigger] ranks@[k])@ == (RankView {
                    pinned: false,
                    weight: (rows@[k].1).1 as nat,
                    text: Seq::empty(),
                }),
        decreases rows@.len() - i,
    {
        ranks.push(Rank { pinned: false, weight: (rows[i].1).1, text: Vec::new() });
        assert(ranks@[i as int]@.text =~= Seq::<u8>::empty());
        i += 1;
    }
    let order = crate::order::stable_order(&ranks);
    let ghost views = crate::order::rank_views(ranks@);
    let ghost at = crate::order::places(order@);
    proof {
        crate::order::lemma_order_has_no_duplicates(views, at);
    }
    let kept: usize = if order.len() <= n {
        order.len()
    } else {
        n
    };
    let mut out: Vec<ExtensionStat> = Vec::new();
    let mut j: usize = 0;
    while j < kept
        invariant
            j <= kept <= order@.len(),
            out@.len() == j,
            at == crate::order::places(order@),
            forall|k: int| 0 <= k < at.len() ==> 0 <= #[trigger] at[k] < rows@.len(),
            forall|k: int|
                0 <= k < j ==> (#[trigger] out@[k])@ == (ExtensionView {
                    extension: rows@[at[k]].0@,
                    count: (rows@[at[k]].1).0,
                    total_size: (rows@[at[k]].1).1,
                }),
        decreases kept - j,
    {
        assert(at[j as int] == order@[j as int]);
        let place: usize = order[j];
        out.push(
            ExtensionStat {
                extension: rows[place].0.clone(),
                count: (rows[place].1).0,
                total_size: (rows[place].1).1,
            },
        );
        j += 1;
    }
    proof {
        let listed = extension_views(out@);
        assert forall|k: int| 0 <= k < listed.len() implies ({
            let row = #[trigger] listed[k];
            stats@.contains_key(row.extension) && stats@[row.extension] == (
                row.count,
                row.total_size,
            )
        }) by {
            assert(listed[k] == out@[k]@);
            assert(stats@.contains_key(rows@[at[k]].0@));
        }
        assert forall|a: int, b: int| 0 <= a < b < listed.len() implies (
        #[trigger] listed[a]).extension != (#[trigger] listed[b]).extension
            && listed[a].total_size >= listed[b].total_size by {
            assert(listed[a] == out@[a]@ && listed[b] == out@[b]@);
            assert(crate::order::goes_before(views, at[a], at[b]));
            assert(views[at[a]] == ranks@[at[a]]@ && views[at[b]] == ranks@[at[b]]@);
            assert(at[a] != at[b]);
            if at[a] < at[b] {
                assert(rows@[at[a]].0@ != rows@[at[b]].0@);
            } else {
                assert(rows@[at[b]].0@ != rows@[at[a]].0@);
            }
        }
        assert forall|ext: Seq<char>, k: int|
            #![trigger stats@.contains_key(ext), listed[k]]
            stats@.contains_key(ext) && 0 <= k < listed.len() && (forall|m: int|
                0 <= m < listed.len() ==> (#[trigger] listed[m]).extension
                    != ext) implies stats@[ext].1 <= listed[k].total_size by {
            let m = choose|m: int| 0 <= m < rows@.len() && (#[trigger] rows@[m]).0@ == ext;
            assert(stats@.contains_key(rows@[m].0@));
            crate::order::lemma_order_names_every_place(views, at, m);
            let p = choose|p: int| 0 <= p < at.len() && at[p] == m;
            if p < kept {
                assert(listed[p] == out@[p]@);
                assert(listed[p].extension == ext);
            }
            assert(k < p);
            assert(crate::order::goes_before(views, at[k], at[p]));
            assert(listed[k] == out@[k]@);
            assert(views[at[k]] == ranks@[at[k]]@ && views[at[p]] == ranks@[at[p]]@);
        }
    }
    out
}

/// Computes [`stats_fit`].
pub fn stats_have_room(
    stats: &KeyMap<String, (u64, u64)>,
    more: &KeyMap<String, (u64, u64)>,
) -> (r: bool)
    ensures
        r == stats_fit(stats@, more@),
{
    let rows = more.entries();
    let mut i: usize = 0;
    while i < rows.len()
        invariant
            i <= rows@.len(),
            crate::keymap::lists_map(rows@, more@),
            forall|k: int|
                0 <= k < i ==> stat_in(stats@, (#[trigger] rows@[k]).0@).0 + (rows@[k].1).0
                    <= u64::MAX && stat_in(stats@, rows@[k].0@).1 + (rows@[k].1).1 <= u64::MAX,
        decreases rows@.len() - i,
    {
        assert(more@.contains_key(rows@[i as int].0@));
        let so_far: (u64, u64) = match stats.get(&rows[i].0) {
            Some(s) => s,
            None => (0, 0),
        };
        if so_far.0 > u64::MAX - (rows[i].1).0 || so_far.1 > u64::MAX - (rows[i].1).1 {
            return false;
        }
        i += 1;
    }
    assert forall|ext: Seq<char>| #[trigger] more@.contains_key(ext) implies stat_in(
        stats@,
        ext,
    ).0 + more@[ext].0 <= u64::MAX && stat_in(stats@, ext).1 + more@[ext].1 <= u64::MAX by {
        let k = choose|k: int| 0 <= k < rows@.len() && (#[trigger] rows@[k]).0@ == ext;
        assert(stat_in(stats@, rows@[k].0@).0 + (rows@[k].1).0 <= u64::MAX);
    }
    true
}

/// Whatever is considered, the sizes to exceed stay those of the full lists'
/// last entries.
pub proof fn law_floors_hold(scan: ScanView, path: SpelledView, size: u64)
    requires
        scan.floors_hold(),
    ensures
        ScanView::fresh().floors_hold(),
        scan.with_top_file(path, size).floors_hold(),
        scan.with_completed_dir(path, size).floors_hold(),
{
}

/// The scan after each of `files` was considered for the largest in turn.
pub open spec fn files_recorded(scan: ScanView, files: Seq<SizedView>) -> ScanView
    decreases files.len(),
{
    if files.len() == 0 {
        scan
    } else {
        files_recorded(scan, files.drop_last()).with_top_file(files.last().path, files.last().size)
    }
}

/// The scan after each of `dirs` was recorded as completed in turn.
pub open spec fn dirs_recorded(scan: ScanView, dirs: Seq<SizedView>) -> ScanView
    decreases dirs.len(),
{
    if dirs.len() == 0 {
        scan
    } else {
        dirs_recorded(scan, dirs.drop_last()).with_completed_dir(
            dirs.last().path,
            dirs.last().size,
        )
    }
}

/// From an empty list, any files leave in it the largest of them, as
/// [`crate::top::law_list_holds_the_largest`] has it, and change nothing else.
pub proof fn law_top_files_are_the_largest(scan: ScanView, files: Seq<SizedView>)
    requires
        scan.top_files.len() == 0,
        scan.top_files_min == 0,
    ensures
        ({
            let after = files_recorded(scan, files);
            let list = after.top_files;
            &&& list == crate::top::files_entered(files)
            &&& after == (ScanView {
                top_files: list,
                top_files_min: crate::top::entry_floor(list),
                ..scan
            })
            &&& crate::top::descending(list)
            &&& list.len() == if crate::top::positive_count(files) <= crate::top::TOP_N {
                crate::top::positive_count(files)
            } else {
                crate::top::TOP_N as nat
            }
            &&& forall|i: int| 0 <= i < list.len() ==> (#[trigger] list[i]).size > 0
            &&& list.to_multiset().subset_of(files.to_multiset())
            &&& forall|e: SizedView| #[trigger]
                files.to_multiset().count(e) > list.to_multiset().count(e) ==> e.size
                    <= crate::top::entry_floor(list)
        }),
    decreases files.len(),
{
    crate::top::law_list_holds_the_largest(files);
    if files.len() > 0 {
        law_top_files_are_the_largest(scan, files.drop_last());
    } else {
        assert(scan.top_files =~= Seq::<SizedView>::empty());
    }
}

/// From an empty list, any completed directories, none with a smaller size than
/// it had before, leave in it the largest of them, as
/// [`crate::top::law_dirs_hold_the_largest`] has it, and change nothing else.
pub proof fn law_top_dirs_are_the_largest(scan: ScanView, dirs: Seq<SizedView>)
    requires
        scan.top_dirs.len() == 0,
        scan.top_dirs_min == 0,
        crate::top::never_shrinks(dirs),
    ensures
        ({
            let after = dirs_recorded(scan, dirs);
            let list = after.top_dirs;
            &&& list == crate::top::dirs_entered(dirs)
            &&& after == (ScanView {
                top_dirs: list,
                top_dirs_min: crate::top::entry_floor(list),
                ..scan
            })
            &&& crate::top::descending(list)
            &&& list.len() <= crate::top::TOP_N
            &&& crate::top::paths_differ(list)
            &&& forall|i: int|
                0 <= i < list.len() ==> (#[trigger] list[i]).size > 0 && list[i].size
                    == crate::top::last_recorded(dirs, list[i].path.at)
            &&& forall|path: PathView|
                !crate::top::lists_path(list, path) ==> #[trigger] crate::top::last_recorded(
                    dirs,
                    path,
                ) <= crate::top::entry_floor(list)
        }),
    decreases dirs.len(),
{
    crate::top::law_dirs_hold_the_largest(dirs);
    if dirs.len() > 0 {
        let earlier = dirs.drop_last();
        assert forall|i: int, j: int|
            0 <= i < j < earlier.len() && (#[trigger] earlier[i]).path.at == (
            #[trigger] earlier[j]).path.at implies earlier[i].size <= earlier[j].size by {
            assert(dirs[i].size <= dirs[j].size);
        }
        law_top_dirs_are_the_largest(scan, earlier);
    } else {
        assert(scan.top_dirs =~= Seq::<SizedView>::empty());
    }
}

/// Merging statistics in two parts, in either order, or at once gives the same.
pub proof fn law_merging_adds_up(
    stats: Map<Seq<char>, (u64, u64)>,
    a: Map<Seq<char>, (u64, u64)>,
    b: Map<Seq<char>, (u64, u64)>,
)
    requires
        stats_fit(a, b),
        stats_fit(stats, stats_merged(a, b)),
    ensures
        stats_merged(stats_merged(stats, a), b) == stats_merged(stats, stats_merged(a, b)),
        stats_merged(stats_merged(stats, b), a) == stats_merged(stats, stats_merged(a, b)),
{
    let all = stats_merged(a, b);
    assert forall|ext: Seq<char>| a.contains_key(ext) || b.contains_key(ext) implies #[trigger] stat_in(
        stats,
        ext,
    ).0 + stat_in(a, ext).0 + stat_in(b, ext).0 <= u64::MAX && stat_in(stats, ext).1 + stat_in(
        a,
        ext,
    ).1 + stat_in(b, ext).1 <= u64::MAX by {
        assert(all.contains_key(ext));
        if b.contains_key(ext) {
            assert(stat_in(a, ext).0 + b[ext].0 <= u64::MAX);
        }
    }
    assert(stats_merged(stats_merged(stats, a), b) =~= stats_merged(stats, all));
    assert(stats_merged(stats_merged(stats, b), a) =~= stats_merged(stats, all));
}

} // verus!
