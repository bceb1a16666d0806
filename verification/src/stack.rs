//! Sizes from a walk in order: a directory comes before what is in it, and a
//! stack holds the directories that the walk is in.
use vstd::prelude::*;

use crate::path::FsPath;
use crate::path::PathView;
use crate::path::SpelledView;
use crate::scan::ScanState;
use crate::scan::ScanView;

verus! {

/// After how many files the sizes so far are shown.
pub const SHOW_INTERVAL: u64 = 1000;

/// What the walk meets: a directory, a file with its length, or something
/// else.
#[derive(Clone, Copy, Debug)]
pub enum Met {
    Dir,
    File { len: u64 },
    Other,
}

/// The state of a walk: the directories that it is in, each with the size of
/// what was met in it without the directories below it on the stack; the files
/// met; and the errors.
#[verifier::ext_equal]
pub struct StackView {
    pub dirs: Seq<(SpelledView, u64)>,
    pub count: u64,
    pub errors: u64,
}

/// The state of a walk.
pub struct SubtreeWalk {
    pub dirs: Vec<(FsPath, u64)>,
    pub count: u64,
    pub errors: u64,
}

/// The views of a stack.
pub open spec fn dir_views(dirs: Seq<(FsPath, u64)>) -> Seq<(SpelledView, u64)> {
    Seq::new(dirs.len(), |i: int| (dirs[i].0.named(), dirs[i].1))
}

impl View for SubtreeWalk {
    type V = StackView;

    open spec fn view(&self) -> StackView {
        StackView { dirs: dir_views(self.dirs@), count: self.count, errors: self.errors }
    }
}

/// The sum of the sizes on a stack.
pub open spec fn stack_sum(dirs: Seq<(SpelledView, u64)>) -> nat
    decreases dirs.len(),
{
    if dirs.len() == 0 {
        0
    } else {
        stack_sum(dirs.drop_last()) + dirs.last().1 as nat
    }
}

/// A stack with `size` added to its top, if it has one.
pub open spec fn added_to_top(dirs: Seq<(SpelledView, u64)>, size: u64) -> Seq<(SpelledView, u64)> {
    if dirs.len() == 0 {
        dirs
    } else {
        dirs.drop_last().push((dirs.last().0, (dirs.last().1 + size) as u64))
    }
}

/// The scan with a directory that the walk has left: its size is final, unless
/// the scan was told to stop, when the walk leaves what it has not finished.
pub open spec fn left(scan: ScanView, dir: (SpelledView, u64)) -> ScanView {
    ScanView {
        dir_sizes: scan.dir_sizes.insert(dir.0.at, dir.1),
        size_names: crate::scan::name_kept(scan.size_names, dir.0),
        completed: if scan.cancel {
            scan.completed
        } else {
            scan.completed.insert(dir.0.at)
        },
        ..scan
    }
}

/// The stack and the scan once the walk has left all but `depth` directories,
/// each adding its size to the one it is in.
pub open spec fn unwound(
    dirs: Seq<(SpelledView, u64)>,
    scan: ScanView,
    depth: nat,
) -> (Seq<(SpelledView, u64)>, ScanView)
    decreases dirs.len(),
{
    if dirs.len() <= depth {
        (dirs, scan)
    } else {
        let rest = added_to_top(dirs.drop_last(), dirs.last().1);
        unwound(rest, left(scan, dirs.last()), depth)
    }
}

/// The sizes with those of the stack so far: each directory's with all that is
/// below it on the stack.
pub open spec fn sizes_so_far(
    sizes: Map<PathView, u64>,
    dirs: Seq<(SpelledView, u64)>,
    below: nat,
) -> Map<PathView, u64>
    decreases dirs.len(),
{
    if dirs.len() == 0 {
        sizes
    } else {
        let now = below + dirs.last().1 as nat;
        sizes_so_far(sizes.insert(dirs.last().0.at, now as u64), dirs.drop_last(), now)
    }
}

/// The names of the directories that have a size, with those of the stack.
pub open spec fn names_so_far(
    names: Map<PathView, SpelledView>,
    dirs: Seq<(SpelledView, u64)>,
) -> Map<PathView, SpelledView>
    decreases dirs.len(),
{
    if dirs.len() == 0 {
        names
    } else {
        names_so_far(crate::scan::name_kept(names, dirs.last().0), dirs.drop_last())
    }
}

impl StackView {
    /// The walk and the scan after something was met at `path`, `depth` below
    /// the root of the walk.
    pub open spec fn met(
        self,
        scan: ScanView,
        path: SpelledView,
        depth: usize,
        what: Met,
    ) -> (StackView, ScanView) {
        let (dirs, unwound_scan) = unwound(self.dirs, scan, depth as nat);
        match what {
            Met::Dir => (StackView { dirs: dirs.push((path, 0)), ..self }, unwound_scan),
            Met::Other => (StackView { dirs, ..self }, unwound_scan),
            Met::File { len } => {
                let grown = added_to_top(dirs, len);
                let count = (self.count + 1) as u64;
                (
                    StackView { dirs: grown, count, ..self },
                    if count % SHOW_INTERVAL == 0 {
                        ScanView {
                            dir_sizes: sizes_so_far(unwound_scan.dir_sizes, grown, 0),
                            size_names: names_so_far(unwound_scan.size_names, grown),
                            files_scanned: unwound_scan.files_scanned.wrapping_add(
                                SHOW_INTERVAL,
                            ),
                            ..unwound_scan
                        }
                    } else {
                        unwound_scan
                    },
                )
            },
        }
    }

    /// Whether no counter overflows when something is met.
    pub open spec fn met_fits(self, what: Met) -> bool {
        match what {
            Met::File { len } => stack_sum(self.dirs) + len <= u64::MAX && self.count < u64::MAX,
            _ => stack_sum(self.dirs) <= u64::MAX,
        }
    }

    /// The size of the root of the walk once everything was met.
    pub open spec fn total(self) -> u64 {
        let (dirs, _) = unwound(self.dirs, ScanView::fresh(), 1);
        if dirs.len() == 0 {
            0
        } else {
            dirs[0].1
        }
    }
}

pub proof fn lemma_sum_of_grown(dirs: Seq<(SpelledView, u64)>, size: u64)
    requires
        stack_sum(dirs) + size <= u64::MAX,
    ensures
        dirs.len() > 0 ==> stack_sum(added_to_top(dirs, size)) == stack_sum(dirs) + size,
        dirs.len() == 0 ==> stack_sum(added_to_top(dirs, size)) == 0,
        added_to_top(dirs, size).len() == dirs.len(),
        dirs.len() > 0 ==> dirs.last().1 + size <= u64::MAX,
{
    if dirs.len() > 0 {
        let grown = added_to_top(dirs, size);
        assert(grown.drop_last() =~= dirs.drop_last());
    }
}

pub proof fn lemma_unwound_facts(dirs: Seq<(SpelledView, u64)>, scan: ScanView, depth: nat)
    requires
        stack_sum(dirs) <= u64::MAX,
    ensures
        stack_sum(unwound(dirs, scan, depth).0) <= stack_sum(dirs),
        depth > 0 ==> stack_sum(unwound(dirs, scan, depth).0) == stack_sum(dirs),
        unwound(dirs, scan, depth).0.len() == if dirs.len() <= depth {
            dirs.len()
        } else {
            depth
        },
    decreases dirs.len(),
{
    if dirs.len() > depth {
        lemma_sum_of_grown(dirs.drop_last(), dirs.last().1);
        let rest = added_to_top(dirs.drop_last(), dirs.last().1);
        lemma_unwound_facts(rest, left(scan, dirs.last()), depth);
    }
}

proof fn lemma_unwinding_ignores_the_scan(
    dirs: Seq<(SpelledView, u64)>,
    a: ScanView,
    b: ScanView,
    depth: nat,
)
    ensures
        unwound(dirs, a, depth).0 == unwound(dirs, b, depth).0,
    decreases dirs.len(),
{
    if dirs.len() > depth {
        let rest = added_to_top(dirs.drop_last(), dirs.last().1);
        lemma_unwinding_ignores_the_scan(
            rest,
            left(a, dirs.last()),
            left(b, dirs.last()),
            depth,
        );
    }
}

/// Adds to the top of a stack, if it has one.
pub fn add_to_top(dirs: &mut Vec<(FsPath, u64)>, size: u64)
    requires
        stack_sum(dir_views(old(dirs)@)) + size <= u64::MAX,
    ensures
        dir_views(final(dirs)@) == added_to_top(dir_views(old(dirs)@), size),
{
    let ghost before = dirs@;
    proof {
        lemma_sum_of_grown(dir_views(before), size);
    }
    match dirs.pop() {
        None => {
            assert(dir_views(dirs@) =~= added_to_top(dir_views(before), size));
        },
        Some((dir, so_far)) => {
            assert(dir_views(before).last() == (dir.named(), so_far));
            dirs.push((dir, so_far + size));
            assert(dir_views(dirs@) =~= added_to_top(dir_views(before), size));
        },
    }
}

/// Leaves directories until `depth` are left.
pub fn leave_to(dirs: &mut Vec<(FsPath, u64)>, scan: &mut ScanState, depth: usize)
    requires
        stack_sum(dir_views(old(dirs)@)) <= u64::MAX,
    ensures
        (dir_views(final(dirs)@), final(scan)@) == unwound(
            dir_views(old(dirs)@),
            old(scan)@,
            depth as nat,
        ),
{
    let ghost start = dir_views(dirs@);
    let ghost start_scan = scan@;
    while dirs.len() > depth
        invariant
            stack_sum(dir_views(dirs@)) <= u64::MAX,
            unwound(dir_views(dirs@), scan@, depth as nat) == unwound(
                start,
                start_scan,
                depth as nat,
            ),
        decreases dirs@.len(),
    {
        let ghost before = dir_views(dirs@);
        let ghost scan_before = scan@;
        let (dir, size) = dirs.pop().unwrap();
        proof {
            assert(before.last() == (dir.named(), size));
            assert(dir_views(dirs@) =~= before.drop_last());
            lemma_sum_of_grown(before.drop_last(), size);
        }
        scan.dir_sizes.insert(dir.clone(), size);
        if !scan.cancel {
            scan.completed.insert(dir, ());
        }
        assert(scan@ =~= left(scan_before, before.last()));
        add_to_top(dirs, size);
    }
}

impl SubtreeWalk {
    /// A walk that has met nothing.
    pub fn new() -> (r: SubtreeWalk)
        ensures
            r@ == (StackView { dirs: Seq::empty(), count: 0, errors: 0 }),
    {
        let r = SubtreeWalk { dirs: Vec::new(), count: 0, errors: 0 };
        assert(r@.dirs =~= Seq::<(SpelledView, u64)>::empty());
        r
    }

    fn unwind(&mut self, scan: &mut ScanState, depth: usize)
        requires
            stack_sum(old(self)@.dirs) <= u64::MAX,
        ensures
            ({
                let (dirs, after) = unwound(old(self)@.dirs, old(scan)@, depth as nat);
                &&& final(self)@ == (StackView { dirs, ..old(self)@ })
                &&& final(scan)@ == after
            }),
    {
        leave_to(&mut self.dirs, scan, depth);
    }

    /// Whether [`SubtreeWalk::visit`] overflows no counter.
    pub fn visit_has_room(&self, what: Met) -> (r: bool)
        ensures
            r == self@.met_fits(what),
    {
        let mut sum: u64 = match what {
            Met::File { len } => len,
            _ => 0,
        };
        let ghost extra = sum as nat;
        let ghost views = self@.dirs;
        let mut i: usize = 0;
        while i < self.dirs.len()
            invariant
                i <= self.dirs@.len(),
                views == self@.dirs,
                extra == match what {
                    Met::File { len } => len as nat,
                    _ => 0,
                },
                sum == extra + stack_sum(views.take(i as int)),
            decreases self.dirs@.len() - i,
        {
            assert(views.take(i + 1).drop_last() =~= views.take(i as int));
            assert(views.take(i + 1).last() == (self.dirs@[i as int].0.named(), self.dirs@[i as int].1));
            if sum > u64::MAX - self.dirs[i].1 {
                proof {
                    lemma_sum_grows(views, i + 1);
                }
                return false;
            }
            sum += self.dirs[i].1;
            i += 1;
        }
        assert(views.take(views.len() as int) =~= views);
        match what {
            Met::File { .. } => self.count < u64::MAX,
            _ => true,
        }
    }

    /// Takes in what was met at `path`, `depth` below the root of the walk.
    pub fn visit(&mut self, scan: &mut ScanState, path: FsPath, depth: usize, what: Met)
        requires
            old(self)@.met_fits(what),
        ensures
            (final(self)@, final(scan)@) == old(self)@.met(
                old(scan)@,
                crate::util::without_unc_prefix(path.named()),
                depth,
                what,
            ),
    {
        proof {
            lemma_unwound_facts(self@.dirs, scan@, depth as nat);
        }
        self.unwind(scan, depth);
        match what {
            Met::Other => {},
            Met::Dir => {
                let dir = crate::util::strip_unc_prefix(path);
                let ghost before = self.dirs@;
                self.dirs.push((dir, 0));
                assert(dir_views(self.dirs@) =~= dir_views(before).push((dir.named(), 0)));
            },
            Met::File { len } => {
                proof {
                    lemma_sum_of_grown(self@.dirs, len);
                }
                add_to_top(&mut self.dirs, len);
                self.count += 1;
                if self.count % SHOW_INTERVAL == 0 {
                    self.show_so_far(scan);
                    scan.files_scanned = scan.files_scanned.wrapping_add(SHOW_INTERVAL);
                }
            },
        }
    }

    fn show_so_far(&self, scan: &mut ScanState)
        requires
            stack_sum(self@.dirs) <= u64::MAX,
        ensures
            final(scan)@ == (ScanView {
                dir_sizes: sizes_so_far(old(scan)@.dir_sizes, self@.dirs, 0),
                size_names: names_so_far(old(scan)@.size_names, self@.dirs),
                ..old(scan)@
            }),
    {
        let ghost before = scan@;
        let ghost views = self@.dirs;
        let mut i: usize = self.dirs.len();
        let mut below: u64 = 0;
        assert(views.take(views.len() as int) =~= views);
        while i > 0
            invariant
                i <= self.dirs@.len(),
                views == dir_views(self.dirs@),
                below + stack_sum(views.take(i as int)) <= u64::MAX,
                sizes_so_far(scan@.dir_sizes, views.take(i as int), below as nat)
                    == sizes_so_far(before.dir_sizes, views, 0),
                names_so_far(scan@.size_names, views.take(i as int)) == names_so_far(
                    before.size_names,
                    views,
                ),
                scan@ == (ScanView {
                    dir_sizes: scan@.dir_sizes,
                    size_names: scan@.size_names,
                    ..before
                }),
            decreases i,
        {
            i -= 1;
            let ghost now = scan@;
            assert(views.take(i + 1).drop_last() =~= views.take(i as int));
            assert(views.take(i + 1).last() == (self.dirs@[i as int].0.named(), self.dirs@[i as int].1));
            below += self.dirs[i].1;
            scan.dir_sizes.insert(self.dirs[i].0.clone(), below);
            assert(scan@ =~= (ScanView {
                dir_sizes: scan@.dir_sizes,
                size_names: scan@.size_names,
                ..before
            }));
        }
        assert(views.take(0) =~= Seq::<(SpelledView, u64)>::empty());
    }

    /// Ends the walk; the answer is the size of its root. What the walk was
    /// still in is completed with that, unless the scan was told to stop.
    pub fn finish(&mut self, scan: &mut ScanState) -> (r: u64)
        requires
            stack_sum(old(self)@.dirs) <= u64::MAX,
        ensures
            r == old(self)@.total(),
            final(self)@ == (StackView { dirs: Seq::empty(), ..old(self)@ }),
            ({
                let after = unwound(old(self)@.dirs, old(scan)@, 0).1;
                final(scan)@ == (ScanView {
                    files_scanned: after.files_scanned.wrapping_add(
                        (old(self)@.count % SHOW_INTERVAL) as u64,
                    ),
                    ..after
                })
            }),
    {
        let ghost start = self@;
        let ghost start_scan = scan@;
        proof {
            lemma_unwound_facts(start.dirs, start_scan, 1);
            lemma_unwinding_ignores_the_scan(start.dirs, start_scan, ScanView::fresh(), 1);
            lemma_unwinding_in_steps(start.dirs, start_scan, 1, 0);
        }
        self.unwind(scan, 1);
        let total: u64 = if self.dirs.len() == 0 {
            0
        } else {
            self.dirs[0].1
        };
        proof {
            lemma_unwound_facts(self@.dirs, scan@, 0);
            assert(self@.dirs.len() > 0 ==> self@.dirs[0].1 == self.dirs@[0].1);
        }
        self.unwind(scan, 0);
        assert(self@.dirs =~= Seq::<(SpelledView, u64)>::empty());
        scan.files_scanned = scan.files_scanned.wrapping_add(self.count % SHOW_INTERVAL);
        total
    }

    /// Notes an error of the walk; the answer is whether it is to be logged,
    /// which the first five are.
    pub fn note_error(&mut self) -> (r: bool)
        requires
            old(self)@.errors < u64::MAX,
        ensures
            r == (old(self)@.errors < 5),
            final(self)@ == (StackView { errors: (old(self)@.errors + 1) as u64, ..old(self)@ }),
    {
        let logged: bool = self.errors < 5;
        self.errors += 1;
        logged
    }
}

proof fn lemma_unwinding_in_steps(
    dirs: Seq<(SpelledView, u64)>,
    scan: ScanView,
    first: nat,
    then_to: nat,
)
    requires
        then_to <= first,
    ensures
        unwound(unwound(dirs, scan, first).0, unwound(dirs, scan, first).1, then_to) == unwound(
            dirs,
            scan,
            then_to,
        ),
    decreases dirs.len(),
{
    if dirs.len() > first {
        let rest = added_to_top(dirs.drop_last(), dirs.last().1);
        lemma_unwinding_in_steps(rest, left(scan, dirs.last()), first, then_to);
    }
}

pub proof fn lemma_sum_grows(dirs: Seq<(SpelledView, u64)>, n: int)
    requires
        0 <= n <= dirs.len(),
    ensures
        stack_sum(dirs.take(n)) <= stack_sum(dirs),
    decreases dirs.len(),
{
    if n == dirs.len() {
        assert(dirs.take(n) =~= dirs);
    } else {
        lemma_sum_grows(dirs.drop_last(), n);
        assert(dirs.drop_last().take(n) =~= dirs.take(n));
    }
}

/// A walk that leaves directories because the scan was told to stop calls none
/// of them completed.
pub proof fn law_stopped_walk_completes_nothing(
    dirs: Seq<(SpelledView, u64)>,
    scan: ScanView,
    depth: nat,
)
    requires
        scan.cancel,
    ensures
        unwound(dirs, scan, depth).1.completed == scan.completed,
    decreases dirs.len(),
{
    if dirs.len() > depth {
        let rest = added_to_top(dirs.drop_last(), dirs.last().1);
        law_stopped_walk_completes_nothing(rest, left(scan, dirs.last()), depth);
    }
}

/// What a walk meets, in order: path, depth and kind.
pub open spec fn walked(
    scan: ScanView,
    events: Seq<(SpelledView, usize, Met)>,
) -> (StackView, ScanView)
    decreases events.len(),
{
    if events.len() == 0 {
        (StackView { dirs: Seq::empty(), count: 0, errors: 0 }, scan)
    } else {
        let (walk, so_far) = walked(scan, events.drop_last());
        let (path, depth, what) = events.last();
        walk.met(so_far, path, depth, what)
    }
}

/// The sum of the lengths of the files that a walk meets.
pub open spec fn length_sum(events: Seq<(SpelledView, usize, Met)>) -> nat
    decreases events.len(),
{
    if events.len() == 0 {
        0
    } else {
        length_sum(events.drop_last()) + match events.last().2 {
            Met::File { len } => len as nat,
            _ => 0,
        }
    }
}

/// Whether a walk begins with its root, a directory, and everything else is
/// below it.
pub open spec fn starts_at_root(events: Seq<(SpelledView, usize, Met)>) -> bool {
    &&& events.len() > 0
    &&& events[0].1 == 0
    &&& events[0].2 is Dir
    &&& forall|i: int| 0 < i < events.len() ==> (#[trigger] events[i]).1 > 0
}

proof fn lemma_walk_keeps_the_sum(scan: ScanView, events: Seq<(SpelledView, usize, Met)>)
    requires
        starts_at_root(events),
        length_sum(events) <= u64::MAX,
    ensures
        stack_sum(walked(scan, events).0.dirs) == length_sum(events),
        walked(scan, events).0.dirs.len() > 0,
    decreases events.len(),
{
    let rest = events.drop_last();
    let (walk, so_far) = walked(scan, rest);
    let (path, depth, what) = events.last();
    if events.len() == 1 {
        assert(rest.len() == 0);
        assert(walk.dirs =~= Seq::<(SpelledView, u64)>::empty());
        assert(events.last() == events[0]);
        assert(length_sum(rest) == 0);
        let after = walk.dirs.push((path, 0u64));
        assert(after.drop_last() =~= walk.dirs);
        assert(walked(scan, events).0.dirs == after);
        assert(stack_sum(after) == stack_sum(walk.dirs));
    } else {
        assert(starts_at_root(rest)) by {
            assert(rest[0] == events[0]);
            assert forall|i: int| 0 < i < rest.len() implies (#[trigger] rest[i]).1 > 0 by {
                assert(events[i].1 > 0);
            }
        }
        lemma_walk_keeps_the_sum(scan, rest);
        assert(depth > 0) by {
            assert(events[events.len() - 1].1 > 0);
        }
        lemma_unwound_facts(walk.dirs, so_far, depth as nat);
        let dirs = unwound(walk.dirs, so_far, depth as nat).0;
        match what {
            Met::File { len } => {
                lemma_sum_of_grown(dirs, len);
            },
            Met::Dir => {
                let after = dirs.push((path, 0u64));
                assert(after.drop_last() =~= dirs);
            },
            Met::Other => {},
        }
    }
}

/// The size of a walk's root is the sum of the lengths of all files that the
/// walk met.
pub proof fn law_root_has_everything(scan: ScanView, events: Seq<(SpelledView, usize, Met)>)
    requires
        starts_at_root(events),
        length_sum(events) <= u64::MAX,
    ensures
        walked(scan, events).0.total() == length_sum(events),
{
    lemma_walk_keeps_the_sum(scan, events);
    let dirs = walked(scan, events).0.dirs;
    lemma_unwound_facts(dirs, ScanView::fresh(), 1);
    let last = unwound(dirs, ScanView::fresh(), 1).0;
    assert(last.len() == 1);
    assert(last.drop_last() =~= Seq::<(SpelledView, u64)>::empty());
    assert(stack_sum(last) == stack_sum(last.drop_last()) + last.last().1 as nat);
}

/// The sum of the sizes on a stack from place `k` on.
pub open spec fn sum_from(dirs: Seq<(SpelledView, u64)>, k: int) -> nat {
    stack_sum(dirs.skip(k))
}

proof fn lemma_sum_from_facts(dirs: Seq<(SpelledView, u64)>, k: int)
    requires
        0 <= k <= dirs.len(),
    ensures
        sum_from(dirs, k) <= stack_sum(dirs),
        k < dirs.len() ==> sum_from(dirs, k) == sum_from(dirs.drop_last(), k) + dirs.last().1,
        k == dirs.len() ==> sum_from(dirs, k) == 0,
    decreases dirs.len(),
{
    if k < dirs.len() {
        assert(dirs.skip(k).drop_last() =~= dirs.drop_last().skip(k));
        lemma_sum_from_facts(dirs.drop_last(), k);
    }
}

proof fn lemma_adding_keeps_places(dirs: Seq<(SpelledView, u64)>, size: u64)
    requires
        stack_sum(dirs) + size <= u64::MAX,
    ensures
        forall|j: int|
            0 <= j < dirs.len() ==> (#[trigger] added_to_top(dirs, size)[j]).0 == dirs[j].0,
        forall|k: int|
            0 <= k < dirs.len() ==> #[trigger] sum_from(added_to_top(dirs, size), k) == sum_from(
                dirs,
                k,
            ) + size,
{
    if dirs.len() > 0 {
        let grown = added_to_top(dirs, size);
        lemma_sum_of_grown(dirs, size);
        assert forall|k: int| 0 <= k < dirs.len() implies #[trigger] sum_from(grown, k) == sum_from(
            dirs,
            k,
        ) + size by {
            lemma_sum_from_facts(grown, k);
            lemma_sum_from_facts(dirs, k);
            assert(grown.drop_last() =~= dirs.drop_last());
        }
    }
}

pub proof fn lemma_unwinding_keeps_others(
    dirs: Seq<(SpelledView, u64)>,
    scan: ScanView,
    depth: nat,
    path: PathView,
)
    requires
        stack_sum(dirs) <= u64::MAX,
        forall|j: int| depth <= j < dirs.len() ==> (#[trigger] dirs[j]).0.at != path,
    ensures
        crate::scan::size_in(unwound(dirs, scan, depth).1.dir_sizes, path) == crate::scan::size_in(
            scan.dir_sizes,
            path,
        ),
        scan.completed.contains(path) ==> unwound(dirs, scan, depth).1.completed.contains(path),
    decreases dirs.len(),
{
    if dirs.len() > depth {
        assert(dirs.last() == dirs[dirs.len() - 1]);
        lemma_sum_of_grown(dirs.drop_last(), dirs.last().1);
        lemma_adding_keeps_places(dirs.drop_last(), dirs.last().1);
        let rest = added_to_top(dirs.drop_last(), dirs.last().1);
        assert forall|j: int| depth <= j < rest.len() implies (#[trigger] rest[j]).0.at != path by {
            assert(rest[j].0 == dirs.drop_last()[j].0);
            assert(dirs[j].0.at != path);
        }
        lemma_unwinding_keeps_others(rest, left(scan, dirs.last()), depth, path);
    }
}

/// A directory that the walk leaves is recorded with all that is on the stack
/// from its place on.
proof fn lemma_unwinding_records(
    dirs: Seq<(SpelledView, u64)>,
    scan: ScanView,
    depth: nat,
    place: int,
)
    requires
        stack_sum(dirs) <= u64::MAX,
        depth <= place < dirs.len(),
        forall|j: int| depth <= j < place ==> (#[trigger] dirs[j]).0.at != dirs[place].0.at,
    ensures
        crate::scan::size_in(unwound(dirs, scan, depth).1.dir_sizes, dirs[place].0.at) == sum_from(
            dirs,
            place,
        ),
        !scan.cancel ==> unwound(dirs, scan, depth).1.completed.contains(dirs[place].0.at),
    decreases dirs.len(),
{
    let path = dirs[place].0.at;
    let rest = added_to_top(dirs.drop_last(), dirs.last().1);
    let next = left(scan, dirs.last());
    lemma_sum_of_grown(dirs.drop_last(), dirs.last().1);
    lemma_adding_keeps_places(dirs.drop_last(), dirs.last().1);
    lemma_sum_from_facts(dirs, place);
    assert forall|j: int| 0 <= j < rest.len() implies (#[trigger] rest[j]).0 == dirs[j].0 by {
        assert(rest[j].0 == dirs.drop_last()[j].0);
    }
    if place == dirs.len() - 1 {
        lemma_sum_from_facts(dirs.drop_last(), place);
        lemma_unwinding_keeps_others(rest, next, depth, path);
        assert(crate::scan::size_in(next.dir_sizes, path) == dirs.last().1);
    } else {
        lemma_unwinding_records(rest, next, depth, place);
        assert(sum_from(rest, place) == sum_from(dirs.drop_last(), place) + dirs.last().1);
    }
}

/// Whether everything that a walk meets is in a directory that the walk is in.
pub open spec fn well_nested(scan: ScanView, events: Seq<(SpelledView, usize, Met)>) -> bool {
    forall|n: int|
        0 <= n < events.len() ==> (#[trigger] events[n]).1 <= walked(
            scan,
            events.take(n),
        ).0.dirs.len()
}

#[verifier::spinoff_prover]
proof fn lemma_inside(scan: ScanView, events: Seq<(SpelledView, usize, Met)>, i: int)
    requires
        0 <= i < events.len(),
        events[i].2 is Dir,
        well_nested(scan, events),
        length_sum(events) <= u64::MAX,
        forall|j: int| i < j < events.len() ==> (#[trigger] events[j]).1 > events[i].1,
    ensures
        ({
            let dirs = walked(scan, events).0.dirs;
            let depth = events[i].1 as int;
            &&& depth < dirs.len()
            &&& dirs[depth].0 == events[i].0
            &&& sum_from(dirs, depth) == length_sum(events.skip(i + 1))
            &&& stack_sum(dirs) <= length_sum(events)
        }),
    decreases events.len(),
{
    let rest = events.drop_last();
    let (walk, so_far) = walked(scan, rest);
    let (path, depth, what) = events.last();
    let n = rest.len() as int;
    assert(events.take(n) =~= rest);
    assert(events[n].1 <= walk.dirs.len());
    lemma_stack_within(scan, rest);
    lemma_unwound_facts(walk.dirs, so_far, depth as nat);
    let dirs = unwound(walk.dirs, so_far, depth as nat).0;
    assert(dirs.len() == depth);
    let at = events[i].1 as int;
    lemma_stack_within(scan, events);
    if i == n {
        let after = dirs.push((path, 0u64));
        assert(events.skip(i + 1) =~= Seq::<(SpelledView, usize, Met)>::empty());
        lemma_sum_from_facts(after, at);
        assert(after.drop_last() =~= dirs);
        lemma_sum_from_facts(dirs, at);
    } else {
        assert(well_nested(scan, rest)) by {
            assert forall|m: int| 0 <= m < rest.len() implies (#[trigger] rest[m]).1 <= walked(
                scan,
                rest.take(m),
            ).0.dirs.len() by {
                assert(rest.take(m) =~= events.take(m));
                assert(events[m].1 <= walked(scan, events.take(m)).0.dirs.len());
            }
        }
        assert forall|j: int| i < j < rest.len() implies (#[trigger] rest[j]).1 > rest[i].1 by {
            assert(events[j].1 > events[i].1);
        }
        lemma_inside(scan, rest, i);
        assert(events[n].1 > events[i].1);
        lemma_unwinding_keeps_sums(walk.dirs, so_far, depth as nat, at);
        assert(events.skip(i + 1).drop_last() =~= rest.skip(i + 1));
        assert(events.skip(i + 1).last() == events.last());
        match what {
            Met::File { len } => {
                lemma_adding_keeps_places(dirs, len);
                assert(sum_from(added_to_top(dirs, len), at) == sum_from(dirs, at) + len);
            },
            Met::Dir => {
                let after = dirs.push((path, 0u64));
                lemma_sum_from_facts(after, at);
                assert(after.drop_last() =~= dirs);
            },
            Met::Other => {},
        }
    }
}

proof fn lemma_unwinding_keeps_sums(
    dirs: Seq<(SpelledView, u64)>,
    scan: ScanView,
    depth: nat,
    place: int,
)
    requires
        stack_sum(dirs) <= u64::MAX,
        0 <= place < depth,
        place < dirs.len(),
    ensures
        sum_from(unwound(dirs, scan, depth).0, place) == sum_from(dirs, place),
        unwound(dirs, scan, depth).0[place].0 == dirs[place].0,
    decreases dirs.len(),
{
    if dirs.len() > depth {
        let rest = added_to_top(dirs.drop_last(), dirs.last().1);
        lemma_sum_of_grown(dirs.drop_last(), dirs.last().1);
        lemma_adding_keeps_places(dirs.drop_last(), dirs.last().1);
        lemma_sum_from_facts(dirs, place);
        assert(rest[place].0 == dirs.drop_last()[place].0);
        assert(sum_from(rest, place) == sum_from(dirs.drop_last(), place) + dirs.last().1);
        lemma_unwinding_keeps_sums(rest, left(scan, dirs.last()), depth, place);
    }
}

proof fn lemma_stack_within(scan: ScanView, events: Seq<(SpelledView, usize, Met)>)
    requires
        length_sum(events) <= u64::MAX,
    ensures
        stack_sum(walked(scan, events).0.dirs) <= length_sum(events),
    decreases events.len(),
{
    if events.len() > 0 {
        let rest = events.drop_last();
        let (walk, so_far) = walked(scan, rest);
        let (path, depth, what) = events.last();
        lemma_stack_within(scan, rest);
        lemma_unwound_facts(walk.dirs, so_far, depth as nat);
        let dirs = unwound(walk.dirs, so_far, depth as nat).0;
        match what {
            Met::File { len } => {
                lemma_sum_of_grown(dirs, len);
            },
            Met::Dir => {
                let after = dirs.push((path, 0u64));
                assert(after.drop_last() =~= dirs);
            },
            Met::Other => {},
        }
    }
}

/// When the walk leaves a directory, to meet something that is not in it or to
/// end, its size is the sum of the lengths of all files met in it, at any
/// depth, and the directory is completed unless the scan was told to stop. The directories that are left with it
/// have other paths.
pub proof fn law_left_directory_has_its_files(
    scan: ScanView,
    events: Seq<(SpelledView, usize, Met)>,
    i: int,
    depth: nat,
)
    requires
        0 <= i < events.len(),
        events[i].2 is Dir,
        well_nested(scan, events),
        length_sum(events) <= u64::MAX,
        forall|j: int| i < j < events.len() ==> (#[trigger] events[j]).1 > events[i].1,
        depth <= events[i].1,
        ({
            let dirs = walked(scan, events).0.dirs;
            forall|j: int| depth <= j < events[i].1 ==> (#[trigger] dirs[j]).0.at != events[i].0.at
        }),
    ensures
        ({
            let (walk, so_far) = walked(scan, events);
            let after = unwound(walk.dirs, so_far, depth).1;
            &&& crate::scan::size_in(after.dir_sizes, events[i].0.at) == length_sum(
                events.skip(i + 1),
            )
            &&& !so_far.cancel ==> after.completed.contains(events[i].0.at)
        }),
{
    let (walk, so_far) = walked(scan, events);
    lemma_inside(scan, events, i);
    lemma_unwinding_records(walk.dirs, so_far, depth, events[i].1 as int);
}

/// How many files a walk meets.
pub open spec fn file_events(events: Seq<(SpelledView, usize, Met)>) -> nat
    decreases events.len(),
{
    if events.len() == 0 {
        0
    } else {
        file_events(events.drop_last()) + if events.last().2 is File {
            1nat
        } else {
            0nat
        }
    }
}

proof fn lemma_unwinding_keeps_counters(
    dirs: Seq<(SpelledView, u64)>,
    scan: ScanView,
    depth: nat,
)
    ensures
        ({
            let after = unwound(dirs, scan, depth).1;
            after == (ScanView {
                dir_sizes: after.dir_sizes,
                size_names: after.size_names,
                completed: after.completed,
                ..scan
            })
        }),
    decreases dirs.len(),
{
    if dirs.len() > depth {
        let rest = added_to_top(dirs.drop_last(), dirs.last().1);
        lemma_unwinding_keeps_counters(rest, left(scan, dirs.last()), depth);
    }
}

/// A walk counts each file that it meets, and the scan has them a thousand at a
/// time; nothing else of the scan is counted by it.
pub proof fn law_walk_counts_its_files(scan: ScanView, events: Seq<(SpelledView, usize, Met)>)
    requires
        scan.files_scanned + file_events(events) <= u64::MAX,
    ensures
        ({
            let (walk, after) = walked(scan, events);
            let n = file_events(events);
            &&& walk.count == n
            &&& walk.errors == 0
            &&& after.files_scanned == scan.files_scanned + (n - n % 1000)
            &&& after == (ScanView {
                files_scanned: after.files_scanned,
                dir_sizes: after.dir_sizes,
                size_names: after.size_names,
                completed: after.completed,
                ..scan
            })
        }),
    decreases events.len(),
{
    if events.len() > 0 {
        let rest = events.drop_last();
        law_walk_counts_its_files(scan, rest);
        let (walk, so_far) = walked(scan, rest);
        lemma_unwinding_keeps_counters(walk.dirs, so_far, events.last().1 as nat);
    }
}

/// Leaving directories completes these and no other.
pub proof fn law_only_left_directories_complete(
    dirs: Seq<(SpelledView, u64)>,
    scan: ScanView,
    depth: nat,
    path: PathView,
)
    requires
        unwound(dirs, scan, depth).1.completed.contains(path),
        !scan.completed.contains(path),
    ensures
        exists|j: int| depth <= j < dirs.len() && (#[trigger] dirs[j]).0.at == path,
    decreases dirs.len(),
{
    if dirs.len() > depth {
        let last = dirs[dirs.len() - 1];
        if last.0.at != path {
            let rest = added_to_top(dirs.drop_last(), dirs.last().1);
            law_only_left_directories_complete(rest, left(scan, dirs.last()), depth, path);
            let j = choose|j: int| depth <= j < rest.len() && (#[trigger] rest[j]).0.at == path;
            assert(dirs[j].0 == rest[j].0);
        }
    }
}

/// What is shown of a walk on its way: each directory that it is in has what
/// was met in it so far, at any depth; the others keep what they have.
pub proof fn law_open_directories_show_their_files(
    sizes: Map<PathView, u64>,
    dirs: Seq<(SpelledView, u64)>,
    below: nat,
    path: PathView,
)
    requires
        below + stack_sum(dirs) <= u64::MAX,
        forall|i: int, j: int|
            0 <= i < j < dirs.len() ==> (#[trigger] dirs[i]).0.at != (#[trigger] dirs[j]).0.at,
    ensures
        ({
            let shown = sizes_so_far(sizes, dirs, below);
            &&& forall|k: int|
                0 <= k < dirs.len() ==> shown.contains_key((#[trigger] dirs[k]).0.at)
                    && shown[dirs[k].0.at] == below + sum_from(dirs, k)
            &&& (forall|k: int| 0 <= k < dirs.len() ==> (#[trigger] dirs[k]).0.at != path) ==> (
            shown.contains_key(path) <==> sizes.contains_key(path)) && (sizes.contains_key(path)
                ==> shown[path] == sizes[path])
        }),
    decreases dirs.len(),
{
    if dirs.len() > 0 {
        let rest = dirs.drop_last();
        let now = below + dirs.last().1 as nat;
        let next = sizes.insert(dirs.last().0.at, now as u64);
        assert forall|i: int, j: int| 0 <= i < j < rest.len() implies (
        #[trigger] rest[i]).0.at != (#[trigger] rest[j]).0.at by {
            assert(dirs[i].0.at != dirs[j].0.at);
        }
        law_open_directories_show_their_files(next, rest, now, path);
        let shown = sizes_so_far(sizes, dirs, below);
        let last = dirs.len() - 1;
        assert forall|k: int| 0 <= k < dirs.len() implies shown.contains_key(
            (#[trigger] dirs[k]).0.at,
        ) && shown[dirs[k].0.at] == below + sum_from(dirs, k) by {
            lemma_sum_from_facts(dirs, k);
            lemma_sum_from_facts(rest, k);
            if k < last {
                assert(rest[k] == dirs[k]);
            } else {
                assert forall|m: int| 0 <= m < rest.len() implies (#[trigger] rest[m]).0.at
                    != dirs[last].0.at by {
                    assert(dirs[m].0.at != dirs[last].0.at);
                }
                law_open_directories_show_their_files(next, rest, now, dirs[last].0.at);
            }
        }
        if forall|k: int| 0 <= k < dirs.len() ==> (#[trigger] dirs[k]).0.at != path {
            assert(dirs[last].0.at != path);
            assert forall|m: int| 0 <= m < rest.len() implies (#[trigger] rest[m]).0.at
                != path by {
                assert(dirs[m].0.at != path);
            }
        }
    }
}

/// What is met is turned down for want of room only where the bytes of the walk
/// or the number of its files would overflow.
pub proof fn law_walk_finds_room(
    scan: ScanView,
    events: Seq<(SpelledView, usize, Met)>,
    what: Met,
)
    requires
        length_sum(events) + (match what {
            Met::File { len } => len as nat,
            _ => 0,
        }) <= u64::MAX,
        scan.files_scanned + file_events(events) < u64::MAX,
    ensures
        walked(scan, events).0.met_fits(what),
{
    lemma_stack_within(scan, events);
    law_walk_counts_its_files(scan, events);
}

} // verus!
