//! What a benchmark of walks counts, with and without keeping sizes.
use vstd::prelude::*;
use vstd::string::StringExecFns;

use crate::path::FsPath;
use crate::path::SpelledView;
use crate::scan::ScanState;
use crate::scan::ScanView;
use crate::stack::add_to_top;
use crate::stack::leave_to;
use crate::stack::Met;
use crate::text::decimal;
use crate::util::format_fixed;
use crate::util::GB;
use crate::util::KB;
use crate::util::MB;
use crate::util::TB;

verus! {

/// After how many files the root's size so far is shown.
pub const SHOW_INTERVAL: u64 = 5000;

/// By how many slots the sizes grow beyond the directory that needs one.
pub const SLOT_STEP: usize = 1024;

/// The text of a byte count: two decimals from a gigabyte up, one below.
pub open spec fn size_text(bytes: nat) -> Seq<char> {
    if bytes >= TB {
        crate::util::fixed_text(bytes, TB as nat, 2) + " TB"@
    } else if bytes >= GB {
        crate::util::fixed_text(bytes, GB as nat, 2) + " GB"@
    } else if bytes >= MB {
        crate::util::fixed_text(bytes, MB as nat, 1) + " MB"@
    } else if bytes >= KB {
        crate::util::fixed_text(bytes, KB as nat, 1) + " KB"@
    } else {
        crate::text::decimal_text(bytes) + " B"@
    }
}

/// A byte count as text: two decimals from a gigabyte up, one below.
pub fn format_size(bytes: u64) -> (r: String)
    ensures
        r@ == size_text(bytes as nat),
{
    if bytes >= TB {
        format_fixed(bytes, TB, 2).concat(" TB")
    } else if bytes >= GB {
        format_fixed(bytes, GB, 2).concat(" GB")
    } else if bytes >= MB {
        format_fixed(bytes, MB, 1).concat(" MB")
    } else if bytes >= KB {
        format_fixed(bytes, KB, 1).concat(" KB")
    } else {
        decimal(bytes).concat(" B")
    }
}

/// How much a walk has met.
#[derive(Clone, Copy, Debug, PartialEq, Eq)]
pub struct Tally {
    pub files: u64,
    pub dirs: u64,
    pub bytes: u64,
}

impl Tally {
    /// Nothing met.
    pub open spec fn nothing() -> Tally {
        Tally { files: 0, dirs: 0, bytes: 0 }
    }

    /// With one more thing met.
    pub open spec fn counting(self, what: Met) -> Tally {
        match what {
            Met::Dir => Tally { dirs: (self.dirs + 1) as u64, ..self },
            Met::File { len } => Tally {
                files: (self.files + 1) as u64,
                bytes: (self.bytes + len) as u64,
                ..self
            },
            Met::Other => self,
        }
    }

    /// Whether no counter overflows when something is met.
    pub open spec fn counting_fits(self, what: Met) -> bool {
        match what {
            Met::Dir => self.dirs < u64::MAX,
            Met::File { len } => self.files < u64::MAX && self.bytes + len <= u64::MAX,
            Met::Other => true,
        }
    }

    /// Nothing met.
    pub fn new() -> (r: Tally)
        ensures
            r == Tally::nothing(),
    {
        Tally { files: 0, dirs: 0, bytes: 0 }
    }

    /// Whether [`Tally::count`] overflows no counter.
    pub fn has_room(&self, what: Met) -> (r: bool)
        ensures
            r == self.counting_fits(what),
    {
        match what {
            Met::Dir => self.dirs < u64::MAX,
            Met::File { len } => self.files < u64::MAX && self.bytes <= u64::MAX - len,
            Met::Other => true,
        }
    }

    /// Counts one more thing. A walk that reads no sizes has files of length 0.
    pub fn count(&mut self, what: Met)
        requires
            old(self).counting_fits(what),
        ensures
            *final(self) == old(self).counting(what),
    {
        match what {
            Met::Dir => {
                self.dirs += 1;
            },
            Met::File { len } => {
                self.files += 1;
                self.bytes += len;
            },
            Met::Other => {},
        }
    }

    /// The text of a tally.
    pub open spec fn text(self) -> Seq<char> {
        "  Files: "@ + crate::text::decimal_text(self.files as nat) + ", Dirs: "@
            + crate::text::decimal_text(self.dirs as nat) + ", Bytes: "@ + size_text(
            self.bytes as nat,
        )
    }

    /// The line that tells how much was met.
    pub fn describe(&self) -> (r: String)
        ensures
            r@ == self.text(),
    {
        String::from_str("  Files: ").concat(decimal(self.files).as_str()).concat(
            ", Dirs: ",
        ).concat(decimal(self.dirs).as_str()).concat(", Bytes: ").concat(
            format_size(self.bytes).as_str(),
        )
    }

    /// Adds what another walk has met.
    pub fn merge(&mut self, other: Tally)
        ensures
            *final(self) == (Tally {
                files: old(self).files.wrapping_add(other.files),
                dirs: old(self).dirs.wrapping_add(other.dirs),
                bytes: old(self).bytes.wrapping_add(other.bytes),
            }),
    {
        self.files = self.files.wrapping_add(other.files);
        self.dirs = self.dirs.wrapping_add(other.dirs);
        self.bytes = self.bytes.wrapping_add(other.bytes);
    }
}

/// A walk that keeps the size of every directory by path.
#[verifier::ext_equal]
pub struct PathWalkView {
    pub dirs: Seq<(SpelledView, u64)>,
    pub tally: Tally,
}

/// A walk that keeps the size of every directory by path.
pub struct PathWalk {
    pub dirs: Vec<(FsPath, u64)>,
    pub tally: Tally,
}

impl View for PathWalk {
    type V = PathWalkView;

    open spec fn view(&self) -> PathWalkView {
        PathWalkView { dirs: crate::stack::dir_views(self.dirs@), tally: self.tally }
    }
}

impl PathWalkView {
    /// The walk and the sizes after something was met. The root's size so far
    /// is shown from time to time.
    pub open spec fn met(
        self,
        scan: ScanView,
        path: SpelledView,
        depth: usize,
        what: Met,
    ) -> (PathWalkView, ScanView) {
        let (dirs, after) = crate::stack::unwound(self.dirs, scan, depth as nat);
        let tally = self.tally.counting(what);
        match what {
            Met::Dir => (PathWalkView { dirs: dirs.push((path, 0)), tally }, after),
            Met::Other => (PathWalkView { dirs, tally }, after),
            Met::File { len } => {
                let grown = crate::stack::added_to_top(dirs, len);
                (
                    PathWalkView { dirs: grown, tally },
                    if tally.files % SHOW_INTERVAL == 0 && grown.len() > 0 {
                        ScanView {
                            dir_sizes: after.dir_sizes.insert(
                                grown[0].0.at,
                                crate::stack::stack_sum(grown) as u64,
                            ),
                            size_names: crate::scan::name_kept(after.size_names, grown[0].0),
                            ..after
                        }
                    } else {
                        after
                    },
                )
            },
        }
    }

    /// Whether no counter overflows when something is met.
    pub open spec fn met_fits(self, what: Met) -> bool {
        &&& self.tally.counting_fits(what)
        &&& match what {
            Met::File { len } => crate::stack::stack_sum(self.dirs) + len <= u64::MAX,
            _ => crate::stack::stack_sum(self.dirs) <= u64::MAX,
        }
    }
}

fn sum_of_stack(dirs: &Vec<(FsPath, u64)>, extra: u64) -> (r: Option<u64>)
    ensures
        match r {
            Some(sum) => sum == extra + crate::stack::stack_sum(
                crate::stack::dir_views(dirs@),
            ),
            None => extra + crate::stack::stack_sum(crate::stack::dir_views(dirs@)) > u64::MAX,
        },
{
    let ghost views = crate::stack::dir_views(dirs@);
    let mut sum: u64 = extra;
    let mut i: usize = 0;
    while i < dirs.len()
        invariant
            i <= dirs@.len(),
            views == crate::stack::dir_views(dirs@),
            sum == extra + crate::stack::stack_sum(views.take(i as int)),
        decreases dirs@.len() - i,
    {
        assert(views.take(i + 1).drop_last() =~= views.take(i as int));
        assert(views.take(i + 1).last() == (dirs@[i as int].0.named(), dirs@[i as int].1));
        if sum > u64::MAX - dirs[i].1 {
            proof {
                crate::stack::lemma_sum_grows(views, i + 1);
            }
            return None;
        }
        sum += dirs[i].1;
        i += 1;
    }
    assert(views.take(views.len() as int) =~= views);
    Some(sum)
}

impl PathWalk {
    /// A walk that has met nothing.
    pub fn new() -> (r: PathWalk)
        ensures
            r@ == (PathWalkView { dirs: Seq::empty(), tally: Tally::nothing() }),
    {
        let r = PathWalk { dirs: Vec::new(), tally: Tally::new() };
        assert(r@.dirs =~= Seq::<(SpelledView, u64)>::empty());
        r
    }

    /// Whether [`PathWalk::visit`] overflows no counter.
    pub fn visit_has_room(&self, what: Met) -> (r: bool)
        ensures
            r == self@.met_fits(what),
    {
        let extra: u64 = match what {
            Met::File { len } => len,
            _ => 0,
        };
        self.tally.has_room(what) && sum_of_stack(&self.dirs, extra).is_some()
    }

    /// Takes in what was met at `path`, `depth` below the root of the walk.
    pub fn visit(&mut self, scan: &mut ScanState, path: FsPath, depth: usize, what: Met)
        requires
            old(self)@.met_fits(what),
        ensures
            (final(self)@, final(scan)@) == old(self)@.met(
                old(scan)@,
                path.named(),
                depth,
                what,
            ),
    {
        proof {
            crate::stack::lemma_unwound_facts(self@.dirs, scan@, depth as nat);
        }
        leave_to(&mut self.dirs, scan, depth);
        self.tally.count(what);
        match what {
            Met::Other => {},
            Met::Dir => {
                let ghost before = self.dirs@;
                self.dirs.push((path, 0));
                assert(crate::stack::dir_views(self.dirs@) =~= crate::stack::dir_views(
                    before,
                ).push((path.named(), 0)));
            },
            Met::File { len } => {
                proof {
                    crate::stack::lemma_sum_of_grown(self@.dirs, len);
                }
                add_to_top(&mut self.dirs, len);
                if self.tally.files % SHOW_INTERVAL == 0 && self.dirs.len() > 0 {
                    let ghost before = scan@;
                    match sum_of_stack(&self.dirs, 0) {
                        Some(total) => {
                            scan.dir_sizes.insert(self.dirs[0].0.clone(), total);
                            assert(scan@ =~= (ScanView {
                                dir_sizes: before.dir_sizes.insert(self@.dirs[0].0.at, total),
                                size_names: crate::scan::name_kept(
                                    before.size_names,
                                    self@.dirs[0].0,
                                ),
                                ..before
                            }));
                        },
                        None => {},
                    }
                }
            },
        }
    }

    /// Ends the walk; the answer is how much it has met.
    pub fn finish(&mut self, scan: &mut ScanState) -> (r: Tally)
        requires
            crate::stack::stack_sum(old(self)@.dirs) <= u64::MAX,
        ensures
            r == old(self)@.tally,
            final(self)@ == (PathWalkView { dirs: Seq::empty(), ..old(self)@ }),
            final(scan)@ == crate::stack::unwound(old(self)@.dirs, old(scan)@, 0).1,
    {
        proof {
            crate::stack::lemma_unwound_facts(self@.dirs, scan@, 0);
        }
        leave_to(&mut self.dirs, scan, 0);
        assert(self@.dirs =~= Seq::<(SpelledView, u64)>::empty());
        self.tally
    }
}

/// The sizes of directories by number, and the next number.
#[verifier::ext_equal]
pub struct SlotsView {
    pub next: u64,
    pub sizes: Seq<u64>,
}

/// The sizes of directories by number, and the next number.
#[derive(Debug)]
pub struct Slots {
    pub next: u64,
    pub sizes: Vec<u64>,
}

impl View for Slots {
    type V = SlotsView;

    open spec fn view(&self) -> SlotsView {
        SlotsView { next: self.next, sizes: self.sizes@ }
    }
}

/// The sum of the sizes on a stack of numbers.
pub open spec fn slot_sum(dirs: Seq<(usize, u64)>) -> nat
    decreases dirs.len(),
{
    if dirs.len() == 0 {
        0
    } else {
        slot_sum(dirs.drop_last()) + dirs.last().1 as nat
    }
}

/// A stack of numbers with `size` added to its top, if it has one.
pub open spec fn slot_grown(dirs: Seq<(usize, u64)>, size: u64) -> Seq<(usize, u64)> {
    if dirs.len() == 0 {
        dirs
    } else {
        dirs.drop_last().push((dirs.last().0, (dirs.last().1 + size) as u64))
    }
}

/// The sizes with that of a directory that the walk has left, if there is a
/// slot for it.
pub open spec fn slot_set(sizes: Seq<u64>, dir: (usize, u64)) -> Seq<u64> {
    if dir.0 < sizes.len() {
        sizes.update(dir.0 as int, dir.1)
    } else {
        sizes
    }
}

/// The stack and the sizes once the walk has left all but `depth` directories.
pub open spec fn slots_unwound(
    dirs: Seq<(usize, u64)>,
    sizes: Seq<u64>,
    depth: nat,
) -> (Seq<(usize, u64)>, Seq<u64>)
    decreases dirs.len(),
{
    if dirs.len() <= depth {
        (dirs, sizes)
    } else {
        slots_unwound(
            slot_grown(dirs.drop_last(), dirs.last().1),
            slot_set(sizes, dirs.last()),
            depth,
        )
    }
}

/// The sizes with a slot for number `id`: some more than that, where there was
/// none.
pub open spec fn slots_for(sizes: Seq<u64>, id: nat) -> Seq<u64> {
    if id < sizes.len() {
        sizes
    } else {
        sizes + Seq::new((id + SLOT_STEP - sizes.len()) as nat, |i: int| 0u64)
    }
}

/// A walk that keeps the size of every directory by number.
#[verifier::ext_equal]
pub struct SlotWalkView {
    pub dirs: Seq<(usize, u64)>,
    pub tally: Tally,
}

/// A walk that keeps the size of every directory by number.
#[derive(Debug)]
pub struct SlotWalk {
    pub dirs: Vec<(usize, u64)>,
    pub tally: Tally,
}

impl View for SlotWalk {
    type V = SlotWalkView;

    open spec fn view(&self) -> SlotWalkView {
        SlotWalkView { dirs: self.dirs@, tally: self.tally }
    }
}

impl SlotWalkView {
    /// The walk and the sizes after something was met.
    pub open spec fn met(
        self,
        slots: SlotsView,
        depth: usize,
        what: Met,
    ) -> (SlotWalkView, SlotsView) {
        let (dirs, sizes) = slots_unwound(self.dirs, slots.sizes, depth as nat);
        let tally = self.tally.counting(what);
        match what {
            Met::Dir => (
                SlotWalkView { dirs: dirs.push((slots.next as usize, 0)), tally },
                SlotsView {
                    next: (slots.next + 1) as u64,
                    sizes: slots_for(sizes, slots.next as nat),
                },
            ),
            Met::File { len } => (
                SlotWalkView { dirs: slot_grown(dirs, len), tally },
                SlotsView { sizes, ..slots },
            ),
            Met::Other => (SlotWalkView { dirs, tally }, SlotsView { sizes, ..slots }),
        }
    }

    /// Whether no counter overflows when something is met.
    pub open spec fn met_fits(self, slots: SlotsView, what: Met) -> bool {
        &&& self.tally.counting_fits(what)
        &&& match what {
            Met::File { len } => slot_sum(self.dirs) + len <= u64::MAX,
            Met::Dir => slot_sum(self.dirs) <= u64::MAX && slots.next < u64::MAX && slots.next
                + SLOT_STEP <= usize::MAX,
            Met::Other => slot_sum(self.dirs) <= u64::MAX,
        }
    }
}

proof fn lemma_slot_grown(dirs: Seq<(usize, u64)>, size: u64)
    requires
        slot_sum(dirs) + size <= u64::MAX,
    ensures
        dirs.len() > 0 ==> slot_sum(slot_grown(dirs, size)) == slot_sum(dirs) + size,
        dirs.len() == 0 ==> slot_sum(slot_grown(dirs, size)) == 0,
        dirs.len() > 0 ==> dirs.last().1 + size <= u64::MAX,
{
    if dirs.len() > 0 {
        assert(slot_grown(dirs, size).drop_last() =~= dirs.drop_last());
    }
}

proof fn lemma_slots_unwound(dirs: Seq<(usize, u64)>, sizes: Seq<u64>, depth: nat)
    requires
        slot_sum(dirs) <= u64::MAX,
    ensures
        slot_sum(slots_unwound(dirs, sizes, depth).0) <= slot_sum(dirs),
        slots_unwound(dirs, sizes, depth).0.len() == if dirs.len() <= depth {
            dirs.len()
        } else {
            depth
        },
        slots_unwound(dirs, sizes, depth).1.len() == sizes.len(),
    decreases dirs.len(),
{
    if dirs.len() > depth {
        lemma_slot_grown(dirs.drop_last(), dirs.last().1);
        lemma_slots_unwound(
            slot_grown(dirs.drop_last(), dirs.last().1),
            slot_set(sizes, dirs.last()),
            depth,
        );
    }
}

proof fn lemma_slot_sum_grows(dirs: Seq<(usize, u64)>, n: int)
    requires
        0 <= n <= dirs.len(),
    ensures
        slot_sum(dirs.take(n)) <= slot_sum(dirs),
    decreases dirs.len(),
{
    if n == dirs.len() {
        assert(dirs.take(n) =~= dirs);
    } else {
        lemma_slot_sum_grows(dirs.drop_last(), n);
        assert(dirs.drop_last().take(n) =~= dirs.take(n));
    }
}

fn slot_add(dirs: &mut Vec<(usize, u64)>, size: u64)
    requires
        slot_sum(old(dirs)@) + size <= u64::MAX,
    ensures
        final(dirs)@ == slot_grown(old(dirs)@, size),
{
    let ghost before = dirs@;
    proof {
        lemma_slot_grown(before, size);
    }
    match dirs.pop() {
        None => {},
        Some((id, so_far)) => {
            dirs.push((id, so_far + size));
        },
    }
    assert(dirs@ =~= slot_grown(before, size));
}

impl SlotWalk {
    /// A walk that has met nothing.
    pub fn new() -> (r: SlotWalk)
        ensures
            r@ == (SlotWalkView { dirs: Seq::empty(), tally: Tally::nothing() }),
    {
        let r = SlotWalk { dirs: Vec::new(), tally: Tally::new() };
        assert(r@.dirs =~= Seq::<(usize, u64)>::empty());
        r
    }

    /// Whether [`SlotWalk::visit`] overflows no counter.
    pub fn visit_has_room(&self, slots: &Slots, what: Met) -> (r: bool)
        ensures
            r == self@.met_fits(slots@, what),
    {
        let mut sum: u64 = match what {
            Met::File { len } => len,
            _ => 0,
        };
        let ghost extra = sum as nat;
        let mut i: usize = 0;
        while i < self.dirs.len()
            invariant
                i <= self.dirs@.len(),
                extra == match what {
                    Met::File { len } => len as nat,
                    _ => 0,
                },
                sum == extra + slot_sum(self.dirs@.take(i as int)),
            decreases self.dirs@.len() - i,
        {
            assert(self.dirs@.take(i + 1).drop_last() =~= self.dirs@.take(i as int));
            if sum > u64::MAX - self.dirs[i].1 {
                proof {
                    lemma_slot_sum_grows(self.dirs@, i + 1);
                }
                return false;
            }
            sum += self.dirs[i].1;
            i += 1;
        }
        assert(self.dirs@.take(self.dirs@.len() as int) =~= self.dirs@);
        let numbered: bool = match what {
            Met::Dir => slots.next < u64::MAX && slots.next <= (usize::MAX - SLOT_STEP) as u64,
            _ => true,
        };
        self.tally.has_room(what) && numbered
    }

    fn leave_to(&mut self, slots: &mut Slots, depth: usize)
        requires
            slot_sum(old(self)@.dirs) <= u64::MAX,
        ensures
            ({
                let (dirs, sizes) = slots_unwound(
                    old(self)@.dirs,
                    old(slots)@.sizes,
                    depth as nat,
                );
                &&& final(self)@ == (SlotWalkView { dirs, ..old(self)@ })
                &&& final(slots)@ == (SlotsView { sizes, ..old(slots)@ })
            }),
    {
        let ghost start = self@;
        let ghost start_slots = slots@;
        while self.dirs.len() > depth
            invariant
                slot_sum(self@.dirs) <= u64::MAX,
                slots_unwound(self@.dirs, slots@.sizes, depth as nat) == slots_unwound(
                    start.dirs,
                    start_slots.sizes,
                    depth as nat,
                ),
                self@ == (SlotWalkView { dirs: self@.dirs, ..start }),
                slots@ == (SlotsView { sizes: slots@.sizes, ..start_slots }),
            decreases self.dirs@.len(),
        {
            let ghost before = self@.dirs;
            let ghost sizes_before = slots@.sizes;
            let (id, size) = self.dirs.pop().unwrap();
            proof {
                assert(before.last() == (id, size));
                assert(self@.dirs =~= before.drop_last());
                lemma_slot_grown(before.drop_last(), size);
            }
            if id < slots.sizes.len() {
                slots.sizes.set(id, size);
            }
            assert(slots@.sizes =~= slot_set(sizes_before, before.last()));
            slot_add(&mut self.dirs, size);
        }
    }

    /// Takes in what was met, `depth` below the root of the walk.
    pub fn visit(&mut self, slots: &mut Slots, depth: usize, what: Met)
        requires
            old(self)@.met_fits(old(slots)@, what),
        ensures
            (final(self)@, final(slots)@) == old(self)@.met(old(slots)@, depth, what),
    {
        proof {
            lemma_slots_unwound(self@.dirs, slots@.sizes, depth as nat);
        }
        self.leave_to(slots, depth);
        self.tally.count(what);
        match what {
            Met::Other => {},
            Met::Dir => {
                let id: usize = slots.next as usize;
                slots.next += 1;
                if id >= slots.sizes.len() {
                    let ghost before = slots.sizes@;
                    slots.sizes.resize(id + SLOT_STEP, 0);
                    assert forall|i: int| 0 <= i < before.len() implies slots.sizes@[i]
                        == before[i] by {
                        assert(slots.sizes@.subrange(0, before.len() as int)[i] == before[i]);
                    }
                    assert(slots.sizes@ =~= slots_for(before, id as nat));
                }
                self.dirs.push((id, 0));
            },
            Met::File { len } => {
                slot_add(&mut self.dirs, len);
            },
        }
    }

    /// Ends the walk; the answer is how much it has met.
    pub fn finish(&mut self, slots: &mut Slots) -> (r: Tally)
        requires
            slot_sum(old(self)@.dirs) <= u64::MAX,
        ensures
            r == old(self)@.tally,
            final(self)@ == (SlotWalkView { dirs: Seq::empty(), ..old(self)@ }),
            final(slots)@ == (SlotsView {
                sizes: slots_unwound(old(self)@.dirs, old(slots)@.sizes, 0).1,
                ..old(slots)@
            }),
    {
        proof {
            lemma_slots_unwound(self@.dirs, slots@.sizes, 0);
        }
        self.leave_to(slots, 0);
        assert(self@.dirs =~= Seq::<(usize, u64)>::empty());
        self.tally
    }
}

/// Whether two stacks hold the same sizes.
pub open spec fn same_sizes(paths: Seq<(SpelledView, u64)>, slots: Seq<(usize, u64)>) -> bool {
    &&& paths.len() == slots.len()
    &&& forall|i: int| 0 <= i < paths.len() ==> (#[trigger] paths[i]).1 == slots[i].1
}

proof fn lemma_unwinding_alike(
    paths: Seq<(SpelledView, u64)>,
    scan: ScanView,
    slots: Seq<(usize, u64)>,
    sizes: Seq<u64>,
    depth: nat,
)
    requires
        same_sizes(paths, slots),
    ensures
        same_sizes(
            crate::stack::unwound(paths, scan, depth).0,
            slots_unwound(slots, sizes, depth).0,
        ),
    decreases paths.len(),
{
    if paths.len() > depth {
        assert(paths[paths.len() - 1].1 == slots[slots.len() - 1].1);
        let a = crate::stack::added_to_top(paths.drop_last(), paths.last().1);
        let b = slot_grown(slots.drop_last(), slots.last().1);
        if paths.len() > 1 {
            assert(paths[paths.len() - 2].1 == slots[slots.len() - 2].1);
        }
        assert forall|i: int| 0 <= i < a.len() implies (#[trigger] a[i]).1 == b[i].1 by {
            assert(paths[i].1 == slots[i].1);
        }
        lemma_unwinding_alike(
            a,
            crate::stack::left(scan, paths.last()),
            b,
            slot_set(sizes, slots.last()),
            depth,
        );
    }
}

/// A walk that keeps sizes by path and one that keeps them by number agree:
/// whatever both meet, they have counted the same and their stacks hold the
/// same sizes.
pub proof fn law_walks_agree(
    by_path: PathWalkView,
    scan: ScanView,
    path: SpelledView,
    by_number: SlotWalkView,
    slots: SlotsView,
    depth: usize,
    what: Met,
)
    requires
        same_sizes(by_path.dirs, by_number.dirs),
        by_path.tally == by_number.tally,
    ensures
        ({
            let a = by_path.met(scan, path, depth, what).0;
            let b = by_number.met(slots, depth, what).0;
            same_sizes(a.dirs, b.dirs) && a.tally == b.tally
        }),
{
    lemma_unwinding_alike(by_path.dirs, scan, by_number.dirs, slots.sizes, depth as nat);
    let a = crate::stack::unwound(by_path.dirs, scan, depth as nat).0;
    let b = slots_unwound(by_number.dirs, slots.sizes, depth as nat).0;
    if a.len() > 0 {
        assert(a[a.len() - 1].1 == b[b.len() - 1].1);
    }
    let met_a = by_path.met(scan, path, depth, what).0.dirs;
    let met_b = by_number.met(slots, depth, what).0.dirs;
    assert forall|i: int| 0 <= i < met_a.len() implies (#[trigger] met_a[i]).1 == met_b[i].1 by {
        if i < a.len() {
            assert(a[i].1 == b[i].1);
        }
    }
}

/// A tally has one file more with its bytes, or one directory more, and
/// nothing else.
pub proof fn law_tally_adds_one(tally: Tally, what: Met)
    requires
        tally.counting_fits(what),
    ensures
        ({
            let after = tally.counting(what);
            &&& what is File ==> after.files == tally.files + 1 && after.bytes == tally.bytes
                + what->len && after.dirs == tally.dirs
            &&& what is Dir ==> after.dirs == tally.dirs + 1 && after.files == tally.files
                && after.bytes == tally.bytes
            &&& what is Other ==> after == tally
        }),
        Tally::nothing().files == 0 && Tally::nothing().dirs == 0 && Tally::nothing().bytes == 0,
{
}

/// A tally is turned down for want of room only where a counter would overflow.
pub proof fn law_tally_finds_room(tally: Tally, what: Met)
    requires
        tally.files < u64::MAX,
        tally.dirs < u64::MAX,
        what is File ==> tally.bytes + what->len <= u64::MAX,
    ensures
        tally.counting_fits(what),
{
}

/// A walk that keeps sizes by path holds the stack that any walk of a subtree
/// holds. From time to time its root is shown with all that was met so far;
/// else it tells the scan what any such walk does.
pub proof fn law_path_walk_is_a_subtree_walk(
    walk: PathWalkView,
    scan: ScanView,
    path: SpelledView,
    depth: usize,
    what: Met,
)
    requires
        walk.met_fits(what),
    ensures
        ({
            let subtree = crate::stack::StackView { dirs: walk.dirs, count: 0, errors: 0 };
            let (after, seen) = walk.met(scan, path, depth, what);
            let left = crate::stack::unwound(walk.dirs, scan, depth as nat).1;
            &&& after.dirs == subtree.met(scan, path, depth, what).0.dirs
            &&& !(what is File && (walk.tally.files + 1) % 5000 == 0 && after.dirs.len() > 0)
                ==> seen == left
            &&& what is File && (walk.tally.files + 1) % 5000 == 0 && after.dirs.len() > 0 ==> {
                &&& seen.dir_sizes == left.dir_sizes.insert(
                    after.dirs[0].0.at,
                    crate::stack::stack_sum(after.dirs) as u64,
                )
                &&& seen == (ScanView {
                    dir_sizes: seen.dir_sizes,
                    size_names: seen.size_names,
                    ..left
                })
            }
        }),
{
}

proof fn lemma_slots_keep_others(
    dirs: Seq<(usize, u64)>,
    sizes: Seq<u64>,
    depth: nat,
    id: int,
)
    requires
        0 <= id < sizes.len(),
        forall|j: int| 0 <= j < dirs.len() ==> (#[trigger] dirs[j]).0 != id,
    ensures
        slots_unwound(dirs, sizes, depth).1.len() == sizes.len(),
        slots_unwound(dirs, sizes, depth).1[id] == sizes[id],
    decreases dirs.len(),
{
    if dirs.len() > depth {
        let rest = slot_grown(dirs.drop_last(), dirs.last().1);
        assert(dirs[dirs.len() - 1].0 != id);
        assert forall|j: int| 0 <= j < rest.len() implies (#[trigger] rest[j]).0 != id by {
            assert(dirs[j].0 != id);
        }
        lemma_slots_keep_others(rest, slot_set(sizes, dirs.last()), depth, id);
    }
}

/// A directory that is left has in its slot the size that a walk by path has
/// for it.
pub proof fn law_slots_hold_the_sizes(
    paths: Seq<(SpelledView, u64)>,
    scan: ScanView,
    slots: Seq<(usize, u64)>,
    sizes: Seq<u64>,
    depth: nat,
    k: int,
)
    requires
        same_sizes(paths, slots),
        crate::stack::stack_sum(paths) <= u64::MAX,
        depth <= k < paths.len(),
        forall|i: int, j: int|
            0 <= i < j < paths.len() ==> (#[trigger] paths[i]).0.at != (#[trigger] paths[j]).0.at,
        forall|i: int, j: int|
            0 <= i < j < slots.len() ==> (#[trigger] slots[i]).0 != (#[trigger] slots[j]).0,
        forall|i: int| 0 <= i < slots.len() ==> (#[trigger] slots[i]).0 < sizes.len(),
    ensures
        ({
            let after = crate::stack::unwound(paths, scan, depth).1;
            let filled = slots_unwound(slots, sizes, depth).1;
            &&& filled.len() == sizes.len()
            &&& filled[slots[k].0 as int] == crate::scan::size_in(
                after.dir_sizes,
                paths[k].0.at,
            )
        }),
    decreases paths.len(),
{
    let last = paths.len() - 1;
    let a = crate::stack::added_to_top(paths.drop_last(), paths.last().1);
    let b = slot_grown(slots.drop_last(), slots.last().1);
    let next = crate::stack::left(scan, paths.last());
    let set = slot_set(sizes, slots.last());
    crate::stack::lemma_sum_of_grown(paths.drop_last(), paths.last().1);
    assert(paths[last].1 == slots[last].1);
    if paths.len() > 1 {
        assert(paths[last - 1].1 == slots[last - 1].1);
    }
    assert forall|i: int| 0 <= i < a.len() implies (#[trigger] a[i]).1 == b[i].1 && a[i].0
        == paths[i].0 && b[i].0 == slots[i].0 by {
        assert(paths[i].1 == slots[i].1);
    }
    assert(set.len() == sizes.len()) by {
        assert(slots[last].0 < sizes.len());
    }
    if k < last {
        assert forall|i: int, j: int| 0 <= i < j < a.len() implies (#[trigger] a[i]).0.at != (
        #[trigger] a[j]).0.at by {
            assert(paths[i].0.at != paths[j].0.at);
        }
        assert forall|i: int, j: int| 0 <= i < j < b.len() implies (#[trigger] b[i]).0 != (
        #[trigger] b[j]).0 by {
            assert(a[i].0 == paths[i].0 && a[j].0 == paths[j].0);
            assert(slots[i].0 != slots[j].0);
        }
        assert forall|i: int| 0 <= i < b.len() implies (#[trigger] b[i]).0 < set.len() by {
            assert(a[i].0 == paths[i].0);
            assert(slots[i].0 < sizes.len());
        }
        law_slots_hold_the_sizes(a, next, b, set, depth, k);
        assert(a[k].0 == paths[k].0);
    } else {
        assert forall|j: int| 0 <= j < b.len() implies (#[trigger] b[j]).0 != slots[last].0 by {
            assert(a[j].0 == paths[j].0);
            assert(slots[j].0 != slots[last].0);
        }
        lemma_slots_keep_others(b, set, depth, slots[last].0 as int);
        assert forall|j: int| 0 <= j < a.len() implies (#[trigger] a[j]).0.at
            != paths[last].0.at by {
            assert(paths[j].0.at != paths[last].0.at);
        }
        crate::stack::lemma_unwinding_keeps_others(a, next, depth, paths[last].0.at);
    }
}

/// A new directory has a slot of its own, with nothing in it yet, and the
/// others keep what they hold.
pub proof fn law_new_directory_has_a_slot(sizes: Seq<u64>, id: nat)
    requires
        id + 1024 <= usize::MAX,
    ensures
        ({
            let after = slots_for(sizes, id);
            &&& id < after.len()
            &&& sizes.len() <= after.len()
            &&& forall|k: int| 0 <= k < sizes.len() ==> after[k] == #[trigger] sizes[k]
            &&& forall|k: int| sizes.len() <= k < after.len() ==> #[trigger] after[k] == 0
        }),
{
}

/// Whether a text gives a number of units with two decimals: the hundredths of
/// a unit that it reads as are those nearest to `bytes`, up to what a double
/// leaves out.
pub open spec fn reads_as(text: Seq<char>, bytes: nat, unit: nat, name: Seq<char>) -> bool {
    exists|whole: Seq<char>, part: Seq<char>|
        {
            let parts = (100 * crate::text::number_in(whole) + crate::text::number_in(
                part,
            )) as int;
            &&& text == #[trigger] (whole + seq!['.'] + part) + name
            &&& crate::text::is_number(whole)
            &&& crate::text::is_number(part)
            &&& whole.len() > 0
            &&& part.len() == 2
            &&& 2 * (parts * unit - 100 * bytes) <= unit + 100 * 4096int
            &&& 2 * (100 * bytes - parts * unit) <= unit + 100 * 4096int
        }
}

proof fn lemma_fixed_text_reads(bytes: nat, unit: nat, name: Seq<char>)
    requires
        bytes <= u64::MAX,
        unit > 0,
    ensures
        reads_as(crate::util::fixed_text(bytes, unit, 2) + name, bytes, unit, name),
{
    crate::util::lemma_as_double(bytes);
    reveal_with_fuel(crate::util::power_of_ten, 3);
    let scaled = crate::util::rounded_quotient(crate::util::as_double(bytes) * 100, unit);
    crate::util::lemma_rounded(crate::util::as_double(bytes) * 100, unit);
    let whole = crate::text::decimal_text(scaled / 100);
    let part = crate::text::padded_digits(scaled, 2);
    crate::text::law_decimal_reads_back(scaled / 100);
    crate::text::law_last_digits_read_back(scaled, 2);
    assert(crate::util::fixed_text(bytes, unit, 2) == whole + seq!['.'] + part);
    let parts = (100 * crate::text::number_in(whole) + crate::text::number_in(part)) as int;
    assert(parts == scaled);
}

/// A size is given in the largest unit that it reaches: with two decimals from
/// a gigabyte up, else as it is given elsewhere.
pub proof fn law_size_is_given_in_its_unit(bytes: nat)
    requires
        bytes <= u64::MAX,
    ensures
        bytes < 1073741824 ==> size_text(bytes) == crate::util::size_text(bytes),
        1073741824 <= bytes < 1099511627776 ==> reads_as(
            size_text(bytes),
            bytes,
            1073741824,
            " GB"@,
        ),
        1099511627776 <= bytes ==> reads_as(size_text(bytes), bytes, 1099511627776, " TB"@),
{
    lemma_fixed_text_reads(bytes, 1073741824, " GB"@);
    lemma_fixed_text_reads(bytes, 1099511627776, " TB"@);
}

} // verus!
