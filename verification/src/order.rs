//! Stable ordering of listings.
//!
//! Rows are ranked by three things in turn: a pinned row comes before one that
//! is not, the heavier comes before the lighter, and the smaller text before
//! the larger. Rows of equal rank keep the order they had.
use vstd::prelude::*;

verus! {

/// What a row is ranked by.
#[verifier::ext_equal]
pub struct RankView {
    pub pinned: bool,
    pub weight: nat,
    pub text: Seq<u8>,
}

/// Whether `a` comes before `b` byte by byte; a proper prefix comes first.
pub open spec fn text_before(a: Seq<u8>, b: Seq<u8>) -> bool
    decreases a.len(),
{
    if b.len() == 0 {
        false
    } else if a.len() == 0 {
        true
    } else {
        a[0] < b[0] || (a[0] == b[0] && text_before(a.drop_first(), b.drop_first()))
    }
}

impl RankView {
    /// Whether this rank comes strictly before `other`.
    pub open spec fn before(self, other: RankView) -> bool {
        if self.pinned != other.pinned {
            self.pinned
        } else if self.weight != other.weight {
            self.weight > other.weight
        } else {
            text_before(self.text, other.text)
        }
    }
}

/// Whether place `a` goes before place `b`: by rank, and by place where the
/// ranks are equal.
pub open spec fn goes_before(ranks: Seq<RankView>, a: int, b: int) -> bool {
    ranks[a].before(ranks[b]) || (!ranks[b].before(ranks[a]) && a < b)
}

/// Whether `order` names each place of `ranks` once, in stable rank order.
pub open spec fn is_stable_order(ranks: Seq<RankView>, order: Seq<int>) -> bool {
    &&& order.len() == ranks.len()
    &&& forall|i: int| 0 <= i < order.len() ==> 0 <= #[trigger] order[i] < ranks.len()
    &&& forall|i: int, j: int|
        0 <= i < j < order.len() ==> goes_before(ranks, #[trigger] order[i], #[trigger] order[j])
}

/// The rows at the places that `order` names.
pub open spec fn picked<T>(rows: Seq<T>, order: Seq<int>) -> Seq<T> {
    Seq::new(order.len(), |i: int| rows[order[i]])
}

/// Whether `after` is `before` in stable rank order.
pub open spec fn stably_sorted<T>(
    before: Seq<T>,
    after: Seq<T>,
    rank: spec_fn(T) -> RankView,
) -> bool {
    exists|order: Seq<int>| #[trigger]
        is_stable_order(before.map_values(rank), order) && after == picked(before, order)
}

/// What a row is ranked by.
pub struct Rank {
    pub pinned: bool,
    pub weight: u64,
    pub text: Vec<u8>,
}

impl View for Rank {
    type V = RankView;

    open spec fn view(&self) -> RankView {
        RankView { pinned: self.pinned, weight: self.weight as nat, text: self.text@ }
    }
}

/// The views of a list of ranks.
pub open spec fn rank_views(ranks: Seq<Rank>) -> Seq<RankView> {
    Seq::new(ranks.len(), |i: int| ranks[i]@)
}

/// The places in `order` as integers.
pub open spec fn places(order: Seq<usize>) -> Seq<int> {
    Seq::new(order.len(), |i: int| order[i] as int)
}

proof fn lemma_text_before_is_strict(a: Seq<u8>)
    ensures
        !text_before(a, a),
    decreases a.len(),
{
    if a.len() > 0 {
        lemma_text_before_is_strict(a.drop_first());
    }
}

proof fn lemma_text_before_transitive(a: Seq<u8>, b: Seq<u8>, c: Seq<u8>)
    requires
        text_before(a, b),
        text_before(b, c),
    ensures
        text_before(a, c),
    decreases a.len(),
{
    if a.len() > 0 && a[0] == b[0] && b[0] == c[0] {
        lemma_text_before_transitive(a.drop_first(), b.drop_first(), c.drop_first());
    }
}

proof fn lemma_text_before_total(a: Seq<u8>, b: Seq<u8>)
    requires
        !text_before(a, b),
        !text_before(b, a),
    ensures
        a == b,
    decreases a.len(),
{
    if a.len() == 0 || b.len() == 0 {
        assert(a =~= b);
    } else {
        lemma_text_before_total(a.drop_first(), b.drop_first());
        assert(a =~= seq![a[0]] + a.drop_first());
        assert(b =~= seq![b[0]] + b.drop_first());
    }
}

proof fn lemma_before_transitive(a: RankView, b: RankView, c: RankView)
    ensures
        a.before(b) && b.before(c) ==> a.before(c),
        !a.before(a),
        a.before(b) ==> !b.before(a),
        !a.before(b) && !b.before(a) ==> a == b,
{
    lemma_text_before_is_strict(a.text);
    if text_before(a.text, b.text) && text_before(b.text, c.text) {
        lemma_text_before_transitive(a.text, b.text, c.text);
    }
    if text_before(a.text, b.text) && text_before(b.text, a.text) {
        lemma_text_before_transitive(a.text, b.text, a.text);
    }
    if !text_before(a.text, b.text) && !text_before(b.text, a.text) {
        lemma_text_before_total(a.text, b.text);
    }
}

/// Place order is transitive and total.
pub proof fn lemma_goes_before_is_an_order(ranks: Seq<RankView>, a: int, b: int, c: int)
    ensures
        goes_before(ranks, a, b) && goes_before(ranks, b, c) ==> goes_before(ranks, a, c),
        !goes_before(ranks, a, a),
        a != b ==> goes_before(ranks, a, b) != goes_before(ranks, b, a),
{
    lemma_before_transitive(ranks[a], ranks[b], ranks[c]);
    lemma_before_transitive(ranks[a], ranks[c], ranks[b]);
    lemma_before_transitive(ranks[b], ranks[a], ranks[c]);
    lemma_before_transitive(ranks[b], ranks[c], ranks[a]);
    lemma_before_transitive(ranks[c], ranks[a], ranks[b]);
    lemma_before_transitive(ranks[c], ranks[b], ranks[a]);
}

/// Computes [`text_before`].
fn text_comes_before(a: &Vec<u8>, b: &Vec<u8>) -> (r: bool)
    ensures
        r == text_before(a@, b@),
{
    let mut i: usize = 0;
    assert(a@.skip(0) =~= a@);
    assert(b@.skip(0) =~= b@);
    while i < a.len() && i < b.len() && a[i] == b[i]
        invariant
            i <= a.len(),
            i <= b.len(),
            text_before(a@, b@) == text_before(a@.skip(i as int), b@.skip(i as int)),
        decreases a.len() - i,
    {
        assert(a@.skip(i as int).drop_first() =~= a@.skip(i + 1));
        assert(b@.skip(i as int).drop_first() =~= b@.skip(i + 1));
        i += 1;
    }
    if i >= b.len() {
        false
    } else if i >= a.len() {
        true
    } else {
        assert(a@.skip(i as int)[0] == a@[i as int]);
        assert(b@.skip(i as int)[0] == b@[i as int]);
        a[i] < b[i]
    }
}

impl Rank {
    /// Whether this rank comes strictly before `other`.
    pub fn comes_before(&self, other: &Rank) -> (r: bool)
        ensures
            r == self@.before(other@),
    {
        if self.pinned != other.pinned {
            self.pinned
        } else if self.weight != other.weight {
            self.weight > other.weight
        } else {
            text_comes_before(&self.text, &other.text)
        }
    }
}

/// Whether `list` holds places from `lo` up to `hi` in rank order.
spec fn run_ok(ranks: Seq<RankView>, list: Seq<usize>, lo: int, hi: int) -> bool {
    &&& forall|i: int| 0 <= i < list.len() ==> lo <= #[trigger] list[i] < hi
    &&& forall|i: int, j: int|
        0 <= i < j < list.len() ==> goes_before(
            ranks,
            #[trigger] list[i] as int,
            #[trigger] list[j] as int,
        )
}

/// Merges two runs, the first with smaller places.
fn merge_runs(ranks: &Vec<Rank>, a: &Vec<usize>, b: &Vec<usize>, Ghost(lo): Ghost<int>, Ghost(
    mid,
): Ghost<int>, Ghost(hi): Ghost<int>) -> (r: Vec<usize>)
    requires
        0 <= lo <= mid <= hi <= ranks.len(),
        a@.len() == mid - lo,
        b@.len() == hi - mid,
        run_ok(rank_views(ranks@), a@, lo, mid),
        run_ok(rank_views(ranks@), b@, mid, hi),
    ensures
        r@.len() == hi - lo,
        run_ok(rank_views(ranks@), r@, lo, hi),
{
    let ghost views = rank_views(ranks@);
    let mut out: Vec<usize> = Vec::new();
    let mut i: usize = 0;
    let mut j: usize = 0;
    while i < a.len() || j < b.len()
        invariant
            i <= a.len(),
            j <= b.len(),
            0 <= lo <= mid <= hi <= ranks.len(),
            views == rank_views(ranks@),
            out@.len() == i + j,
            run_ok(views, a@, lo, mid),
            run_ok(views, b@, mid, hi),
            run_ok(views, out@, lo, hi),
            forall|m: int, n: int|
                0 <= m < out@.len() && i <= n < a@.len() ==> goes_before(
                    views,
                    #[trigger] out@[m] as int,
                    #[trigger] a@[n] as int,
                ),
            forall|m: int, n: int|
                0 <= m < out@.len() && j <= n < b@.len() ==> goes_before(
                    views,
                    #[trigger] out@[m] as int,
                    #[trigger] b@[n] as int,
                ),
        decreases a.len() - i + b.len() - j,
    {
        let take_first: bool = if j >= b.len() {
            true
        } else if i >= a.len() {
            false
        } else {
            assert(lo <= a@[i as int] < mid);
            assert(mid <= b@[j as int] < hi);
            let second_leads: bool = ranks[b[j]].comes_before(&ranks[a[i]]);
            proof {
                lemma_before_transitive(
                    views[a@[i as int] as int],
                    views[b@[j as int] as int],
                    views[b@[j as int] as int],
                );
                lemma_before_transitive(
                    views[b@[j as int] as int],
                    views[a@[i as int] as int],
                    views[b@[j as int] as int],
                );
            }
            !second_leads
        };
        let ghost earlier = out@;
        if take_first {
            let next: usize = a[i];
            out.push(next);
            proof {
                assert forall|n: int| j <= n < b@.len() implies goes_before(
                    views,
                    next as int,
                    #[trigger] b@[n] as int,
                ) by {
                    if n > j {
                        assert(goes_before(views, b@[j as int] as int, b@[n] as int));
                        lemma_goes_before_is_an_order(
                            views,
                            next as int,
                            b@[j as int] as int,
                            b@[n] as int,
                        );
                    }
                }
                assert forall|m: int, n: int|
                    0 <= m < out@.len() && i + 1 <= n < a@.len() implies goes_before(
                    views,
                    #[trigger] out@[m] as int,
                    #[trigger] a@[n] as int,
                ) by {
                    if m < earlier.len() {
                        assert(out@[m] == earlier[m]);
                    } else {
                        assert(goes_before(views, a@[i as int] as int, a@[n] as int));
                    }
                }
                assert forall|m: int, n: int|
                    0 <= m < out@.len() && j <= n < b@.len() implies goes_before(
                    views,
                    #[trigger] out@[m] as int,
                    #[trigger] b@[n] as int,
                ) by {
                    if m < earlier.len() {
                        assert(out@[m] == earlier[m]);
                    }
                }
            }
            i += 1;
        } else {
            let next: usize = b[j];
            out.push(next);
            proof {
                assert forall|n: int| i <= n < a@.len() implies goes_before(
                    views,
                    next as int,
                    #[trigger] a@[n] as int,
                ) by {
                    if n > i {
                        assert(goes_before(views, a@[i as int] as int, a@[n] as int));
                        lemma_goes_before_is_an_order(
                            views,
                            next as int,
                            a@[i as int] as int,
                            a@[n] as int,
                        );
                    }
                }
                assert forall|m: int, n: int|
                    0 <= m < out@.len() && i <= n < a@.len() implies goes_before(
                    views,
                    #[trigger] out@[m] as int,
                    #[trigger] a@[n] as int,
                ) by {
                    if m < earlier.len() {
                        assert(out@[m] == earlier[m]);
                    }
                }
                assert forall|m: int, n: int|
                    0 <= m < out@.len() && j + 1 <= n < b@.len() implies goes_before(
                    views,
                    #[trigger] out@[m] as int,
                    #[trigger] b@[n] as int,
                ) by {
                    if m < earlier.len() {
                        assert(out@[m] == earlier[m]);
                    } else {
                        assert(goes_before(views, b@[j as int] as int, b@[n] as int));
                    }
                }
            }
            j += 1;
        }
    }
    out
}

/// The places from `lo` up to `hi` in rank order.
fn sorted_run(ranks: &Vec<Rank>, lo: usize, hi: usize) -> (r: Vec<usize>)
    requires
        lo <= hi <= ranks.len(),
    ensures
        r@.len() == hi - lo,
        run_ok(rank_views(ranks@), r@, lo as int, hi as int),
    decreases hi - lo,
{
    let mut out: Vec<usize> = Vec::new();
    if hi - lo == 0 {
        return out;
    }
    if hi - lo == 1 {
        out.push(lo);
        return out;
    }
    let mid: usize = lo + (hi - lo) / 2;
    let a = sorted_run(ranks, lo, mid);
    let b = sorted_run(ranks, mid, hi);
    merge_runs(ranks, &a, &b, Ghost(lo as int), Ghost(mid as int), Ghost(hi as int))
}

/// The places of `ranks` in stable rank order.
pub fn stable_order(ranks: &Vec<Rank>) -> (r: Vec<usize>)
    ensures
        is_stable_order(rank_views(ranks@), places(r@)),
{
    let r = sorted_run(ranks, 0, ranks.len());
    let ghost views = rank_views(ranks@);
    let ghost order = places(r@);
    assert forall|i: int| 0 <= i < order.len() implies 0 <= #[trigger] order[i] < views.len() by {
        assert(0 <= r@[i] < ranks.len());
    }
    assert forall|i: int, j: int| 0 <= i < j < order.len() implies goes_before(
        views,
        #[trigger] order[i],
        #[trigger] order[j],
    ) by {
        assert(goes_before(views, r@[i] as int, r@[j] as int));
    }
    r
}

/// No place is named twice in a stable order.
pub proof fn lemma_order_has_no_duplicates(ranks: Seq<RankView>, order: Seq<int>)
    requires
        is_stable_order(ranks, order),
    ensures
        order.no_duplicates(),
{
    assert forall|i: int, j: int|
        0 <= i < order.len() && 0 <= j < order.len() && i != j implies order[i] != order[j] by {
        if i < j {
            assert(goes_before(ranks, order[i], order[j]));
            lemma_goes_before_is_an_order(ranks, order[i], order[i], order[i]);
        } else {
            assert(goes_before(ranks, order[j], order[i]));
            lemma_goes_before_is_an_order(ranks, order[j], order[j], order[j]);
        }
    }
}

/// Every place is named in a stable order.
pub proof fn lemma_order_names_every_place(ranks: Seq<RankView>, order: Seq<int>, place: int)
    requires
        is_stable_order(ranks, order),
        0 <= place < ranks.len(),
    ensures
        order.contains(place),
{
    lemma_order_has_no_duplicates(ranks, order);
    order.unique_seq_to_set();
    let all = vstd::set_lib::set_int_range(0, ranks.len() as int);
    vstd::set_lib::lemma_int_range(0, ranks.len() as int);
    assert forall|x: int| order.to_set().contains(x) implies all.contains(x) by {
        let i = choose|i: int| 0 <= i < order.len() && order[i] == x;
        assert(0 <= order[i] < ranks.len());
    }
    vstd::set_lib::lemma_subset_equality(order.to_set(), all);
    assert(order.to_set().contains(place));
}

/// Sorting neither adds, drops nor repeats a row.
pub proof fn law_sorting_permutes<T>(before: Seq<T>, after: Seq<T>, rank: spec_fn(T) -> RankView)
    requires
        stably_sorted(before, after, rank),
    ensures
        after.len() == before.len(),
        after.to_multiset() == before.to_multiset(),
{
    let ranks = before.map_values(rank);
    let order = choose|order: Seq<int>| #[trigger]
        is_stable_order(ranks, order) && after == picked(before, order);
    lemma_order_has_no_duplicates(ranks, order);
    assert forall|p: int| 0 <= p < before.len() implies order.contains(p) by {
        lemma_order_names_every_place(ranks, order, p);
    }
    lemma_picked_multiset(before, order);
}

/// Rows picked by a list that names each place once are the same rows.
proof fn lemma_picked_multiset<T>(rows: Seq<T>, order: Seq<int>)
    requires
        order.len() == rows.len(),
        order.no_duplicates(),
        forall|i: int| 0 <= i < order.len() ==> 0 <= #[trigger] order[i] < rows.len(),
        forall|p: int| 0 <= p < rows.len() ==> order.contains(p),
    ensures
        picked(rows, order).to_multiset() == rows.to_multiset(),
    decreases rows.len(),
{
    if rows.len() == 0 {
        assert(picked(rows, order) =~= rows);
    } else {
        let n = rows.len() - 1;
        assert(order.contains(n));
        let k = choose|k: int| 0 <= k < order.len() && order[k] == n;
        let rest = order.remove(k);
        assert forall|i: int| 0 <= i < rest.len() implies 0 <= #[trigger] rest[i] < n by {
            if i < k {
                assert(rest[i] == order[i]);
                assert(order[i] != order[k]);
            } else {
                assert(rest[i] == order[i + 1]);
                assert(order[i + 1] != order[k]);
            }
        }
        assert(rest.no_duplicates()) by {
            assert forall|i: int, j: int|
                0 <= i < rest.len() && 0 <= j < rest.len() && i != j implies rest[i]
                != rest[j] by {
                let a = if i < k {
                    i
                } else {
                    i + 1
                };
                let b = if j < k {
                    j
                } else {
                    j + 1
                };
                assert(rest[i] == order[a] && rest[j] == order[b]);
            }
        }
        assert forall|p: int| 0 <= p < n implies rest.contains(p) by {
            assert(order.contains(p));
            let q = choose|q: int| 0 <= q < order.len() && order[q] == p;
            assert(q != k);
            assert(rest[if q < k {
                q
            } else {
                q - 1
            }] == p);
        }
        let fewer = rows.drop_last();
        lemma_picked_multiset(fewer, rest);
        assert(picked(fewer, rest) =~= picked(rows, order).remove(k));
        picked(rows, order).to_multiset_ensures();
        rows.to_multiset_ensures();
        fewer.to_multiset_ensures();
        assert(rows =~= fewer.push(rows.last()));
        assert(picked(rows, order)[k] == rows.last());
        let m = picked(rows, order).to_multiset();
        assert(m.remove(rows.last()) =~= fewer.to_multiset());
        assert(m.contains(rows.last()));
        assert(m =~= m.remove(rows.last()).insert(rows.last()));
    }
}

/// In sorted rows no row comes before one that stands ahead of it.
pub proof fn law_sorted_rows_are_in_order<T>(
    before: Seq<T>,
    after: Seq<T>,
    rank: spec_fn(T) -> RankView,
)
    requires
        stably_sorted(before, after, rank),
    ensures
        forall|i: int, j: int|
            0 <= i < j < after.len() ==> !rank(#[trigger] after[j]).before(
                rank(#[trigger] after[i]),
            ),
{
    let ranks = before.map_values(rank);
    let order = choose|order: Seq<int>| #[trigger]
        is_stable_order(ranks, order) && after == picked(before, order);
    assert forall|i: int, j: int| 0 <= i < j < after.len() implies !rank(
        #[trigger] after[j],
    ).before(rank(#[trigger] after[i])) by {
        assert(goes_before(ranks, order[i], order[j]));
        lemma_before_transitive(ranks[order[i]], ranks[order[j]], ranks[order[i]]);
    }
}

/// There is one stable order: two sorts of the same rows agree.
pub proof fn law_stable_order_is_unique<T>(
    before: Seq<T>,
    one: Seq<T>,
    two: Seq<T>,
    rank: spec_fn(T) -> RankView,
)
    requires
        stably_sorted(before, one, rank),
        stably_sorted(before, two, rank),
    ensures
        one == two,
{
    let ranks = before.map_values(rank);
    let a = choose|order: Seq<int>| #[trigger]
        is_stable_order(ranks, order) && one == picked(before, order);
    let b = choose|order: Seq<int>| #[trigger]
        is_stable_order(ranks, order) && two == picked(before, order);
    assert forall|i: int| 0 <= i < a.len() implies a[i] == b[i] by {
        lemma_orders_agree(ranks, a, b, i);
    }
    assert(a =~= b);
}

proof fn lemma_orders_agree(ranks: Seq<RankView>, a: Seq<int>, b: Seq<int>, n: int)
    requires
        is_stable_order(ranks, a),
        is_stable_order(ranks, b),
        0 <= n < ranks.len(),
    ensures
        a[n] == b[n],
    decreases n,
{
    assert forall|i: int| 0 <= i < n implies a[i] == b[i] by {
        lemma_orders_agree(ranks, a, b, i);
    }
    if a[n] != b[n] {
        lemma_order_names_every_place(ranks, b, a[n]);
        lemma_order_names_every_place(ranks, a, b[n]);
        lemma_order_has_no_duplicates(ranks, a);
        lemma_order_has_no_duplicates(ranks, b);
        let p = choose|p: int| 0 <= p < b.len() && b[p] == a[n];
        let q = choose|q: int| 0 <= q < a.len() && a[q] == b[n];
        assert(p > n) by {
            if p < n {
                assert(a[p] == a[n]);
            }
        }
        assert(q > n) by {
            if q < n {
                assert(b[q] == b[n]);
            }
        }
        assert(goes_before(ranks, b[n], b[p]));
        assert(goes_before(ranks, a[n], a[q]));
        lemma_goes_before_is_an_order(ranks, a[n], b[n], a[n]);
    }
}

} // verus!
