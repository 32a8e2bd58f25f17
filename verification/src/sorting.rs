//! Sorting edges by cost, cheapest first, without reordering edges of equal cost.

use crate::filtering::lemma_filter_all;
use crate::filtering::lemma_filter_members;
use crate::filtering::lemma_filter_none;
use crate::kruskal::Edge;
use vstd::prelude::*;

verus! {

/// No edge is followed by a cheaper one.
#[verifier::opaque]
pub open spec fn sorted_by_cost(s: Seq<Edge>) -> bool {
    forall|i: int, j: int| 0 <= i < j < s.len() ==> (#[trigger] s[i]).cost <= (#[trigger] s[j]).cost
}

/// The edges of `s` that cost at most `c`, in their order.
pub open spec fn at_most(s: Seq<Edge>, c: usize) -> Seq<Edge> {
    s.filter(|x: Edge| x.cost <= c)
}

/// The edges of `s` that cost more than `c`, in their order.
pub open spec fn more_than(s: Seq<Edge>, c: usize) -> Seq<Edge> {
    s.filter(|x: Edge| x.cost > c)
}

/// `e` put into `s` behind the edges that cost no more and before those that cost
/// more.
pub open spec fn placed(s: Seq<Edge>, e: Edge) -> Seq<Edge> {
    at_most(s, e.cost) + seq![e] + more_than(s, e.cost)
}

/// The edges of `s` in ascending order of cost, edges of equal cost in the order in
/// which `s` has them: each edge of `s` in turn is placed among those before it.
pub open spec fn stable_sort(s: Seq<Edge>) -> Seq<Edge>
    decreases s.len(),
{
    if s.len() == 0 {
        s
    } else {
        placed(stable_sort(s.drop_last()), s.last())
    }
}

/// In a sorted sequence, the place behind the last edge that costs no more than `e`
/// is where `e` is placed, and the sequence stays sorted.
pub proof fn lemma_placed_at(s: Seq<Edge>, e: Edge, p: int)
    requires
        sorted_by_cost(s),
        0 <= p <= s.len(),
        forall|k: int| 0 <= k < p ==> (#[trigger] s[k]).cost <= e.cost,
        forall|k: int| p <= k < s.len() ==> (#[trigger] s[k]).cost > e.cost,
    ensures
        s.insert(p, e) == placed(s, e),
        sorted_by_cost(placed(s, e)),
{
    reveal(sorted_by_cost);
    let front = s.take(p);
    let back = s.skip(p);
    assert(s =~= front + back);
    Seq::filter_distributes_over_add(front, back, |x: Edge| x.cost <= e.cost);
    Seq::filter_distributes_over_add(front, back, |x: Edge| x.cost > e.cost);
    lemma_filter_all(front, |x: Edge| x.cost <= e.cost);
    lemma_filter_none(back, |x: Edge| x.cost <= e.cost);
    lemma_filter_none(front, |x: Edge| x.cost > e.cost);
    lemma_filter_all(back, |x: Edge| x.cost > e.cost);
    assert(at_most(s, e.cost) =~= front);
    assert(more_than(s, e.cost) =~= back);
    assert(s.insert(p, e) =~= placed(s, e));
    let t = s.insert(p, e);
    assert forall|i: int, j: int| 0 <= i < j < t.len() implies (#[trigger] t[i]).cost <= (
    #[trigger] t[j]).cost by {
        if j < p {
            assert(s[i].cost <= s[j].cost);
        } else if j == p {
            assert(s[i].cost <= e.cost);
        } else if i < p {
            assert(s[i].cost <= e.cost);
            assert(s[j - 1].cost > e.cost);
        } else if i == p {
            assert(s[j - 1].cost > e.cost);
        } else {
            assert(s[i - 1].cost <= s[j - 1].cost);
        }
    }
}

/// The sorted sequence is sorted.
pub proof fn lemma_stable_sort_sorted(s: Seq<Edge>)
    ensures
        sorted_by_cost(stable_sort(s)),
        stable_sort(s).len() == s.len(),
    decreases s.len(),
{
    reveal(sorted_by_cost);
    if s.len() > 0 {
        let t = stable_sort(s.drop_last());
        let e = s.last();
        lemma_stable_sort_sorted(s.drop_last());
        let p = place_of(t, e.cost);
        lemma_place_of(t, e.cost);
        lemma_placed_at(t, e, p);
    }
}

/// The number of edges of `s` that cost at most `c`.
pub open spec fn place_of(s: Seq<Edge>, c: usize) -> int {
    at_most(s, c).len() as int
}

/// In a sorted sequence the edges that cost at most `c` come first.
pub proof fn lemma_place_of(s: Seq<Edge>, c: usize)
    requires
        sorted_by_cost(s),
    ensures
        0 <= place_of(s, c) <= s.len(),
        forall|k: int| 0 <= k < place_of(s, c) ==> (#[trigger] s[k]).cost <= c,
        forall|k: int| place_of(s, c) <= k < s.len() ==> (#[trigger] s[k]).cost > c,
    decreases s.len(),
{
    reveal(sorted_by_cost);
    reveal(Seq::filter);
    if s.len() > 0 {
        let front = s.drop_last();
        assert forall|i: int, j: int| 0 <= i < j < front.len() implies (#[trigger] front[i]).cost
            <= (#[trigger] front[j]).cost by {
            assert(s[i].cost <= s[j].cost);
        }
        lemma_place_of(front, c);
        if s.last().cost <= c {
            assert forall|k: int| 0 <= k < front.len() implies (#[trigger] front[k]).cost <= c by {
                assert(s[k].cost <= s[s.len() - 1].cost);
            }
            lemma_filter_all(front, |x: Edge| x.cost <= c);
            assert forall|k: int| 0 <= k < s.len() implies (#[trigger] s[k]).cost <= c by {
                if k < front.len() {
                    assert(front[k].cost <= c);
                }
            }
        } else {
            assert forall|k: int| 0 <= k < place_of(s, c) implies (#[trigger] s[k]).cost <= c by {
                assert(front[k].cost <= c);
            }
            assert forall|k: int| place_of(s, c) <= k < s.len() implies (#[trigger] s[k]).cost
                > c by {
                if k < front.len() {
                    assert(front[k].cost > c);
                }
            }
        }
    }
}

/// Sorting neither adds an edge nor loses one.
pub proof fn lemma_stable_sort_members(s: Seq<Edge>, e: Edge)
    ensures
        stable_sort(s).contains(e) <==> s.contains(e),
    decreases s.len(),
{
    if s.len() > 0 {
        let front = s.drop_last();
        let t = stable_sort(front);
        let last = s.last();
        lemma_stable_sort_members(front, e);
        lemma_filter_members(t, |x: Edge| x.cost <= last.cost, e);
        lemma_filter_members(t, |x: Edge| x.cost > last.cost, e);
        let lo = at_most(t, last.cost);
        let hi = more_than(t, last.cost);
        let r = placed(t, last);
        if r.contains(e) {
            let i = choose|i: int| 0 <= i < r.len() && r[i] == e;
            if i < lo.len() {
                assert(lo[i] == e);
            } else if i > lo.len() {
                assert(hi[i - lo.len() - 1] == e);
            }
        }
        if s.contains(e) {
            let i = choose|i: int| 0 <= i < s.len() && s[i] == e;
            if i < front.len() {
                assert(front[i] == e);
                if e.cost <= last.cost {
                    let j = choose|j: int| 0 <= j < lo.len() && lo[j] == e;
                    assert(r[j] == e);
                } else {
                    let j = choose|j: int| 0 <= j < hi.len() && hi[j] == e;
                    assert(r[lo.len() + 1 + j] == e);
                }
            } else {
                assert(r[lo.len() as int] == e);
            }
        }
        if front.contains(e) {
            let i = choose|i: int| 0 <= i < front.len() && front[i] == e;
            assert(s[i] == e);
        }
    }
}

/// The edges of `s` that cost exactly `c`, in their order.
pub open spec fn costing(s: Seq<Edge>, c: usize) -> Seq<Edge> {
    s.filter(|x: Edge| x.cost == c)
}

/// Placing an edge adds it behind the edges of its own cost and leaves the edges of
/// every other cost as they were.
pub proof fn lemma_placed_costing(s: Seq<Edge>, e: Edge, c: usize)
    requires
        sorted_by_cost(s),
    ensures
        costing(placed(s, e), c) == if e.cost == c {
            costing(s, c).push(e)
        } else {
            costing(s, c)
        },
{
    let p = place_of(s, e.cost);
    lemma_place_of(s, e.cost);
    lemma_placed_at(s, e, p);
    let front = s.take(p);
    let back = s.skip(p);
    let same = |x: Edge| x.cost == c;
    assert(s =~= front + back);
    assert(s.insert(p, e) =~= front + seq![e] + back);
    Seq::filter_distributes_over_add(front, back, same);
    Seq::filter_distributes_over_add(front + seq![e], back, same);
    Seq::filter_distributes_over_add(front, seq![e], same);
    if e.cost == c {
        lemma_filter_all(seq![e], same);
        lemma_filter_none(back, same);
        assert(front.filter(same) + seq![e] + Seq::<Edge>::empty() =~= (front.filter(same)
            + Seq::<Edge>::empty()).push(e));
    } else {
        lemma_filter_none(seq![e], same);
        assert(front.filter(same) + Seq::<Edge>::empty() + back.filter(same) =~= front.filter(
            same,
        ) + back.filter(same));
    }
}

/// Sorting is stable: the edges of any one cost come out in the order in which they
/// went in.
pub proof fn lemma_stable_sort_stable(s: Seq<Edge>, c: usize)
    ensures
        costing(stable_sort(s), c) == costing(s, c),
    decreases s.len(),
{
    if s.len() > 0 {
        let front = s.drop_last();
        lemma_stable_sort_stable(front, c);
        lemma_stable_sort_sorted(front);
        lemma_placed_costing(stable_sort(front), s.last(), c);
        assert(front.push(s.last()) =~= s);
        front.lemma_filter_push(s.last(), |x: Edge| x.cost == c);
    }
}

/// Sorting rearranges: every edge comes out as often as it went in.
pub proof fn lemma_stable_sort_permutes(s: Seq<Edge>)
    ensures
        stable_sort(s).to_multiset() == s.to_multiset(),
    decreases s.len(),
{
    broadcast use vstd::multiset::group_multiset_axioms;

    if s.len() > 0 {
        let front = s.drop_last();
        let t = stable_sort(front);
        let e = s.last();
        lemma_stable_sort_permutes(front);
        lemma_stable_sort_sorted(front);
        let p = place_of(t, e.cost);
        lemma_place_of(t, e.cost);
        lemma_placed_at(t, e, p);
        let r = t.insert(p, e);
        assert(r.remove(p) =~= t);
        assert(r[p] == e);
        vstd::seq_lib::to_multiset_remove(r, p);
        vstd::seq_lib::to_multiset_build(front, e);
        assert(front.push(e) =~= s);
        r.to_multiset_ensures();
        assert(r.contains(e));
        assert(r.to_multiset() =~= t.to_multiset().insert(e));
    }
}

/// The edges of every cost are in the same order in `a` and in `b`.
#[verifier::opaque]
pub open spec fn same_by_cost(a: Seq<Edge>, b: Seq<Edge>) -> bool {
    forall|c: usize| #[trigger] costing(a, c) == costing(b, c)
}

/// In a sorted sequence no edge costs more than the last.
proof fn lemma_last_is_dearest(s: Seq<Edge>, e: Edge)
    requires
        sorted_by_cost(s),
        s.contains(e),
    ensures
        e.cost <= s.last().cost,
{
    reveal(sorted_by_cost);
    let i = choose|i: int| 0 <= i < s.len() && s[i] == e;
    if i < s.len() - 1 {
        assert(s[i].cost <= s[s.len() - 1].cost);
    }
}

/// A sorted sequence without its last edge is sorted.
proof fn lemma_sorted_front(s: Seq<Edge>)
    requires
        sorted_by_cost(s),
        s.len() > 0,
    ensures
        sorted_by_cost(s.drop_last()),
{
    reveal(sorted_by_cost);
    let front = s.drop_last();
    assert forall|i: int, j: int| 0 <= i < j < front.len() implies (#[trigger] front[i]).cost <= (
    #[trigger] front[j]).cost by {
        assert(s[i].cost <= s[j].cost);
    }
}

/// There is one way only to sort edges by cost and keep the edges of every cost in
/// their order.
pub proof fn lemma_stable_sort_unique(a: Seq<Edge>, b: Seq<Edge>)
    requires
        sorted_by_cost(a),
        sorted_by_cost(b),
        same_by_cost(a, b),
    ensures
        a == b,
    decreases a.len(),
{
    reveal(same_by_cost);
    if a.len() == 0 {
        if b.len() > 0 {
            let e = b.last();
            assert(b.drop_last().push(e) =~= b);
            b.drop_last().lemma_filter_push(e, |x: Edge| x.cost == e.cost);
            lemma_filter_all(a, |x: Edge| x.cost == e.cost);
            assert(costing(a, e.cost) == costing(b, e.cost));
        }
        assert(a =~= b);
    } else {
        let ea = a.last();
        let fa = a.drop_last();
        assert(fa.push(ea) =~= a);
        fa.lemma_filter_push(ea, |x: Edge| x.cost == ea.cost);
        assert(costing(a, ea.cost) == costing(b, ea.cost));
        if b.len() == 0 {
            lemma_filter_all(b, |x: Edge| x.cost == ea.cost);
        }
        let eb = b.last();
        let fb = b.drop_last();
        assert(fb.push(eb) =~= b);
        fb.lemma_filter_push(eb, |x: Edge| x.cost == eb.cost);
        assert(costing(a, eb.cost) == costing(b, eb.cost));
        // each side holds an edge at the cost of the other side's last edge
        let in_b = costing(b, ea.cost);
        assert(in_b.contains(in_b[in_b.len() - 1]));
        lemma_filter_members(b, |x: Edge| x.cost == ea.cost, in_b[in_b.len() - 1]);
        lemma_last_is_dearest(b, in_b[in_b.len() - 1]);
        let in_a = costing(a, eb.cost);
        assert(in_a.contains(in_a[in_a.len() - 1]));
        lemma_filter_members(a, |x: Edge| x.cost == eb.cost, in_a[in_a.len() - 1]);
        lemma_last_is_dearest(a, in_a[in_a.len() - 1]);
        assert(ea.cost == eb.cost);
        assert(ea == eb) by {
            assert(costing(a, ea.cost).last() == ea);
            assert(costing(b, ea.cost).last() == eb);
        }
        lemma_sorted_front(a);
        lemma_sorted_front(b);
        assert(same_by_cost(fa, fb)) by {
            assert forall|c: usize| #[trigger] costing(fa, c) == costing(fb, c) by {
                fa.lemma_filter_push(ea, |x: Edge| x.cost == c);
                fb.lemma_filter_push(eb, |x: Edge| x.cost == c);
                assert(costing(a, c) == costing(b, c));
                if c == ea.cost {
                    assert(costing(fa, c) =~= costing(a, c).drop_last());
                    assert(costing(fb, c) =~= costing(b, c).drop_last());
                }
            }
        }
        lemma_stable_sort_unique(fa, fb);
    }
}

/// A sorted sequence that keeps the edges of every cost in the order of `s` is the
/// stable sort of `s`.
pub proof fn lemma_is_stable_sort(sorted: Seq<Edge>, s: Seq<Edge>)
    requires
        sorted_by_cost(sorted),
        same_by_cost(sorted, s),
    ensures
        sorted == stable_sort(s),
{
    lemma_stable_sort_sorted(s);
    assert(same_by_cost(sorted, stable_sort(s))) by {
        reveal(same_by_cost);
        assert forall|c: usize| #[trigger] costing(sorted, c) == costing(stable_sort(s), c) by {
            lemma_stable_sort_stable(s, c);
            assert(costing(sorted, c) == costing(s, c));
        }
    }
    lemma_stable_sort_unique(sorted, stable_sort(s));
}

/// Sequences that keep the edges of every cost in the same order can stand for one
/// another, and joining them keeps that.
pub proof fn lemma_same_by_cost_joined(
    a: Seq<Edge>,
    b: Seq<Edge>,
    x: Seq<Edge>,
    y: Seq<Edge>,
    whole: Seq<Edge>,
)
    requires
        same_by_cost(a, x),
        same_by_cost(b, y),
        same_by_cost(whole, a + b),
    ensures
        same_by_cost(whole, x + y),
{
    reveal(same_by_cost);
    assert forall|c: usize| #[trigger] costing(whole, c) == costing(x + y, c) by {
        Seq::filter_distributes_over_add(a, b, |e: Edge| e.cost == c);
        Seq::filter_distributes_over_add(x, y, |e: Edge| e.cost == c);
        assert(costing(a, c) == costing(x, c));
        assert(costing(b, c) == costing(y, c));
        assert(costing(whole, c) == costing(a + b, c));
    }
}

/// `out` holds the edges of `l` and of `r`, those of every cost in the order of `l`
/// followed by the order of `r`.
#[verifier::opaque]
pub open spec fn merged(out: Seq<Edge>, l: Seq<Edge>, r: Seq<Edge>) -> bool {
    forall|c: usize| #[trigger] costing(out, c) == costing(l, c) + costing(r, c)
}

/// Nothing is merged from nothing.
proof fn lemma_merged_none()
    ensures
        merged(Seq::empty(), Seq::empty(), Seq::empty()),
{
    reveal(merged);
    let none = Seq::<Edge>::empty();
    assert forall|c: usize| #[trigger] costing(none, c) == costing(none, c) + costing(none, c) by {
        lemma_filter_all(none, |e: Edge| e.cost == c);
        assert(none =~= none + none);
    }
}

/// An edge may be taken from the left while no edge taken from the right costs as
/// much.
proof fn lemma_merged_left(out: Seq<Edge>, l: Seq<Edge>, r: Seq<Edge>, e: Edge)
    requires
        merged(out, l, r),
        forall|k: int| 0 <= k < r.len() ==> (#[trigger] r[k]).cost < e.cost,
    ensures
        merged(out.push(e), l.push(e), r),
{
    reveal(merged);
    assert forall|c: usize| #[trigger]
        costing(out.push(e), c) == costing(l.push(e), c) + costing(r, c) by {
        out.lemma_filter_push(e, |x: Edge| x.cost == c);
        l.lemma_filter_push(e, |x: Edge| x.cost == c);
        assert(costing(out, c) == costing(l, c) + costing(r, c));
        if e.cost == c {
            lemma_filter_none(r, |x: Edge| x.cost == c);
            assert(costing(l, c).push(e) + Seq::<Edge>::empty() =~= (costing(l, c)
                + Seq::<Edge>::empty()).push(e));
        }
    }
}

/// An edge may always be taken from the right.
proof fn lemma_merged_right(out: Seq<Edge>, l: Seq<Edge>, r: Seq<Edge>, e: Edge)
    requires
        merged(out, l, r),
    ensures
        merged(out.push(e), l, r.push(e)),
{
    reveal(merged);
    assert forall|c: usize| #[trigger]
        costing(out.push(e), c) == costing(l, c) + costing(r.push(e), c) by {
        out.lemma_filter_push(e, |x: Edge| x.cost == c);
        r.lemma_filter_push(e, |x: Edge| x.cost == c);
        assert(costing(out, c) == costing(l, c) + costing(r, c));
        if e.cost == c {
            assert(costing(l, c) + costing(r, c).push(e) =~= (costing(l, c) + costing(
                r,
                c,
            )).push(e));
        }
    }
}

/// What is merged from two sequences keeps the edges of every cost in the order of
/// the first followed by the second.
proof fn lemma_merged_all(out: Seq<Edge>, l: Seq<Edge>, r: Seq<Edge>)
    requires
        merged(out, l, r),
    ensures
        same_by_cost(out, l + r),
{
    reveal(merged);
    reveal(same_by_cost);
    assert forall|c: usize| #[trigger] costing(out, c) == costing(l + r, c) by {
        Seq::filter_distributes_over_add(l, r, |e: Edge| e.cost == c);
        assert(costing(out, c) == costing(l, c) + costing(r, c));
    }
}

/// A sorted sequence with one more edge that costs no less than any of its edges is
/// sorted.
proof fn lemma_sorted_push(s: Seq<Edge>, e: Edge)
    requires
        sorted_by_cost(s),
        forall|k: int| 0 <= k < s.len() ==> (#[trigger] s[k]).cost <= e.cost,
    ensures
        sorted_by_cost(s.push(e)),
{
    reveal(sorted_by_cost);
    let t = s.push(e);
    assert forall|i: int, j: int| 0 <= i < j < t.len() implies (#[trigger] t[i]).cost <= (
    #[trigger] t[j]).cost by {
        if j < s.len() {
            assert(s[i].cost <= s[j].cost);
        } else {
            assert(s[i].cost <= e.cost);
        }
    }
}

/// Merges two sorted sequences into one. Where an edge of `left` and an edge of
/// `right` cost the same, the edge of `left` comes first.
pub fn merge_by_cost(left: &Vec<Edge>, right: &Vec<Edge>) -> (out: Vec<Edge>)
    requires
        sorted_by_cost(left@),
        sorted_by_cost(right@),
        left.len() + right.len() <= usize::MAX,
    ensures
        sorted_by_cost(out@),
        same_by_cost(out@, left@ + right@),
        out.len() == left.len() + right.len(),
{
    let mut out: Vec<Edge> = Vec::new();
    let mut i: usize = 0;
    let mut j: usize = 0;
    proof {
        reveal(sorted_by_cost);
        lemma_merged_none();
        assert(left@.take(0) =~= Seq::empty());
        assert(right@.take(0) =~= Seq::empty());
    }
    while i < left.len() || j < right.len()
        invariant
            i <= left.len(),
            j <= right.len(),
            out.len() == i + j,
            sorted_by_cost(left@),
            sorted_by_cost(right@),
            sorted_by_cost(out@),
            merged(out@, left@.take(i as int), right@.take(j as int)),
            i < left.len() ==> forall|k: int|
                0 <= k < out.len() ==> (#[trigger] out@[k]).cost <= left@[i as int].cost,
            j < right.len() ==> forall|k: int|
                0 <= k < out.len() ==> (#[trigger] out@[k]).cost <= right@[j as int].cost,
            i < left.len() ==> forall|k: int|
                0 <= k < j ==> (#[trigger] right@[k]).cost < left@[i as int].cost,
        decreases left.len() - i + (right.len() - j),
    {
        let ghost before = out@;
        if j == right.len() || (i < left.len() && left[i].cost <= right[j].cost) {
            let e = left[i];
            proof {
                reveal(sorted_by_cost);
                lemma_sorted_push(before, e);
                assert forall|k: int| 0 <= k < right@.take(j as int).len() implies (
                #[trigger] right@.take(j as int)[k]).cost < e.cost by {
                    assert(right@[k].cost < left@[i as int].cost);
                }
                lemma_merged_left(before, left@.take(i as int), right@.take(j as int), e);
                assert(left@.take(i + 1) =~= left@.take(i as int).push(e));
                if i + 1 < left.len() {
                    assert(left@[i as int].cost <= left@[i + 1].cost);
                }
            }
            out.push(e);
            i += 1;
        } else {
            let e = right[j];
            proof {
                reveal(sorted_by_cost);
                lemma_sorted_push(before, e);
                lemma_merged_right(before, left@.take(i as int), right@.take(j as int), e);
                assert(right@.take(j + 1) =~= right@.take(j as int).push(e));
                if j + 1 < right.len() {
                    assert(right@[j as int].cost <= right@[j + 1].cost);
                }
            }
            out.push(e);
            j += 1;
        }
    }
    proof {
        assert(left@.take(i as int) =~= left@);
        assert(right@.take(j as int) =~= right@);
        lemma_merged_all(out@, left@, right@);
    }
    out
}

/// Sorts the edges `edges[lo..hi]` by cost: each half is sorted and the two are
/// merged.
fn sort_range(edges: &Vec<Edge>, lo: usize, hi: usize) -> (sorted: Vec<Edge>)
    requires
        lo <= hi <= edges.len(),
    ensures
        sorted_by_cost(sorted@),
        same_by_cost(sorted@, edges@.subrange(lo as int, hi as int)),
        sorted.len() == hi - lo,
    decreases hi - lo,
{
    let ghost part = edges@.subrange(lo as int, hi as int);
    if hi - lo <= 1 {
        let mut sorted: Vec<Edge> = Vec::new();
        if hi - lo == 1 {
            sorted.push(edges[lo]);
        }
        proof {
            reveal(sorted_by_cost);
            reveal(same_by_cost);
            assert(sorted@ =~= part);
        }
        sorted
    } else {
        let mid = lo + (hi - lo) / 2;
        let left = sort_range(edges, lo, mid);
        let right = sort_range(edges, mid, hi);
        let sorted = merge_by_cost(&left, &right);
        proof {
            assert(part =~= edges@.subrange(lo as int, mid as int) + edges@.subrange(
                mid as int,
                hi as int,
            ));
            lemma_same_by_cost_joined(
                left@,
                right@,
                edges@.subrange(lo as int, mid as int),
                edges@.subrange(mid as int, hi as int),
                sorted@,
            );
        }
        sorted
    }
}

/// Sorts the edges by cost, cheapest first. Edges of equal cost keep their order.
pub fn sort_by_cost(edges: Vec<Edge>) -> (sorted: Vec<Edge>)
    ensures
        sorted@ == stable_sort(edges@),
        sorted_by_cost(sorted@),
        sorted@.to_multiset() == edges@.to_multiset(),
{
    let sorted = sort_range(&edges, 0, edges.len());
    proof {
        assert(edges@.subrange(0, edges.len() as int) =~= edges@);
        lemma_is_stable_sort(sorted@, edges@);
        lemma_stable_sort_permutes(edges@);
    }
    sorted
}

} // verus!
