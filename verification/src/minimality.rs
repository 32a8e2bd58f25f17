//! Why the forest of Kruskal's algorithm costs no more than any other edges of the
//! graph that connect what the graph connects.
//!
//! The argument counts. Among the vertices `0..n` every connected part has a least
//! vertex, its leader, and every edge that the greedy choice takes makes one leader
//! fewer. So the number of edges taken depends only on what is connected. Run on the
//! edges up to any cost, this shows that the forest has as many edges up to that
//! cost as any edges can usefully have, hence no more edges above that cost than
//! any edges that connect as much. Adding up over all costs gives the total.

use crate::filtering::lemma_filter_all;
use crate::filtering::lemma_filter_members;
use crate::filtering::lemma_filter_none;
use crate::kruskal::within;
use crate::kruskal::Edge;
use crate::spanning::forest_of;
use crate::sorting::sorted_by_cost;
use crate::spanning::lemma_forest_members;
use crate::spanning::lemma_forest_spans;
use crate::spanning::lemma_linked_by_more;
use crate::spanning::lemma_linked_reflexive;
use crate::spanning::lemma_linked_symmetric;
use crate::spanning::lemma_linked_transitive;
use crate::spanning::linked;
use vstd::prelude::*;
use vstd::set_lib::lemma_int_range;
use vstd::set_lib::lemma_len_subset;
use vstd::set_lib::set_int_range;

verus! {

/// No vertex before `v` is connected to `v`: `v` is the leader of its part.
pub open spec fn leads(es: Seq<Edge>, v: int) -> bool {
    forall|w: int| 0 <= w < v ==> !#[trigger] linked(es, w, v)
}

/// The leaders among the vertices `0..n`, one for each connected part.
pub open spec fn leaders(es: Seq<Edge>, n: int) -> Set<int> {
    Set::new(|v: int| 0 <= v < n && leads(es, v))
}

/// There are at most `n` leaders among `n` vertices.
pub proof fn lemma_leaders_finite(es: Seq<Edge>, n: int)
    requires
        0 <= n,
    ensures
        leaders(es, n).finite(),
        leaders(es, n).len() <= n,
{
    lemma_int_range(0, n);
    lemma_len_subset(leaders(es, n), set_int_range(0, n));
}

/// Every vertex has a leader: the least vertex connected to it.
pub proof fn lemma_leader_of(es: Seq<Edge>, v: int) -> (m: int)
    requires
        0 <= v,
    ensures
        0 <= m <= v,
        leads(es, m),
        linked(es, m, v),
    decreases v,
{
    if leads(es, v) {
        lemma_linked_reflexive(es, v);
        v
    } else {
        let w = choose|w: int| 0 <= w < v && linked(es, w, v);
        let m = lemma_leader_of(es, w);
        lemma_linked_transitive(es, m, w, v);
        m
    }
}

/// Two leaders that are connected are one.
pub proof fn lemma_one_leader(es: Seq<Edge>, a: int, b: int)
    requires
        0 <= a,
        0 <= b,
        leads(es, a),
        leads(es, b),
        linked(es, a, b),
    ensures
        a == b,
{
    if a < b {
        assert(!linked(es, a, b));
    } else if b < a {
        lemma_linked_symmetric(es, a, b);
        assert(!linked(es, b, a));
    }
}

/// An edge between two connected vertices connects nothing new.
pub proof fn lemma_edge_inside(es: Seq<Edge>, e: Edge, a: int, b: int)
    requires
        linked(es, e.from as int, e.to as int),
    ensures
        linked(es.push(e), a, b) <==> linked(es, a, b),
{
    let u = e.from as int;
    let v = e.to as int;
    assert(es.push(e).drop_last() =~= es);
    assert(es.push(e).last() == e);
    if linked(es, a, u) && linked(es, v, b) {
        lemma_linked_transitive(es, a, u, v);
        lemma_linked_transitive(es, a, v, b);
    }
    if linked(es, a, v) && linked(es, u, b) {
        lemma_linked_symmetric(es, u, v);
        lemma_linked_transitive(es, a, v, u);
        lemma_linked_transitive(es, a, u, b);
    }
}

/// An edge between two parts leaves every leader in place but the greater of the
/// leaders of the two parts.
proof fn lemma_edge_between(es: Seq<Edge>, e: Edge, n: int)
    requires
        0 <= e.from < n,
        0 <= e.to < n,
        !linked(es, e.from as int, e.to as int),
    ensures
        exists|z: int| #[trigger]
            leaders(es, n).contains(z) && leaders(es.push(e), n) == leaders(es, n).remove(z),
{
    let more = es.push(e);
    let u = e.from as int;
    let v = e.to as int;
    assert(more.drop_last() =~= es);
    assert(more.last() == e);
    let mu = lemma_leader_of(es, u);
    let mv = lemma_leader_of(es, v);
    if mu == mv {
        lemma_linked_symmetric(es, mu, u);
        lemma_linked_transitive(es, u, mu, v);
    }
    let z = if mu < mv {
        mv
    } else {
        mu
    };
    let y = if mu < mv {
        mu
    } else {
        mv
    };
    assert(leaders(es, n).contains(z));
    // the lesser leader is connected to the greater one by the new edge
    assert(linked(more, y, z)) by {
        lemma_linked_symmetric(es, mu, u);
        lemma_linked_symmetric(es, mv, v);
        if mu < mv {
            assert(linked(es, y, u) && linked(es, v, z));
        } else {
            assert(linked(es, y, v) && linked(es, u, z));
        }
    }
    assert forall|x: int| leaders(more, n).contains(x) <==> leaders(es, n).remove(z).contains(
        x,
    ) by {
        if leaders(more, n).contains(x) {
            assert forall|w: int| 0 <= w < x implies !#[trigger] linked(es, w, x) by {
                assert(!linked(more, w, x));
            }
            if x == z {
                assert(!linked(more, y, z));
            }
        }
        if leaders(es, n).remove(z).contains(x) {
            assert forall|w: int| 0 <= w < x implies !#[trigger] linked(more, w, x) by {
                if linked(more, w, x) {
                    assert(!linked(es, w, x));
                    if linked(es, w, u) && linked(es, v, x) {
                        lemma_linked_transitive(es, mv, v, x);
                        lemma_one_leader(es, mv, x);
                        lemma_linked_symmetric(es, w, u);
                        lemma_linked_symmetric(es, mu, u);
                        lemma_linked_transitive(es, mu, u, w);
                        if w < mu {
                            lemma_linked_symmetric(es, mu, w);
                            assert(!linked(es, w, mu));
                        }
                    } else {
                        lemma_linked_transitive(es, mu, u, x);
                        lemma_one_leader(es, mu, x);
                        lemma_linked_symmetric(es, w, v);
                        lemma_linked_symmetric(es, mv, v);
                        lemma_linked_transitive(es, mv, v, w);
                        if w < mv {
                            lemma_linked_symmetric(es, mv, w);
                            assert(!linked(es, w, mv));
                        }
                    }
                }
            }
        }
    }
    assert(leaders(more, n) =~= leaders(es, n).remove(z));
}

/// Among `n` vertices, the edges that the greedy choice takes and the leaders that
/// are left are `n` together: each edge taken joins two parts into one.
pub proof fn lemma_count(es: Seq<Edge>, n: int)
    requires
        0 <= n,
        within(es, n),
    ensures
        forest_of(es).len() + leaders(es, n).len() == n,
    decreases es.len(),
{
    lemma_leaders_finite(es, n);
    if es.len() == 0 {
        lemma_int_range(0, n);
        assert(leaders(es, n) =~= set_int_range(0, n));
    } else {
        let rest = es.drop_last();
        let e = es.last();
        assert(rest.push(e) =~= es);
        assert(within(rest, n)) by {
            assert forall|i: int| 0 <= i < rest.len() implies (#[trigger] rest[i]).from < n
                && rest[i].to < n by {
                assert(rest[i] == es[i]);
            }
        }
        assert(e == es[es.len() - 1]);
        lemma_count(rest, n);
        lemma_leaders_finite(rest, n);
        lemma_forest_spans(rest);
        if linked(rest, e.from as int, e.to as int) {
            assert forall|x: int| leaders(es, n).contains(x) <==> leaders(rest, n).contains(
                x,
            ) by {
                if leaders(es, n).contains(x) {
                    assert forall|w: int| 0 <= w < x implies !#[trigger] linked(rest, w, x) by {
                        lemma_edge_inside(rest, e, w, x);
                    }
                }
                if leaders(rest, n).contains(x) {
                    assert forall|w: int| 0 <= w < x implies !#[trigger] linked(es, w, x) by {
                        lemma_edge_inside(rest, e, w, x);
                    }
                }
            }
            assert(leaders(es, n) =~= leaders(rest, n));
        } else {
            lemma_edge_between(rest, e, n);
        }
    }
}

/// What the edges of `es` cost together.
pub open spec fn cost_of(es: Seq<Edge>) -> int
    decreases es.len(),
{
    if es.len() == 0 {
        0
    } else {
        cost_of(es.drop_last()) + es.last().cost
    }
}

/// The edges of `es` that cost at most `c`, in their order.
pub open spec fn cheap(es: Seq<Edge>, c: int) -> Seq<Edge> {
    es.filter(|x: Edge| x.cost <= c)
}

/// The edges of `es` that cost more than `c`, in their order.
pub open spec fn dear(es: Seq<Edge>, c: int) -> Seq<Edge> {
    es.filter(|x: Edge| x.cost > c)
}

/// Every edge of `a` is an edge of `b`.
#[verifier::opaque]
pub open spec fn drawn_from(a: Seq<Edge>, b: Seq<Edge>) -> bool {
    forall|i: int| 0 <= i < a.len() ==> b.contains(#[trigger] a[i])
}

/// `b` connects whatever `a` connects.
#[verifier::opaque]
pub open spec fn connects_all_of(b: Seq<Edge>, a: Seq<Edge>) -> bool {
    forall|x: int, y: int| #[trigger] linked(a, x, y) ==> linked(b, x, y)
}

/// Edges drawn from edges among `n` vertices are among `n` vertices.
pub proof fn lemma_drawn_within(a: Seq<Edge>, b: Seq<Edge>, n: int)
    requires
        drawn_from(a, b),
        within(b, n),
    ensures
        within(a, n),
{
    reveal(drawn_from);
    assert forall|i: int| 0 <= i < a.len() implies (#[trigger] a[i]).from < n && a[i].to < n by {
        assert(b.contains(a[i]));
        let j = choose|j: int| 0 <= j < b.len() && b[j] == a[i];
        assert(b[j].from < n);
    }
}

/// Edges connect whatever edges drawn from them connect.
pub proof fn lemma_drawn_connects(a: Seq<Edge>, b: Seq<Edge>)
    requires
        drawn_from(a, b),
    ensures
        connects_all_of(b, a),
{
    reveal(drawn_from);
    reveal(connects_all_of);
    assert forall|x: int, y: int| #[trigger] linked(a, x, y) implies linked(b, x, y) by {
        lemma_linked_by_more(a, b, x, y);
    }
}

/// Edges that connect no more than others give the greedy choice no more to take.
pub proof fn lemma_connects_less_takes_less(a: Seq<Edge>, b: Seq<Edge>, n: int)
    requires
        0 <= n,
        within(a, n),
        within(b, n),
        connects_all_of(b, a),
    ensures
        forest_of(a).len() <= forest_of(b).len(),
{
    reveal(connects_all_of);
    lemma_count(a, n);
    lemma_count(b, n);
    lemma_leaders_finite(a, n);
    lemma_leaders_finite(b, n);
    assert forall|x: int| leaders(b, n).contains(x) implies leaders(a, n).contains(x) by {
        assert forall|w: int| 0 <= w < x implies !#[trigger] linked(a, w, x) by {
            if linked(a, w, x) {
                assert(linked(b, w, x));
            }
        }
    }
    lemma_len_subset(leaders(b, n), leaders(a, n));
}

/// More edges give the greedy choice at most as many more to take.
pub proof fn lemma_forest_append(x: Seq<Edge>, y: Seq<Edge>)
    ensures
        forest_of(x + y).len() <= forest_of(x).len() + y.len(),
    decreases y.len(),
{
    if y.len() == 0 {
        assert(x + y =~= x);
    } else {
        assert((x + y).drop_last() =~= x + y.drop_last());
        lemma_forest_append(x, y.drop_last());
    }
}

/// Every edge costs at most `c` or more than `c`.
pub proof fn lemma_cheap_or_dear(es: Seq<Edge>, c: int)
    ensures
        cheap(es, c).len() + dear(es, c).len() == es.len(),
    decreases es.len(),
{
    if es.len() > 0 {
        let front = es.drop_last();
        lemma_cheap_or_dear(front, c);
        assert(front.push(es.last()) =~= es);
        front.lemma_filter_push(es.last(), |x: Edge| x.cost <= c);
        front.lemma_filter_push(es.last(), |x: Edge| x.cost > c);
    } else {
        lemma_filter_all(es, |x: Edge| x.cost <= c);
        lemma_filter_all(es, |x: Edge| x.cost > c);
    }
}

/// The cheap edges cost at most `c` and the dear edges more.
pub proof fn lemma_cheap_dear_costs(es: Seq<Edge>, c: int)
    ensures
        forall|i: int| 0 <= i < cheap(es, c).len() ==> (#[trigger] cheap(es, c)[i]).cost <= c,
        forall|i: int| 0 <= i < dear(es, c).len() ==> (#[trigger] dear(es, c)[i]).cost > c,
{
    let lo = cheap(es, c);
    let hi = dear(es, c);
    assert forall|i: int| 0 <= i < lo.len() implies (#[trigger] lo[i]).cost <= c by {
        es.lemma_filter_pred(|x: Edge| x.cost <= c, i);
    }
    assert forall|i: int| 0 <= i < hi.len() implies (#[trigger] hi[i]).cost > c by {
        es.lemma_filter_pred(|x: Edge| x.cost > c, i);
    }
}

/// The cheap and the dear edges are drawn from the whole, and the whole from both.
pub proof fn lemma_cheap_dear_drawn(es: Seq<Edge>, c: int)
    ensures
        drawn_from(cheap(es, c), es),
        drawn_from(dear(es, c), es),
        drawn_from(es, cheap(es, c) + dear(es, c)),
{
    reveal(drawn_from);
    let lo = cheap(es, c);
    let hi = dear(es, c);
    assert forall|i: int| 0 <= i < lo.len() implies es.contains(#[trigger] lo[i]) by {
        assert(lo.contains(lo[i]));
        lemma_filter_members(es, |x: Edge| x.cost <= c, lo[i]);
    }
    assert forall|i: int| 0 <= i < hi.len() implies es.contains(#[trigger] hi[i]) by {
        assert(hi.contains(hi[i]));
        lemma_filter_members(es, |x: Edge| x.cost > c, hi[i]);
    }
    assert forall|i: int| 0 <= i < es.len() implies (lo + hi).contains(#[trigger] es[i]) by {
        assert(es.contains(es[i]));
        lemma_filter_members(es, |x: Edge| x.cost <= c, es[i]);
        lemma_filter_members(es, |x: Edge| x.cost > c, es[i]);
        if es[i].cost <= c {
            let j = choose|j: int| 0 <= j < lo.len() && lo[j] == es[i];
            assert((lo + hi)[j] == es[i]);
        } else {
            let j = choose|j: int| 0 <= j < hi.len() && hi[j] == es[i];
            assert((lo + hi)[lo.len() + j] == es[i]);
        }
    }
}

/// In a sequence sorted by cost, the edges that cost at most `c` come first and the
/// others after them.
pub proof fn lemma_sorted_split(es: Seq<Edge>, c: int)
    requires
        sorted_by_cost(es),
    ensures
        es == cheap(es, c) + dear(es, c),
    decreases es.len(),
{
    reveal(sorted_by_cost);
    if es.len() == 0 {
        lemma_filter_all(es, |x: Edge| x.cost <= c);
        lemma_filter_all(es, |x: Edge| x.cost > c);
        assert(es =~= es + es);
    } else {
        let front = es.drop_last();
        let e = es.last();
        assert(front.push(e) =~= es);
        if e.cost <= c {
            assert forall|i: int| 0 <= i < es.len() implies (#[trigger] es[i]).cost <= c by {
                if i < es.len() - 1 {
                    assert(es[i].cost <= es[es.len() - 1].cost);
                }
            }
            lemma_filter_all(es, |x: Edge| x.cost <= c);
            lemma_filter_none(es, |x: Edge| x.cost > c);
            assert(es =~= es + Seq::<Edge>::empty());
        } else {
            assert forall|i: int, j: int| 0 <= i < j < front.len() implies (
            #[trigger] front[i]).cost <= (#[trigger] front[j]).cost by {
                assert(es[i].cost <= es[j].cost);
            }
            lemma_sorted_split(front, c);
            front.lemma_filter_push(e, |x: Edge| x.cost <= c);
            front.lemma_filter_push(e, |x: Edge| x.cost > c);
            assert(front.push(e) =~= cheap(front, c) + dear(front, c).push(e));
        }
    }
}

/// From cheap edges followed by dear ones, the greedy choice takes the same cheap
/// edges as from the cheap edges alone.
pub proof fn lemma_forest_of_cheap(x: Seq<Edge>, y: Seq<Edge>, c: int)
    requires
        forall|i: int| 0 <= i < x.len() ==> (#[trigger] x[i]).cost <= c,
        forall|i: int| 0 <= i < y.len() ==> (#[trigger] y[i]).cost > c,
    ensures
        cheap(forest_of(x + y), c) == forest_of(x),
    decreases y.len(),
{
    if y.len() == 0 {
        assert(x + y =~= x);
        let f = forest_of(x);
        assert forall|i: int| 0 <= i < f.len() implies (#[trigger] f[i]).cost <= c by {
            assert(f.contains(f[i]));
            lemma_forest_members(x, f[i]);
            let j = choose|j: int| 0 <= j < x.len() && x[j] == f[i];
            assert(x[j].cost <= c);
        }
        lemma_filter_all(f, |e: Edge| e.cost <= c);
    } else {
        let front = y.drop_last();
        let e = y.last();
        assert((x + y).drop_last() =~= x + front);
        assert((x + y).last() == e);
        assert forall|i: int| 0 <= i < front.len() implies (#[trigger] front[i]).cost > c by {
            assert(front[i] == y[i]);
        }
        lemma_forest_of_cheap(x, front, c);
        assert(y[y.len() - 1].cost > c);
        forest_of(x + front).lemma_filter_push(e, |e: Edge| e.cost <= c);
    }
}

/// The cheap edges of edges drawn from a graph give the greedy choice no more to
/// take than the cheap edges of the graph.
proof fn lemma_cheap_takes_less(s: Seq<Edge>, t: Seq<Edge>, n: int, c: int)
    requires
        0 <= n,
        within(s, n),
        drawn_from(t, s),
    ensures
        forest_of(cheap(t, c)).len() <= forest_of(cheap(s, c)).len(),
{
    let lo = cheap(s, c);
    let tlo = cheap(t, c);
    lemma_cheap_dear_drawn(s, c);
    lemma_cheap_dear_drawn(t, c);
    lemma_drawn_within(t, s, n);
    lemma_drawn_within(tlo, t, n);
    lemma_drawn_within(lo, s, n);
    assert(drawn_from(tlo, lo)) by {
        reveal(drawn_from);
        assert forall|i: int| 0 <= i < tlo.len() implies lo.contains(#[trigger] tlo[i]) by {
            assert(t.contains(tlo[i]));
            let j = choose|j: int| 0 <= j < t.len() && t[j] == tlo[i];
            assert(s.contains(t[j]));
            lemma_filter_members(s, |x: Edge| x.cost <= c, tlo[i]);
        }
    }
    lemma_drawn_connects(tlo, lo);
    lemma_connects_less_takes_less(tlo, lo, n);
}

/// Edges that connect what a graph connects have at least as many dear edges as the
/// greedy choice takes more from the whole graph than from their cheap edges.
proof fn lemma_dear_make_up(s: Seq<Edge>, t: Seq<Edge>, n: int, c: int)
    requires
        0 <= n,
        within(s, n),
        drawn_from(t, s),
        connects_all_of(t, s),
    ensures
        forest_of(s).len() <= forest_of(cheap(t, c)).len() + dear(t, c).len(),
{
    let tlo = cheap(t, c);
    let thi = dear(t, c);
    lemma_cheap_dear_drawn(t, c);
    lemma_drawn_within(t, s, n);
    lemma_connects_less_takes_less(s, t, n);
    lemma_drawn_within(tlo, t, n);
    lemma_drawn_within(thi, t, n);
    assert(within(tlo + thi, n)) by {
        assert forall|i: int| 0 <= i < (tlo + thi).len() implies (#[trigger] (tlo + thi)[i]).from
            < n && (tlo + thi)[i].to < n by {
            if i < tlo.len() {
                assert(tlo[i].from < n);
            } else {
                assert(thi[i - tlo.len()].from < n);
            }
        }
    }
    lemma_drawn_connects(t, tlo + thi);
    lemma_connects_less_takes_less(t, tlo + thi, n);
    lemma_forest_append(tlo, thi);
}

/// From the cheap edges of a sequence followed by its dear edges, the greedy choice
/// takes the same cheap edges as from the cheap edges alone.
proof fn lemma_forest_of_split(s: Seq<Edge>, c: int)
    ensures
        cheap(forest_of(cheap(s, c) + dear(s, c)), c) == forest_of(cheap(s, c)),
{
    lemma_cheap_dear_costs(s, c);
    lemma_forest_of_cheap(cheap(s, c), dear(s, c), c);
}

/// Among the edges that the greedy choice takes from a sequence with its cheap edges
/// first, those that cost more than `c` are those it takes beyond what it takes from
/// the cheap edges.
proof fn lemma_dear_of_forest(s: Seq<Edge>, c: int)
    requires
        s == cheap(s, c) + dear(s, c),
    ensures
        dear(forest_of(s), c).len() == forest_of(s).len() - forest_of(cheap(s, c)).len(),
{
    lemma_cheap_or_dear(forest_of(s), c);
    lemma_forest_of_split(s, c);
}

/// Among the edges that the greedy choice takes from a sorted sequence, those that
/// cost more than `c` are those it takes beyond what it takes from the edges that
/// cost at most `c`.
proof fn lemma_dear_of_sorted_forest(s: Seq<Edge>, c: int)
    requires
        sorted_by_cost(s),
    ensures
        dear(forest_of(s), c).len() == forest_of(s).len() - forest_of(cheap(s, c)).len(),
{
    lemma_sorted_split(s, c);
    lemma_dear_of_forest(s, c);
}

/// Among edges sorted by cost, the forest has no more edges above any cost than any
/// edges of the graph that connect what the graph connects.
pub proof fn lemma_no_more_dear(s: Seq<Edge>, t: Seq<Edge>, n: int, c: int)
    requires
        0 <= n,
        within(s, n),
        sorted_by_cost(s),
        drawn_from(t, s),
        connects_all_of(t, s),
    ensures
        dear(forest_of(s), c).len() <= dear(t, c).len(),
{
    lemma_dear_of_sorted_forest(s, c);
    lemma_dear_make_up(s, t, n, c);
    lemma_cheap_takes_less(s, t, n, c);
}

/// For every cost below `m`, the number of edges above that cost, added up. An edge
/// that costs `k` is counted `k` times, once for every cost below its own.
pub open spec fn layers(es: Seq<Edge>, m: int) -> int
    decreases m,
{
    if m <= 0 {
        0
    } else {
        layers(es, m - 1) + dear(es, m - 1).len()
    }
}

/// One more edge adds its cost to the layers, as far as they go.
proof fn lemma_layers_push(es: Seq<Edge>, e: Edge, m: int)
    requires
        0 <= m,
    ensures
        layers(es.push(e), m) == layers(es, m) + if e.cost <= m {
            e.cost as int
        } else {
            m
        },
    decreases m,
{
    if m > 0 {
        let c = m - 1;
        lemma_layers_push(es, e, c);
        es.lemma_filter_push(e, |x: Edge| x.cost > c);
    }
}

/// Layers that reach every cost add up to the cost of the edges.
pub proof fn lemma_layers_cost(es: Seq<Edge>, m: int)
    requires
        0 <= m,
        forall|i: int| 0 <= i < es.len() ==> (#[trigger] es[i]).cost <= m,
    ensures
        layers(es, m) == cost_of(es),
    decreases es.len(),
{
    if es.len() == 0 {
        lemma_layers_of_none(es, m);
    } else {
        let front = es.drop_last();
        assert(front.push(es.last()) =~= es);
        assert forall|i: int| 0 <= i < front.len() implies (#[trigger] front[i]).cost <= m by {
            assert(front[i] == es[i]);
        }
        lemma_layers_cost(front, m);
        lemma_layers_push(front, es.last(), m);
        assert(es[es.len() - 1].cost <= m);
    }
}

/// No edges, no layers.
proof fn lemma_layers_of_none(es: Seq<Edge>, m: int)
    requires
        es.len() == 0,
    ensures
        layers(es, m) == 0,
    decreases m,
{
    if m > 0 {
        let c = m - 1;
        lemma_layers_of_none(es, c);
        lemma_filter_all(es, |x: Edge| x.cost > c);
    }
}

/// Edges with no more edges above any cost have no more layers.
pub proof fn lemma_layers_compare(f: Seq<Edge>, t: Seq<Edge>, m: int)
    requires
        forall|c: int| 0 <= c < m ==> #[trigger] dear(f, c).len() <= dear(t, c).len(),
    ensures
        layers(f, m) <= layers(t, m),
    decreases m,
{
    if m > 0 {
        lemma_layers_compare(f, t, m - 1);
        assert(dear(f, m - 1).len() <= dear(t, m - 1).len());
    }
}

/// The forest that the greedy choice takes from edges sorted by cost costs no more
/// than any edges of the graph that connect what the graph connects.
pub proof fn lemma_sorted_forest_is_cheapest(s: Seq<Edge>, t: Seq<Edge>)
    requires
        sorted_by_cost(s),
        drawn_from(t, s),
        connects_all_of(t, s),
    ensures
        cost_of(forest_of(s)) <= cost_of(t),
{
    let n = usize::MAX + 1;
    let m = usize::MAX as int;
    let f = forest_of(s);
    assert(within(s, n));
    assert forall|c: int| 0 <= c < m implies #[trigger] dear(f, c).len() <= dear(t, c).len() by {
        lemma_no_more_dear(s, t, n, c);
    }
    lemma_layers_compare(f, t, m);
    lemma_layers_cost(f, m);
    lemma_layers_cost(t, m);
}

} // verus!
