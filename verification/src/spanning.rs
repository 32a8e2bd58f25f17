//! Which vertices a set of edges connects, and the forest that the greedy choice of
//! Kruskal's algorithm picks from a sequence of edges.

use crate::kruskal::Edge;
use vstd::prelude::*;

verus! {

/// The edges of `es` connect the vertices `a` and `b`.
///
/// No edge connects a vertex only to itself. One more edge connects what was
/// connected before, and what was connected to its one end with what was connected to
/// its other end.
pub open spec fn linked(es: Seq<Edge>, a: int, b: int) -> bool
    decreases es.len(),
{
    if es.len() == 0 {
        a == b
    } else {
        let e = es.last();
        let rest = es.drop_last();
        ||| linked(rest, a, b)
        ||| (linked(rest, a, e.from as int) && linked(rest, e.to as int, b))
        ||| (linked(rest, a, e.to as int) && linked(rest, e.from as int, b))
    }
}

/// The edges that the greedy choice takes from `es`: going through `es` in order, an
/// edge is taken exactly when the edges taken before it do not connect its two ends.
pub open spec fn forest_of(es: Seq<Edge>) -> Seq<Edge>
    decreases es.len(),
{
    if es.len() == 0 {
        es
    } else {
        let taken = forest_of(es.drop_last());
        let e = es.last();
        if linked(taken, e.from as int, e.to as int) {
            taken
        } else {
            taken.push(e)
        }
    }
}

/// No edge of `f` joins two vertices that the edges before it connect already: `f`
/// has no cycle.
pub open spec fn is_forest(f: Seq<Edge>) -> bool {
    forall|i: int|
        0 <= i < f.len() ==> !linked(f.take(i), (#[trigger] f[i]).from as int, f[i].to as int)
}

/// Every vertex is connected to itself.
pub proof fn lemma_linked_reflexive(es: Seq<Edge>, a: int)
    ensures
        linked(es, a, a),
    decreases es.len(),
{
    if es.len() > 0 {
        lemma_linked_reflexive(es.drop_last(), a);
    }
}

/// A connection can be turned round.
pub proof fn lemma_linked_symmetric(es: Seq<Edge>, a: int, b: int)
    requires
        linked(es, a, b),
    ensures
        linked(es, b, a),
    decreases es.len(),
{
    if es.len() > 0 {
        let rest = es.drop_last();
        let u = es.last().from as int;
        let v = es.last().to as int;
        if linked(rest, a, b) {
            lemma_linked_symmetric(rest, a, b);
        } else if linked(rest, a, u) && linked(rest, v, b) {
            lemma_linked_symmetric(rest, a, u);
            lemma_linked_symmetric(rest, v, b);
        } else {
            lemma_linked_symmetric(rest, a, v);
            lemma_linked_symmetric(rest, u, b);
        }
    }
}

/// Connections can be chained.
pub proof fn lemma_linked_transitive(es: Seq<Edge>, a: int, b: int, c: int)
    requires
        linked(es, a, b),
        linked(es, b, c),
    ensures
        linked(es, a, c),
    decreases es.len(),
{
    if es.len() > 0 {
        let rest = es.drop_last();
        let u = es.last().from as int;
        let v = es.last().to as int;
        if linked(rest, a, b) {
            if linked(rest, b, c) {
                lemma_linked_transitive(rest, a, b, c);
            } else if linked(rest, b, u) && linked(rest, v, c) {
                lemma_linked_transitive(rest, a, b, u);
            } else {
                lemma_linked_transitive(rest, a, b, v);
            }
        } else if linked(rest, a, u) && linked(rest, v, b) {
            if linked(rest, b, c) {
                lemma_linked_transitive(rest, v, b, c);
            } else if linked(rest, b, u) && linked(rest, v, c) {
                lemma_linked_transitive(rest, v, b, u);
                lemma_linked_symmetric(rest, v, u);
                lemma_linked_transitive(rest, a, u, v);
                lemma_linked_transitive(rest, a, v, c);
            } else {
                lemma_linked_transitive(rest, a, u, c);
            }
        } else {
            if linked(rest, b, c) {
                lemma_linked_transitive(rest, u, b, c);
            } else if linked(rest, b, u) && linked(rest, v, c) {
                lemma_linked_transitive(rest, a, v, c);
            } else {
                lemma_linked_transitive(rest, u, b, v);
                lemma_linked_symmetric(rest, u, v);
                lemma_linked_transitive(rest, a, v, u);
                lemma_linked_transitive(rest, a, u, c);
            }
        }
    }
}

/// Being connected is an equivalence: every vertex is connected to itself, and
/// connections can be turned round and chained.
pub proof fn lemma_linked_equivalence(es: Seq<Edge>)
    ensures
        forall|a: int| #[trigger] linked(es, a, a),
        forall|a: int, b: int| #[trigger] linked(es, a, b) ==> linked(es, b, a),
        forall|a: int, b: int, c: int|
            #[trigger] linked(es, a, b) && #[trigger] linked(es, b, c) ==> linked(es, a, c),
{
    assert forall|a: int| #[trigger] linked(es, a, a) by {
        lemma_linked_reflexive(es, a);
    }
    assert forall|a: int, b: int| #[trigger] linked(es, a, b) implies linked(es, b, a) by {
        lemma_linked_symmetric(es, a, b);
    }
    assert forall|a: int, b: int, c: int| #[trigger]
        linked(es, a, b) && #[trigger] linked(es, b, c) implies linked(es, a, c) by {
        lemma_linked_transitive(es, a, b, c);
    }
}

/// One more edge connects its two ends and breaks no connection.
pub proof fn lemma_linked_grows(es: Seq<Edge>, e: Edge, a: int, b: int)
    ensures
        linked(es.push(e), e.from as int, e.to as int),
        linked(es, a, b) ==> linked(es.push(e), a, b),
{
    assert(es.push(e).drop_last() =~= es);
    assert(es.push(e).last() == e);
    lemma_linked_reflexive(es, e.from as int);
    lemma_linked_reflexive(es, e.to as int);
}

/// The forest connects exactly the vertices that the edges it was picked from
/// connect: it spans every connected part of the graph.
pub proof fn lemma_forest_spans(es: Seq<Edge>)
    ensures
        forall|a: int, b: int| #[trigger] linked(forest_of(es), a, b) <==> linked(es, a, b),
    decreases es.len(),
{
    if es.len() > 0 {
        let rest = es.drop_last();
        let taken = forest_of(rest);
        let e = es.last();
        lemma_forest_spans(rest);
        lemma_linked_equivalence(rest);
        lemma_linked_equivalence(taken);
        if !linked(taken, e.from as int, e.to as int) {
            assert(taken.push(e).drop_last() =~= taken);
        }
        assert forall|a: int, b: int| #[trigger]
            linked(forest_of(es), a, b) <==> linked(es, a, b) by {
            assert(linked(taken, a, b) <==> linked(rest, a, b));
            assert(linked(taken, a, e.from as int) <==> linked(rest, a, e.from as int));
            assert(linked(taken, a, e.to as int) <==> linked(rest, a, e.to as int));
            assert(linked(taken, e.from as int, b) <==> linked(rest, e.from as int, b));
            assert(linked(taken, e.to as int, b) <==> linked(rest, e.to as int, b));
            assert(linked(taken, e.from as int, e.to as int) <==> linked(
                rest,
                e.from as int,
                e.to as int,
            ));
        }
    }
}

/// The forest has no cycle.
pub proof fn lemma_forest_has_no_cycle(es: Seq<Edge>)
    ensures
        is_forest(forest_of(es)),
    decreases es.len(),
{
    if es.len() > 0 {
        let taken = forest_of(es.drop_last());
        let e = es.last();
        lemma_forest_has_no_cycle(es.drop_last());
        if !linked(taken, e.from as int, e.to as int) {
            let f = taken.push(e);
            assert forall|i: int| 0 <= i < f.len() implies !linked(
                f.take(i),
                (#[trigger] f[i]).from as int,
                f[i].to as int,
            ) by {
                if i < taken.len() {
                    assert(f.take(i) =~= taken.take(i));
                    assert(f[i] == taken[i]);
                } else {
                    assert(f.take(i) =~= taken);
                }
            }
        }
    }
}

/// Every edge of the forest is one of the edges it was picked from.
pub proof fn lemma_forest_members(es: Seq<Edge>, e: Edge)
    ensures
        forest_of(es).contains(e) ==> es.contains(e),
    decreases es.len(),
{
    if es.len() > 0 {
        let rest = es.drop_last();
        let taken = forest_of(rest);
        lemma_forest_members(rest, e);
        if forest_of(es).contains(e) {
            let f = forest_of(es);
            let i = choose|i: int| 0 <= i < f.len() && f[i] == e;
            if i < taken.len() {
                assert(taken[i] == e);
                let j = choose|j: int| 0 <= j < rest.len() && rest[j] == e;
                assert(es[j] == e);
            } else {
                assert(es[es.len() - 1] == e);
            }
        }
    }
}

/// Every edge connects its two ends.
pub proof fn lemma_edge_links(es: Seq<Edge>, i: int)
    requires
        0 <= i < es.len(),
    ensures
        linked(es, es[i].from as int, es[i].to as int),
    decreases es.len(),
{
    let rest = es.drop_last();
    if i == es.len() - 1 {
        lemma_linked_reflexive(rest, es[i].from as int);
        lemma_linked_reflexive(rest, es[i].to as int);
    } else {
        assert(rest[i] == es[i]);
        lemma_edge_links(rest, i);
    }
}

/// What some edges connect, any edges that include them connect too: the order of
/// the edges and repeated edges make no difference.
pub proof fn lemma_linked_by_more(es: Seq<Edge>, more: Seq<Edge>, a: int, b: int)
    requires
        forall|i: int| 0 <= i < es.len() ==> more.contains(#[trigger] es[i]),
        linked(es, a, b),
    ensures
        linked(more, a, b),
    decreases es.len(),
{
    if es.len() == 0 {
        lemma_linked_reflexive(more, a);
    } else {
        let rest = es.drop_last();
        let e = es.last();
        let u = e.from as int;
        let v = e.to as int;
        assert forall|i: int| 0 <= i < rest.len() implies more.contains(#[trigger] rest[i]) by {
            assert(rest[i] == es[i]);
        }
        if linked(rest, a, b) {
            lemma_linked_by_more(rest, more, a, b);
        } else {
            assert(more.contains(es[es.len() - 1]));
            let j = choose|j: int| 0 <= j < more.len() && more[j] == e;
            lemma_edge_links(more, j);
            if linked(rest, a, u) && linked(rest, v, b) {
                lemma_linked_by_more(rest, more, a, u);
                lemma_linked_by_more(rest, more, v, b);
                lemma_linked_transitive(more, a, u, v);
                lemma_linked_transitive(more, a, v, b);
            } else {
                lemma_linked_by_more(rest, more, a, v);
                lemma_linked_by_more(rest, more, u, b);
                lemma_linked_symmetric(more, u, v);
                lemma_linked_transitive(more, a, v, u);
                lemma_linked_transitive(more, a, u, b);
            }
        }
    }
}

} // verus!
