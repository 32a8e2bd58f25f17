//! Disjoint sets and Kruskal's algorithm for a minimum spanning forest.

use crate::forest::lemma_compress;
use crate::forest::lemma_counted_same;
use crate::forest::lemma_counted_singletons;
use crate::forest::members;
use crate::forest::lemma_rep_is_root;
use crate::forest::lemma_unite;
use crate::forest::lemma_unite_rep;
use crate::forest::ranked;
use crate::forest::rep;
use crate::forest::reps;
use crate::forest::well_linked;
use crate::minimality::connects_all_of;
use crate::minimality::cost_of;
use crate::minimality::drawn_from;
use crate::minimality::lemma_drawn_connects;
use crate::minimality::lemma_sorted_forest_is_cheapest;
use crate::sorting::lemma_stable_sort_members;
use crate::sorting::lemma_stable_sort_sorted;
use crate::sorting::sort_by_cost;
use crate::sorting::stable_sort;
use crate::spanning::forest_of;
use crate::spanning::is_forest;
use crate::spanning::lemma_forest_has_no_cycle;
use crate::spanning::lemma_forest_members;
use crate::spanning::lemma_forest_spans;
use crate::spanning::lemma_linked_by_more;
use crate::spanning::linked;
use vstd::prelude::*;

verus! {

/// An edge between two vertices, with what it costs to take it.
#[derive(Clone, Copy, Debug, PartialEq, Eq, PartialOrd, Ord, Structural)]
pub struct Edge {
    pub from: usize,
    pub to: usize,
    pub cost: usize,
}

impl Edge {
    /// The edge between `from` and `to` at the given cost.
    pub fn new(from: usize, to: usize, cost: usize) -> (e: Self)
        ensures
            e == (Edge { from, to, cost }),
    {
        Self { from, to, cost }
    }
}

/// A partition of `0..n` into disjoint sets, each with one element that stands for it.
///
/// Its view, `uf@`, gives for every element the representative of its set.
#[derive(Debug)]
pub struct UnionFind {
    root: Vec<usize>,
    size: Vec<usize>,
}

impl View for UnionFind {
    type V = Seq<int>;

    closed spec fn view(&self) -> Seq<int> {
        reps(self.root@, self.size@)
    }
}

/// The representatives after the set of `lose` is merged into the set of `win`.
pub open spec fn united(reps: Seq<int>, lose: int, win: int) -> Seq<int> {
    Seq::new(
        reps.len(),
        |i: int|
            if reps[i] == lose {
                win
            } else {
                reps[i]
            },
    )
}

impl UnionFind {
    /// The links of the structure form a forest in which every set has one
    /// representative, whose size is the number of elements of the set.
    /// [`UnionFind::new`] establishes this and every method keeps it.
    pub closed spec fn well_formed(self) -> bool {
        well_linked(self.root@, self.size@)
    }

    /// The size kept for every element. It starts at one and grows only while the
    /// element stands for a set: the sizes of two sets are added when they are united.
    pub closed spec fn sizes(self) -> Seq<usize> {
        self.size@
    }

    /// What holds of the representatives of a well-formed structure: each is an
    /// element, each stands for itself, and the sizes are as many as the elements.
    pub proof fn lemma_representatives(self, i: int)
        requires
            self.well_formed(),
            0 <= i < self@.len(),
        ensures
            self.sizes().len() == self@.len(),
            self@.len() <= usize::MAX,
            0 <= self@[i] < self@.len(),
            self@[self@[i]] == self@[i],
            1 <= self.sizes()[i] <= self@.len(),
    {
        lemma_rep_is_root(self.root@, self.size@, i);
    }

    /// The size of a representative is the number of elements of its set.
    pub proof fn lemma_size_counts(self, r: int)
        requires
            self.well_formed(),
            0 <= r < self@.len(),
            self@[r] == r,
        ensures
            self.sizes()[r] == Set::new(|i: int| 0 <= i < self@.len() && self@[i] == r).len(),
    {
        lemma_rep_is_root(self.root@, self.size@, r);
        assert(Set::new(|i: int| 0 <= i < self@.len() && self@[i] == r) =~= members(
            self.root@,
            self.size@,
            r,
        ));
    }

    /// `size` sets of one element each.
    pub fn new(size: usize) -> (uf: Self)
        ensures
            uf.well_formed(),
            uf@ == Seq::new(size as nat, |i: int| i),
            uf.sizes() == Seq::new(size as nat, |i: int| 1usize),
    {
        let mut root: Vec<usize> = Vec::new();
        let mut sizes: Vec<usize> = Vec::new();
        let mut i: usize = 0;
        while i < size
            invariant
                i <= size,
                root@.len() == i,
                sizes@.len() == i,
                forall|j: int| 0 <= j < i ==> #[trigger] root@[j] == j,
                forall|j: int| 0 <= j < i ==> #[trigger] sizes@[j] == 1,
            decreases size - i,
        {
            root.push(i);
            sizes.push(1);
            i += 1;
        }
        proof {
            assert(ranked(root@, sizes@));
            lemma_counted_singletons(root@, sizes@);
            assert(reps(root@, sizes@) =~= Seq::new(size as nat, |i: int| i));
            assert(sizes@ =~= Seq::new(size as nat, |i: int| 1usize));
        }
        UnionFind { root, size: sizes }
    }

    /// The representative of the set of `x`. Every element on the way is linked
    /// straight to it, which changes no set and no representative.
    pub fn root(&mut self, x: usize) -> (r: usize)
        requires
            old(self).well_formed(),
            x < old(self)@.len(),
        ensures
            final(self).well_formed(),
            r == old(self)@[x as int],
            final(self)@ == old(self)@,
            final(self).sizes() == old(self).sizes(),
        decreases old(self).sizes().len() - old(self).sizes()[x as int],
    {
        let ghost links0 = self.root@;
        let ghost sizes0 = self.size@;
        let parent = self.root[x];
        if parent == x {
            x
        } else {
            assert(rep(links0, sizes0, x as int) == rep(links0, sizes0, parent as int));
            assert(old(self)@[parent as int] == rep(links0, sizes0, parent as int));
            let r = self.root(parent);
            proof {
                let links = self.root@;
                let after = links.update(x as int, r);
                assert(self@[x as int] == rep(links, self.size@, x as int));
                assert forall|i: int| 0 <= i < links.len() implies rep(after, self.size@, i)
                    == rep(links, self.size@, i) by {
                    lemma_compress(links, self.size@, x as int, i);
                }
                lemma_compress(links, self.size@, x as int, x as int);
                lemma_rep_is_root(links, self.size@, x as int);
                lemma_counted_same(links, self.size@, after, self.size@);
                assert(reps(after, self.size@) =~= reps(links, self.size@));
            }
            self.root[x] = r;
            r
        }
    }

    /// Whether `x` and `y` are in the same set.
    pub fn same(&mut self, x: usize, y: usize) -> (r: bool)
        requires
            old(self).well_formed(),
            x < old(self)@.len(),
            y < old(self)@.len(),
        ensures
            final(self).well_formed(),
            r == (old(self)@[x as int] == old(self)@[y as int]),
            final(self)@ == old(self)@,
            final(self).sizes() == old(self).sizes(),
    {
        let a = self.root(x);
        let b = self.root(y);
        a == b
    }

    /// Unites the set of `x` with the set of `y` and says whether they were two sets.
    ///
    /// The representative of the larger set stands for the united set, that of the set
    /// of `x` where both are of one size, and its size becomes the sum of the two.
    pub fn unite(&mut self, x: usize, y: usize) -> (r: bool)
        requires
            old(self).well_formed(),
            x < old(self)@.len(),
            y < old(self)@.len(),
        ensures
            final(self).well_formed(),
            r == (old(self)@[x as int] != old(self)@[y as int]),
            !r ==> final(self)@ == old(self)@ && final(self).sizes() == old(self).sizes(),
            r ==> final(self)@ == united(
                old(self)@,
                loser(old(self)@[x as int], old(self)@[y as int], old(self).sizes()),
                winner(old(self)@[x as int], old(self)@[y as int], old(self).sizes()),
            ),
            r ==> final(self).sizes() == grown(
                old(self).sizes(),
                loser(old(self)@[x as int], old(self)@[y as int], old(self).sizes()),
                winner(old(self)@[x as int], old(self)@[y as int], old(self).sizes()),
            ),
    {
        let mut x_root = self.root(x);
        let mut y_root = self.root(y);
        proof {
            lemma_rep_is_root(old(self).root@, old(self).size@, x as int);
            lemma_rep_is_root(old(self).root@, old(self).size@, y as int);
            assert(self@[x as int] == x_root);
            assert(self@[y as int] == y_root);
        }
        if x_root == y_root {
            return false;
        }
        if self.size(x_root) < self.size(y_root) {
            std::mem::swap(&mut x_root, &mut y_root);
        }
        proof {
            let links = self.root@;
            let sizes = self.size@;
            lemma_rep_is_root(links, sizes, x as int);
            lemma_rep_is_root(links, sizes, y as int);
            lemma_unite(links, sizes, y_root as int, x_root as int);
            let after = links.update(y_root as int, x_root);
            let more = sizes.update(x_root as int, (sizes[x_root as int] + sizes[y_root as int]) as usize);
            assert forall|i: int| 0 <= i < links.len() implies rep(after, more, i) == united(
                reps(links, sizes),
                y_root as int,
                x_root as int,
            )[i] by {
                lemma_unite_rep(links, sizes, y_root as int, x_root as int, i);
            }
            assert(reps(after, more) =~= united(reps(links, sizes), y_root as int, x_root as int));
        }
        self.root[y_root] = x_root;
        self.size[x_root] += self.size[y_root];
        true
    }

    /// The size kept for `x`: for a representative, the number of elements of its set.
    pub fn size(&self, x: usize) -> (n: usize)
        requires
            self.well_formed(),
            x < self@.len(),
        ensures
            n == self.sizes()[x as int],
    {
        self.size[x]
    }
}

/// Of two representatives of different sets, the one that stands for the united set:
/// that of the larger set, and `a` where both sets are of one size.
pub open spec fn winner(a: int, b: int, sizes: Seq<usize>) -> int {
    if sizes[a] < sizes[b] {
        b
    } else {
        a
    }
}

/// Of two representatives of different sets, the one that stops standing for a set.
pub open spec fn loser(a: int, b: int, sizes: Seq<usize>) -> int {
    if sizes[a] < sizes[b] {
        a
    } else {
        b
    }
}

/// The sizes after the set of `lose` is merged into the set of `win`.
pub open spec fn grown(sizes: Seq<usize>, lose: int, win: int) -> Seq<usize> {
    sizes.update(win, (sizes[win] + sizes[lose]) as usize)
}

/// Every edge joins two of the vertices `0..n`.
pub open spec fn within(edges: Seq<Edge>, n: int) -> bool {
    forall|i: int| 0 <= i < edges.len() ==> (#[trigger] edges[i]).from < n && edges[i].to < n
}

/// The spanning forest that Kruskal's algorithm builds from `edges`: the edges are
/// sorted by cost, cheapest first and edges of equal cost in their given order; going
/// through them, an edge is taken exactly when its two ends are not yet connected by
/// the edges taken before it.
pub open spec fn spanning_forest(edges: Seq<Edge>) -> Seq<Edge> {
    forest_of(stable_sort(edges))
}

/// What makes the result of Kruskal's algorithm a spanning forest: it is made of
/// edges of the graph, it has no cycle, and it connects exactly the vertices that
/// the graph connects.
pub proof fn lemma_spanning_forest(edges: Seq<Edge>)
    ensures
        forall|e: Edge| #[trigger] spanning_forest(edges).contains(e) ==> edges.contains(e),
        is_forest(spanning_forest(edges)),
        forall|a: int, b: int| #[trigger]
            linked(spanning_forest(edges), a, b) <==> linked(edges, a, b),
{
    let sorted = stable_sort(edges);
    assert forall|e: Edge| #[trigger] spanning_forest(edges).contains(e) implies edges.contains(
        e,
    ) by {
        lemma_forest_members(sorted, e);
        lemma_stable_sort_members(edges, e);
    }
    lemma_forest_has_no_cycle(sorted);
    lemma_forest_spans(sorted);
    assert forall|i: int| 0 <= i < sorted.len() implies edges.contains(#[trigger] sorted[i]) by {
        assert(sorted.contains(sorted[i]));
        lemma_stable_sort_members(edges, sorted[i]);
    }
    assert forall|i: int| 0 <= i < edges.len() implies sorted.contains(#[trigger] edges[i]) by {
        assert(edges.contains(edges[i]));
        lemma_stable_sort_members(edges, edges[i]);
    }
    assert forall|a: int, b: int| #[trigger]
        linked(spanning_forest(edges), a, b) <==> linked(edges, a, b) by {
        if linked(sorted, a, b) {
            lemma_linked_by_more(sorted, edges, a, b);
        }
        if linked(edges, a, b) {
            lemma_linked_by_more(edges, sorted, a, b);
        }
    }
}

/// The spanning forest of Kruskal's algorithm is a minimum spanning forest: any
/// edges of the graph that connect what the graph connects cost at least as much.
pub proof fn lemma_spanning_forest_is_cheapest(edges: Seq<Edge>, other: Seq<Edge>)
    requires
        drawn_from(other, edges),
        connects_all_of(other, edges),
    ensures
        cost_of(spanning_forest(edges)) <= cost_of(other),
{
    let sorted = stable_sort(edges);
    lemma_stable_sort_sorted(edges);
    assert(drawn_from(other, sorted) && drawn_from(sorted, edges)) by {
        reveal(drawn_from);
        assert forall|i: int| 0 <= i < other.len() implies sorted.contains(#[trigger] other[i]) by {
            lemma_stable_sort_members(edges, other[i]);
        }
        assert forall|i: int| 0 <= i < sorted.len() implies edges.contains(
            #[trigger] sorted[i],
        ) by {
            assert(sorted.contains(sorted[i]));
            lemma_stable_sort_members(edges, sorted[i]);
        }
    }
    lemma_drawn_connects(sorted, edges);
    assert(connects_all_of(other, sorted)) by {
        reveal(connects_all_of);
    }
    lemma_sorted_forest_is_cheapest(sorted, other);
}

/// A minimum spanning forest of the graph with the vertices `0..num_vertex` and the
/// given edges, by Kruskal's algorithm: it has no cycle, it connects what the graph
/// connects, and by [`lemma_spanning_forest_is_cheapest`] nothing that does so costs
/// less.
pub fn kruskal(edges: Vec<Edge>, num_vertex: usize) -> (spanning: Vec<Edge>)
    requires
        within(edges@, num_vertex as int),
    ensures
        spanning@ == spanning_forest(edges@),
        is_forest(spanning@),
        forall|a: int, b: int| #[trigger] linked(spanning@, a, b) <==> linked(edges@, a, b),
{
    proof {
        lemma_spanning_forest(edges@);
    }
    let ghost given = edges@;
    let edges = sort_by_cost(edges);
    proof {
        assert forall|i: int| 0 <= i < edges@.len() implies (#[trigger] edges@[i]).from
            < num_vertex && edges@[i].to < num_vertex by {
            assert(edges@.contains(edges@[i]));
            lemma_stable_sort_members(given, edges@[i]);
            let j = choose|j: int| 0 <= j < given.len() && given[j] == edges@[i];
            assert(given[j].from < num_vertex);
        }
    }
    let mut spanning: Vec<Edge> = Vec::new();
    let mut uf = UnionFind::new(num_vertex);
    let mut i: usize = 0;
    while i < edges.len()
        invariant
            i <= edges.len(),
            within(edges@, num_vertex as int),
            uf.well_formed(),
            uf@.len() == num_vertex,
            spanning@ == forest_of(edges@.take(i as int)),
            forall|a: int, b: int|
                0 <= a < num_vertex && 0 <= b < num_vertex ==> (uf@[a] == uf@[b] <==> #[trigger] linked(
                    spanning@,
                    a,
                    b,
                )),
        decreases edges.len() - i,
    {
        let e = edges[i];
        let ghost before = uf@;
        let ghost taken = spanning@;
        proof {
            assert(edges@.take(i + 1).drop_last() =~= edges@.take(i as int));
            assert(edges@.take(i + 1).last() == e);
            assert(linked(taken, e.from as int, e.to as int) <==> before[e.from as int]
                == before[e.to as int]);
        }
        if !uf.same(e.from, e.to) {
            uf.unite(e.from, e.to);
            spanning.push(e);
            proof {
                assert(spanning@.drop_last() =~= taken);
                assert(spanning@.last() == e);
                assert forall|a: int, b: int|
                    0 <= a < num_vertex && 0 <= b < num_vertex implies (uf@[a] == uf@[b]
                    <==> #[trigger] linked(spanning@, a, b)) by {
                    assert(linked(taken, a, b) <==> before[a] == before[b]);
                    assert(linked(taken, a, e.from as int) <==> before[a] == before[e.from as int]);
                    assert(linked(taken, a, e.to as int) <==> before[a] == before[e.to as int]);
                    assert(linked(taken, e.from as int, b) <==> before[e.from as int] == before[b]);
                    assert(linked(taken, e.to as int, b) <==> before[e.to as int] == before[b]);
                }
            }
        }
        i += 1;
    }
    proof {
        assert(edges@.take(edges.len() as int) =~= edges@);
    }
    spanning
}

impl Clone for UnionFind {
    fn clone(&self) -> (copy: Self)
        ensures
            copy@ == self@,
            copy.sizes() == self.sizes(),
            copy.well_formed() == self.well_formed(),
    {
        let root = self.root.clone();
        let size = self.size.clone();
        proof {
            assert(root@ =~= self.root@);
            assert(size@ =~= self.size@);
        }
        UnionFind { root, size }
    }
}

} // verus!
