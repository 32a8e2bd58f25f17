//! Forests of parent links, the representation behind a disjoint-set structure.
//!
//! Element `i` points to `parent[i]`; an element that points to itself is a root.
//! `size[r]` of a root `r` counts the elements of its tree. Following the links from
//! any element ends at the root that stands for its set.

use vstd::prelude::*;
use vstd::set_lib::lemma_int_range;
use vstd::set_lib::lemma_len_subset;
use vstd::set_lib::lemma_set_disjoint_lens;
use vstd::set_lib::set_int_range;

verus! {

/// Every link stays inside the forest and goes to an element of strictly greater
/// size, so that following links always ends.
pub open spec fn ranked(parent: Seq<usize>, size: Seq<usize>) -> bool {
    &&& parent.len() == size.len()
    &&& parent.len() <= usize::MAX
    &&& forall|i: int| 0 <= i < parent.len() ==> #[trigger] parent[i] < parent.len()
    &&& forall|i: int| 0 <= i < size.len() ==> 1 <= #[trigger] size[i] <= size.len()
    &&& forall|i: int|
        0 <= i < parent.len() && #[trigger] parent[i] != i ==> size[i] < size[parent[i] as int]
}

/// A ranked forest in which the size of every root is the number of elements of its
/// tree.
pub open spec fn well_linked(parent: Seq<usize>, size: Seq<usize>) -> bool {
    ranked(parent, size) && counted(parent, size)
}

/// The root that is reached from `i` by following the links.
pub open spec fn rep(parent: Seq<usize>, size: Seq<usize>, i: int) -> int
    decreases size.len() - size[i],
    when ranked(parent, size) && 0 <= i < parent.len()
{
    if parent[i] == i {
        i
    } else {
        rep(parent, size, parent[i] as int)
    }
}

/// The elements that `r` stands for.
pub open spec fn members(parent: Seq<usize>, size: Seq<usize>, r: int) -> Set<int> {
    Set::new(|i: int| 0 <= i < parent.len() && rep(parent, size, i) == r)
}

/// The size of every root is the number of elements that it stands for.
pub open spec fn counted(parent: Seq<usize>, size: Seq<usize>) -> bool {
    forall|r: int|
        0 <= r < parent.len() && #[trigger] parent[r] == r ==> size[r] == members(
            parent,
            size,
            r,
        ).len()
}

/// The representative of every element, by index.
pub open spec fn reps(parent: Seq<usize>, size: Seq<usize>) -> Seq<int> {
    Seq::new(parent.len(), |i: int| rep(parent, size, i))
}

/// The representative of an element is a root of the forest, it stands for itself,
/// and it is larger than any other element of its tree.
pub proof fn lemma_rep_is_root(parent: Seq<usize>, size: Seq<usize>, i: int)
    requires
        ranked(parent, size),
        0 <= i < parent.len(),
    ensures
        0 <= rep(parent, size, i) < parent.len(),
        parent[rep(parent, size, i)] == rep(parent, size, i),
        rep(parent, size, rep(parent, size, i)) == rep(parent, size, i),
        parent[i] != i ==> size[i] < size[rep(parent, size, i)],
        parent[i] == i <==> rep(parent, size, i) == i,
    decreases size.len() - size[i],
{
    if parent[i] != i {
        lemma_rep_is_root(parent, size, parent[i] as int);
    }
}

/// Linking an element straight to its representative keeps the forest ranked and
/// every representative the same.
pub proof fn lemma_compress(parent: Seq<usize>, size: Seq<usize>, x: int, i: int)
    requires
        ranked(parent, size),
        0 <= x < parent.len(),
        0 <= i < parent.len(),
    ensures
        ranked(parent.update(x, rep(parent, size, x) as usize), size),
        rep(parent.update(x, rep(parent, size, x) as usize), size, i) == rep(parent, size, i),
    decreases size.len() - size[i],
{
    let r = rep(parent, size, x);
    let after = parent.update(x, r as usize);
    lemma_rep_is_root(parent, size, x);
    assert(ranked(after, size)) by {
        assert forall|j: int| 0 <= j < after.len() && #[trigger] after[j] != j implies size[j]
            < size[after[j] as int] by {
            if j != x {
                assert(parent[j] != j);
            }
        }
    }
    if i == x {
        if parent[x] != x {
            lemma_compress(parent, size, x, r);
        }
    } else if parent[i] != i {
        lemma_compress(parent, size, x, parent[i] as int);
    }
}

/// Two different roots stand for no more elements together than there are, and
/// after the one is hung below the other the forest is ranked again.
pub proof fn lemma_unite_ranked(parent: Seq<usize>, size: Seq<usize>, lose: int, win: int)
    requires
        well_linked(parent, size),
        0 <= lose < parent.len(),
        0 <= win < parent.len(),
        lose != win,
        parent[lose] == lose,
        parent[win] == win,
    ensures
        size[win] + size[lose] <= parent.len(),
        ranked(
            parent.update(lose, win as usize),
            size.update(win, (size[win] + size[lose]) as usize),
        ),
{
    let n = parent.len() as int;
    let a = members(parent, size, win);
    let b = members(parent, size, lose);
    lemma_members_finite(parent, size, win);
    lemma_members_finite(parent, size, lose);
    assert(a.disjoint(b));
    lemma_set_disjoint_lens(a, b);
    lemma_int_range(0, n);
    lemma_len_subset(a + b, set_int_range(0, n));
    assert(size[win] == a.len());
    assert(size[lose] == b.len());
    let after = parent.update(lose, win as usize);
    let sizes = size.update(win, (size[win] + size[lose]) as usize);
    assert(ranked(after, sizes)) by {
        assert forall|j: int| 0 <= j < after.len() && #[trigger] after[j] != j implies sizes[j]
            < sizes[after[j] as int] by {
            if j != lose {
                assert(parent[j] != j);
            }
        }
    }
}

/// After the root `lose` is hung below the root `win`, the forest is well linked
/// again.
pub proof fn lemma_unite(parent: Seq<usize>, size: Seq<usize>, lose: int, win: int)
    requires
        well_linked(parent, size),
        0 <= lose < parent.len(),
        0 <= win < parent.len(),
        lose != win,
        parent[lose] == lose,
        parent[win] == win,
    ensures
        size[win] + size[lose] <= parent.len(),
        well_linked(
            parent.update(lose, win as usize),
            size.update(win, (size[win] + size[lose]) as usize),
        ),
{
    lemma_unite_ranked(parent, size, lose, win);
    lemma_counted_unite(parent, size, lose, win);
}

/// After the root `lose` is hung below the root `win`, `win` stands for every element
/// that `lose` stood for, and every other element keeps its representative.
pub proof fn lemma_unite_rep(parent: Seq<usize>, size: Seq<usize>, lose: int, win: int, i: int)
    requires
        well_linked(parent, size),
        0 <= lose < parent.len(),
        0 <= win < parent.len(),
        0 <= i < parent.len(),
        lose != win,
        parent[lose] == lose,
        parent[win] == win,
    ensures
        rep(
            parent.update(lose, win as usize),
            size.update(win, (size[win] + size[lose]) as usize),
            i,
        ) == if rep(parent, size, i) == lose {
            win
        } else {
            rep(parent, size, i)
        },
    decreases size.len() - size[i],
{
    lemma_unite_ranked(parent, size, lose, win);
    let after = parent.update(lose, win as usize);
    let sizes = size.update(win, (size[win] + size[lose]) as usize);
    if i == lose {
        assert(rep(after, sizes, win) == win);
    } else if parent[i] != i {
        lemma_unite_rep(parent, size, lose, win, parent[i] as int);
    }
}

/// A root stands for finitely many elements.
pub proof fn lemma_members_finite(parent: Seq<usize>, size: Seq<usize>, r: int)
    ensures
        members(parent, size, r).finite(),
        members(parent, size, r).len() <= parent.len(),
{
    lemma_int_range(0, parent.len() as int);
    lemma_len_subset(members(parent, size, r), set_int_range(0, parent.len() as int));
}

/// Forests with the same roots, the same sizes of roots and the same
/// representatives are counted alike.
pub proof fn lemma_counted_same(
    parent1: Seq<usize>,
    size1: Seq<usize>,
    parent2: Seq<usize>,
    size2: Seq<usize>,
)
    requires
        counted(parent1, size1),
        parent1.len() == parent2.len(),
        forall|i: int|
            0 <= i < parent1.len() ==> ((#[trigger] parent1[i] == i) <==> (#[trigger] parent2[i]
                == i)),
        forall|i: int| 0 <= i < parent1.len() && parent1[i] == i ==> #[trigger] size1[i] == size2[i],
        forall|i: int|
            0 <= i < parent1.len() ==> #[trigger] rep(parent1, size1, i) == rep(parent2, size2, i),
    ensures
        counted(parent2, size2),
{
    assert forall|r: int| 0 <= r < parent2.len() && #[trigger] parent2[r] == r implies size2[r]
        == members(parent2, size2, r).len() by {
        assert(parent1[r] == r);
        assert(size1[r] == size2[r]);
        assert forall|i: int|
            members(parent1, size1, r).contains(i) <==> members(parent2, size2, r).contains(i) by {
            if 0 <= i < parent1.len() {
                assert(rep(parent1, size1, i) == rep(parent2, size2, i));
            }
        }
        assert(members(parent1, size1, r) =~= members(parent2, size2, r));
    }
}

/// After the root `lose` is hung below the root `win`, every root is counted again:
/// `win` stands for what it and `lose` stood for.
pub proof fn lemma_counted_unite(parent: Seq<usize>, size: Seq<usize>, lose: int, win: int)
    requires
        well_linked(parent, size),
        0 <= lose < parent.len(),
        0 <= win < parent.len(),
        lose != win,
        parent[lose] == lose,
        parent[win] == win,
    ensures
        counted(
            parent.update(lose, win as usize),
            size.update(win, (size[win] + size[lose]) as usize),
        ),
{
    let after = parent.update(lose, win as usize);
    let sizes = size.update(win, (size[win] + size[lose]) as usize);
    lemma_unite_ranked(parent, size, lose, win);
    assert forall|r: int| 0 <= r < after.len() && #[trigger] after[r] == r implies sizes[r]
        == members(after, sizes, r).len() by {
        assert(parent[r] == r);
        assert forall|i: int| 0 <= i < parent.len() implies rep(after, sizes, i) == if rep(
            parent,
            size,
            i,
        ) == lose {
            win
        } else {
            rep(parent, size, i)
        } by {
            lemma_unite_rep(parent, size, lose, win, i);
        }
        if r == win {
            let a = members(parent, size, win);
            let b = members(parent, size, lose);
            lemma_members_finite(parent, size, win);
            lemma_members_finite(parent, size, lose);
            assert(a.disjoint(b));
            lemma_set_disjoint_lens(a, b);
            assert(members(after, sizes, r) =~= a + b);
        } else {
            assert(members(after, sizes, r) =~= members(parent, size, r));
        }
    }
}

/// Where every element is its own root of size one, every root is counted.
pub proof fn lemma_counted_singletons(parent: Seq<usize>, size: Seq<usize>)
    requires
        ranked(parent, size),
        forall|i: int| 0 <= i < parent.len() ==> #[trigger] parent[i] == i,
        forall|i: int| 0 <= i < size.len() ==> #[trigger] size[i] == 1,
    ensures
        counted(parent, size),
{
    assert forall|r: int| 0 <= r < parent.len() && #[trigger] parent[r] == r implies size[r]
        == members(parent, size, r).len() by {
        assert forall|i: int| members(parent, size, r).contains(i) <==> i == r by {
            if 0 <= i < parent.len() {
                assert(parent[i] == i);
            }
        }
        assert(members(parent, size, r) =~= set![r]);
    }
}

} // verus!
