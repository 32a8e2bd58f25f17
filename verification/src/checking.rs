//! Deciding, by walking a subtree, whether the red-black rules hold of it, and
//! reading its keys out in order.

use crate::ascending::all_above;
use crate::ascending::all_below;
use crate::ascending::ascending;
use crate::ascending::join;
use crate::ascending::lemma_ascending_empty;
use crate::ascending::lemma_bounds_widen;
use crate::ascending::lemma_join_ascending;
use crate::ascending::lemma_join_bounds;
use crate::node::balanced;
use crate::node::black_height;
use crate::node::in_order;
use crate::node::link_is_red;
use crate::node::no_red_red;
use crate::node::red_black_tree;
use crate::node::Color;
use crate::node::Link;
use crate::order::key_less;
use crate::order::lawful;
use vstd::prelude::*;

verus! {

/// The keys of `t` ascend and lie strictly between the bounds that are given.
pub open spec fn ascending_within<K: Ord>(t: Link<K>, lo: Option<&K>, hi: Option<&K>) -> bool {
    &&& ascending(in_order(t))
    &&& (lo matches Some(l) ==> all_above(in_order(t), *l))
    &&& (hi matches Some(h) ==> all_below(in_order(t), *h))
}

/// Whether the keys of `t` ascend from left to right and lie strictly between the
/// bounds that are given.
pub fn keys_within<K: Ord>(t: &Link<K>, lo: Option<&K>, hi: Option<&K>) -> (ok: bool)
    requires
        lawful::<K>(),
    ensures
        ok == ascending_within(*t, lo, hi),
    decreases *t,
{
    match t {
        None => {
            proof {
                lemma_ascending_empty::<K>();
            }
            true
        },
        Some(n) => {
            proof {
                lemma_join_ascending(in_order(n.left), n.key, in_order(n.right));
                if let Some(l) = lo {
                    lemma_join_bounds(in_order(n.left), n.key, in_order(n.right), *l);
                    lemma_bounds_widen(in_order(n.right), n.key, *l);
                }
                if let Some(h) = hi {
                    lemma_join_bounds(in_order(n.left), n.key, in_order(n.right), *h);
                    lemma_bounds_widen(in_order(n.left), n.key, *h);
                }
            }
            let above = match lo {
                None => true,
                Some(l) => key_less(l, &n.key),
            };
            let below = match hi {
                None => true,
                Some(h) => key_less(&n.key, h),
            };
            above && below && keys_within(&n.left, lo, Some(&n.key)) && keys_within(
                &n.right,
                Some(&n.key),
                hi,
            )
        },
    }
}

/// Whether the keys of `t` ascend from left to right.
pub fn keys_ascend<K: Ord>(t: &Link<K>) -> (ok: bool)
    requires
        lawful::<K>(),
    ensures
        ok == ascending(in_order(*t)),
{
    keys_within(t, None, None)
}

/// Whether no red node of `t` has a red child.
pub fn colors_alternate<K: Ord>(t: &Link<K>) -> (ok: bool)
    ensures
        ok == no_red_red(*t),
    decreases *t,
{
    match t {
        None => true,
        Some(n) => {
            let here = match n.color {
                Color::Black => true,
                Color::Red => !link_is_red(&n.left) && !link_is_red(&n.right),
            };
            here && colors_alternate(&n.left) && colors_alternate(&n.right)
        },
    }
}

/// Whether two subtrees have the same black height. Both are followed down their
/// left spines, a black node on one side against a black node on the other.
pub fn same_black_height<K: Ord>(a: &Link<K>, b: &Link<K>) -> (same: bool)
    ensures
        same == (black_height(*a) == black_height(*b)),
    decreases *a, *b,
{
    match a {
        None => match b {
            None => true,
            Some(m) => match m.color {
                Color::Red => same_black_height(a, &m.left),
                Color::Black => false,
            },
        },
        Some(n) => match n.color {
            Color::Red => same_black_height(&n.left, b),
            Color::Black => match b {
                None => false,
                Some(m) => match m.color {
                    Color::Red => same_black_height(a, &m.left),
                    Color::Black => same_black_height(&n.left, &m.left),
                },
            },
        },
    }
}

/// Whether, at every node of `t`, both sides have the same black height.
pub fn is_balanced<K: Ord>(t: &Link<K>) -> (ok: bool)
    ensures
        ok == balanced(*t),
    decreases *t,
{
    match t {
        None => true,
        Some(n) => is_balanced(&n.left) && is_balanced(&n.right) && same_black_height(
            &n.left,
            &n.right,
        ),
    }
}

/// Whether `t` is a whole red-black tree: ascending keys, a black root, no red node
/// with a red child, and the same number of black nodes on every way down.
pub fn is_red_black_tree<K: Ord>(t: &Link<K>) -> (ok: bool)
    requires
        lawful::<K>(),
    ensures
        ok == red_black_tree(*t),
{
    !link_is_red(t) && keys_ascend(t) && colors_alternate(t) && is_balanced(t)
}

/// The keys behind a sequence of references.
pub open spec fn referents<K>(s: Seq<&K>) -> Seq<K> {
    s.map_values(|r: &K| *r)
}

/// Appends references to the keys of `t`, from left to right, to `out`.
pub fn collect_in_order<'a, K: Ord>(t: &'a Link<K>, out: &mut Vec<&'a K>)
    ensures
        referents(final(out)@) == referents(old(out)@) + in_order(*t),
    decreases *t,
{
    match t {
        None => {
            assert(referents(out@) =~= referents(out@) + in_order(*t));
        },
        Some(n) => {
            let ghost start = referents(out@);
            collect_in_order(&n.left, out);
            let ghost mid = out@;
            out.push(&n.key);
            assert(referents(out@) =~= referents(mid).push(n.key));
            collect_in_order(&n.right, out);
            assert(referents(out@) =~= start + in_order(*t)) by {
                reveal(join);
            }
        },
    }
}

} // verus!
