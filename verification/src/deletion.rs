//! Taking a key out of a red-black subtree.
//!
//! The node that leaves the tree has at most one child; a key in a node with two
//! children is first replaced by the next key in order, whose node then leaves.
//! Where a black node leaves, its place is one black node short, and every node on
//! the way back up runs [`delete_fixup`] until the shortage is made up.

use crate::ascending::ascending;
use crate::ascending::lemma_join_empty_left;
use crate::ascending::lemma_join_next;
use crate::ascending::lemma_join_pop_front;
use crate::ascending::lemma_without_key_absent;
use crate::ascending::lemma_without_key_ascending;
use crate::ascending::lemma_without_key_left;
use crate::ascending::lemma_without_key_middle;
use crate::ascending::lemma_without_key_right;
use crate::ascending::without_key;
use crate::node::balanced;
use crate::node::black_height;
use crate::node::black_weight;
use crate::node::in_order;
use crate::node::is_black;
use crate::node::is_red;
use crate::node::link_is_red;
use crate::node::no_red_red;
use crate::node::red_black;
use crate::node::Color;
use crate::node::Link;
use crate::node::Node;
use crate::node::Side;
use crate::order::compare;
use crate::order::lawful;
use crate::order::lemma_trichotomy;
use crate::order::less;
use std::cmp::Ordering;
use vstd::prelude::*;

verus! {

/// The subtree of `node` on `side` has a black root and is one black node shorter
/// than its sibling; both are red-black in colour and balance, and a red `node` has a
/// black sibling.
pub open spec fn short_on<K: Ord>(node: Node<K>, side: Side) -> bool {
    &&& no_red_red(node.child(side))
    &&& no_red_red(node.child(side.flip()))
    &&& balanced(node.child(side))
    &&& balanced(node.child(side.flip()))
    &&& is_black(node.child(side))
    &&& black_height(node.child(side.flip())) == black_height(node.child(side)) + 1
    &&& (node.color == Color::Red ==> is_black(node.child(side.flip())))
}

/// The sibling of the short side is black and its far child is red.
pub open spec fn far_nephew_red<K: Ord>(node: Node<K>, side: Side) -> bool {
    node.child(side.flip()) matches Some(s) && s.color == Color::Black && is_red(
        s.child(side.flip()),
    )
}

/// `node` after the first step of [`delete_fixup`] for a red sibling: the sibling
/// turns black, `node` turns red and is rotated towards `side`.
pub open spec fn red_sibling_turned<K: Ord>(node: Node<K>, side: Side) -> Node<K> {
    let away = side.flip();
    match node.child(away) {
        None => node,
        Some(sibling) => node.painted(Color::Red).with_child(
            away,
            Some(Box::new(sibling.painted(Color::Black))),
        ).rotated(side),
    }
}

/// `node` after the step of [`delete_fixup`] for a black sibling whose near child is
/// red and whose far child is black: the near child turns black, the sibling turns
/// red and is rotated away from `side`.
pub open spec fn near_nephew_turned<K: Ord>(node: Node<K>, side: Side) -> Node<K> {
    let away = side.flip();
    match node.child(away) {
        None => node,
        Some(sibling) => match sibling.child(side) {
            None => node,
            Some(near) => node.with_child(
                away,
                Some(
                    Box::new(
                        sibling.painted(Color::Red).with_child(
                            side,
                            Some(Box::new(near.painted(Color::Black))),
                        ).rotated(away),
                    ),
                ),
            ),
        },
    }
}

/// `node` after the step of [`delete_fixup`] for a black sibling whose far child is
/// red: the sibling takes the colour of `node`, `node` and the far child turn black
/// and `node` is rotated towards `side`.
pub open spec fn far_nephew_fixed<K: Ord>(node: Node<K>, side: Side) -> Node<K> {
    let away = side.flip();
    match node.child(away) {
        None => node,
        Some(sibling) => match sibling.child(away) {
            None => node,
            Some(far) => node.painted(Color::Black).with_child(
                away,
                Some(
                    Box::new(
                        sibling.painted(node.color).with_child(
                            away,
                            Some(Box::new(far.painted(Color::Black))),
                        ),
                    ),
                ),
            ).rotated(side),
        },
    }
}

/// `node` after [`delete_fixup`] where the sibling of the short side is black, and
/// whether the result is still one black node short.
pub open spec fn black_sibling_fixed<K: Ord>(node: Node<K>, side: Side) -> (Node<K>, bool) {
    let away = side.flip();
    match node.child(away) {
        None => (node, true),
        Some(sibling) => if is_red(sibling.child(away)) {
            (far_nephew_fixed(node, side), false)
        } else if is_red(sibling.child(side)) {
            (far_nephew_fixed(near_nephew_turned(node, side), side), false)
        } else {
            (
                node.painted(Color::Black).with_child(
                    away,
                    Some(Box::new(sibling.painted(Color::Red))),
                ),
                node.color == Color::Black,
            )
        },
    }
}

/// `node` after [`delete_fixup`] on `side`, and whether the result is still one black
/// node short.
///
/// Below a red sibling, `node` is first turned as [`red_sibling_turned`] says; the
/// former `node`, now red and one level down with a black sibling, is then repaired
/// as [`black_sibling_fixed`] says. Next to a black sibling `node` itself is repaired
/// so.
pub open spec fn delete_fixed<K: Ord>(node: Node<K>, side: Side) -> (Node<K>, bool) {
    if is_red(node.child(side.flip())) {
        let turned = red_sibling_turned(node, side);
        match turned.child(side) {
            None => (turned, false),
            Some(lower) => (
                turned.with_child(side, Some(Box::new(black_sibling_fixed(*lower, side).0))),
                false,
            ),
        }
    } else {
        black_sibling_fixed(node, side)
    }
}

/// The red sibling turns black, `node` turns red and is rotated towards `side`. The
/// short subtree then hangs below the red former `node`, next to a black sibling.
fn fixup_red_sibling<K: Ord>(node: Box<Node<K>>, side: Side) -> (root: Box<Node<K>>)
    requires
        short_on(*node, side),
        is_red(node.child(side.flip())),
    ensures
        *root == red_sibling_turned(*node, side),
        in_order(Some(root)) == in_order(Some(node)),
        root.color == Color::Black,
        no_red_red(root.child(side.flip())),
        balanced(root.child(side.flip())),
        black_height(root.child(side.flip())) == black_height(node.child(side.flip())),
        root.child(side) matches Some(lower) && short_on(*lower, side) && lower.color
            == Color::Red && is_black(lower.child(side.flip())) && black_height(
            lower.child(side.flip()),
        ) == black_height(node.child(side.flip())),
{
    proof {
        reveal_with_fuel(balanced, 3);
        reveal_with_fuel(black_height, 3);
        reveal_with_fuel(no_red_red, 3);
        reveal_with_fuel(in_order, 3);
    }
    let mut top = node;
    let away = side.opposite();
    let mut sibling = (&mut *top).take_child(away).unwrap();
    sibling.color = Color::Black;
    top.color = Color::Red;
    (&mut *top).set_child(away, Some(sibling));
    Node::rotate(top, side)
}

/// The red near child of the black sibling turns black, the sibling turns red and is
/// rotated away from `side`: the new sibling is black with a red far child.
fn fixup_near_nephew<K: Ord>(node: Box<Node<K>>, side: Side) -> (r: Box<Node<K>>)
    requires
        short_on(*node, side),
        node.child(side.flip()) matches Some(s) && s.color == Color::Black && is_red(
            s.child(side),
        ) && is_black(s.child(side.flip())),
    ensures
        *r == near_nephew_turned(*node, side),
        in_order(Some(r)) == in_order(Some(node)),
        short_on(*r, side),
        far_nephew_red(*r, side),
        r.color == node.color,
        black_height(r.child(side.flip())) == black_height(node.child(side.flip())),
{
    proof {
        reveal_with_fuel(balanced, 3);
        reveal_with_fuel(black_height, 3);
        reveal_with_fuel(no_red_red, 3);
        reveal_with_fuel(in_order, 3);
    }
    let mut top = node;
    let away = side.opposite();
    let mut sibling = (&mut *top).take_child(away).unwrap();
    let mut near = (&mut *sibling).take_child(side).unwrap();
    near.color = Color::Black;
    sibling.color = Color::Red;
    (&mut *sibling).set_child(side, Some(near));
    sibling = Node::rotate(sibling, away);
    (&mut *top).set_child(away, Some(sibling));
    top
}

/// The black sibling takes the colour of `node`; `node` and the sibling's red far
/// child turn black and `node` is rotated towards `side`, which makes up the
/// shortage.
fn fixup_far_nephew<K: Ord>(node: Box<Node<K>>, side: Side) -> (root: Box<Node<K>>)
    requires
        short_on(*node, side),
        far_nephew_red(*node, side),
    ensures
        *root == far_nephew_fixed(*node, side),
        in_order(Some(root)) == in_order(Some(node)),
        no_red_red(Some(root)),
        balanced(Some(root)),
        root.color == node.color,
        black_height(Some(root)) == black_height(node.child(side.flip())) + black_weight(
            node.color,
        ),
{
    proof {
        reveal_with_fuel(balanced, 3);
        reveal_with_fuel(black_height, 3);
        reveal_with_fuel(no_red_red, 3);
        reveal_with_fuel(in_order, 3);
    }
    let mut top = node;
    let away = side.opposite();
    let mut sibling = (&mut *top).take_child(away).unwrap();
    sibling.color = top.color;
    top.color = Color::Black;
    let mut far = (&mut *sibling).take_child(away).unwrap();
    far.color = Color::Black;
    (&mut *sibling).set_child(away, Some(far));
    (&mut *top).set_child(away, Some(sibling));
    Node::rotate(top, side)
}

/// Makes up for a missing black node below `node` on `side`, next to a black sibling.
///
/// A sibling with a red far child gives the repair of [`far_nephew_fixed`], after the
/// turn of [`near_nephew_turned`] where only its near child is red. A sibling with
/// two black children turns red: a red `node` then turns black, and below a black
/// `node` the whole subtree stays one short.
fn fixup_black_sibling<K: Ord>(node: Box<Node<K>>, side: Side) -> (r: (Box<Node<K>>, bool))
    requires
        short_on(*node, side),
        is_black(node.child(side.flip())),
    ensures
        (*r.0, r.1) == black_sibling_fixed(*node, side),
        in_order(Some(r.0)) == in_order(Some(node)),
        no_red_red(Some(r.0)),
        balanced(Some(r.0)),
        node.color == Color::Black ==> r.0.color == Color::Black,
        r.1 ==> node.color == Color::Black,
        black_height(Some(r.0)) + (if r.1 {
            1nat
        } else {
            0nat
        }) == black_height(node.child(side.flip())) + black_weight(node.color),
{
    proof {
        reveal_with_fuel(balanced, 2);
        reveal_with_fuel(black_height, 2);
        reveal_with_fuel(no_red_red, 2);
    }
    let away = side.opposite();
    let mut top = node;
    let (near_red, far_red) = match top.child_ref(away) {
        None => (false, false),
        Some(sibling) => (
            link_is_red(sibling.child_ref(side)),
            link_is_red(sibling.child_ref(away)),
        ),
    };
    if far_red {
        return (fixup_far_nephew(top, side), false);
    }
    if near_red {
        top = fixup_near_nephew(top, side);
        return (fixup_far_nephew(top, side), false);
    }
    let mut sibling = (&mut *top).take_child(away).unwrap();
    let ghost sibling0 = sibling;
    sibling.color = Color::Red;
    assert(in_order(Some(sibling)) == in_order(Some(sibling0)));
    (&mut *top).set_child(away, Some(sibling));
    assert(in_order(Some(top)) == in_order(Some(node)));
    let short = match top.color {
        Color::Red => false,
        Color::Black => true,
    };
    top.color = Color::Black;
    assert(in_order(Some(top)) == in_order(Some(node)));
    (top, short)
}

/// Makes up for a missing black node below `node` on `side`.
///
/// The subtree on `side` has a black root and is one black node shorter than its
/// sibling on the other side. With "near" and "far" for the sibling's children on
/// `side` and away from it:
/// * a red sibling turns black, `node` turns red and is rotated towards `side`; the
///   same shortage is then made up one level down, where the sibling is black;
/// * a black sibling with two black children turns red; a red `node` then turns
///   black, and below a black `node` the whole subtree stays one short;
/// * a black sibling with a red near child and a black far child: the near child
///   turns black, the sibling red, and the sibling is rotated away from `side`, which
///   gives the next case;
/// * a black sibling with a red far child takes the colour of `node`; `node` and the
///   far child turn black and `node` is rotated towards `side`.
///
/// The second result says whether the subtree that is returned is still one short.
pub fn delete_fixup<K: Ord>(node: Box<Node<K>>, side: Side) -> (r: (Box<Node<K>>, bool))
    requires
        short_on(*node, side),
    ensures
        (*r.0, r.1) == delete_fixed(*node, side),
        in_order(Some(r.0)) == in_order(Some(node)),
        no_red_red(Some(r.0)),
        balanced(Some(r.0)),
        node.color == Color::Black ==> r.0.color == Color::Black,
        r.1 ==> node.color == Color::Black,
        black_height(Some(r.0)) + (if r.1 {
            1nat
        } else {
            0nat
        }) == black_height(node.child(side.flip())) + black_weight(node.color),
{
    proof {
        reveal_with_fuel(balanced, 2);
        reveal_with_fuel(black_height, 2);
        reveal_with_fuel(no_red_red, 2);
    }
    let away = side.opposite();
    if link_is_red(node.child_ref(away)) {
        let mut root = fixup_red_sibling(node, side);
        let ghost turned = root;
        let lower = (&mut *root).take_child(side).unwrap();
        let (fixed, _) = fixup_black_sibling(lower, side);
        (&mut *root).set_child(side, Some(fixed));
        assert(in_order(Some(root)) == in_order(Some(turned)));
        (root, false)
    } else {
        fixup_black_sibling(node, side)
    }
}

/// What takes the place of a node with at most one child that leaves the tree, and
/// whether the place is one black node short.
///
/// The child, if any, takes the place. A red node leaves nothing to repair. Below a
/// black node that leaves, a red child turns black; otherwise the place is one short.
pub open spec fn spliced<K: Ord>(node: Node<K>) -> (Link<K>, bool) {
    let child = if node.left is Some {
        node.left
    } else {
        node.right
    };
    if node.color == Color::Red {
        (child, false)
    } else if is_red(child) {
        (Some(Box::new(child.unwrap().painted(Color::Black))), false)
    } else {
        (child, true)
    }
}

/// The subtree at `node` without its least key, that key, and whether the subtree is
/// one black node short.
///
/// The least key is in the leftmost node, which is spliced out; every node passed on
/// the way there is repaired as [`delete_fixed`] says where its left subtree came back
/// short, the lowest first.
pub open spec fn without_least<K: Ord>(node: Node<K>) -> (Link<K>, K, bool)
    decreases node,
{
    match node.left {
        None => (spliced(node).0, node.key, spliced(node).1),
        Some(left) => {
            let below = without_least(*left);
            let top = node.with_child(Side::Left, below.0);
            if below.2 {
                (
                    Some(Box::new(delete_fixed(top, Side::Left).0)),
                    below.1,
                    delete_fixed(top, Side::Left).1,
                )
            } else {
                (Some(Box::new(top)), below.1, false)
            }
        },
    }
}

/// The subtree at `node` without the key of `node`, and whether it is one black node
/// short.
///
/// A node with at most one child is spliced out. A node with two children gets the
/// next key in order, the least of its right subtree, which is taken out there; the
/// node is repaired as [`delete_fixed`] says where its right subtree came back short.
pub open spec fn without_root<K: Ord>(node: Node<K>) -> (Link<K>, bool) {
    if node.left is None || node.right is None {
        spliced(node)
    } else {
        let below = without_least(*node.right.unwrap());
        let top = Node { key: below.1, right: below.0, ..node };
        if below.2 {
            (Some(Box::new(delete_fixed(top, Side::Right).0)), delete_fixed(top, Side::Right).1)
        } else {
            (Some(Box::new(top)), false)
        }
    }
}

/// The subtree `t` without `key`, whether the key was there, and whether the subtree
/// is one black node short.
///
/// A key that is not there leaves the subtree as it is. The node of a key that is
/// there is taken out as [`without_root`] says, and every node passed on the way to
/// it is repaired as [`delete_fixed`] says where the subtree below it came back short,
/// the lowest first.
pub open spec fn deleted<K: Ord>(t: Link<K>, key: K) -> (Link<K>, bool, bool)
    decreases t,
{
    match t {
        None => (None, false, false),
        Some(n) => if key == n.key {
            (without_root(*n).0, true, without_root(*n).1)
        } else {
            let side = if less(key, n.key) {
                Side::Left
            } else {
                Side::Right
            };
            let below = deleted(n.child(side), key);
            let top = n.with_child(side, below.0);
            if below.2 {
                (Some(Box::new(delete_fixed(top, side).0)), below.1, delete_fixed(top, side).1)
            } else {
                (Some(Box::new(top)), below.1, false)
            }
        },
    }
}

/// Takes a node with at most one child out of the tree: its child, if any, takes its
/// place. A red node leaves nothing to repair. Below a black node that leaves, a red
/// child turns black; otherwise the place is one black node short.
///
/// Returns what takes the node's place, the node's key, and whether the place is one
/// short.
pub fn splice<K: Ord>(node: Box<Node<K>>) -> (r: (Link<K>, K, bool))
    requires
        no_red_red(Some(node)),
        balanced(Some(node)),
        node.left is None || node.right is None,
    ensures
        (r.0, r.2) == spliced(*node),
        r.1 == node.key,
        in_order(r.0) == in_order(node.left) + in_order(node.right),
        no_red_red(r.0),
        balanced(r.0),
        is_black(r.0),
        r.2 ==> node.color == Color::Black,
        black_height(r.0) + (if r.2 {
            1nat
        } else {
            0nat
        }) == black_height(Some(node)),
{
    proof {
        reveal_with_fuel(balanced, 2);
        reveal_with_fuel(black_height, 2);
        reveal_with_fuel(no_red_red, 2);
    }
    let Node { key, color, left, right } = *node;
    let child = if left.is_some() {
        left
    } else {
        right
    };
    proof {
        lemma_join_empty_left(key, in_order(child));
        assert(in_order(child) == in_order(left) + in_order(right));
    }
    match color {
        Color::Red => (child, key, false),
        Color::Black => match child {
            None => (None, key, true),
            Some(below) => {
                let mut below = below;
                if below.color == Color::Red {
                    below.color = Color::Black;
                    assert(in_order(Some(below)) == in_order(child));
                    (Some(below), key, false)
                } else {
                    (Some(below), key, true)
                }
            },
        },
    }
}

/// Takes the least key out of the subtree at `node`.
///
/// Returns the rest of the subtree, the least key, and whether the rest is one black
/// node short.
pub fn delete_min<K: Ord>(node: Box<Node<K>>) -> (r: (Link<K>, K, bool))
    requires
        no_red_red(Some(node)),
        balanced(Some(node)),
    ensures
        r == without_least(*node),
        in_order(Some(node)) == seq![r.1] + in_order(r.0),
        no_red_red(r.0),
        balanced(r.0),
        is_black(Some(node)) ==> is_black(r.0),
        r.2 ==> node.color == Color::Black,
        black_height(r.0) + (if r.2 {
            1nat
        } else {
            0nat
        }) == black_height(Some(node)),
    decreases node,
{
    proof {
        reveal_with_fuel(balanced, 2);
        reveal_with_fuel(black_height, 2);
        reveal_with_fuel(no_red_red, 2);
    }
    if node.left.is_none() {
        let r = splice(node);
        proof {
            lemma_join_empty_left(node.key, in_order(node.right));
        }
        return r;
    }
    let mut top = node;
    let left = top.left.take().unwrap();
    let (rest, least, short) = delete_min(left);
    top.left = rest;
    proof {
        lemma_join_pop_front(least, in_order(rest), node.key, in_order(node.right));
        assert(in_order(Some(node)) == seq![least] + in_order(Some(top)));
    }
    if short {
        let (fixed, still) = delete_fixup(top, Side::Left);
        (Some(fixed), least, still)
    } else {
        (Some(top), least, false)
    }
}

/// Takes the key at the root of the subtree out.
///
/// A root with at most one child is spliced out. A root with two children gets the
/// next key in order, the least of its right subtree, whose node is taken out
/// instead.
///
/// Returns what is left of the subtree and whether it is one black node short.
pub fn delete_root<K: Ord>(node: Box<Node<K>>) -> (r: (Link<K>, bool))
    requires
        no_red_red(Some(node)),
        balanced(Some(node)),
    ensures
        r == without_root(*node),
        in_order(r.0) == in_order(node.left) + in_order(node.right),
        no_red_red(r.0),
        balanced(r.0),
        is_black(Some(node)) ==> is_black(r.0),
        r.1 ==> node.color == Color::Black,
        black_height(r.0) + (if r.1 {
            1nat
        } else {
            0nat
        }) == black_height(Some(node)),
{
    proof {
        reveal_with_fuel(balanced, 2);
        reveal_with_fuel(black_height, 2);
        reveal_with_fuel(no_red_red, 2);
    }
    if node.left.is_none() || node.right.is_none() {
        let (rest, _, short) = splice(node);
        return (rest, short);
    }
    let mut top = node;
    let right = top.right.take().unwrap();
    let (rest, next, short) = delete_min(right);
    top.key = next;
    top.right = rest;
    proof {
        lemma_join_next(in_order(node.left), next, in_order(rest));
        assert(in_order(Some(top)) == in_order(node.left) + in_order(node.right));
    }
    if short {
        let (fixed, still) = delete_fixup(top, Side::Right);
        (Some(fixed), still)
    } else {
        (Some(top), false)
    }
}

/// Takes `key` out of the subtree `t`, if it is there.
///
/// Returns the subtree without the key, whether the key was found, and whether the
/// subtree is now one black node short.
pub fn delete_from<K: Ord>(t: Link<K>, key: &K) -> (r: (Link<K>, bool, bool))
    requires
        lawful::<K>(),
        red_black(t),
    ensures
        r == deleted(t, *key),
        in_order(r.0) == without_key(in_order(t), *key),
        r.1 == in_order(t).contains(*key),
        !r.1 ==> r.0 == t,
        red_black(r.0),
        is_black(t) ==> is_black(r.0),
        r.2 ==> is_black(t),
        black_height(r.0) + (if r.2 {
            1nat
        } else {
            0nat
        }) == black_height(t),
    decreases t, 1nat,
{
    match t {
        None => {
            proof {
                lemma_without_key_absent(in_order(t), *key);
            }
            (None, false, false)
        },
        Some(node) => match compare(key, &node.key) {
            Ordering::Less => delete_below(node, Side::Left, key),
            Ordering::Greater => delete_below(node, Side::Right, key),
            Ordering::Equal => {
                proof {
                    lemma_without_key_middle(
                        in_order(node.left),
                        node.key,
                        in_order(node.right),
                    );
                    lemma_without_key_ascending(in_order(t), *key);
                }
                let (rest, short) = delete_root(node);
                (rest, true, short)
            },
        },
    }
}

/// Takes `key` out of the subtree of `node` on `side`, where the search for it goes
/// on, and repairs `node` if that subtree comes back one black node short.
fn delete_below<K: Ord>(node: Box<Node<K>>, side: Side, key: &K) -> (r: (Link<K>, bool, bool))
    requires
        lawful::<K>(),
        red_black(Some(node)),
        side == Side::Left ==> less(*key, node.key),
        side == Side::Right ==> less(node.key, *key),
    ensures
        r == deleted(Some(node), *key),
        in_order(r.0) == without_key(in_order(Some(node)), *key),
        r.1 == in_order(Some(node)).contains(*key),
        !r.1 ==> r.0 == Some(node),
        red_black(r.0),
        is_black(Some(node)) ==> is_black(r.0),
        r.2 ==> is_black(Some(node)),
        black_height(r.0) + (if r.2 {
            1nat
        } else {
            0nat
        }) == black_height(Some(node)),
    decreases node, 0nat,
{
    let ghost lo = in_order(node.left);
    let ghost hi = in_order(node.right);
    proof {
        lemma_trichotomy(*key, node.key);
        lemma_without_key_ascending(in_order(Some(node)), *key);
        match side {
            Side::Left => lemma_without_key_left(lo, node.key, hi, *key),
            Side::Right => lemma_without_key_right(lo, node.key, hi, *key),
        }
    }
    let mut top = node;
    let below = (&mut *top).take_child(side);
    let (rest, found, short) = delete_from(below, key);
    (&mut *top).set_child(side, rest);
    if short {
        let (fixed, still) = delete_fixup(top, side);
        (Some(fixed), found, still)
    } else {
        (Some(top), found, false)
    }
}

} // verus!
