//! Putting a key into a red-black subtree.
//!
//! The new key becomes a red leaf where the search for it ends. On the way back up,
//! each node on the search path repairs a red child with a red grandchild below it.

use crate::ascending::ascending;
use crate::ascending::lemma_join_contains;
use crate::ascending::lemma_join_single;
use crate::ascending::lemma_with_key_ascending;
use crate::ascending::lemma_with_key_empty;
use crate::ascending::lemma_with_key_left;
use crate::ascending::lemma_with_key_right;
use crate::ascending::with_key;
use crate::node::almost_no_red_red;
use crate::node::balanced;
use crate::node::black_height;
use crate::node::in_order;
use crate::node::is_black;
use crate::node::is_red;
use crate::node::link_is_red;
use crate::node::no_red_red;
use crate::node::red_black;
use crate::node::Color;
use crate::node::Link;
use crate::node::Node;
use crate::node::Side;
use crate::order::compare;
use crate::order::lawful;
use crate::order::lemma_trichotomy;
use crate::order::less;
use std::cmp::Ordering;
use vstd::prelude::*;

verus! {

/// `node` is black and its child on `side` is red with a red child of its own: the
/// one breach of the colour rule that an insertion below `side` can leave at `node`.
pub open spec fn red_red_below<K: Ord>(node: Node<K>, side: Side) -> bool {
    node.color == Color::Black && (node.child(side) matches Some(parent) && parent.color
        == Color::Red && (is_red(parent.left) || is_red(parent.right)))
}

/// `node` after [`insert_fixup`] on `side`.
///
/// With "parent" for the child of `node` on `side` and "uncle" for the other child:
/// where the parent is red with a red child below a black `node`,
/// * a red uncle and the parent turn black and `node` turns red;
/// * otherwise a parent whose red child is the inner one is first rotated towards
///   `side`; then the parent turns black, `node` turns red and `node` is rotated away
///   from `side`.
///
/// In every other case `node` stays as it is.
pub open spec fn insert_fixed<K: Ord>(node: Node<K>, side: Side) -> Node<K> {
    let away = side.flip();
    if !red_red_below(node, side) {
        node
    } else {
        let parent = *node.child(side).unwrap();
        let raised = node.painted(Color::Red);
        if is_red(node.child(away)) {
            let uncle = *node.child(away).unwrap();
            raised.with_child(side, Some(Box::new(parent.painted(Color::Black)))).with_child(
                away,
                Some(Box::new(uncle.painted(Color::Black))),
            )
        } else {
            let outer = if is_red(parent.child(away)) {
                parent.rotated(side)
            } else {
                parent
            };
            raised.with_child(side, Some(Box::new(outer.painted(Color::Black)))).rotated(away)
        }
    }
}

/// Restores the colour rule at `node` after a key was put into its subtree on `side`.
///
/// Nothing is done unless `node` is black and its child on `side`, the parent of the
/// new red node or of a node that turned red, is red with a red child. Then:
/// * if the other child of `node`, the uncle, is red, parent and uncle turn black and
///   `node` turns red, which may move the breach one level up;
/// * otherwise, if the parent's red child is the inner one, the parent is rotated
///   towards `side`, which makes the red child the outer one; then the parent turns
///   black, `node` turns red and `node` is rotated away from `side`.
pub fn insert_fixup<K: Ord>(node: Box<Node<K>>, side: Side) -> (root: Box<Node<K>>)
    requires
        node.child(side) is Some,
        almost_no_red_red(node.child(side)),
        no_red_red(node.child(side.flip())),
        node.color == Color::Red ==> is_black(node.child(side.flip())) && no_red_red(
            node.child(side),
        ),
        balanced(Some(node)),
    ensures
        *root == insert_fixed(*node, side),
        in_order(Some(root)) == in_order(Some(node)),
        balanced(Some(root)),
        black_height(Some(root)) == black_height(Some(node)),
        almost_no_red_red(Some(root)),
        node.color == Color::Black ==> no_red_red(Some(root)),
        node.color == Color::Red ==> root.color == Color::Red,
{
    proof {
        reveal_with_fuel(balanced, 3);
        reveal_with_fuel(black_height, 3);
        reveal_with_fuel(no_red_red, 3);
        reveal_with_fuel(in_order, 3);
    }
    let mut top = node;
    if top.color == Color::Red {
        return top;
    }
    let away = side.opposite();
    let mut parent = (&mut *top).take_child(side).unwrap();
    let inner_red = link_is_red(parent.child_ref(away));
    let outer_red = link_is_red(parent.child_ref(side));
    if !(parent.color == Color::Red && (inner_red || outer_red)) {
        (&mut *top).set_child(side, Some(parent));
        return top;
    }
    let uncle = (&mut *top).take_child(away);
    if link_is_red(&uncle) {
        let mut uncle = uncle.unwrap();
        uncle.color = Color::Black;
        parent.color = Color::Black;
        top.color = Color::Red;
        (&mut *top).set_child(side, Some(parent));
        (&mut *top).set_child(away, Some(uncle));
        return top;
    }
    (&mut *top).set_child(away, uncle);
    if inner_red {
        parent = Node::rotate(parent, side);
    }
    parent.color = Color::Black;
    top.color = Color::Red;
    (&mut *top).set_child(side, Some(parent));
    Node::rotate(top, away)
}

/// The subtree `t` after `key` was put into it, and whether the key was new.
///
/// A key that is there leaves the subtree as it is. A new key becomes a red leaf where
/// the search for it ends, and every node passed on the way there is repaired as
/// [`insert_fixed`] says, the lowest first.
pub open spec fn inserted<K: Ord>(t: Link<K>, key: K) -> (Node<K>, bool)
    decreases t,
{
    match t {
        None => (Node { key, color: Color::Red, left: None, right: None }, true),
        Some(n) => if key == n.key {
            (*n, false)
        } else {
            let side = if less(key, n.key) {
                Side::Left
            } else {
                Side::Right
            };
            let below = inserted(n.child(side), key);
            if below.1 {
                (insert_fixed(n.with_child(side, Some(Box::new(below.0))), side), true)
            } else {
                (*n, false)
            }
        },
    }
}

/// Puts `key` into the subtree `t` and says whether it was new.
///
/// The search goes down as in any search tree. A key that is found leaves the
/// subtree as it was. Otherwise a red leaf takes the place where the search ended,
/// and every node on the way back up runs [`insert_fixup`]. The result keeps the black
/// height; its root may have turned red, and if `t` had a red root the new root may
/// have one red child.
pub fn insert_into<K: Ord>(t: Link<K>, key: K) -> (r: (Box<Node<K>>, bool))
    requires
        lawful::<K>(),
        red_black(t),
    ensures
        (*r.0, r.1) == inserted(t, key),
        in_order(Some(r.0)) == with_key(in_order(t), key),
        r.1 == !in_order(t).contains(key),
        !r.1 ==> Some(r.0) == t,
        ascending(in_order(Some(r.0))),
        balanced(Some(r.0)),
        black_height(Some(r.0)) == black_height(t),
        almost_no_red_red(Some(r.0)),
        is_black(t) ==> no_red_red(Some(r.0)),
        is_red(t) ==> r.0.color == Color::Red,
    decreases t,
{
    proof {
        lemma_with_key_ascending(in_order(t), key);
    }
    match t {
        None => {
            proof {
                lemma_with_key_empty(key);
                lemma_join_single(key);
                reveal_with_fuel(in_order, 2);
            }
            (Node::new(key, None, None), true)
        },
        Some(node) => {
            let mut node = node;
            let ghost before = node;
            proof {
                lemma_trichotomy(key, node.key);
            }
            let side = match compare(&key, &node.key) {
                Ordering::Equal => {
                    proof {
                        lemma_join_contains(
                            in_order(before.left),
                            before.key,
                            in_order(before.right),
                            key,
                        );
                    }
                    return (node, false);
                },
                Ordering::Less => Side::Left,
                Ordering::Greater => Side::Right,
            };
            proof {
                match side {
                    Side::Left => lemma_with_key_left(
                        in_order(before.left),
                        before.key,
                        in_order(before.right),
                        key,
                    ),
                    Side::Right => lemma_with_key_right(
                        in_order(before.left),
                        before.key,
                        in_order(before.right),
                        key,
                    ),
                }
            }
            let below = (&mut *node).take_child(side);
            let (grown, added) = insert_into(below, key);
            (&mut *node).set_child(side, Some(grown));
            if added {
                (insert_fixup(node, side), true)
            } else {
                (node, false)
            }
        },
    }
}

} // verus!
