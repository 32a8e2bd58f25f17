//! The nodes of a red-black tree, what it means for a subtree to be well formed,
//! and rotation, the one operation that changes a tree's shape.
//!
//! A node owns its two subtrees. There is no link from a child back to its parent:
//! the functions that need to walk upwards keep the path on their call stack.

use crate::ascending::ascending;
use crate::ascending::join;
use crate::ascending::lemma_join_assoc;
use vstd::prelude::*;

verus! {

/// The colour of a node. An absent child counts as black.
#[derive(Clone, Copy, Debug, PartialEq, Eq, Structural)]
pub enum Color {
    Red,
    Black,
}

/// One of the two directions below a node.
#[derive(Clone, Copy, Debug, PartialEq, Eq, Structural)]
pub enum Side {
    Left,
    Right,
}

impl Side {
    /// The other direction.
    pub open spec fn flip(self) -> Side {
        match self {
            Side::Left => Side::Right,
            Side::Right => Side::Left,
        }
    }

    /// The other direction.
    pub fn opposite(self) -> (r: Side)
        ensures
            r == self.flip(),
    {
        match self {
            Side::Left => Side::Right,
            Side::Right => Side::Left,
        }
    }
}

/// A node with its key, its colour and the two subtrees it owns.
#[derive(Debug)]
pub struct Node<K: Ord> {
    pub key: K,
    pub color: Color,
    pub left: Option<Box<Node<K>>>,
    pub right: Option<Box<Node<K>>>,
}

/// A subtree: a node, or nothing.
pub type Link<K> = Option<Box<Node<K>>>;

/// The keys of a subtree, read from left to right.
pub open spec fn in_order<K: Ord>(t: Link<K>) -> Seq<K>
    decreases t,
{
    match t {
        None => Seq::empty(),
        Some(n) => join(in_order(n.left), n.key, in_order(n.right)),
    }
}

/// The subtree has a root and that root is red.
pub open spec fn is_red<K: Ord>(t: Link<K>) -> bool {
    t matches Some(n) && n.color == Color::Red
}

/// The subtree is empty or its root is black.
pub open spec fn is_black<K: Ord>(t: Link<K>) -> bool {
    !is_red(t)
}

/// One for a black node, nothing for a red one.
pub open spec fn black_weight(c: Color) -> nat {
    if c == Color::Black {
        1
    } else {
        0
    }
}

/// The number of black nodes met on the way from `t` down its left spine.
/// In a balanced subtree every way down meets that many.
pub open spec fn black_height<K: Ord>(t: Link<K>) -> nat
    decreases t,
{
    match t {
        None => 0,
        Some(n) => black_height(n.left) + black_weight(n.color),
    }
}

/// At every node of the subtree, the two sides have the same black height: every
/// way from a node down to an absent child meets the same number of black nodes.
pub open spec fn balanced<K: Ord>(t: Link<K>) -> bool
    decreases t,
{
    match t {
        None => true,
        Some(n) => balanced(n.left) && balanced(n.right) && black_height(n.left)
            == black_height(n.right),
    }
}

/// No red node of the subtree has a red child.
pub open spec fn no_red_red<K: Ord>(t: Link<K>) -> bool
    decreases t,
{
    match t {
        None => true,
        Some(n) => no_red_red(n.left) && no_red_red(n.right) && (n.color == Color::Red
            ==> is_black(n.left) && is_black(n.right)),
    }
}

/// The subtree is a red-black subtree: its keys ascend from left to right, no red
/// node has a red child, and it is balanced. Its root may have either colour.
pub open spec fn red_black<K: Ord>(t: Link<K>) -> bool {
    ascending(in_order(t)) && no_red_red(t) && balanced(t)
}

/// The subtree is a whole red-black tree: a red-black subtree with a black root.
pub open spec fn red_black_tree<K: Ord>(t: Link<K>) -> bool {
    red_black(t) && is_black(t)
}

/// The colour rule holds in the subtree except, perhaps, between its root and one of
/// the root's children: the state of a subtree into which a red node was just put.
pub open spec fn almost_no_red_red<K: Ord>(t: Link<K>) -> bool {
    match t {
        None => true,
        Some(n) => no_red_red(n.left) && no_red_red(n.right) && (n.color == Color::Red
            ==> is_black(n.left) || is_black(n.right)),
    }
}

/// Whether the subtree has a red root.
pub fn link_is_red<K: Ord>(t: &Link<K>) -> (r: bool)
    ensures
        r == is_red(*t),
{
    match t {
        None => false,
        Some(n) => n.color == Color::Red,
    }
}

impl<K: Ord> Node<K> {
    /// The subtree on the given side.
    pub open spec fn child(self, side: Side) -> Link<K> {
        match side {
            Side::Left => self.left,
            Side::Right => self.right,
        }
    }

    /// The node after a left rotation: its right child takes its place, the node
    /// becomes that child's left child, and the child's former left subtree becomes
    /// the node's right subtree. Colours stay with their keys. A node without a right
    /// child is left as it is.
    pub open spec fn rotated_left(self) -> Node<K> {
        match self.right {
            None => self,
            Some(pivot) => Node {
                key: pivot.key,
                color: pivot.color,
                left: Some(
                    Box::new(
                        Node {
                            key: self.key,
                            color: self.color,
                            left: self.left,
                            right: pivot.left,
                        },
                    ),
                ),
                right: pivot.right,
            },
        }
    }

    /// The node after a right rotation, the mirror image of [`Node::rotated_left`].
    pub open spec fn rotated_right(self) -> Node<K> {
        match self.left {
            None => self,
            Some(pivot) => Node {
                key: pivot.key,
                color: pivot.color,
                left: pivot.left,
                right: Some(
                    Box::new(
                        Node {
                            key: self.key,
                            color: self.color,
                            left: pivot.right,
                            right: self.right,
                        },
                    ),
                ),
            },
        }
    }

    /// The node after a rotation towards `side`.
    pub open spec fn rotated(self, side: Side) -> Node<K> {
        match side {
            Side::Left => self.rotated_left(),
            Side::Right => self.rotated_right(),
        }
    }

    /// The node in another colour.
    pub open spec fn painted(self, color: Color) -> Node<K> {
        Node { color, ..self }
    }

    /// The node with the subtree on the given side replaced.
    pub open spec fn with_child(self, side: Side, t: Link<K>) -> Node<K> {
        match side {
            Side::Left => Node { left: t, ..self },
            Side::Right => Node { right: t, ..self },
        }
    }

    /// The subtree on the given side.
    pub fn child_ref(&self, side: Side) -> (t: &Link<K>)
        ensures
            *t == self.child(side),
    {
        match side {
            Side::Left => &self.left,
            Side::Right => &self.right,
        }
    }

    /// Takes the subtree on the given side out of the node and leaves nothing there.
    pub fn take_child(&mut self, side: Side) -> (t: Link<K>)
        ensures
            t == old(self).child(side),
            *final(self) == old(self).with_child(side, None),
    {
        match side {
            Side::Left => self.left.take(),
            Side::Right => self.right.take(),
        }
    }

    /// Puts a subtree on the given side of the node, in place of what was there.
    pub fn set_child(&mut self, side: Side, t: Link<K>)
        ensures
            *final(self) == old(self).with_child(side, t),
    {
        match side {
            Side::Left => {
                self.left = t;
            },
            Side::Right => {
                self.right = t;
            },
        }
    }

    /// A new red node with the given key and subtrees.
    pub fn new(key: K, lhs: Option<Box<Node<K>>>, rhs: Option<Box<Node<K>>>) -> (node: Box<
        Node<K>,
    >)
        ensures
            *node == (Node { key, color: Color::Red, left: lhs, right: rhs }),
    {
        Box::new(Node { key, color: Color::Red, left: lhs, right: rhs })
    }

    /// Rotates the subtree at `node` to the left and returns its new root.
    pub fn rotate_left(node: Box<Node<K>>) -> (root: Box<Node<K>>)
        ensures
            *root == node.rotated_left(),
            in_order(Some(root)) == in_order(Some(node)),
    {
        let mut lower = node;
        match lower.right.take() {
            None => lower,
            Some(mut pivot) => {
                lower.right = pivot.left.take();
                pivot.left = Some(lower);
                proof {
                    lemma_rotation_keeps_order(*node, Side::Left);
                }
                pivot
            },
        }
    }

    /// Rotates the subtree at `node` to the right and returns its new root.
    pub fn rotate_right(node: Box<Node<K>>) -> (root: Box<Node<K>>)
        ensures
            *root == node.rotated_right(),
            in_order(Some(root)) == in_order(Some(node)),
    {
        let mut lower = node;
        match lower.left.take() {
            None => lower,
            Some(mut pivot) => {
                lower.left = pivot.right.take();
                pivot.right = Some(lower);
                proof {
                    lemma_rotation_keeps_order(*node, Side::Right);
                }
                pivot
            },
        }
    }

    /// Rotates the subtree at `node` towards `side` and returns its new root.
    pub fn rotate(node: Box<Node<K>>, side: Side) -> (root: Box<Node<K>>)
        ensures
            *root == node.rotated(side),
            in_order(Some(root)) == in_order(Some(node)),
    {
        match side {
            Side::Left => Node::rotate_left(node),
            Side::Right => Node::rotate_right(node),
        }
    }
}

/// A rotation re-associates the three subtrees around two nodes: read in order, the
/// keys are the same before and after.
pub proof fn lemma_rotation_keeps_order<K: Ord>(n: Node<K>, side: Side)
    ensures
        in_order(Some(Box::new(n.rotated(side)))) == in_order(Some(Box::new(n))),
{
    reveal_with_fuel(in_order, 3);
    match side {
        Side::Left => {
            if let Some(pivot) = n.right {
                lemma_join_assoc(
                    in_order(n.left),
                    n.key,
                    in_order(pivot.left),
                    pivot.key,
                    in_order(pivot.right),
                );
            }
        },
        Side::Right => {
            if let Some(pivot) = n.left {
                lemma_join_assoc(
                    in_order(pivot.left),
                    pivot.key,
                    in_order(pivot.right),
                    n.key,
                    in_order(n.right),
                );
            }
        },
    }
}

/// Rotating one way and then back at the new root gives the same keys in order.
pub proof fn lemma_rotation_round_trip<K: Ord>(n: Node<K>, side: Side)
    ensures
        in_order(Some(Box::new(n.rotated(side).rotated(side.flip())))) == in_order(
            Some(Box::new(n)),
        ),
        n.child(side.flip()) is Some ==> n.rotated(side).rotated(side.flip()) == n,
{
    lemma_rotation_keeps_order(n, side);
    lemma_rotation_keeps_order(n.rotated(side), side.flip());
}

} // verus!
