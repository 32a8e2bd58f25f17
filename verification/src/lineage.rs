//! Parents and children.
//!
//! A node owns its children and keeps no link back to its parent. Since no key
//! occurs twice, a key names its node, and the parent of a node is found from the
//! root by the search for its key: the parent is the last node passed on the way.

use crate::ascending::all_above;
use crate::ascending::all_below;
use crate::ascending::ascending;
use crate::ascending::lemma_join_ascending;
use crate::ascending::lemma_join_contains;
use crate::node::in_order;
use crate::node::Link;
use crate::node::Node;
use crate::node::Side;
use crate::order::compare;
use crate::order::lawful;
use crate::order::lemma_trichotomy;
use crate::order::less;
use std::cmp::Ordering;
use vstd::prelude::*;

verus! {

/// `n` is a node of the subtree `t`, with all that hangs below it.
pub open spec fn holds<K: Ord>(t: Link<K>, n: Node<K>) -> bool
    decreases t,
{
    match t {
        None => false,
        Some(m) => *m == n || holds(m.left, n) || holds(m.right, n),
    }
}

/// The key of the parent of the node that holds `key` in the subtree `t`: nothing
/// where `key` is at the root of `t` or not in `t` at all.
pub open spec fn parent_in<K: Ord>(t: Link<K>, key: K) -> Option<K>
    decreases t,
{
    match t {
        None => None,
        Some(n) => if key == n.key {
            None
        } else {
            let below = if less(key, n.key) {
                n.left
            } else {
                n.right
            };
            match below {
                None => None,
                Some(c) => if c.key == key {
                    Some(n.key)
                } else {
                    parent_in(below, key)
                },
            }
        },
    }
}

/// The root of a tree has no parent.
pub proof fn lemma_root_has_no_parent<K: Ord>(t: Link<K>)
    ensures
        t matches Some(n) ==> parent_in(t, n.key) is None,
{
}

/// The key of a node of a subtree is one of the keys of the subtree.
pub proof fn lemma_held_key<K: Ord>(t: Link<K>, n: Node<K>)
    requires
        holds(t, n),
    ensures
        in_order(t).contains(n.key),
    decreases t,
{
    let m = t.unwrap();
    lemma_join_contains(in_order(m.left), m.key, in_order(m.right), n.key);
    if *m != n {
        if holds(m.left, n) {
            lemma_held_key(m.left, n);
        } else {
            lemma_held_key(m.right, n);
        }
    }
}

/// A node of a subtree of `n` is a node of every subtree that `n` is a node of.
pub proof fn lemma_holds_below<K: Ord>(t: Link<K>, n: Node<K>, c: Node<K>)
    requires
        holds(t, n),
        holds(Some(Box::new(n)), c),
    ensures
        holds(t, c),
    decreases t,
{
    let m = t.unwrap();
    if *m != n {
        if holds(m.left, n) {
            lemma_holds_below(m.left, n, c);
        } else {
            lemma_holds_below(m.right, n, c);
        }
    }
}

/// In a search tree, every node with a child is that child's parent: the search for
/// the child's key passes the node last.
pub proof fn lemma_parent_of_child<K: Ord>(t: Link<K>, n: Node<K>, side: Side)
    requires
        lawful::<K>(),
        ascending(in_order(t)),
        holds(t, n),
        n.child(side) is Some,
    ensures
        parent_in(t, n.child(side).unwrap().key) == Some(n.key),
        t.unwrap().key != n.child(side).unwrap().key,
    decreases t,
{
    let m = t.unwrap();
    let c = n.child(side).unwrap();
    let lo = in_order(m.left);
    let hi = in_order(m.right);
    lemma_join_ascending(lo, m.key, hi);
    assert(holds(n.child(side), *c));
    lemma_held_key(n.child(side), *c);
    if *m == n {
        let i = choose|i: int|
            0 <= i < in_order(n.child(side)).len() && in_order(n.child(side))[i] == c.key;
        match side {
            Side::Left => {
                assert(less(lo[i], m.key));
            },
            Side::Right => {
                assert(less(m.key, hi[i]));
            },
        }
        lemma_trichotomy(c.key, m.key);
    } else {
        assert(holds(Some(Box::new(n)), *c));
        if holds(m.left, n) {
            lemma_holds_below(m.left, n, *c);
            lemma_held_key(m.left, *c);
            let i = choose|i: int| 0 <= i < lo.len() && lo[i] == c.key;
            assert(less(lo[i], m.key));
            lemma_trichotomy(c.key, m.key);
            lemma_parent_of_child(m.left, n, side);
        } else {
            lemma_holds_below(m.right, n, *c);
            lemma_held_key(m.right, *c);
            let i = choose|i: int| 0 <= i < hi.len() && hi[i] == c.key;
            assert(less(m.key, hi[i]));
            lemma_trichotomy(c.key, m.key);
            lemma_parent_of_child(m.right, n, side);
        }
    }
}

/// The key of the parent of the node that holds `key` in the subtree `t`.
pub fn find_parent<'a, K: Ord>(t: &'a Link<K>, key: &K) -> (r: Option<&'a K>)
    requires
        lawful::<K>(),
    ensures
        match r {
            Some(p) => parent_in(*t, *key) == Some(*p),
            None => parent_in(*t, *key) is None,
        },
{
    let mut cur = t;
    loop
        invariant
            lawful::<K>(),
            parent_in(*t, *key) == parent_in(*cur, *key),
        decreases *cur,
    {
        match cur {
            None => {
                return None;
            },
            Some(n) => {
                proof {
                    lemma_trichotomy(*key, n.key);
                }
                let below = match compare(key, &n.key) {
                    Ordering::Equal => {
                        return None;
                    },
                    Ordering::Less => &n.left,
                    Ordering::Greater => &n.right,
                };
                match below {
                    None => {
                        return None;
                    },
                    Some(c) => {
                        proof {
                            lemma_trichotomy(*key, c.key);
                        }
                        match compare(key, &c.key) {
                            Ordering::Equal => {
                                return Some(&n.key);
                            },
                            _ => {
                                cur = below;
                            },
                        }
                    },
                }
            },
        }
    }
}

} // verus!
