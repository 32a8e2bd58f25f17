//! A set of keys kept in a red-black tree.
//!
//! The tree is a binary search tree whose nodes are red or black. The root is black,
//! no red node has a red child, and every way from a node down to an absent child
//! meets the same number of black nodes, so the tree is never more than twice as
//! deep on one side as on another. [`RedBlackTree`] keeps these rules as an
//! invariant of the type: every tree a caller can hold satisfies them.

use crate::ascending::ascending;
use crate::ascending::lemma_ascending_empty;
use crate::ascending::lemma_without_key_left;
use crate::ascending::lemma_without_key_middle;
use crate::ascending::lemma_without_key_right;
use crate::ascending::with_key;
use crate::ascending::without_key;
use crate::checking::collect_in_order;
use crate::checking::is_red_black_tree;
use crate::checking::referents;
use crate::deletion::delete_from;
use crate::deletion::deleted;
use crate::equality::links_equal;
use crate::equality::same_keys;
use crate::insertion::insert_into;
use crate::insertion::inserted;
use crate::lineage::find_parent;
use crate::lineage::parent_in;
use crate::node::in_order;
use crate::node::red_black_tree;
use crate::node::Color;
use crate::node::Link;
use crate::node::Node;
use crate::order::compare;
use crate::order::lawful;
use std::cmp::Ordering;
use vstd::prelude::*;
use vstd::std_specs::cmp::PartialEqSpec;
use vstd::std_specs::cmp::PartialEqSpecImpl;

verus! {

/// What [`RedBlackTree::insert`] did.
#[derive(Clone, Copy, Debug, PartialEq, Eq, Structural)]
pub enum InsertOutcome {
    /// The key was not in the tree and is now.
    Inserted,
    /// The key was in the tree already; the tree is unchanged.
    AlreadyPresent,
}

/// What [`RedBlackTree::delete`] did.
#[derive(Clone, Copy, Debug, PartialEq, Eq, Structural)]
pub enum DeleteOutcome {
    /// The key was in the tree and is no longer.
    Deleted,
    /// The key was not in the tree; the tree is unchanged.
    NotFound,
}

/// A set of keys of a totally ordered type, held in a red-black tree.
///
/// Its view, `tree@`, is the sequence of its keys in ascending order.
#[derive(Debug)]
pub struct RedBlackTree<K: Ord> {
    root: Link<K>,
}

impl<K: Ord> View for RedBlackTree<K> {
    type V = Seq<K>;

    open spec fn view(&self) -> Seq<K> {
        in_order(self.root_link())
    }
}

impl<K: Ord> RedBlackTree<K> {
    #[verifier::type_invariant]
    spec fn well_formed(self) -> bool {
        lawful::<K>() && red_black_tree(self.root)
    }

    /// The root of the tree, or nothing for the empty tree.
    pub closed spec fn root_link(self) -> Link<K> {
        self.root
    }

    /// The red-black rules hold of the whole tree: the keys ascend from left to right,
    /// the root is black, no red node has a red child, and every way from a node down
    /// to an absent child meets the same number of black nodes.
    pub open spec fn valid(self) -> bool {
        red_black_tree(self.root_link())
    }

    /// The empty tree.
    pub fn new() -> (tree: Self)
        requires
            lawful::<K>(),
        ensures
            tree@ == Seq::<K>::empty(),
            tree.root_link() is None,
            tree.valid(),
    {
        proof {
            lemma_ascending_empty::<K>();
        }
        RedBlackTree { root: None }
    }

    /// The root node, or nothing for the empty tree.
    pub fn root(&self) -> (r: Option<&Node<K>>)
        ensures
            match r {
                Some(n) => self.root_link() == Some(Box::new(*n)),
                None => self.root_link() is None,
            },
            self.valid(),
    {
        proof {
            use_type_invariant(self);
        }
        match &self.root {
            Some(n) => Some(&**n),
            None => None,
        }
    }

    /// Puts `key` into the tree and says whether it was new.
    ///
    /// A key that is in the tree already leaves the tree as it is.
    pub fn insert(&mut self, key: K) -> (r: InsertOutcome)
        ensures
            final(self)@ == with_key(old(self)@, key),
            r == if old(self)@.contains(key) {
                InsertOutcome::AlreadyPresent
            } else {
                InsertOutcome::Inserted
            },
            old(self)@.contains(key) ==> final(self).root_link() == old(self).root_link(),
            final(self).root_link() == Some(
                Box::new(inserted(old(self).root_link(), key).0.painted(Color::Black)),
            ),
            final(self).valid(),
    {
        proof {
            use_type_invariant(&*self);
            lemma_ascending_empty::<K>();
        }
        let mut root = None;
        std::mem::swap(&mut root, &mut self.root);
        let (top, added) = insert_into(root, key);
        let mut top = top;
        let ghost grown = top;
        top.color = Color::Black;
        proof {
            assert(in_order(Some(top)) == in_order(Some(grown)));
        }
        self.root = Some(top);
        if added {
            InsertOutcome::Inserted
        } else {
            InsertOutcome::AlreadyPresent
        }
    }

    /// Takes `key` out of the tree and says whether it was there.
    pub fn delete(&mut self, key: &K) -> (r: DeleteOutcome)
        ensures
            final(self)@ == without_key(old(self)@, *key),
            r == if old(self)@.contains(*key) {
                DeleteOutcome::Deleted
            } else {
                DeleteOutcome::NotFound
            },
            !old(self)@.contains(*key) ==> final(self).root_link() == old(self).root_link(),
            final(self).root_link() == deleted(old(self).root_link(), *key).0,
            final(self).valid(),
    {
        proof {
            use_type_invariant(&*self);
            lemma_ascending_empty::<K>();
        }
        let mut root = None;
        std::mem::swap(&mut root, &mut self.root);
        let (rest, found, _) = delete_from(root, key);
        self.root = rest;
        if found {
            DeleteOutcome::Deleted
        } else {
            DeleteOutcome::NotFound
        }
    }

    /// Walks the tree and checks every rule of [`RedBlackTree::valid`]. Since the
    /// rules are an invariant of the type, the answer is always `true`.
    pub fn validate(&self) -> (ok: bool)
        ensures
            ok == self.valid(),
            ok,
    {
        proof {
            use_type_invariant(self);
        }
        is_red_black_tree(&self.root)
    }

    /// The keys of the tree in ascending order.
    pub fn in_order(&self) -> (keys: Vec<&K>)
        ensures
            referents(keys@) == self@,
            ascending(self@),
            self.valid(),
    {
        proof {
            use_type_invariant(self);
        }
        let mut keys = Vec::new();
        collect_in_order(&self.root, &mut keys);
        assert(referents(keys@) =~= self@);
        keys
    }

    /// The key of the parent of the node that holds `key`: nothing where `key` is at
    /// the root or not in the tree.
    pub fn parent(&self, key: &K) -> (r: Option<&K>)
        ensures
            match r {
                Some(p) => parent_in(self.root_link(), *key) == Some(*p),
                None => parent_in(self.root_link(), *key) is None,
            },
            self.valid(),
    {
        proof {
            use_type_invariant(self);
        }
        find_parent(&self.root, key)
    }

    /// Looks `key` up: the tree's own copy of the key if it is there, nothing if not.
    pub fn search(&self, key: &K) -> (r: Option<&K>)
        ensures
            match r {
                Some(k) => *k == *key && self@.contains(*key),
                None => !self@.contains(*key),
            },
            self.valid(),
    {
        proof {
            use_type_invariant(self);
        }
        find_in(&self.root, key)
    }
}

/// Looks `key` up in the subtree `t` by the usual descent: left where the key is
/// smaller than the node's, right where it is greater.
pub fn find_in<'a, K: Ord>(t: &'a Link<K>, key: &K) -> (r: Option<&'a K>)
    requires
        lawful::<K>(),
        ascending(in_order(*t)),
    ensures
        match r {
            Some(k) => *k == *key && in_order(*t).contains(*key),
            None => !in_order(*t).contains(*key),
        },
{
    let mut cur = t;
    loop
        invariant
            lawful::<K>(),
            ascending(in_order(*cur)),
            in_order(*t).contains(*key) <==> in_order(*cur).contains(*key),
        decreases *cur,
    {
        match cur {
            None => {
                return None;
            },
            Some(n) => {
                let ghost lo = in_order(n.left);
                let ghost hi = in_order(n.right);
                match compare(key, &n.key) {
                    Ordering::Equal => {
                        proof {
                            lemma_without_key_middle(lo, n.key, hi);
                        }
                        return Some(&n.key);
                    },
                    Ordering::Less => {
                        proof {
                            lemma_without_key_left(lo, n.key, hi, *key);
                        }
                        cur = &n.left;
                    },
                    Ordering::Greater => {
                        proof {
                            lemma_without_key_right(lo, n.key, hi, *key);
                        }
                        cur = &n.right;
                    },
                }
            },
        }
    }
}

impl<K: Ord> PartialEq for RedBlackTree<K> {
    fn eq(&self, other: &Self) -> (r: bool) {
        links_equal(&self.root, &other.root)
    }
}

impl<K: Ord> PartialEqSpecImpl for RedBlackTree<K> {
    open spec fn obeys_eq_spec() -> bool {
        K::obeys_eq_spec()
    }

    open spec fn eq_spec(&self, other: &Self) -> bool {
        same_keys(self.root_link(), other.root_link())
    }
}

} // verus!
