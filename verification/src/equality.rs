//! Comparing subtrees with `==`.
//!
//! Two subtrees are equal when they have the same shape and hold equal keys at the
//! same places. Colours are not compared.

use crate::node::Link;
use crate::node::Node;
use vstd::prelude::*;
use vstd::std_specs::cmp::PartialEqSpec;
use vstd::std_specs::cmp::PartialEqSpecImpl;

verus! {

/// The two subtrees have the same shape and equal keys at the same places.
pub open spec fn same_keys<K: Ord>(a: Link<K>, b: Link<K>) -> bool
    decreases a,
{
    match (a, b) {
        (None, None) => true,
        (Some(x), Some(y)) => x.key.eq_spec(&y.key) && same_keys(x.left, y.left) && same_keys(
            x.right,
            y.right,
        ),
        _ => false,
    }
}

/// Whether the two subtrees have the same shape and equal keys at the same places.
pub fn links_equal<K: Ord>(a: &Link<K>, b: &Link<K>) -> (r: bool)
    ensures
        K::obeys_eq_spec() ==> r == same_keys(*a, *b),
    decreases *a,
{
    match (a, b) {
        (None, None) => true,
        (Some(x), Some(y)) => x.key == y.key && links_equal(&x.left, &y.left) && links_equal(
            &x.right,
            &y.right,
        ),
        _ => false,
    }
}

impl<K: Ord> PartialEq for Node<K> {
    fn eq(&self, other: &Self) -> (r: bool) {
        self.key == other.key && links_equal(&self.left, &other.left) && links_equal(
            &self.right,
            &other.right,
        )
    }
}

impl<K: Ord> PartialEqSpecImpl for Node<K> {
    open spec fn obeys_eq_spec() -> bool {
        K::obeys_eq_spec()
    }

    open spec fn eq_spec(&self, other: &Self) -> bool {
        self.key.eq_spec(&other.key) && same_keys(self.left, other.left) && same_keys(
            self.right,
            other.right,
        )
    }
}

} // verus!
