//! The ordering of keys.
//!
//! A key type `K: Ord` is usable when its comparison is *lawful*: `cmp` agrees with
//! its specification, the specification is a strict total order, and two keys that
//! compare equal are the same value.

use std::cmp::Ordering;
use vstd::laws_cmp::obeys_cmp;
use vstd::laws_cmp::obeys_cmp_ord;
use vstd::laws_cmp::obeys_cmp_partial_ord;
use vstd::laws_cmp::obeys_partial_cmp_spec_properties;
use vstd::laws_eq::obeys_concrete_eq;
use vstd::prelude::*;
use vstd::std_specs::cmp::OrdSpec;
use vstd::std_specs::cmp::PartialEqSpec;
use vstd::std_specs::cmp::PartialOrdSpec;

verus! {

/// `K`'s comparison is a total order on values: the executable comparison does what
/// its specification says, the order laws hold, and "compares equal" means "is equal".
pub open spec fn lawful<K: Ord>() -> bool {
    obeys_cmp::<K>() && obeys_concrete_eq::<K>()
}

/// `a` comes strictly before `b`.
pub open spec fn less<K: Ord>(a: K, b: K) -> bool {
    a.cmp_spec(&b) == Ordering::Less
}

/// What the three results of a comparison mean.
proof fn lemma_comparison<K: Ord>(a: K, b: K)
    requires
        lawful::<K>(),
    ensures
        a.cmp_spec(&b) == Ordering::Less <==> less(a, b),
        a.cmp_spec(&b) == Ordering::Equal <==> a == b,
        a.cmp_spec(&b) == Ordering::Greater <==> less(b, a),
{
    reveal(obeys_cmp_ord);
    reveal(obeys_cmp_partial_ord);
    reveal(obeys_partial_cmp_spec_properties);
    reveal(obeys_concrete_eq);
    assert(a.partial_cmp_spec(&b) == Some(a.cmp_spec(&b)));
    assert(b.partial_cmp_spec(&a) == Some(b.cmp_spec(&a)));
    assert(a.eq_spec(&b) <==> a == b);
}

/// Exactly one of `a < b`, `a == b`, `b < a` holds.
pub proof fn lemma_trichotomy<K: Ord>(a: K, b: K)
    requires
        lawful::<K>(),
    ensures
        less(a, b) || a == b || less(b, a),
        !(less(a, b) && a == b),
        !(less(b, a) && a == b),
        !(less(a, b) && less(b, a)),
{
    lemma_comparison(a, b);
}

/// No key comes before itself.
pub proof fn lemma_less_irreflexive<K: Ord>(a: K)
    requires
        lawful::<K>(),
    ensures
        !less(a, a),
{
    lemma_trichotomy(a, a);
}

/// `a < b` and `b < c` give `a < c`.
pub proof fn lemma_less_transitive<K: Ord>(a: K, b: K, c: K)
    requires
        lawful::<K>(),
        less(a, b),
        less(b, c),
    ensures
        less(a, c),
{
    reveal(obeys_cmp_ord);
    reveal(obeys_partial_cmp_spec_properties);
    assert(a.partial_cmp_spec(&b) == Some(a.cmp_spec(&b)));
    assert(b.partial_cmp_spec(&c) == Some(b.cmp_spec(&c)));
    assert(a.partial_cmp_spec(&c) == Some(a.cmp_spec(&c)));
}

/// Three-way comparison of two keys.
pub fn compare<K: Ord>(a: &K, b: &K) -> (r: Ordering)
    requires
        lawful::<K>(),
    ensures
        match r {
            Ordering::Less => less(*a, *b),
            Ordering::Equal => *a == *b,
            Ordering::Greater => less(*b, *a),
        },
{
    proof {
        assert(K::obeys_cmp_spec()) by {
            reveal(obeys_cmp_ord);
        }
        lemma_comparison(*a, *b);
    }
    a.cmp(b)
}

/// Whether `a` comes strictly before `b`.
pub fn key_less<K: Ord>(a: &K, b: &K) -> (r: bool)
    requires
        lawful::<K>(),
    ensures
        r == less(*a, *b),
{
    proof {
        lemma_comparison(*a, *b);
    }
    match compare(a, b) {
        Ordering::Less => true,
        _ => false,
    }
}

} // verus!
