//! Strictly ascending sequences of keys.
//!
//! A search tree read in order is such a sequence. Putting a key in and taking a key
//! out are stated here on sequences alone, together with the laws the trees rely on.

use crate::filtering::lemma_filter_all;
use crate::filtering::lemma_filter_members;
use crate::filtering::lemma_filter_none;
use crate::order::lawful;
use crate::order::lemma_less_transitive;
use crate::order::lemma_trichotomy;
use crate::order::less;
use vstd::prelude::*;

verus! {

/// Every element comes strictly before every later one.
#[verifier::opaque]
pub open spec fn ascending<K: Ord>(s: Seq<K>) -> bool {
    forall|i: int, j: int| 0 <= i < j < s.len() ==> less(#[trigger] s[i], #[trigger] s[j])
}

/// Every element of `s` comes strictly before `k`.
pub open spec fn all_below<K: Ord>(s: Seq<K>, k: K) -> bool {
    forall|i: int| 0 <= i < s.len() ==> less(#[trigger] s[i], k)
}

/// Every element of `s` comes strictly after `k`.
pub open spec fn all_above<K: Ord>(s: Seq<K>, k: K) -> bool {
    forall|i: int| 0 <= i < s.len() ==> less(k, #[trigger] s[i])
}

/// `a`, then `x`, then `b`.
#[verifier::opaque]
pub open spec fn join<K>(a: Seq<K>, x: K, b: Seq<K>) -> Seq<K> {
    a + seq![x] + b
}

/// The elements of `s` that come before `k`, in their order.
pub open spec fn below<K: Ord>(s: Seq<K>, k: K) -> Seq<K> {
    s.filter(|x: K| less(x, k))
}

/// The elements of `s` that come after `k`, in their order.
pub open spec fn above<K: Ord>(s: Seq<K>, k: K) -> Seq<K> {
    s.filter(|x: K| less(k, x))
}

/// `s` with `k` put in at its place; `s` itself where it already holds `k`.
pub open spec fn with_key<K: Ord>(s: Seq<K>, k: K) -> Seq<K> {
    if s.contains(k) {
        s
    } else {
        join(below(s, k), k, above(s, k))
    }
}

/// `s` with every occurrence of `k` taken out.
pub open spec fn without_key<K>(s: Seq<K>, k: K) -> Seq<K> {
    s.filter(|x: K| x != k)
}

/// Filtering a joined sequence filters its three parts.
proof fn lemma_filter_join<K>(a: Seq<K>, x: K, b: Seq<K>, pred: spec_fn(K) -> bool)
    ensures
        join(a, x, b).filter(pred) == a.filter(pred) + (if pred(x) {
            seq![x]
        } else {
            Seq::<K>::empty()
        }) + b.filter(pred),
{
    reveal(join);
    Seq::filter_distributes_over_add(a + seq![x], b, pred);
    Seq::filter_distributes_over_add(a, seq![x], pred);
    if pred(x) {
        lemma_filter_all(seq![x], pred);
    } else {
        lemma_filter_none(seq![x], pred);
    }
}

/// What a filter leaves of an ascending sequence ascends.
proof fn lemma_filter_ascending<K: Ord>(s: Seq<K>, pred: spec_fn(K) -> bool)
    requires
        ascending(s),
    ensures
        ascending(s.filter(pred)),
    decreases s.len(),
{
    reveal(ascending);
    reveal(Seq::filter);
    if s.len() > 0 {
        let front = s.drop_last();
        lemma_filter_ascending(front, pred);
        let f = front.filter(pred);
        if pred(s.last()) {
            let g = f.push(s.last());
            assert forall|i: int, j: int| 0 <= i < j < g.len() implies less(
                #[trigger] g[i],
                #[trigger] g[j],
            ) by {
                if j == f.len() {
                    assert(f.contains(f[i]));
                    front.lemma_filter_contains_rev(pred, f[i]);
                    let m = choose|m: int| 0 <= m < front.len() && front[m] == f[i];
                    assert(less(s[m], s[s.len() - 1]));
                } else {
                    assert(less(f[i], f[j]));
                }
            }
        }
    }
}

/// The empty sequence ascends.
pub proof fn lemma_ascending_empty<K: Ord>()
    ensures
        ascending(Seq::<K>::empty()),
{
    reveal(ascending);
}

/// Joining is associative: the two ways of hanging three parts below two elements
/// read the same.
pub proof fn lemma_join_assoc<K>(a: Seq<K>, x: K, b: Seq<K>, y: K, c: Seq<K>)
    ensures
        join(join(a, x, b), y, c) == join(a, x, join(b, y, c)),
{
    reveal(join);
    assert(join(join(a, x, b), y, c) =~= join(a, x, join(b, y, c)));
}

/// An element with nothing on either side is a sequence of one.
pub proof fn lemma_join_single<K>(x: K)
    ensures
        join(Seq::<K>::empty(), x, Seq::<K>::empty()) == seq![x],
{
    reveal(join);
    assert(join(Seq::<K>::empty(), x, Seq::<K>::empty()) =~= seq![x]);
}

/// Taking the first element off the left part takes it off the joined sequence.
pub proof fn lemma_join_pop_front<K>(m: K, rest: Seq<K>, x: K, b: Seq<K>)
    ensures
        join(seq![m] + rest, x, b) == seq![m] + join(rest, x, b),
{
    reveal(join);
    assert(join(seq![m] + rest, x, b) =~= seq![m] + join(rest, x, b));
}

/// A joined sequence with nothing on the left starts with its middle element.
pub proof fn lemma_join_empty_left<K>(x: K, b: Seq<K>)
    ensures
        join(Seq::<K>::empty(), x, b) == seq![x] + b,
        Seq::<K>::empty() + b == b,
        b + Seq::<K>::empty() == b,
{
    reveal(join);
    assert(join(Seq::<K>::empty(), x, b) =~= seq![x] + b);
    assert(Seq::<K>::empty() + b =~= b);
    assert(b + Seq::<K>::empty() =~= b);
}

/// With the first element of a sequence in the middle and the rest of it on the right,
/// a joined sequence reads as its left part followed by that whole sequence.
pub proof fn lemma_join_next<K>(a: Seq<K>, m: K, rest: Seq<K>)
    ensures
        join(a, m, rest) == a + (seq![m] + rest),
{
    reveal(join);
    assert(join(a, m, rest) =~= a + (seq![m] + rest));
}

/// A joined sequence holds what its three parts hold.
pub proof fn lemma_join_contains<K>(a: Seq<K>, x: K, b: Seq<K>, k: K)
    ensures
        join(a, x, b).contains(k) <==> (a.contains(k) || k == x || b.contains(k)),
{
    reveal(join);
    let s = join(a, x, b);
    if s.contains(k) {
        let i = choose|i: int| 0 <= i < s.len() && s[i] == k;
        if i < a.len() {
            assert(a[i] == k);
        } else if i > a.len() {
            assert(b[i - a.len() - 1] == k);
        }
    }
    if a.contains(k) {
        let i = choose|i: int| 0 <= i < a.len() && a[i] == k;
        assert(s[i] == k);
    }
    if k == x {
        assert(s[a.len() as int] == k);
    }
    if b.contains(k) {
        let i = choose|i: int| 0 <= i < b.len() && b[i] == k;
        assert(s[a.len() + 1 + i] == k);
    }
}

/// A joined sequence ascends exactly when both sides ascend, the left side lies
/// below the middle element and the right side above it.
pub proof fn lemma_join_ascending<K: Ord>(a: Seq<K>, x: K, b: Seq<K>)
    requires
        lawful::<K>(),
    ensures
        ascending(join(a, x, b)) <==> (ascending(a) && ascending(b) && all_below(a, x)
            && all_above(b, x)),
{
    reveal(join);
    reveal(ascending);
    let s = join(a, x, b);
    let n = a.len() as int;
    if ascending(s) {
        assert forall|i: int, j: int| 0 <= i < j < a.len() implies less(
            #[trigger] a[i],
            #[trigger] a[j],
        ) by {
            assert(less(s[i], s[j]));
        }
        assert forall|i: int, j: int| 0 <= i < j < b.len() implies less(
            #[trigger] b[i],
            #[trigger] b[j],
        ) by {
            assert(less(s[n + 1 + i], s[n + 1 + j]));
        }
        assert forall|i: int| 0 <= i < a.len() implies less(#[trigger] a[i], x) by {
            assert(less(s[i], s[n]));
        }
        assert forall|i: int| 0 <= i < b.len() implies less(x, #[trigger] b[i]) by {
            assert(less(s[n], s[n + 1 + i]));
        }
    }
    if ascending(a) && ascending(b) && all_below(a, x) && all_above(b, x) {
        assert forall|i: int, j: int| 0 <= i < j < s.len() implies less(
            #[trigger] s[i],
            #[trigger] s[j],
        ) by {
            if j < n {
                assert(less(a[i], a[j]));
            } else if j == n {
                assert(less(a[i], x));
            } else if i < n {
                assert(less(a[i], x));
                assert(less(x, b[j - n - 1]));
                lemma_less_transitive(a[i], x, b[j - n - 1]);
            } else if i == n {
                assert(less(x, b[j - n - 1]));
            } else {
                assert(less(b[i - n - 1], b[j - n - 1]));
            }
        }
    }
}

/// A joined sequence lies above `k` exactly when its three parts do, and below `k`
/// exactly when its three parts do.
pub proof fn lemma_join_bounds<K: Ord>(a: Seq<K>, x: K, b: Seq<K>, k: K)
    ensures
        all_above(join(a, x, b), k) <==> (all_above(a, k) && less(k, x) && all_above(b, k)),
        all_below(join(a, x, b), k) <==> (all_below(a, k) && less(x, k) && all_below(b, k)),
{
    reveal(join);
    let s = join(a, x, b);
    let n = a.len() as int;
    if all_above(s, k) {
        assert forall|i: int| 0 <= i < a.len() implies less(k, #[trigger] a[i]) by {
            assert(less(k, s[i]));
        }
        assert forall|i: int| 0 <= i < b.len() implies less(k, #[trigger] b[i]) by {
            assert(less(k, s[n + 1 + i]));
        }
        assert(less(k, s[n]));
    }
    if all_above(a, k) && less(k, x) && all_above(b, k) {
        assert forall|i: int| 0 <= i < s.len() implies less(k, #[trigger] s[i]) by {
            if i < n {
                assert(less(k, a[i]));
            } else if i > n {
                assert(less(k, b[i - n - 1]));
            }
        }
    }
    if all_below(s, k) {
        assert forall|i: int| 0 <= i < a.len() implies less(#[trigger] a[i], k) by {
            assert(less(s[i], k));
        }
        assert forall|i: int| 0 <= i < b.len() implies less(#[trigger] b[i], k) by {
            assert(less(s[n + 1 + i], k));
        }
        assert(less(s[n], k));
    }
    if all_below(a, k) && less(x, k) && all_below(b, k) {
        assert forall|i: int| 0 <= i < s.len() implies less(#[trigger] s[i], k) by {
            if i < n {
                assert(less(a[i], k));
            } else if i > n {
                assert(less(b[i - n - 1], k));
            }
        }
    }
}

/// What lies above `x` lies above anything below `x`; what lies below `x` lies below
/// anything above `x`.
pub proof fn lemma_bounds_widen<K: Ord>(s: Seq<K>, x: K, k: K)
    requires
        lawful::<K>(),
    ensures
        all_above(s, x) && less(k, x) ==> all_above(s, k),
        all_below(s, x) && less(x, k) ==> all_below(s, k),
{
    if all_above(s, x) && less(k, x) {
        assert forall|i: int| 0 <= i < s.len() implies less(k, #[trigger] s[i]) by {
            lemma_less_transitive(k, x, s[i]);
        }
    }
    if all_below(s, x) && less(x, k) {
        assert forall|i: int| 0 <= i < s.len() implies less(#[trigger] s[i], k) by {
            lemma_less_transitive(s[i], x, k);
        }
    }
}

/// Putting a key into the empty sequence gives that key alone.
pub proof fn lemma_with_key_empty<K: Ord>(k: K)
    ensures
        with_key(Seq::<K>::empty(), k) == seq![k],
{
    reveal(join);
    let e = Seq::<K>::empty();
    lemma_filter_none(e, |x: K| less(x, k));
    lemma_filter_none(e, |x: K| less(k, x));
    assert(join(e, k, e) =~= seq![k]);
}

/// A key below the middle element goes into the left part.
pub proof fn lemma_with_key_left<K: Ord>(a: Seq<K>, x: K, b: Seq<K>, k: K)
    requires
        lawful::<K>(),
        ascending(join(a, x, b)),
        less(k, x),
    ensures
        with_key(join(a, x, b), k) == join(with_key(a, k), x, b),
        join(a, x, b).contains(k) <==> a.contains(k),
        ascending(a),
{
    reveal(join);
    let s = join(a, x, b);
    lemma_join_ascending(a, x, b);
    lemma_join_contains(a, x, b, k);
    lemma_trichotomy(k, x);
    assert forall|i: int| 0 <= i < b.len() implies less(k, #[trigger] b[i]) && b[i] != k by {
        lemma_less_transitive(k, x, b[i]);
        lemma_trichotomy(k, b[i]);
    }
    if !a.contains(k) {
        lemma_filter_join(a, x, b, |y: K| less(y, k));
        lemma_filter_join(a, x, b, |y: K| less(k, y));
        assert forall|i: int| 0 <= i < b.len() implies !less(#[trigger] b[i], k) by {
            lemma_trichotomy(k, b[i]);
        }
        lemma_filter_none(b, |y: K| less(y, k));
        lemma_filter_all(b, |y: K| less(k, y));
        assert(with_key(s, k) =~= join(with_key(a, k), x, b));
    }
}

/// A key above the middle element goes into the right part.
pub proof fn lemma_with_key_right<K: Ord>(a: Seq<K>, x: K, b: Seq<K>, k: K)
    requires
        lawful::<K>(),
        ascending(join(a, x, b)),
        less(x, k),
    ensures
        with_key(join(a, x, b), k) == join(a, x, with_key(b, k)),
        join(a, x, b).contains(k) <==> b.contains(k),
        ascending(b),
{
    reveal(join);
    let s = join(a, x, b);
    lemma_join_ascending(a, x, b);
    lemma_join_contains(a, x, b, k);
    lemma_trichotomy(k, x);
    assert forall|i: int| 0 <= i < a.len() implies less(#[trigger] a[i], k) && a[i] != k by {
        lemma_less_transitive(a[i], x, k);
        lemma_trichotomy(k, a[i]);
    }
    if !b.contains(k) {
        lemma_filter_join(a, x, b, |y: K| less(y, k));
        lemma_filter_join(a, x, b, |y: K| less(k, y));
        assert forall|i: int| 0 <= i < a.len() implies !less(k, #[trigger] a[i]) by {
            lemma_trichotomy(k, a[i]);
        }
        lemma_filter_all(a, |y: K| less(y, k));
        lemma_filter_none(a, |y: K| less(k, y));
        assert(with_key(s, k) =~= join(a, x, with_key(b, k)));
    }
}

/// A key below the middle element is taken out of the left part.
pub proof fn lemma_without_key_left<K: Ord>(a: Seq<K>, x: K, b: Seq<K>, k: K)
    requires
        lawful::<K>(),
        ascending(join(a, x, b)),
        less(k, x),
    ensures
        without_key(join(a, x, b), k) == join(without_key(a, k), x, b),
        join(a, x, b).contains(k) <==> a.contains(k),
        ascending(a),
{
    reveal(join);
    lemma_join_ascending(a, x, b);
    lemma_join_contains(a, x, b, k);
    lemma_trichotomy(k, x);
    assert forall|i: int| 0 <= i < b.len() implies #[trigger] b[i] != k by {
        lemma_less_transitive(k, x, b[i]);
        lemma_trichotomy(k, b[i]);
    }
    lemma_filter_join(a, x, b, |y: K| y != k);
    lemma_filter_all(b, |y: K| y != k);
}

/// A key above the middle element is taken out of the right part.
pub proof fn lemma_without_key_right<K: Ord>(a: Seq<K>, x: K, b: Seq<K>, k: K)
    requires
        lawful::<K>(),
        ascending(join(a, x, b)),
        less(x, k),
    ensures
        without_key(join(a, x, b), k) == join(a, x, without_key(b, k)),
        join(a, x, b).contains(k) <==> b.contains(k),
        ascending(b),
{
    reveal(join);
    lemma_join_ascending(a, x, b);
    lemma_join_contains(a, x, b, k);
    lemma_trichotomy(k, x);
    assert forall|i: int| 0 <= i < a.len() implies #[trigger] a[i] != k by {
        lemma_less_transitive(a[i], x, k);
        lemma_trichotomy(k, a[i]);
    }
    lemma_filter_join(a, x, b, |y: K| y != k);
    lemma_filter_all(a, |y: K| y != k);
}

/// Taking out the middle element leaves the two sides.
pub proof fn lemma_without_key_middle<K: Ord>(a: Seq<K>, x: K, b: Seq<K>)
    requires
        lawful::<K>(),
        ascending(join(a, x, b)),
    ensures
        without_key(join(a, x, b), x) == a + b,
        join(a, x, b).contains(x),
{
    reveal(join);
    lemma_join_ascending(a, x, b);
    lemma_join_contains(a, x, b, x);
    assert forall|i: int| 0 <= i < a.len() implies #[trigger] a[i] != x by {
        lemma_trichotomy(a[i], x);
    }
    assert forall|i: int| 0 <= i < b.len() implies #[trigger] b[i] != x by {
        lemma_trichotomy(x, b[i]);
    }
    lemma_filter_join(a, x, b, |y: K| y != x);
    lemma_filter_all(a, |y: K| y != x);
    lemma_filter_all(b, |y: K| y != x);
    assert(a + Seq::<K>::empty() + b =~= a + b);
}

/// Taking out a key that is not there changes nothing.
pub proof fn lemma_without_key_absent<K>(s: Seq<K>, k: K)
    requires
        !s.contains(k),
    ensures
        without_key(s, k) == s,
{
    assert forall|i: int| 0 <= i < s.len() implies #[trigger] s[i] != k by {
        assert(s.contains(s[i]));
    }
    lemma_filter_all(s, |y: K| y != k);
}

/// After a key is put in, the sequence holds that key and what it held before.
pub proof fn lemma_with_key_contains<K: Ord>(s: Seq<K>, k: K, j: K)
    requires
        lawful::<K>(),
    ensures
        with_key(s, k).contains(j) <==> (j == k || s.contains(j)),
{
    if !s.contains(k) {
        lemma_join_contains(below(s, k), k, above(s, k), j);
        lemma_filter_members(s, |x: K| less(x, k), j);
        lemma_filter_members(s, |x: K| less(k, x), j);
        lemma_trichotomy(j, k);
    }
}

/// Putting a key into an ascending sequence leaves it ascending.
pub proof fn lemma_with_key_ascending<K: Ord>(s: Seq<K>, k: K)
    requires
        lawful::<K>(),
        ascending(s),
    ensures
        ascending(with_key(s, k)),
{
    if !s.contains(k) {
        let lo = below(s, k);
        let hi = above(s, k);
        lemma_filter_ascending(s, |x: K| less(x, k));
        lemma_filter_ascending(s, |x: K| less(k, x));
        assert forall|i: int| 0 <= i < lo.len() implies less(#[trigger] lo[i], k) by {
            s.lemma_filter_pred(|x: K| less(x, k), i);
        }
        assert forall|i: int| 0 <= i < hi.len() implies less(k, #[trigger] hi[i]) by {
            s.lemma_filter_pred(|x: K| less(k, x), i);
        }
        lemma_join_ascending(lo, k, hi);
    }
}

/// Putting in a key that was absent makes the sequence one longer; putting in one
/// that was present leaves its length.
pub proof fn lemma_with_key_len<K: Ord>(s: Seq<K>, k: K)
    requires
        lawful::<K>(),
    ensures
        with_key(s, k).len() == if s.contains(k) {
            s.len()
        } else {
            s.len() + 1
        },
{
    reveal(join);
    if !s.contains(k) {
        lemma_split_len(s, k);
    }
}

/// Every element of a sequence without `k` lies below `k` or above it.
proof fn lemma_split_len<K: Ord>(s: Seq<K>, k: K)
    requires
        lawful::<K>(),
        !s.contains(k),
    ensures
        below(s, k).len() + above(s, k).len() == s.len(),
    decreases s.len(),
{
    reveal(Seq::filter);
    if s.len() > 0 {
        let front = s.drop_last();
        assert forall|i: int| 0 <= i < front.len() implies #[trigger] front[i] != k by {
            assert(s[i] == front[i]);
            assert(s.contains(s[i]));
        }
        assert(!front.contains(k));
        lemma_split_len(front, k);
        assert(s.contains(s.last()));
        lemma_trichotomy(s.last(), k);
    }
}

/// Putting the same key in a second time changes nothing.
pub proof fn lemma_with_key_idempotent<K: Ord>(s: Seq<K>, k: K)
    requires
        lawful::<K>(),
    ensures
        with_key(with_key(s, k), k) == with_key(s, k),
        with_key(with_key(s, k), k).len() == with_key(s, k).len(),
{
    lemma_with_key_contains(s, k, k);
}

/// After a key is taken out, the sequence holds what it held before but that key.
pub proof fn lemma_without_key_contains<K>(s: Seq<K>, k: K, j: K)
    ensures
        without_key(s, k).contains(j) <==> (j != k && s.contains(j)),
{
    lemma_filter_members(s, |x: K| x != k, j);
}

/// Taking a key out of an ascending sequence leaves it ascending.
pub proof fn lemma_without_key_ascending<K: Ord>(s: Seq<K>, k: K)
    requires
        ascending(s),
    ensures
        ascending(without_key(s, k)),
{
    lemma_filter_ascending(s, |x: K| x != k);
}

/// An ascending sequence holds no key twice, so taking out a key that is there
/// makes it exactly one shorter.
pub proof fn lemma_without_key_len<K: Ord>(s: Seq<K>, k: K)
    requires
        lawful::<K>(),
        ascending(s),
    ensures
        without_key(s, k).len() == if s.contains(k) {
            s.len() - 1
        } else {
            s.len() as int
        },
    decreases s.len(),
{
    reveal(ascending);
    reveal(Seq::filter);
    if s.len() > 0 {
        let front = s.drop_last();
        assert(ascending(front)) by {
            assert forall|i: int, j: int| 0 <= i < j < front.len() implies less(
                #[trigger] front[i],
                #[trigger] front[j],
            ) by {
                assert(less(s[i], s[j]));
            }
        }
        lemma_without_key_len(front, k);
        if s.last() == k {
            assert(!front.contains(k)) by {
                if front.contains(k) {
                    let i = choose|i: int| 0 <= i < front.len() && front[i] == k;
                    assert(less(s[i], s[s.len() - 1]));
                    lemma_trichotomy(s[i], k);
                }
            }
            assert(s.contains(k)) by {
                assert(s[s.len() - 1] == k);
            }
        } else {
            assert(s.contains(k) <==> front.contains(k)) by {
                if s.contains(k) {
                    let i = choose|i: int| 0 <= i < s.len() && s[i] == k;
                    assert(front[i] == k);
                }
                if front.contains(k) {
                    let i = choose|i: int| 0 <= i < front.len() && front[i] == k;
                    assert(s[i] == k);
                }
            }
        }
    } else {
        assert(!s.contains(k));
    }
}

} // verus!
