//! What a tree holds after a run of insertions and deletions.
//!
//! [`RedBlackTree::insert`](crate::redblack_tree::RedBlackTree::insert) turns the keys
//! `s` of a tree into `with_key(s, k)` and
//! [`RedBlackTree::delete`](crate::redblack_tree::RedBlackTree::delete) turns them into
//! `without_key(s, k)`. The laws here follow a tree through any number of such steps.

use crate::ascending::ascending;
use crate::ascending::lemma_ascending_empty;
use crate::ascending::lemma_with_key_ascending;
use crate::ascending::lemma_with_key_contains;
use crate::ascending::lemma_without_key_ascending;
use crate::ascending::lemma_without_key_contains;
use crate::ascending::with_key;
use crate::ascending::without_key;
use crate::order::lawful;
use vstd::prelude::*;

verus! {

/// One change to a tree.
pub enum Operation<K> {
    /// The key is put in.
    Insert(K),
    /// The key is taken out.
    Delete(K),
}

/// The keys of a tree that held `s` after the operations `ops`, first to last.
pub open spec fn after<K: Ord>(s: Seq<K>, ops: Seq<Operation<K>>) -> Seq<K>
    decreases ops.len(),
{
    if ops.len() == 0 {
        s
    } else {
        let before = after(s, ops.drop_last());
        match ops.last() {
            Operation::Insert(k) => with_key(before, k),
            Operation::Delete(k) => without_key(before, k),
        }
    }
}

/// Whether `k` is there after the operations `ops` on a tree in which it was there or
/// not as `at_first` says: the last operation on `k` decides.
pub open spec fn present<K>(at_first: bool, ops: Seq<Operation<K>>, k: K) -> bool
    decreases ops.len(),
{
    if ops.len() == 0 {
        at_first
    } else {
        match ops.last() {
            Operation::Insert(j) => j == k || present(at_first, ops.drop_last(), k),
            Operation::Delete(j) => j != k && present(at_first, ops.drop_last(), k),
        }
    }
}

/// The keys of a tree that held `s` after each key of `keys` was inserted in turn.
pub open spec fn with_keys<K: Ord>(s: Seq<K>, keys: Seq<K>) -> Seq<K>
    decreases keys.len(),
{
    if keys.len() == 0 {
        s
    } else {
        with_key(with_keys(s, keys.drop_last()), keys.last())
    }
}

/// The keys of a tree that held `s` after each key of `keys` was deleted in turn.
pub open spec fn without_keys<K: Ord>(s: Seq<K>, keys: Seq<K>) -> Seq<K>
    decreases keys.len(),
{
    if keys.len() == 0 {
        s
    } else {
        without_key(without_keys(s, keys.drop_last()), keys.last())
    }
}

/// After any run of insertions and deletions, the keys of a tree still ascend
/// strictly from left to right.
pub proof fn lemma_after_ascending<K: Ord>(s: Seq<K>, ops: Seq<Operation<K>>)
    requires
        lawful::<K>(),
        ascending(s),
    ensures
        ascending(after(s, ops)),
    decreases ops.len(),
{
    if ops.len() > 0 {
        let before = after(s, ops.drop_last());
        lemma_after_ascending(s, ops.drop_last());
        match ops.last() {
            Operation::Insert(k) => lemma_with_key_ascending(before, k),
            Operation::Delete(k) => lemma_without_key_ascending(before, k),
        }
    }
}

/// After any run of insertions and deletions, a tree holds exactly the keys whose
/// last operation was an insertion, and those it held at first that no operation
/// touched.
pub proof fn lemma_after_contains<K: Ord>(s: Seq<K>, ops: Seq<Operation<K>>, k: K)
    requires
        lawful::<K>(),
    ensures
        after(s, ops).contains(k) <==> present(s.contains(k), ops, k),
    decreases ops.len(),
{
    if ops.len() > 0 {
        let before = after(s, ops.drop_last());
        lemma_after_contains(s, ops.drop_last(), k);
        match ops.last() {
            Operation::Insert(j) => lemma_with_key_contains(before, j, k),
            Operation::Delete(j) => lemma_without_key_contains(before, j, k),
        }
    }
}

/// After a run of insertions, the keys of a tree ascend and are those it held
/// before together with those inserted.
pub proof fn lemma_with_keys<K: Ord>(s: Seq<K>, keys: Seq<K>, k: K)
    requires
        lawful::<K>(),
        ascending(s),
    ensures
        ascending(with_keys(s, keys)),
        with_keys(s, keys).contains(k) <==> (s.contains(k) || keys.contains(k)),
    decreases keys.len(),
{
    if keys.len() > 0 {
        let front = keys.drop_last();
        lemma_with_keys(s, front, k);
        lemma_with_key_ascending(with_keys(s, front), keys.last());
        lemma_with_key_contains(with_keys(s, front), keys.last(), k);
        if front.contains(k) {
            let i = choose|i: int| 0 <= i < front.len() && front[i] == k;
            assert(keys[i] == k);
        }
        if keys.contains(k) {
            let i = choose|i: int| 0 <= i < keys.len() && keys[i] == k;
            if i < front.len() {
                assert(front[i] == k);
            }
        }
    } else {
        assert(!keys.contains(k));
    }
}

/// After a run of deletions, the keys of a tree ascend and are those it held before
/// that were not deleted.
pub proof fn lemma_without_keys<K: Ord>(s: Seq<K>, keys: Seq<K>, k: K)
    requires
        ascending(s),
    ensures
        ascending(without_keys(s, keys)),
        without_keys(s, keys).contains(k) <==> (s.contains(k) && !keys.contains(k)),
    decreases keys.len(),
{
    if keys.len() > 0 {
        let front = keys.drop_last();
        lemma_without_keys(s, front, k);
        lemma_without_key_ascending(without_keys(s, front), keys.last());
        lemma_without_key_contains(without_keys(s, front), keys.last(), k);
        if front.contains(k) {
            let i = choose|i: int| 0 <= i < front.len() && front[i] == k;
            assert(keys[i] == k);
        }
        if keys.contains(k) {
            let i = choose|i: int| 0 <= i < keys.len() && keys[i] == k;
            if i < front.len() {
                assert(front[i] == k);
            }
        }
    } else {
        assert(!keys.contains(k));
    }
}

/// A tree that was filled from nothing with the keys `inserted` and then had the keys
/// `deleted` taken out holds no deleted key and every other inserted key, in
/// ascending order.
pub proof fn lemma_inserts_then_deletes<K: Ord>(inserted: Seq<K>, deleted: Seq<K>, k: K)
    requires
        lawful::<K>(),
    ensures
        ascending(without_keys(with_keys(Seq::empty(), inserted), deleted)),
        deleted.contains(k) ==> !without_keys(with_keys(Seq::empty(), inserted), deleted).contains(
            k,
        ),
        inserted.contains(k) && !deleted.contains(k) ==> without_keys(
            with_keys(Seq::empty(), inserted),
            deleted,
        ).contains(k),
{
    lemma_ascending_empty::<K>();
    lemma_with_keys(Seq::empty(), inserted, k);
    lemma_without_keys(with_keys(Seq::empty(), inserted), deleted, k);
}

} // verus!
