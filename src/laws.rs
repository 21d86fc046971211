use vstd::prelude::*;
use crate::trie::{Trie, prefixes, is_prefix};

verus! {

/// Stores `v` under `k` as the state after an insertion: `after` is what
/// `add_string(k, v)` leaves of `before`.
pub open spec fn added(before: Trie, after: Trie, k: Seq<char>, v: i32) -> bool {
    &&& after@ == before@.insert(k, v)
    &&& after.paths() == before.paths().union(prefixes(k))
}

/// `after` and `r` are what `delete(k)` leaves of `before` and returns.
pub open spec fn deleted(before: Trie, after: Trie, k: Seq<char>, r: Option<i32>) -> bool {
    &&& r == before.value_at(k)
    &&& after@ == before@.remove(k)
    &&& after.paths() == before.paths()
}

/// After a key is stored, looking it up finds its path and the value given.
pub proof fn lemma_round_trip(before: Trie, after: Trie, k: Seq<char>, v: i32)
    requires
        added(before, after, k, v),
    ensures
        after.paths().contains(k),
        after.value_at(k) == Some(v),
{
    assert(is_prefix(k, k)) by {
        assert(k.subrange(0, k.len() as int) =~= k);
    }
    assert(prefixes(k).contains(k));
}

/// Storing under the same key twice keeps the second value, and the second
/// insertion does not change the number of keys.
pub proof fn lemma_overwrite(
    t0: Trie,
    t1: Trie,
    t2: Trie,
    k: Seq<char>,
    v1: i32,
    v2: i32,
)
    requires
        t1.wf(),
        added(t0, t1, k, v1),
        added(t1, t2, k, v2),
    ensures
        t2.value_at(k) == Some(v2),
        t2@.len() == t1@.len(),
{
    lemma_round_trip(t1, t2, k, v2);
    assert(t2@.dom() =~= t1@.dom());
}

/// Deleting a stored key returns its value, keeps its path, clears the value
/// there, and leaves one key fewer.
pub proof fn lemma_delete_then_find(t0: Trie, t1: Trie, k: Seq<char>, r: Option<i32>)
    requires
        t0.wf(),
        deleted(t0, t1, k, r),
        r is Some,
    ensures
        t0@.contains_key(k),
        r == Some(t0@[k]),
        t1.paths().contains(k),
        t1.value_at(k) is None,
        t1@.len() == t0@.len() - 1,
{
    t0.lemma_stored_keys();
}

/// Deleting a key that is not stored returns nothing and changes no key.
pub proof fn lemma_delete_missing(t0: Trie, t1: Trie, k: Seq<char>, r: Option<i32>)
    requires
        deleted(t0, t1, k, r),
        !t0@.contains_key(k),
    ensures
        r is None,
        t1@ == t0@,
        t1@.len() == t0@.len(),
{
    assert(t1@ =~= t0@);
}

/// The empty key is a key like any other: storing under it sets the root's
/// value and counts once, and deleting it returns that value and clears it.
pub proof fn lemma_empty_key(t0: Trie, t1: Trie, t2: Trie, v: i32, r: Option<i32>)
    requires
        t0.wf(),
        added(t0, t1, Seq::empty(), v),
        deleted(t1, t2, Seq::empty(), r),
    ensures
        t1.value_at(Seq::empty()) == Some(v),
        t1@.len() == t0@.len() + if t0@.contains_key(Seq::empty()) {
            0int
        } else {
            1int
        },
        r == Some(v),
        t2.paths().contains(Seq::empty()),
        t2.value_at(Seq::empty()) is None,
{
    lemma_round_trip(t0, t1, Seq::empty(), v);
    t0.lemma_stored_keys();
}

/// Whether the last operation on `k` in `ops` stores a value. Each operation
/// is a key with `Some(v)` for an insertion of `v`, `None` for a deletion.
pub open spec fn last_stores(ops: Seq<(Seq<char>, Option<i32>)>, k: Seq<char>) -> bool
    decreases ops.len(),
{
    if ops.len() == 0 {
        false
    } else if ops.last().0 == k {
        ops.last().1 is Some
    } else {
        last_stores(ops.drop_last(), k)
    }
}

/// `after` is what operation `op` leaves of `before`.
pub open spec fn step(before: Trie, after: Trie, op: (Seq<char>, Option<i32>)) -> bool {
    match op.1 {
        Some(v) => after@ == before@.insert(op.0, v),
        None => after@ == before@.remove(op.0),
    }
}

proof fn lemma_keys_follow_ops(
    states: Seq<Trie>,
    ops: Seq<(Seq<char>, Option<i32>)>,
    n: int,
)
    requires
        states.len() == ops.len() + 1,
        states[0]@ == Map::<Seq<char>, i32>::empty(),
        forall|i: int| 0 <= i < ops.len() ==> step(states[i], states[i + 1], #[trigger] ops[i]),
        0 <= n <= ops.len(),
    ensures
        states[n]@.dom() == Set::new(|k: Seq<char>| last_stores(ops.take(n), k)),
    decreases n,
{
    if n == 0 {
        assert(states[0]@.dom() =~= Set::new(|k: Seq<char>| last_stores(ops.take(0), k)));
    } else {
        lemma_keys_follow_ops(states, ops, n - 1);
        assert(ops.take(n).drop_last() =~= ops.take(n - 1));
        assert(step(states[n - 1], states[n], ops[n - 1]));
        assert(states[n]@.dom() =~= Set::new(|k: Seq<char>| last_stores(ops.take(n), k)));
    }
}

/// Starting from an empty trie, after any run of insertions and deletions the
/// number of stored keys is the number of keys whose last operation was an
/// insertion.
pub proof fn lemma_count_consistency(states: Seq<Trie>, ops: Seq<(Seq<char>, Option<i32>)>)
    requires
        states.len() == ops.len() + 1,
        states[0]@ == Map::<Seq<char>, i32>::empty(),
        forall|i: int| 0 <= i < ops.len() ==> step(states[i], states[i + 1], #[trigger] ops[i]),
    ensures
        forall|k: Seq<char>| states.last()@.contains_key(k) <==> last_stores(ops, k),
        states.last()@.len() == Set::new(|k: Seq<char>| last_stores(ops, k)).len(),
{
    lemma_keys_follow_ops(states, ops, ops.len() as int);
    assert(ops.take(ops.len() as int) =~= ops);
}

} // verus!
