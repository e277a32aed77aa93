//! Properties of sequences of operations on the mapping that a tree holds.
use vstd::prelude::*;
use crate::order::{key_lt, total_order};
use crate::shape::Shape;

verus! {

/// The mapping that results from putting each pair of `ops`, in order, into
/// `m`: by the contract of `put`, what a tree holds after those calls.
pub open spec fn put_all<K, V>(m: Map<K, V>, ops: Seq<(K, V)>) -> Map<K, V>
    decreases ops.len(),
{
    if ops.len() == 0 {
        m
    } else {
        put_all(m, ops.drop_last()).insert(ops.last().0, ops.last().1)
    }
}

/// The value of the last pair in `ops` whose key is `k`, if there is one.
pub open spec fn last_put<K, V>(ops: Seq<(K, V)>, k: K) -> Option<V>
    decreases ops.len(),
{
    if ops.len() == 0 {
        None
    } else if ops.last().0 == k {
        Some(ops.last().1)
    } else {
        last_put(ops.drop_last(), k)
    }
}

/// After a sequence of puts, a key that was put maps to the value of its last
/// put, and a key that was not put keeps what it had before.
pub proof fn lemma_last_put_wins<K, V>(m: Map<K, V>, ops: Seq<(K, V)>, k: K)
    ensures
        last_put(ops, k) is Some ==> put_all(m, ops).contains_key(k) && put_all(m, ops)[k]
            == last_put(ops, k)->0,
        last_put(ops, k) is None ==> put_all(m, ops).contains_key(k) == m.contains_key(k),
        last_put(ops, k) is None && m.contains_key(k) ==> put_all(m, ops)[k] == m[k],
    decreases ops.len(),
{
    if ops.len() > 0 {
        lemma_last_put_wins(m, ops.drop_last(), k);
    }
}

/// Putting `k` with `v` into a tree's shape makes a search for `k` find `v`
/// and leaves every other search as it was; it adds a vertex only when no
/// search found `k` before.
pub proof fn lemma_insert_then_lookup<K: Ord, V>(s: Shape<K, V>, k: K, v: V, j: K)
    requires
        total_order::<K>(),
    ensures
        s.insert(k, v).lookup(j) == if j == k {
            Some(v)
        } else {
            s.lookup(j)
        },
        s.insert(k, v).count() == s.count() + if s.lookup(k) is Some {
            0int
        } else {
            1int
        },
    decreases s,
{
    match s {
        Shape::Empty => {},
        Shape::Vertex(l, key, _, r) => {
            assert(!key_lt(key, key));
            lemma_insert_then_lookup(*l, k, v, j);
            lemma_insert_then_lookup(*r, k, v, j);
        },
    }
}

/// Putting the same key twice keeps the second value and adds no vertex the
/// second time.
pub proof fn lemma_overwrite<K: Ord, V>(s: Shape<K, V>, k: K, v1: V, v2: V)
    requires
        total_order::<K>(),
    ensures
        s.insert(k, v1).insert(k, v2).contents().contains_key(k),
        s.insert(k, v1).insert(k, v2).contents()[k] == v2,
        s.insert(k, v1).insert(k, v2).count() == s.insert(k, v1).count(),
{
    lemma_insert_then_lookup(s, k, v1, k);
    lemma_insert_then_lookup(s.insert(k, v1), k, v2, k);
}

} // verus!
