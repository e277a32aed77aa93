//! What the tree needs of its key and value types: a lawful total order on
//! keys, and `clone` that yields an equal value.
use vstd::prelude::*;
use vstd::std_specs::cmp::{PartialEqSpec, PartialOrdSpec};

verus! {

/// `a` comes strictly before `b` in the key order, as `a < b` computes it.
pub open spec fn key_lt<K: PartialOrd>(a: K, b: K) -> bool {
    a.partial_cmp_spec(&b) == Some(core::cmp::Ordering::Less)
}

/// `==` and `<` on `K` follow their specifications, `==` is equality, and `<`
/// is a strict total order.
pub open spec fn total_order<K: Ord>() -> bool {
    &&& K::obeys_eq_spec()
    &&& K::obeys_partial_cmp_spec()
    &&& forall|a: K, b: K| #[trigger] a.eq_spec(&b) <==> a == b
    &&& forall|a: K| !#[trigger] key_lt(a, a)
    &&& forall|a: K, b: K|
        #![trigger key_lt(a, b)]
        #![trigger key_lt(b, a)]
        a != b ==> key_lt(a, b) || key_lt(b, a)
    &&& forall|a: K, b: K, c: K|
        #![trigger key_lt(a, b), key_lt(b, c)]
        key_lt(a, b) && key_lt(b, c) ==> key_lt(a, c)
}

/// Every value that `clone` may return equals the original.
pub open spec fn exact_clone<T: Clone>() -> bool {
    forall|a: T, b: T| #[trigger] call_ensures(T::clone, (&a,), b) ==> a == b
}

/// The assumptions under which the tree's operations are specified.
pub open spec fn lawful<K: Ord + Clone, V: Clone>() -> bool {
    &&& total_order::<K>()
    &&& exact_clone::<K>()
    &&& exact_clone::<V>()
}

/// Machine integers meet the laws, as keys and as values.
pub proof fn lemma_u64_lawful()
    ensures
        lawful::<u64, u64>(),
{
}

} // verus!
