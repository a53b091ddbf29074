//! Properties that hold across the map's operations, stated over the mapping
//! that the operations' contracts describe.
use crate::key::Hashable;
use crate::map::{after_put, lookup};
use vstd::prelude::*;

verus! {

/// A freshly built map, whatever its bucket count, finds nothing for any key.
pub proof fn fresh_map_finds_nothing<K, V>(k: K)
    ensures
        lookup(Map::<K, V>::empty(), k) == None::<V>,
{
}

/// After a put of `v` under `k` into an empty map, a lookup of `k` finds `v`.
pub proof fn put_then_get<K, V>(k: K, v: V)
    ensures
        lookup(after_put(Map::<K, V>::empty(), k, v), k) == Some(v),
{
}

/// A second put under a key never overwrites: after puts of `v1` and then `v2`
/// under a key that was absent, a lookup finds `v1`.
pub proof fn put_never_overwrites<K, V>(m: Map<K, V>, k: K, v1: V, v2: V)
    requires
        !m.contains_key(k),
    ensures
        lookup(after_put(after_put(m, k, v1), k, v2), k) == Some(v1),
{
}

/// After a put under `k`, a mutable lookup of `k` finds an entry, and whatever
/// value `w` is written through it is what a later lookup of `k` finds.
pub proof fn mutation_through_reference_is_kept<K, V>(m: Map<K, V>, k: K, v: V, w: V)
    ensures
        lookup(after_put(m, k, v), k) is Some,
        lookup(after_put(m, k, v).insert(k, w), k) == Some(w),
{
}

/// A put under an absent key followed by a removal hands the value back; then
/// the key is gone, and a second removal finds nothing.
pub proof fn remove_round_trip<K, V>(m: Map<K, V>, k: K, v: V)
    requires
        !m.contains_key(k),
    ensures
        lookup(after_put(m, k, v), k) == Some(v),
        lookup(after_put(m, k, v).remove(k), k) == None::<V>,
        after_put(m, k, v).remove(k).remove(k) == after_put(m, k, v).remove(k),
{
    assert(after_put(m, k, v).remove(k).remove(k) =~= after_put(m, k, v).remove(k));
}

/// Removing one key leaves another untouched: with two distinct keys put, even
/// into the same bucket, removing the first still finds the second's value.
pub proof fn removal_isolates_other_keys<K, V>(m: Map<K, V>, k1: K, v1: V, k2: K, v2: V)
    requires
        k1 != k2,
        !m.contains_key(k2),
    ensures
        lookup(after_put(after_put(m, k1, v1), k2, v2).remove(k1), k2) == Some(v2),
{
}

/// The hash code is deterministic: keys with equal views, whether one value
/// hashed twice or two distinct instances, get the same code.
pub proof fn hash_is_deterministic<K: Hashable>(a: K, b: K)
    requires
        a@ == b@,
    ensures
        K::hash_spec(a@) == K::hash_spec(b@),
{
}

} // verus!
