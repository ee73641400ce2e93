//! Hash maps with the Fx hasher, keyed by integers.

use core::hash::Hash;
use rustc_hash::FxHashMap;
use vstd::prelude::*;
use vstd::std_specs::hash::obeys_key_model;

verus! {

/// The hasher of `rustc_hash`.
#[verifier::external_type_specification]
#[verifier::external_body]
pub struct ExFxHasher(rustc_hash::FxHasher);

/// The builder through which a map makes its hashers.
#[verifier::external_type_specification]
#[verifier::external_body]
#[verifier::reject_recursive_types(H)]
pub struct ExBuildHasherDefault<H>(core::hash::BuildHasherDefault<H>);

/// `FxHashMap::default` makes a map without entries.
#[verifier::external_body]
pub(crate) fn fx_new<K, V>() -> (m: FxHashMap<K, V>)
    ensures
        (m@ == Map::<K, V>::empty()),
{
    FxHashMap::default()
}

/// `HashMap::get` on a map with the Fx hasher: the value under `k`, if there is one.
#[verifier::external_body]
pub(crate) fn fx_get<'a, K: Eq + Hash, V>(m: &'a FxHashMap<K, V>, k: &K) -> (r: Option<&'a V>)
    requires
        obeys_key_model::<K>(),
    ensures
        r == (if m@.contains_key(*k) { Some(&m@[*k]) } else { None }),
{
    m.get(k)
}

/// `HashMap::insert` on a map with the Fx hasher: `v` is now under `k`, whatever was there
/// before.
#[verifier::external_body]
pub(crate) fn fx_insert<K: Eq + Hash, V>(m: &mut FxHashMap<K, V>, k: K, v: V)
    requires
        obeys_key_model::<K>(),
    ensures
        final(m)@ == old(m)@.insert(k, v),
{
    m.insert(k, v);
}

/// `HashMap::remove` on a map with the Fx hasher: nothing is under `k` any more, and what was
/// there is returned.
#[verifier::external_body]
pub(crate) fn fx_remove<K: Eq + Hash, V>(m: &mut FxHashMap<K, V>, k: &K) -> (r: Option<V>)
    requires
        obeys_key_model::<K>(),
    ensures
        final(m)@ == old(m)@.remove(*k),
        r == (if old(m)@.contains_key(*k) { Some(old(m)@[*k]) } else { None }),
{
    m.remove(k)
}

} // verus!
