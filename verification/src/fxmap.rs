//! Lookups and updates on the rustc-hash maps the conversion keeps, keyed
//! by integers (node ids, introspection locations, subtable offsets).

use vstd::prelude::*;

use rustc_hash::{FxHashMap, FxHashSet};

verus! {

/// Declares the hash builder of `rustc_hash::FxHashMap` to Verus.
#[verifier::external_type_specification]
#[verifier::external_body]
pub struct ExFxBuildHasher(rustc_hash::FxBuildHasher);

/// Looks `key` up with `HashMap::get` on a map hashed by rustc-hash; trusted
/// to give a copy of the value stored under `key`, or nothing, for keys whose
/// equality is plain value equality.
#[verifier::external_body]
pub(crate) fn fx_get<K: core::hash::Hash + Eq, V: Copy>(m: &FxHashMap<K, V>, key: &K) -> (r: Option<V>)
    requires
        vstd::std_specs::hash::obeys_key_model::<K>(),
    ensures
        r == (if m@.contains_key(*key) {
            Some(m@[*key])
        } else {
            None::<V>
        }),
{
    m.get(key).copied()
}

/// Looks `key` up with `HashMap::get` on a map hashed by rustc-hash;
/// trusted to give the value stored under `key`, or nothing, for keys
/// whose equality is plain value equality.
#[verifier::external_body]
pub(crate) fn fx_get_ref<'a, K: core::hash::Hash + Eq, V>(m: &'a FxHashMap<K, V>, key: &K) -> (r: Option<&'a V>)
    requires
        vstd::std_specs::hash::obeys_key_model::<K>(),
    ensures
        r is Some <==> m@.contains_key(*key),
        r matches Some(v) ==> *v == m@[*key],
{
    m.get(key)
}

/// Takes what `key` holds out of a map hashed by rustc-hash, with
/// `HashMap::remove`; trusted to remove exactly `key` and hand back its
/// value, for keys whose equality is plain value equality.
#[verifier::external_body]
pub(crate) fn fx_remove<K: core::hash::Hash + Eq, V>(m: &mut FxHashMap<K, V>, key: &K) -> (r: Option<V>)
    requires
        vstd::std_specs::hash::obeys_key_model::<K>(),
    ensures
        final(m)@ == old(m)@.remove(*key),
        r is Some <==> old(m)@.contains_key(*key),
        r matches Some(v) ==> v == old(m)@[*key],
{
    m.remove(key)
}

/// The keys of a map hashed by rustc-hash, in the order `HashMap::keys`
/// walks them; trusted to list each key of the map once. The order is
/// left open.
#[verifier::external_body]
pub(crate) fn fx_keys<K: core::hash::Hash + Eq + Copy, V>(m: &FxHashMap<K, V>) -> (r: Vec<K>)
    requires
        vstd::std_specs::hash::obeys_key_model::<K>(),
    ensures
        r@.no_duplicates(),
        forall|k: K| r@.contains(k) <==> m@.contains_key(k),
{
    m.keys().copied().collect()
}

/// Stores `value` under `key` with `HashMap::insert` on a map hashed by
/// rustc-hash; trusted to replace what `key` held and leave the rest, for
/// keys whose equality is plain value equality.
#[verifier::external_body]
pub(crate) fn fx_insert<K: core::hash::Hash + Eq, V>(m: &mut FxHashMap<K, V>, key: K, value: V)
    requires
        vstd::std_specs::hash::obeys_key_model::<K>(),
    ensures
        final(m)@ == old(m)@.insert(key, value),
{
    m.insert(key, value);
}

/// Adds `key` with `HashSet::insert` to a set hashed by rustc-hash;
/// trusted to add exactly `key`, for keys whose equality is plain value
/// equality.
#[verifier::external_body]
pub(crate) fn fx_set_insert<K: core::hash::Hash + Eq>(s: &mut FxHashSet<K>, key: K)
    requires
        vstd::std_specs::hash::obeys_key_model::<K>(),
    ensures
        final(s)@ == old(s)@.insert(key),
{
    s.insert(key);
}

/// Whether `key` is in a set hashed by rustc-hash, with `HashSet::contains`;
/// trusted to tell membership exactly, for keys whose equality is plain
/// value equality.
#[verifier::external_body]
pub(crate) fn fx_set_contains<K: core::hash::Hash + Eq>(s: &FxHashSet<K>, key: &K) -> (r: bool)
    requires
        vstd::std_specs::hash::obeys_key_model::<K>(),
    ensures
        r == s@.contains(*key),
{
    s.contains(key)
}

} // verus!
