//! The hash maps of `rustc_hash`, keyed by a size, as the caches use them.

use rustc_hash::FxBuildHasher;
use rustc_hash::FxHashMap;
use vstd::prelude::*;

verus! {

/// The hasher state of `rustc_hash`; nothing is known of it.
#[verifier::external_type_specification]
#[verifier::external_body]
pub struct ExFxBuildHasher(FxBuildHasher);

/// `FxHashMap::default`: a map that holds no key.
#[verifier::external_body]
pub(crate) fn fx_new<V>() -> (m: FxHashMap<usize, V>)
    ensures
        forall|k: usize| !m@.contains_key(k),
{
    FxHashMap::default()
}

/// `HashMap::get` on an `FxHashMap`: the value that is held for `k`, if one
/// is.
#[verifier::external_body]
pub(crate) fn fx_get<V>(m: &FxHashMap<usize, V>, k: usize) -> (r: Option<&V>)
    ensures
        match r {
            Some(v) => m@.contains_key(k) && *v == m@[k],
            None => !m@.contains_key(k),
        },
{
    m.get(&k)
}

/// `HashMap::insert` on an `FxHashMap`: afterwards `v` is held for `k`, and
/// every other key holds what it held.
#[verifier::external_body]
pub(crate) fn fx_insert<V>(m: &mut FxHashMap<usize, V>, k: usize, v: V)
    ensures
        final(m)@ == old(m)@.insert(k, v),
{
    m.insert(k, v);
}

/// `HashMap::remove` on an `FxHashMap`: hands out the value that was held for
/// `k`, if one was; afterwards `k` holds nothing, and every other key holds
/// what it held.
#[verifier::external_body]
pub(crate) fn fx_remove<V>(m: &mut FxHashMap<usize, V>, k: usize) -> (r: Option<V>)
    ensures
        final(m)@ == old(m)@.remove(k),
        match r {
            Some(v) => old(m)@.contains_key(k) && v == old(m)@[k],
            None => !old(m)@.contains_key(k),
        },
{
    m.remove(&k)
}

} // verus!
