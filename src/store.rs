//! The fragment store's two outside collections: a slab of fragments and the
//! endpoint maps, each behind a few trusted calls.
use vstd::prelude::*;
use crate::isoring::Fragment;
use rustc_hash::{FxHashMap, FxHasher};
use slab::Slab;
use std::hash::BuildHasherDefault;

verus! {

#[verifier::external_type_specification]
#[verifier::external_body]
#[verifier::reject_recursive_types(T)]
pub struct ExSlab<T>(Slab<T>);

#[verifier::external_type_specification]
#[verifier::external_body]
pub struct ExFxHasher(FxHasher);

#[verifier::external_type_specification]
#[verifier::external_body]
#[verifier::reject_recursive_types(H)]
pub struct ExBuildHasherDefault<H>(BuildHasherDefault<H>);

/// The occupied slots of a slab of fragments, by key.
pub uninterp spec fn slab_entries(s: Slab<Fragment>) -> Map<usize, Fragment>;

/// Relies on `Slab::new`: a new slab holds nothing.
#[verifier::external_body]
pub(crate) fn slab_new() -> (s: Slab<Fragment>)
    ensures
        slab_entries(s).dom() == Set::<usize>::empty(),
{
    Slab::new()
}

/// Relies on `Slab::insert`: the value goes to a vacant slot, whose key is
/// returned.
#[verifier::external_body]
pub(crate) fn slab_insert(s: &mut Slab<Fragment>, v: Fragment) -> (k: usize)
    ensures
        !slab_entries(*old(s)).contains_key(k),
        slab_entries(*final(s)) == slab_entries(*old(s)).insert(k, v),
{
    s.insert(v)
}

/// Relies on `Slab::remove`: the value at an occupied key is taken out (the
/// call panics on a vacant key, which `requires` leaves out).
#[verifier::external_body]
pub(crate) fn slab_remove(s: &mut Slab<Fragment>, k: usize) -> (v: Fragment)
    requires
        slab_entries(*old(s)).contains_key(k),
    ensures
        v == slab_entries(*old(s))[k],
        slab_entries(*final(s)) == slab_entries(*old(s)).remove(k),
{
    s.remove(k)
}

/// Relies on `Slab`'s `IndexMut` (which panics on a vacant key): the value at
/// an occupied key is swapped for `v`.
#[verifier::external_body]
pub(crate) fn slab_replace(s: &mut Slab<Fragment>, k: usize, v: Fragment) -> (prev: Fragment)
    requires
        slab_entries(*old(s)).contains_key(k),
    ensures
        prev == slab_entries(*old(s))[k],
        slab_entries(*final(s)) == slab_entries(*old(s)).insert(k, v),
{
    std::mem::replace(&mut s[k], v)
}

/// Relies on `Slab::clear`: every slot is emptied.
#[verifier::external_body]
pub(crate) fn slab_clear(s: &mut Slab<Fragment>)
    ensures
        slab_entries(*final(s)).dom() == Set::<usize>::empty(),
{
    s.clear()
}

/// Relies on `FxHashMap::default`: a new map is empty.
#[verifier::external_body]
pub(crate) fn key_map_new() -> (m: FxHashMap<u128, usize>)
    ensures
        m@.dom() == Set::<u128>::empty(),
{
    FxHashMap::default()
}

/// Relies on `HashMap::insert` over rustc-hash's deterministic `FxHasher`.
#[verifier::external_body]
pub(crate) fn key_map_insert(m: &mut FxHashMap<u128, usize>, k: u128, v: usize)
    ensures
        final(m)@ == old(m)@.insert(k, v),
{
    m.insert(k, v);
}

/// Relies on `HashMap::remove` over rustc-hash's deterministic `FxHasher`.
#[verifier::external_body]
pub(crate) fn key_map_remove(m: &mut FxHashMap<u128, usize>, k: u128) -> (r: Option<usize>)
    ensures
        final(m)@ == old(m)@.remove(k),
        r == (if old(m)@.contains_key(k) {
            Some(old(m)@[k])
        } else {
            None
        }),
{
    m.remove(&k)
}

/// Relies on `HashMap::contains_key` over rustc-hash's deterministic `FxHasher`.
#[verifier::external_body]
pub(crate) fn key_map_contains(m: &FxHashMap<u128, usize>, k: u128) -> (r: bool)
    ensures
        r == m@.contains_key(k),
{
    m.contains_key(&k)
}

/// Relies on `HashMap::clear`: every entry is removed.
#[verifier::external_body]
pub(crate) fn key_map_clear(m: &mut FxHashMap<u128, usize>)
    ensures
        final(m)@.dom() == Set::<u128>::empty(),
{
    m.clear()
}

} // verus!
