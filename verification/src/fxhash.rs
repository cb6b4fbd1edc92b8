//! Hash sets and maps of `rustc_hash`, keyed by integers.
//!
//! A set is described by the mathematical set of its elements and a map by
//! the mathematical map of its entries. The order in which a set hands out
//! its elements is left open.

use rustc_hash::{FxHashMap, FxHashSet, FxHasher};
use vstd::prelude::*;

verus! {

/// `rustc_hash::FxHasher`: the hasher of the sets and maps of this file.
#[verifier::external_type_specification]
#[verifier::external_body]
pub struct ExFxHasher(FxHasher);

/// `std::hash::BuildHasherDefault`: makes hashers of the kind `H`.
#[verifier::external_type_specification]
#[verifier::external_body]
#[verifier::reject_recursive_types(H)]
pub struct ExBuildHasherDefault<H>(std::hash::BuildHasherDefault<H>);

/// `FxHashSet::default`: a set without elements.
#[verifier::external_body]
pub(crate) fn fx_set_new() -> (s: FxHashSet<usize>)
    ensures
        s@ == Set::<usize>::empty(),
{
    FxHashSet::default()
}

/// `HashSet::insert` on an `FxHashSet`: adds `k` to the set and tells whether
/// it was new.
#[verifier::external_body]
pub(crate) fn fx_set_insert(s: &mut FxHashSet<usize>, k: usize) -> (fresh: bool)
    ensures
        final(s)@ == old(s)@.insert(k),
        fresh == !old(s)@.contains(k),
{
    s.insert(k)
}

/// `HashSet::contains` on an `FxHashSet`: whether `k` is in the set.
#[verifier::external_body]
pub(crate) fn fx_set_contains(s: &FxHashSet<usize>, k: usize) -> (r: bool)
    ensures
        r == s@.contains(k),
{
    s.contains(&k)
}

/// `HashSet::iter` on an `FxHashSet`, collected: every element of the set
/// once, in an order that is not stated.
#[verifier::external_body]
pub(crate) fn fx_set_items(s: &FxHashSet<usize>) -> (v: Vec<usize>)
    ensures
        v@.no_duplicates(),
        v@.to_set() == s@,
{
    s.iter().copied().collect()
}

/// `FxHashMap::default`: a map without entries.
#[verifier::external_body]
pub(crate) fn fx_map_new() -> (m: FxHashMap<usize, usize>)
    ensures
        m@ == (Map::<usize, usize>::empty()),
{
    FxHashMap::default()
}

/// `HashMap::insert` on an `FxHashMap`: sets the value of `k` to `v`.
#[verifier::external_body]
pub(crate) fn fx_map_insert(m: &mut FxHashMap<usize, usize>, k: usize, v: usize)
    ensures
        final(m)@ == old(m)@.insert(k, v),
{
    m.insert(k, v);
}

/// `HashMap::get` on an `FxHashMap`: the value of `k`, if it has one.
#[verifier::external_body]
pub(crate) fn fx_map_get(m: &FxHashMap<usize, usize>, k: usize) -> (r: Option<usize>)
    ensures
        match r {
            Some(v) => m@.contains_key(k) && m@[k] == v,
            None => !m@.contains_key(k),
        },
{
    m.get(&k).copied()
}

} // verus!
