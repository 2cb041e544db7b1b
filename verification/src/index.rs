//! The index of a layer: which node stands for which state.
//!
//! The index is a hash map of the standard library driven by the Fx hasher.
//! Verus is told here, without proof, how that map behaves for keys whose
//! equality and hash follow the key model of `vstd`.

use rustc_hash::{FxHashMap, FxHasher};
use std::hash::{BuildHasherDefault, Hash};
use std::sync::Arc;
use vstd::prelude::*;
use vstd::std_specs::hash::obeys_key_model;

verus! {

/// The hasher of `rustc_hash`: a value that Verus carries and never reads.
#[verifier::external_type_specification]
#[verifier::external_body]
pub struct ExFxHasher(FxHasher);

/// The hasher factory of the standard library that builds each hasher by
/// `Default`: a value that Verus carries and never reads.
#[verifier::external_type_specification]
#[verifier::external_body]
#[verifier::reject_recursive_types(H)]
pub struct ExBuildHasherDefault<H>(BuildHasherDefault<H>);

/// The nodes of one layer, found by their state.
pub type StateIndex<T> = FxHashMap<Arc<T>, usize>;

/// Says that `entries` lists every association of `index` exactly once, in
/// some order.
pub open spec fn lists_index<T>(entries: Seq<(Arc<T>, usize)>, index: Map<Arc<T>, usize>) -> bool {
    &&& forall|i: int|
        0 <= i < entries.len() ==> index.contains_pair(
            (#[trigger] entries[i]).0,
            entries[i].1,
        )
    &&& forall|i: int, j: int|
        0 <= i < j < entries.len() ==> (#[trigger] entries[i]).0 != (#[trigger] entries[j]).0
    &&& forall|state: Arc<T>| #[trigger]
        index.contains_key(state) ==> exists|i: int|
            0 <= i < entries.len() && (#[trigger] entries[i]).0 == state
}

/// Calls `HashMap::insert` on an Fx map. Claimed of it: afterwards the map
/// associates `state` with `id` and is otherwise as before.
#[verifier::external_body]
pub(crate) fn index_insert<T: Eq + Hash>(index: &mut StateIndex<T>, state: Arc<T>, id: usize)
    requires
        obeys_key_model::<T>(),
    ensures
        final(index)@ == old(index)@.insert(state, id),
{
    index.insert(state, id);
}

/// Calls `HashMap::get` on an Fx map. Claimed of it: the result is the id
/// associated with `state`, or nothing where the map has no such state.
#[verifier::external_body]
pub(crate) fn index_get<T: Eq + Hash>(index: &StateIndex<T>, state: &Arc<T>) -> (found: Option<
    usize,
>)
    requires
        obeys_key_model::<T>(),
    ensures
        index@.contains_key(*state) ==> found == Some(index@[*state]),
        !index@.contains_key(*state) ==> found is None,
{
    index.get(state).copied()
}

/// Calls `HashMap::iter` on an Fx map and copies what it yields. Claimed of
/// it: every association comes out exactly once; the order is left open.
#[verifier::external_body]
pub(crate) fn index_entries<T: Eq + Hash>(index: &StateIndex<T>) -> (entries: Vec<(Arc<T>, usize)>)
    requires
        obeys_key_model::<T>(),
    ensures
        lists_index(entries@, index@),
{
    index.iter().map(|(state, id)| (state.clone(), *id)).collect()
}

/// Calls `HashMap::drain` on an Fx map. Claimed of it: every association
/// comes out exactly once, in an order that is left open, and the map is
/// empty afterwards.
#[verifier::external_body]
pub(crate) fn index_drain<T: Eq + Hash>(index: &mut StateIndex<T>) -> (entries: Vec<
    (Arc<T>, usize),
>)
    requires
        obeys_key_model::<T>(),
    ensures
        lists_index(entries@, old(index)@),
        final(index)@ == (Map::<Arc<T>, usize>::empty()),
{
    index.drain().collect()
}

/// Calls `==` on two shared states, which compares the states themselves.
/// Claimed of it, for a state type that follows the key model: the answer is
/// whether the two states are one and the same value.
#[verifier::external_body]
pub(crate) fn same_state<T: Eq + Hash>(a: &Arc<T>, b: &Arc<T>) -> (same: bool)
    requires
        obeys_key_model::<T>(),
    ensures
        same == (*a == *b),
{
    a == b
}

} // verus!
