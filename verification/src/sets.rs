//! The insertion-ordered node sets of `indexmap` and the context tables of
//! `rustc-hash`.
use crate::keys::NodeId;
use crate::node::{ContextValue, TypeKey};
use indexmap::IndexSet;
use rustc_hash::FxHasher;
use slotmap::DefaultKey;
use std::collections::HashMap;
use std::hash::BuildHasherDefault;
use vstd::prelude::*;

verus! {

/// `indexmap::IndexSet`, a hash set that remembers the order of insertion.
#[verifier::external_type_specification]
#[verifier::external_body]
#[verifier::reject_recursive_types(T)]
#[verifier::reject_recursive_types(S)]
pub struct ExIndexSet<T, S>(indexmap::IndexSet<T, S>);

/// `rustc_hash::FxHasher`, a hasher without a seed.
#[verifier::external_type_specification]
#[verifier::external_body]
pub struct ExFxHasher(rustc_hash::FxHasher);

/// `std::hash::BuildHasherDefault`, which makes hashers by their default.
#[verifier::external_type_specification]
#[verifier::external_body]
#[verifier::reject_recursive_types(H)]
pub struct ExBuildHasherDefault<H>(std::hash::BuildHasherDefault<H>);

/// A set of nodes in the order in which they were inserted.
pub type NodeSet = IndexSet<DefaultKey, BuildHasherDefault<FxHasher>>;

/// The context values of one node, by the number of their type.
pub type ContextTable = HashMap<u64, ContextValue, BuildHasherDefault<FxHasher>>;

/// The nodes of a set, in its order.
pub uninterp spec fn ids_in(set: NodeSet) -> Seq<u64>;

/// A set after `id` was inserted: at the end, unless it was there already.
pub open spec fn inserted(ids: Seq<u64>, id: u64) -> Seq<u64> {
    if ids.contains(id) {
        ids
    } else {
        ids.push(id)
    }
}

/// A set after `id` was removed: the last item takes its place.
pub open spec fn swap_removed(ids: Seq<u64>, id: u64) -> Seq<u64> {
    if ids.contains(id) {
        ids.update(ids.index_of(id), ids.last()).drop_last()
    } else {
        ids
    }
}

/// These are `len` nodes, each listed once.
pub open spec fn is_set_of(len: usize, ids: Seq<u64>) -> bool {
    len == ids.len() && ids.no_duplicates()
}

/// Calls `IndexSet::len`. The set holds that many nodes, each once.
#[verifier::external_body]
pub(crate) fn set_len(set: &NodeSet) -> (len: usize)
    ensures
        is_set_of(len, ids_in(*set)),
{
    set.len()
}

/// Calls `IndexSet::get_index`, which finds the item at a position of the
/// set's order.
#[verifier::external_body]
pub(crate) fn set_get(set: &NodeSet, index: usize) -> (node: Option<NodeId>)
    ensures
        node is Some <==> index < ids_in(*set).len(),
        node matches Some(node) ==> node@ == ids_in(*set)[index as int],
{
    set.get_index(index).map(|key| NodeId { key: *key })
}

/// Calls `IndexSet::insert`, which appends an item that is not there yet and
/// otherwise leaves the set and its order alone.
#[verifier::external_body]
pub(crate) fn set_insert(set: &mut NodeSet, node: NodeId)
    ensures
        ids_in(*final(set)) == inserted(ids_in(*old(set)), node@),
{
    set.insert(node.key);
}

/// Calls `IndexSet::swap_remove`, which takes an item out and moves the last
/// one into its place.
#[verifier::external_body]
pub(crate) fn set_remove(set: &mut NodeSet, node: NodeId)
    ensures
        ids_in(*final(set)) == swap_removed(ids_in(*old(set)), node@),
{
    set.swap_remove(&node.key);
}

/// Calls `HashMap::get` of a table with `FxHasher`, which finds the value under
/// a key.
#[verifier::external_body]
pub(crate) fn table_get(table: &ContextTable, ty: TypeKey) -> (value: Option<ContextValue>)
    ensures
        value is Some <==> table@.contains_key(ty.0),
        value matches Some(value) ==> value == table@[ty.0],
{
    table.get(&ty.0).copied()
}

/// Calls `HashMap::insert` of a table with `FxHasher`, which puts a value under
/// a key in place of any that was there.
#[verifier::external_body]
pub(crate) fn table_insert(table: &mut ContextTable, ty: TypeKey, value: ContextValue)
    ensures
        final(table)@ == old(table)@.insert(ty.0, value),
{
    table.insert(ty.0, value);
}

} // verus!
