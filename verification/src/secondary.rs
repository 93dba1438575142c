//! The secondary maps of `slotmap`, which attach data to the nodes of a graph.
//!
//! A secondary map is addressed by the keys of a primary map and has room for
//! one generation per slot: data for a newer generation pushes out the data of
//! an older one, and data for an older generation is turned away.
use crate::keys::{generation_of, is_null, is_older, slot_of, NodeId};
use crate::node::{property_views, CleanupId, ContextValue, Property, ScopeProperty};
use crate::sets::{ids_in, ContextTable, NodeSet};
use crate::slots::counts;
use slotmap::{DefaultKey, SecondaryMap, SparseSecondaryMap};
use vstd::prelude::*;

verus! {

/// A map with `value` under `key` and nothing else in the slot of `key`.
pub open spec fn placed<V>(contents: Map<u64, V>, key: u64, value: V) -> Map<u64, V> {
    Map::new(
        |other: u64| other == key || (contents.contains_key(other) && slot_of(other) != slot_of(key)),
        |other: u64| if other == key { value } else { contents[other] },
    )
}

/// Something in the map has the slot of `key`.
pub open spec fn slot_taken<V>(contents: Map<u64, V>, key: u64) -> bool {
    exists|other: u64| #[trigger] contents.contains_key(other) && slot_of(other) == slot_of(key)
}

/// What is in the slot of `key` is from no later generation.
pub open spec fn slot_yields<V>(contents: Map<u64, V>, key: u64) -> bool {
    forall|other: u64| #[trigger]
        contents.contains_key(other) && slot_of(other) == slot_of(key) ==> !is_older(
            generation_of(key),
            generation_of(other),
        )
}

/// Does `SecondaryMap::insert` store a value under `key`?
pub open spec fn takes<V>(contents: Map<u64, V>, key: u64) -> bool {
    !is_null(key) && (contents.contains_key(key) || slot_yields(contents, key))
}

/// Does `SecondaryMap::entry` offer a place for `key`? An empty slot counts as
/// one of generation zero.
pub open spec fn offers<V>(contents: Map<u64, V>, key: u64) -> bool {
    !is_null(key) && (contents.contains_key(key) || (slot_yields(contents, key) && (slot_taken(
        contents,
        key,
    ) || !is_older(generation_of(key), 0))))
}

/// Does `SparseSecondaryMap::entry` offer a place for `key`?
pub open spec fn offers_sparse<V>(contents: Map<u64, V>, key: u64) -> bool {
    !is_null(key) && (contents.contains_key(key) || forall|other: u64| #[trigger]
        contents.contains_key(other) && slot_of(other) == slot_of(key) ==> is_older(
            generation_of(other),
            generation_of(key),
        ))
}

/// The value under `key`, or `default` where there is none.
pub open spec fn value_or<V>(contents: Map<u64, V>, key: u64, default: V) -> V {
    if contents.contains_key(key) {
        contents[key]
    } else {
        default
    }
}

/// The edges of a graph in one direction: a `slotmap::SecondaryMap` of sets.
#[verifier::external_body]
pub struct NodeEdges {
    map: SecondaryMap<DefaultKey, NodeSet>,
}

/// The sets that are in the map, each in its order.
pub uninterp spec fn edges_in(map: NodeEdges) -> Map<u64, Seq<u64>>;

impl NodeEdges {
    /// Calls `SecondaryMap::new`, which makes an empty map.
    #[verifier::external_body]
    pub(crate) fn new() -> (map: Self)
        ensures
            edges_in(map) =~= Map::empty(),
    {
        NodeEdges { map: SecondaryMap::new() }
    }

    /// Calls `SecondaryMap::get`, which finds the set of a node.
    #[verifier::external_body]
    pub(crate) fn get(&self, id: NodeId) -> (set: Option<&NodeSet>)
        ensures
            set is Some <==> edges_in(*self).contains_key(id@),
            set matches Some(set) ==> ids_in(*set) == edges_in(*self)[id@],
    {
        self.map.get(id.key)
    }

    /// Calls `SecondaryMap::get_mut`, which lends out the set of a node.
    #[verifier::external_body]
    pub(crate) fn get_mut(&mut self, id: NodeId) -> (set: Option<&mut NodeSet>)
        ensures
            set is Some <==> edges_in(*old(self)).contains_key(id@),
            set is None ==> edges_in(*final(self)) == edges_in(*old(self)),
            set matches Some(set) ==> ids_in(*set) == edges_in(*old(self))[id@] && edges_in(
                *final(self),
            ) == edges_in(*old(self)).insert(id@, ids_in(*final(set))),
    {
        self.map.get_mut(id.key)
    }

    /// Calls `SecondaryMap::entry` and, where it offers a place,
    /// `Entry::or_default` on that, which puts an empty set there unless the
    /// node has one.
    #[verifier::external_body]
    pub(crate) fn entry_or_default(&mut self, id: NodeId) -> (set: Option<&mut NodeSet>)
        ensures
            set is Some <==> offers(edges_in(*old(self)), id@),
            set is None ==> edges_in(*final(self)) == edges_in(*old(self)),
            set matches Some(set) ==> ids_in(*set) == value_or(
                edges_in(*old(self)),
                id@,
                Seq::<u64>::empty(),
            ) && edges_in(*final(self)) == placed(edges_in(*old(self)), id@, ids_in(*final(set))),
    {
        Some(self.map.entry(id.key)?.or_default())
    }

    /// Calls `SecondaryMap::remove`, which takes out the set of a node.
    #[verifier::external_body]
    pub(crate) fn remove(&mut self, id: NodeId) -> (set: Option<NodeSet>)
        ensures
            set is Some <==> edges_in(*old(self)).contains_key(id@),
            set matches Some(set) ==> ids_in(set) == edges_in(*old(self))[id@],
            edges_in(*final(self)) == edges_in(*old(self)).remove(id@),
    {
        self.map.remove(id.key)
    }
}

/// The owner of each node: a `slotmap::SecondaryMap`.
#[verifier::external_body]
pub struct NodeOwners {
    map: SecondaryMap<DefaultKey, NodeId>,
}

/// The owners that are in the map.
pub uninterp spec fn owners_in(map: NodeOwners) -> Map<u64, u64>;

impl NodeOwners {
    /// Calls `SecondaryMap::new`, which makes an empty map.
    #[verifier::external_body]
    pub(crate) fn new() -> (map: Self)
        ensures
            owners_in(map) =~= Map::empty(),
    {
        NodeOwners { map: SecondaryMap::new() }
    }

    /// Calls `SecondaryMap::len`, which counts the values. There are finitely
    /// many.
    #[verifier::external_body]
    pub(crate) fn len(&self) -> (len: usize)
        ensures
            counts(len, owners_in(*self)),
    {
        self.map.len()
    }

    /// Calls `SecondaryMap::get`, which finds the owner of a node.
    #[verifier::external_body]
    pub(crate) fn get(&self, id: NodeId) -> (owner: Option<NodeId>)
        ensures
            owner is Some <==> owners_in(*self).contains_key(id@),
            owner matches Some(owner) ==> owner@ == owners_in(*self)[id@],
    {
        self.map.get(id.key).copied()
    }

    /// Calls `SecondaryMap::insert`, which records the owner of a node unless
    /// the node is out of date.
    #[verifier::external_body]
    pub(crate) fn insert(&mut self, id: NodeId, owner: NodeId)
        ensures
            takes(owners_in(*old(self)), id@) ==> owners_in(*final(self)) == placed(
                owners_in(*old(self)),
                id@,
                owner@,
            ),
            !takes(owners_in(*old(self)), id@) ==> owners_in(*final(self)) == owners_in(
                *old(self),
            ),
    {
        self.map.insert(id.key, owner);
    }
}

/// The cleanup functions of each node: a `slotmap::SparseSecondaryMap`.
#[verifier::external_body]
pub struct NodeCleanups {
    map: SparseSecondaryMap<DefaultKey, Vec<CleanupId>>,
}

/// The cleanup functions that are in the map.
pub uninterp spec fn cleanups_in(map: NodeCleanups) -> Map<u64, Seq<CleanupId>>;

impl NodeCleanups {
    /// Calls `SparseSecondaryMap::new`, which makes an empty map.
    #[verifier::external_body]
    pub(crate) fn new() -> (map: Self)
        ensures
            cleanups_in(map) =~= Map::empty(),
    {
        NodeCleanups { map: SparseSecondaryMap::new() }
    }

    /// Calls `SparseSecondaryMap::entry` and, where it offers a place,
    /// `Entry::or_default` on that, which puts an empty list there unless the
    /// node has one.
    #[verifier::external_body]
    pub(crate) fn entry_or_default(&mut self, id: NodeId) -> (list: Option<&mut Vec<CleanupId>>)
        ensures
            list is Some <==> offers_sparse(cleanups_in(*old(self)), id@),
            list is None ==> cleanups_in(*final(self)) == cleanups_in(*old(self)),
            list matches Some(list) ==> list@ == value_or(
                cleanups_in(*old(self)),
                id@,
                Seq::<CleanupId>::empty(),
            ) && cleanups_in(*final(self)) == placed(
                cleanups_in(*old(self)),
                id@,
                final(list)@,
            ),
    {
        Some(self.map.entry(id.key)?.or_default())
    }

    /// Calls `SparseSecondaryMap::remove`, which takes out the list of a node.
    #[verifier::external_body]
    pub(crate) fn remove(&mut self, id: NodeId) -> (list: Option<Vec<CleanupId>>)
        ensures
            list is Some <==> cleanups_in(*old(self)).contains_key(id@),
            list matches Some(list) ==> list@ == cleanups_in(*old(self))[id@],
            cleanups_in(*final(self)) == cleanups_in(*old(self)).remove(id@),
    {
        self.map.remove(id.key)
    }
}

/// The properties of each node: a `slotmap::SparseSecondaryMap`.
#[verifier::external_body]
pub struct NodeProperties {
    map: SparseSecondaryMap<DefaultKey, Vec<ScopeProperty>>,
}

/// The properties that are in the map.
pub uninterp spec fn properties_in(map: NodeProperties) -> Map<u64, Seq<Property>>;

impl NodeProperties {
    /// Calls `SparseSecondaryMap::new`, which makes an empty map.
    #[verifier::external_body]
    pub(crate) fn new() -> (map: Self)
        ensures
            properties_in(map) =~= Map::empty(),
    {
        NodeProperties { map: SparseSecondaryMap::new() }
    }

    /// Calls `SparseSecondaryMap::entry` and, where it offers a place,
    /// `Entry::or_default` on that, which puts an empty list there unless the
    /// node has one.
    #[verifier::external_body]
    pub(crate) fn entry_or_default(&mut self, id: NodeId) -> (list: Option<&mut Vec<ScopeProperty>>)
        ensures
            list is Some <==> offers_sparse(properties_in(*old(self)), id@),
            list is None ==> properties_in(*final(self)) == properties_in(*old(self)),
            list matches Some(list) ==> property_views(list@) == value_or(
                properties_in(*old(self)),
                id@,
                Seq::<Property>::empty(),
            ) && properties_in(*final(self)) == placed(
                properties_in(*old(self)),
                id@,
                property_views(final(list)@),
            ),
    {
        Some(self.map.entry(id.key)?.or_default())
    }

    /// Calls `SparseSecondaryMap::remove`, which takes out the list of a node.
    #[verifier::external_body]
    pub(crate) fn remove(&mut self, id: NodeId) -> (list: Option<Vec<ScopeProperty>>)
        ensures
            list is Some <==> properties_in(*old(self)).contains_key(id@),
            list matches Some(list) ==> property_views(list@) == properties_in(*old(self))[id@],
            properties_in(*final(self)) == properties_in(*old(self)).remove(id@),
    {
        self.map.remove(id.key)
    }
}

/// The context values of each node: a `slotmap::SparseSecondaryMap` of tables.
#[verifier::external_body]
pub struct NodeContexts {
    map: SparseSecondaryMap<DefaultKey, ContextTable>,
}

/// The tables that are in the map.
pub uninterp spec fn contexts_in(map: NodeContexts) -> Map<u64, Map<u64, ContextValue>>;

impl NodeContexts {
    /// Calls `SparseSecondaryMap::new`, which makes an empty map.
    #[verifier::external_body]
    pub(crate) fn new() -> (map: Self)
        ensures
            contexts_in(map) =~= Map::empty(),
    {
        NodeContexts { map: SparseSecondaryMap::new() }
    }

    /// Calls `SparseSecondaryMap::get`, which finds the table of a node.
    #[verifier::external_body]
    pub(crate) fn get(&self, id: NodeId) -> (table: Option<&ContextTable>)
        ensures
            table is Some <==> contexts_in(*self).contains_key(id@),
            table matches Some(table) ==> table@ == contexts_in(*self)[id@],
    {
        self.map.get(id.key)
    }

    /// Calls `SparseSecondaryMap::entry` and, where it offers a place,
    /// `Entry::or_default` on that, which puts an empty table there unless the
    /// node has one.
    #[verifier::external_body]
    pub(crate) fn entry_or_default(&mut self, id: NodeId) -> (table: Option<&mut ContextTable>)
        ensures
            table is Some <==> offers_sparse(contexts_in(*old(self)), id@),
            table is None ==> contexts_in(*final(self)) == contexts_in(*old(self)),
            table matches Some(table) ==> table@ == value_or(
                contexts_in(*old(self)),
                id@,
                Map::<u64, ContextValue>::empty(),
            ) && contexts_in(*final(self)) == placed(
                contexts_in(*old(self)),
                id@,
                final(table)@,
            ),
    {
        Some(self.map.entry(id.key)?.or_default())
    }
}

} // verus!
