//! The primary slot maps of `slotmap`.
//!
//! A slot map hands out a new key for every value that is put in. The contents
//! of a map are stated as a map from the numbers of its keys.
use crate::keys::{generation_of, is_null, slot_of, HALF, NodeId, ResourceId, StoredValueId};
use crate::node::{AnyResource, ReactiveNode, ValueId};
use slotmap::{DefaultKey, SlotMap};
use vstd::prelude::*;

verus! {

/// How many values a slot map can hold.
pub const CAPACITY: u64 = 0xffff_fffe;

/// May a slot map with these contents hand out `key`? The key is not null, and
/// nothing in the map has the same slot. A slot that was never used starts with
/// the first generation, and one that was used goes on counting.
pub open spec fn is_new_key<V>(
    contents: Map<u64, V>,
    generations: Map<u64, u64>,
    key: u64,
) -> bool {
    &&& !is_null(key)
    &&& forall|other: u64| #[trigger]
        contents.contains_key(other) ==> slot_of(other) != slot_of(key)
    &&& generation_of(key) == if generations.contains_key(slot_of(key)) {
        generations[slot_of(key)] + 1
    } else {
        1
    }
}

/// The generations of the slots after `key` was handed out.
pub open spec fn occupied(generations: Map<u64, u64>, key: u64) -> Map<u64, u64> {
    generations.insert(slot_of(key), generation_of(key))
}

/// The generations of the slots after the value under `key`, if there is one,
/// was taken out: its slot counts on, around the circle of 32-bit numbers.
pub open spec fn vacated<V>(
    contents: Map<u64, V>,
    generations: Map<u64, u64>,
    key: u64,
) -> Map<u64, u64> {
    if contents.contains_key(key) {
        generations.insert(slot_of(key), ((generation_of(key) + 1) % (HALF as int)) as u64)
    } else {
        generations
    }
}

/// A map holds finitely many values, and `len` is their number.
pub open spec fn counts<V>(len: usize, contents: Map<u64, V>) -> bool {
    contents.dom().finite() && len == contents.len()
}

/// The nodes of a graph: a `slotmap::SlotMap`.
#[verifier::external_body]
pub struct NodeSlots {
    map: SlotMap<DefaultKey, ReactiveNode>,
}

/// The nodes that are in the map.
pub uninterp spec fn nodes_in(map: NodeSlots) -> Map<u64, ReactiveNode>;

/// The generation that each slot of the map has come to. It is odd while the
/// slot is occupied and even while it is vacant.
pub uninterp spec fn node_generations(map: NodeSlots) -> Map<u64, u64>;

impl NodeSlots {
    /// Calls `SlotMap::new`, which makes an empty map.
    #[verifier::external_body]
    pub(crate) fn new() -> (map: Self)
        ensures
            nodes_in(map) =~= Map::empty(),
            node_generations(map) =~= Map::empty(),
    {
        NodeSlots { map: SlotMap::new() }
    }

    /// Calls `SlotMap::len`, which counts the values. There are finitely many.
    #[verifier::external_body]
    pub(crate) fn len(&self) -> (len: usize)
        ensures
            counts(len, nodes_in(*self)),
    {
        self.map.len()
    }

    /// Calls `SlotMap::insert`, which stores a value under a key that it picks: a
    /// vacant slot with its next generation, or a new slot with the first. It
    /// panics on a full map.
    #[verifier::external_body]
    pub(crate) fn insert(&mut self, node: ReactiveNode) -> (id: NodeId)
        requires
            nodes_in(*old(self)).len() < CAPACITY,
        ensures
            is_new_key(nodes_in(*old(self)), node_generations(*old(self)), id@),
            node_generations(*final(self)) == occupied(node_generations(*old(self)), id@),
            nodes_in(*final(self)) == nodes_in(*old(self)).insert(id@, node),
    {
        NodeId { key: self.map.insert(node) }
    }

    /// Calls `SlotMap::get`, which finds the value under a key. What holds the
    /// value has finitely many.
    #[verifier::external_body]
    pub(crate) fn get(&self, id: NodeId) -> (node: Option<ReactiveNode>)
        ensures
            node is Some <==> nodes_in(*self).contains_key(id@),
            node matches Some(node) ==> node == nodes_in(*self)[id@] && nodes_in(
                *self,
            ).dom().finite(),
    {
        self.map.get(id.key).copied()
    }

    /// Calls `SlotMap::get_mut`, which lends out the value under a key.
    #[verifier::external_body]
    pub(crate) fn get_mut(&mut self, id: NodeId) -> (node: Option<&mut ReactiveNode>)
        ensures
            node is Some <==> nodes_in(*old(self)).contains_key(id@),
            node is None ==> nodes_in(*final(self)) == nodes_in(*old(self)),
            node_generations(*final(self)) == node_generations(*old(self)),
            node matches Some(node) ==> *node == nodes_in(*old(self))[id@] && nodes_in(*final(self))
                == nodes_in(*old(self)).insert(id@, *final(node)),
    {
        self.map.get_mut(id.key)
    }

    /// Calls `SlotMap::remove`, which takes out the value under a key, if any, and
    /// then counts the generation of the slot up.
    #[verifier::external_body]
    pub(crate) fn remove(&mut self, id: NodeId)
        ensures
            nodes_in(*final(self)) == nodes_in(*old(self)).remove(id@),
            node_generations(*final(self)) == vacated(
                nodes_in(*old(self)),
                node_generations(*old(self)),
                id@,
            ),
    {
        self.map.remove(id.key);
    }
}

/// The resources of a runtime: a `slotmap::SlotMap`.
#[verifier::external_body]
pub struct ResourceSlots {
    map: SlotMap<DefaultKey, AnyResource>,
}

/// The resources that are in the map.
pub uninterp spec fn resources_in(map: ResourceSlots) -> Map<u64, AnyResource>;

/// The generation that each slot of the map has come to. It is odd while the
/// slot is occupied and even while it is vacant.
pub uninterp spec fn resource_generations(map: ResourceSlots) -> Map<u64, u64>;

/// The keys of a map in the order of their slots, each once.
pub open spec fn lists_keys<V>(keys: Seq<ResourceId>, contents: Map<u64, V>) -> bool {
    &&& forall|i: int|
        #![trigger keys[i]]
        0 <= i < keys.len() ==> contents.contains_key(keys[i]@)
    &&& forall|key: u64| #[trigger]
        contents.contains_key(key) ==> exists|i: int|
            0 <= i < keys.len() && (#[trigger] keys[i])@ == key
    &&& forall|i: int, j: int|
        #![trigger keys[i], keys[j]]
        0 <= i < j < keys.len() ==> slot_of(keys[i]@) < slot_of(keys[j]@)
}

impl ResourceSlots {
    /// Calls `SlotMap::new`, which makes an empty map.
    #[verifier::external_body]
    pub(crate) fn new() -> (map: Self)
        ensures
            resources_in(map) =~= Map::empty(),
            resource_generations(map) =~= Map::empty(),
    {
        ResourceSlots { map: SlotMap::new() }
    }

    /// Calls `SlotMap::len`, which counts the values. There are finitely many.
    #[verifier::external_body]
    pub(crate) fn len(&self) -> (len: usize)
        ensures
            counts(len, resources_in(*self)),
    {
        self.map.len()
    }

    /// Calls `SlotMap::insert`, which stores a value under a key that it picks: a
    /// vacant slot with its next generation, or a new slot with the first. It
    /// panics on a full map.
    #[verifier::external_body]
    pub(crate) fn insert(&mut self, resource: AnyResource) -> (id: ResourceId)
        requires
            resources_in(*old(self)).len() < CAPACITY,
        ensures
            is_new_key(resources_in(*old(self)), resource_generations(*old(self)), id@),
            resource_generations(*final(self)) == occupied(resource_generations(*old(self)), id@),
            resources_in(*final(self)) == resources_in(*old(self)).insert(id@, resource),
    {
        ResourceId { key: self.map.insert(resource) }
    }

    /// Calls `SlotMap::get`, which finds the value under a key.
    #[verifier::external_body]
    pub(crate) fn get(&self, id: ResourceId) -> (resource: Option<AnyResource>)
        ensures
            resource is Some <==> resources_in(*self).contains_key(id@),
            resource matches Some(resource) ==> resource == resources_in(*self)[id@],
    {
        self.map.get(id.key).copied()
    }

    /// Calls `SlotMap::remove`, which takes out the value under a key, if any, and
    /// then counts the generation of the slot up.
    #[verifier::external_body]
    pub(crate) fn remove(&mut self, id: ResourceId)
        ensures
            resources_in(*final(self)) == resources_in(*old(self)).remove(id@),
            resource_generations(*final(self)) == vacated(
                resources_in(*old(self)),
                resource_generations(*old(self)),
                id@,
            ),
    {
        self.map.remove(id.key);
    }

    /// Calls `SlotMap::keys`, which walks the slots in ascending order and
    /// yields the key of each one that is occupied.
    #[verifier::external_body]
    pub(crate) fn keys(&self) -> (keys: Vec<ResourceId>)
        ensures
            lists_keys(keys@, resources_in(*self)),
    {
        self.map.keys().map(|key| ResourceId { key }).collect()
    }
}

/// The stored values of a runtime: a `slotmap::SlotMap`.
#[verifier::external_body]
pub struct StoredValueSlots {
    map: SlotMap<DefaultKey, ValueId>,
}

/// The stored values that are in the map.
pub uninterp spec fn stored_values_in(map: StoredValueSlots) -> Map<u64, ValueId>;

/// The generation that each slot of the map has come to. It is odd while the
/// slot is occupied and even while it is vacant.
pub uninterp spec fn stored_value_generations(map: StoredValueSlots) -> Map<u64, u64>;

impl StoredValueSlots {
    /// Calls `SlotMap::new`, which makes an empty map.
    #[verifier::external_body]
    pub(crate) fn new() -> (map: Self)
        ensures
            stored_values_in(map) =~= Map::empty(),
            stored_value_generations(map) =~= Map::empty(),
    {
        StoredValueSlots { map: SlotMap::new() }
    }

    /// Calls `SlotMap::len`, which counts the values. There are finitely many.
    #[verifier::external_body]
    pub(crate) fn len(&self) -> (len: usize)
        ensures
            counts(len, stored_values_in(*self)),
    {
        self.map.len()
    }

    /// Calls `SlotMap::insert`, which stores a value under a key that it picks: a
    /// vacant slot with its next generation, or a new slot with the first. It
    /// panics on a full map.
    #[verifier::external_body]
    pub(crate) fn insert(&mut self, value: ValueId) -> (id: StoredValueId)
        requires
            stored_values_in(*old(self)).len() < CAPACITY,
        ensures
            is_new_key(stored_values_in(*old(self)), stored_value_generations(*old(self)), id@),
            stored_value_generations(*final(self)) == occupied(stored_value_generations(*old(self)), id@),
            stored_values_in(*final(self)) == stored_values_in(*old(self)).insert(id@, value),
    {
        StoredValueId { key: self.map.insert(value) }
    }

    /// Calls `SlotMap::get`, which finds the value under a key.
    #[verifier::external_body]
    pub(crate) fn get(&self, id: StoredValueId) -> (value: Option<ValueId>)
        ensures
            value is Some <==> stored_values_in(*self).contains_key(id@),
            value matches Some(value) ==> value == stored_values_in(*self)[id@],
    {
        self.map.get(id.key).copied()
    }

    /// Calls `SlotMap::remove`, which takes out the value under a key, if any, and
    /// then counts the generation of the slot up.
    #[verifier::external_body]
    pub(crate) fn remove(&mut self, id: StoredValueId)
        ensures
            stored_values_in(*final(self)) == stored_values_in(*old(self)).remove(id@),
            stored_value_generations(*final(self)) == vacated(
                stored_values_in(*old(self)),
                stored_value_generations(*old(self)),
                id@,
            ),
    {
        self.map.remove(id.key);
    }
}

} // verus!
