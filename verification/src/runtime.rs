//! The runtime: the data structure that owns all the signals, memos, effects
//! and other data of a reactive system.
use crate::keys::{slot_of, NodeId, ResourceId, StoredValueId};
use crate::node::{
    node_view, node_views, AnyResource, ReactiveNode, ReactiveNodeState, ReactiveNodeType,
    ResourceError, ResourceHandle, ScopeProperty, TypeKey, ValueId,
};
use crate::secondary::{
    cleanups_in, contexts_in, edges_in, owners_in, properties_in, NodeCleanups, NodeContexts,
    NodeEdges, NodeOwners, NodeProperties,
};
use crate::slots::{
    is_new_key, lists_keys, node_generations, nodes_in, resource_generations, resources_in,
    stored_value_generations, stored_values_in, NodeSlots, ResourceSlots, StoredValueSlots,
    CAPACITY,
};
use crate::state::{serializable, RuntimeState};
use vstd::prelude::*;

verus! {

/// A reactive system.
pub struct Runtime {
    pub owner: Option<NodeId>,
    pub observer: Option<NodeId>,
    pub on_cleanups: NodeCleanups,
    pub stored_values: StoredValueSlots,
    pub nodes: NodeSlots,
    pub node_subscribers: NodeEdges,
    pub node_sources: NodeEdges,
    pub node_owners: NodeOwners,
    pub node_properties: NodeProperties,
    pub contexts: NodeContexts,
    pub pending_effects: Vec<NodeId>,
    pub resources: ResourceSlots,
    pub batching: bool,
}

impl View for Runtime {
    type V = RuntimeState;

    open spec fn view(&self) -> RuntimeState {
        RuntimeState {
            owner: node_view(self.owner),
            observer: node_view(self.observer),
            cleanups: cleanups_in(self.on_cleanups),
            stored_values: stored_values_in(self.stored_values),
            stored_value_generations: stored_value_generations(self.stored_values),
            nodes: nodes_in(self.nodes),
            generations: node_generations(self.nodes),
            subscribers: edges_in(self.node_subscribers),
            sources: edges_in(self.node_sources),
            owners: owners_in(self.node_owners),
            properties: properties_in(self.node_properties),
            contexts: contexts_in(self.contexts),
            pending_effects: node_views(self.pending_effects@),
            resources: resources_in(self.resources),
            resource_generations: resource_generations(self.resources),
            batching: self.batching,
        }
    }
}

/// `some` are those of the first `n` keys that `wanted` has, at the places
/// `picked`, in their order.
spec fn picks<V>(
    all: Seq<ResourceId>,
    wanted: Map<u64, V>,
    n: int,
    picked: Seq<int>,
    some: Seq<ResourceId>,
) -> bool {
    &&& picked.len() == some.len()
    &&& forall|k: int|
        #![trigger picked[k]]
        0 <= k < picked.len() ==> 0 <= picked[k] < n && some[k] == all[picked[k]]
            && wanted.contains_key(all[picked[k]]@)
    &&& forall|k: int, l: int|
        #![trigger picked[k], picked[l]]
        0 <= k < l < picked.len() ==> picked[k] < picked[l]
    &&& forall|j: int|
        #![trigger picked.contains(j)]
        0 <= j < n && wanted.contains_key(all[j]@) ==> picked.contains(j)
}

proof fn lemma_picks_step(
    all: Seq<ResourceId>,
    resources: Map<u64, AnyResource>,
    n: int,
    picked: Seq<int>,
    some: Seq<ResourceId>,
)
    requires
        0 <= n < all.len(),
        picks(all, serializable(resources), n, picked, some),
    ensures
        serializable(resources).contains_key(all[n]@) ==> picks(
            all,
            serializable(resources),
            n + 1,
            picked.push(n),
            some.push(all[n]),
        ),
        !serializable(resources).contains_key(all[n]@) ==> picks(
            all,
            serializable(resources),
            n + 1,
            picked,
            some,
        ),
{
    let wanted = serializable(resources);
    assert forall|j: int|
        #![trigger picked.push(n).contains(j)]
        0 <= j < n + 1 && wanted.contains_key(all[j]@) implies picked.push(n).contains(j) by {
        if j == n {
            assert(picked.push(n).last() == j);
        } else {
            assert(picked.contains(j));
            let k = picked.index_of(j);
            assert(picked.push(n)[k] == j);
        }
    }
}

/// Picking from a list of all the keys makes a list of those that are wanted.
proof fn lemma_picks_all(
    all: Seq<ResourceId>,
    resources: Map<u64, AnyResource>,
    picked: Seq<int>,
    some: Seq<ResourceId>,
)
    requires
        lists_keys(all, resources),
        picks(all, serializable(resources), all.len() as int, picked, some),
    ensures
        lists_keys(some, serializable(resources)),
{
    let wanted = serializable(resources);
    assert forall|k: int| #![trigger some[k]] 0 <= k < some.len() implies wanted.contains_key(
        some[k]@,
    ) by {
        assert(0 <= picked[k] < all.len());
    }
    assert forall|key: u64| #[trigger] wanted.contains_key(key) implies exists|k: int|
        0 <= k < some.len() && (#[trigger] some[k])@ == key by {
        assert(resources.contains_key(key));
        let j = choose|j: int| 0 <= j < all.len() && (#[trigger] all[j])@ == key;
        assert(picked.contains(j));
        let k = picked.index_of(j);
        assert(some[k] == all[picked[k]]);
    }
    assert forall|k: int, l: int|
        #![trigger some[k], some[l]]
        0 <= k < l < some.len() implies slot_of(some[k]@) < slot_of(some[l]@) by {
        assert(picked[k] < picked[l]);
        assert(some[k] == all[picked[k]] && some[l] == all[picked[l]]);
    }
}

impl Runtime {
    /// Creates a runtime without anything in it.
    pub fn new() -> (runtime: Self)
        ensures
            runtime@ == RuntimeState::empty(),
    {
        let runtime = Runtime {
            owner: None,
            observer: None,
            on_cleanups: NodeCleanups::new(),
            stored_values: StoredValueSlots::new(),
            nodes: NodeSlots::new(),
            node_subscribers: NodeEdges::new(),
            node_sources: NodeEdges::new(),
            node_owners: NodeOwners::new(),
            node_properties: NodeProperties::new(),
            contexts: NodeContexts::new(),
            pending_effects: Vec::new(),
            resources: ResourceSlots::new(),
            batching: false,
        };
        assert(runtime@ =~= RuntimeState::empty());
        runtime
    }

    /// The state of a node. One that is gone counts as clean.
    pub fn current_state(&self, node: NodeId) -> (state: ReactiveNodeState)
        ensures
            state == self@.state_of(node@),
    {
        match self.nodes.get(node) {
            None => ReactiveNodeState::Clean,
            Some(node) => node.state,
        }
    }

    /// Marks a node as up to date.
    pub fn mark_clean(&mut self, node: NodeId)
        ensures
            final(self)@ == old(self)@.with_state(node@, ReactiveNodeState::Clean),
    {
        if let Some(node) = self.nodes.get_mut(node) {
            node.state = ReactiveNodeState::Clean;
        }
    }

    /// The number of nodes.
    pub fn node_count(&self) -> (count: usize)
        ensures
            self@.nodes.dom().finite(),
            count == self@.nodes.len(),
    {
        self.nodes.len()
    }

    /// Puts a new node into the graph, as a property of the current owner.
    pub(crate) fn add_node(&mut self, node: ReactiveNode) -> (id: NodeId)
        requires
            old(self)@.nodes.len() < CAPACITY,
        ensures
            is_new_key(old(self)@.nodes, old(self)@.generations, id@),
            final(self)@ == old(self)@.with_node(id@, node),
    {
        let id = self.nodes.insert(node);
        self.push_scope_property(
            match node.node_type {
                ReactiveNodeType::Trigger => ScopeProperty::Trigger(id),
                ReactiveNodeType::Signal => ScopeProperty::Signal(id),
                ReactiveNodeType::Memo { f: _ } => ScopeProperty::Effect(id),
                ReactiveNodeType::Effect { f: _ } => ScopeProperty::Effect(id),
            },
        );
        id
    }

    /// Is there such a node, and does it have a value?
    pub fn has_value(&self, node_id: NodeId) -> (r: bool)
        ensures
            r == (self@.nodes.contains_key(node_id@) && self@.nodes[node_id@].value is Some),
    {
        match self.nodes.get(node_id) {
            Some(node) => node.value.is_some(),
            None => false,
        }
    }

    /// The value of a node. A trigger has none, so it must not be asked for it.
    pub fn get_value(&self, node_id: NodeId) -> (value: Option<ValueId>)
        requires
            self@.nodes.contains_key(node_id@) ==> self@.nodes[node_id@].value is Some,
        ensures
            value == (if self@.nodes.contains_key(node_id@) {
                self@.nodes[node_id@].value
            } else {
                None
            }),
    {
        match self.nodes.get(node_id) {
            Some(node) => node.value,
            None => None,
        }
    }

    /// The number of stored values.
    pub fn stored_value_count(&self) -> (count: usize)
        ensures
            self@.stored_values.dom().finite(),
            count == self@.stored_values.len(),
    {
        self.stored_values.len()
    }

    /// Stores a value that is not reactive, as a property of the current owner.
    pub fn create_stored_value(&mut self, value: ValueId) -> (id: StoredValueId)
        requires
            old(self)@.stored_values.len() < CAPACITY,
        ensures
            is_new_key(
                old(self)@.stored_values,
                old(self)@.stored_value_generations,
                id@,
            ),
            final(self)@ == old(self)@.with_stored_value(id@, value),
    {
        let id = self.stored_values.insert(value);
        self.push_scope_property(ScopeProperty::StoredValue(id));
        id
    }

    /// A stored value, until it is disposed of.
    pub fn stored_value(&self, id: StoredValueId) -> (value: Option<ValueId>)
        ensures
            value == self@.stored_values.get(id@),
    {
        self.stored_values.get(id)
    }

    /// The number of resources.
    pub fn resource_count(&self) -> (count: usize)
        ensures
            self@.resources.dom().finite(),
            count == self@.resources.len(),
    {
        self.resources.len()
    }

    /// Adds a resource that stays where it is loaded.
    pub fn create_unserializable_resource(&mut self, state: ResourceHandle) -> (id: ResourceId)
        requires
            old(self)@.resources.len() < CAPACITY,
        ensures
            is_new_key(old(self)@.resources, old(self)@.resource_generations, id@),
            final(self)@ == old(self)@.with_resource(id@, AnyResource::Unserializable(state)),
    {
        self.resources.insert(AnyResource::Unserializable(state))
    }

    /// Adds a resource that is sent from the server to the client.
    pub fn create_serializable_resource(&mut self, state: ResourceHandle) -> (id: ResourceId)
        requires
            old(self)@.resources.len() < CAPACITY,
        ensures
            is_new_key(old(self)@.resources, old(self)@.resource_generations, id@),
            final(self)@ == old(self)@.with_resource(id@, AnyResource::Serializable(state)),
    {
        self.resources.insert(AnyResource::Serializable(state))
    }

    /// The state of a resource, if there is such a resource and its state is of
    /// type `ty`.
    pub fn find_resource(&self, id: ResourceId, ty: TypeKey) -> (state: Result<
        ResourceHandle,
        ResourceError,
    >)
        ensures
            match state {
                Ok(handle) => self@.resources.contains_key(id@) && handle
                    == self@.resources[id@].handle() && handle.ty == ty,
                Err(ResourceError::NotFound) => !self@.resources.contains_key(id@),
                Err(ResourceError::WrongType) => self@.resources.contains_key(id@)
                    && self@.resources[id@].handle().ty != ty,
            },
    {
        match self.resources.get(id) {
            Some(resource) => {
                let handle = match resource {
                    AnyResource::Unserializable(handle) => handle,
                    AnyResource::Serializable(handle) => handle,
                };
                if handle.ty == ty {
                    Ok(handle)
                } else {
                    Err(ResourceError::WrongType)
                }
            },
            None => Err(ResourceError::NotFound),
        }
    }

    /// Lets `f` look at the state of a resource, which must be of type `ty`.
    pub fn resource<U>(
        &self,
        id: ResourceId,
        ty: TypeKey,
        f: impl FnOnce(&ResourceHandle) -> U,
    ) -> (result: U)
        requires
            self@.resources.contains_key(id@),
            self@.resources[id@].handle().ty == ty,
            f.requires((&self@.resources[id@].handle(),)),
        ensures
            f.ensures((&self@.resources[id@].handle(),), result),
    {
        match self.find_resource(id, ty) {
            Ok(handle) => f(&handle),
            Err(_) => vstd::pervasive::unreached(),
        }
    }

    /// All resources, in the order of their slots.
    pub fn all_resources(&self) -> (ids: Vec<ResourceId>)
        ensures
            lists_keys(ids@, self@.resources),
            forall|i: int|
                #![trigger ids@[i]]
                0 <= i < ids.len() ==> self@.resources.contains_key(ids@[i]@),
            forall|key: u64| #[trigger]
                self@.resources.contains_key(key) ==> exists|i: int|
                    0 <= i < ids.len() && (#[trigger] ids@[i])@ == key,
            forall|i: int, j: int|
                #![trigger ids@[i], ids@[j]]
                0 <= i < j < ids.len() ==> slot_of(ids@[i]@) < slot_of(ids@[j]@),
    {
        self.resources.keys()
    }

    /// The resources that are sent from the server to the client, in the order
    /// of their slots.
    pub fn pending_resources(&self) -> (ids: Vec<ResourceId>)
        ensures
            lists_keys(ids@, serializable(self@.resources)),
            forall|i: int|
                #![trigger ids@[i]]
                0 <= i < ids.len() ==> self@.resources.contains_key(ids@[i]@)
                    && self@.resources[ids@[i]@] is Serializable,
            forall|key: u64| #[trigger]
                self@.resources.contains_key(key) && self@.resources[key] is Serializable ==> exists|i: int|
                    0 <= i < ids.len() && (#[trigger] ids@[i])@ == key,
            forall|i: int, j: int|
                #![trigger ids@[i], ids@[j]]
                0 <= i < j < ids.len() ==> slot_of(ids@[i]@) < slot_of(ids@[j]@),
    {
        let all = self.resources.keys();
        let mut pending: Vec<ResourceId> = Vec::new();
        let ghost mut picked: Seq<int> = Seq::empty();
        let mut i: usize = 0;
        while i < all.len()
            invariant
                i <= all.len(),
                lists_keys(all@, self@.resources),
                picks(all@, serializable(self@.resources), i as int, picked, pending@),
            decreases all.len() - i,
        {
            let id = all[i];
            let ghost before = (picked, pending@);
            if let Some(AnyResource::Serializable(_)) = self.resources.get(id) {
                pending.push(id);
                proof {
                    picked = picked.push(i as int);
                }
            }
            proof {
                lemma_picks_step(all@, self@.resources, i as int, before.0, before.1);
            }
            i += 1;
        }
        proof {
            lemma_picks_all(all@, self@.resources, picked, pending@);
            assert forall|key: u64| #[trigger]
                self@.resources.contains_key(key)
                    && self@.resources[key] is Serializable implies exists|i: int|
                0 <= i < pending.len() && (#[trigger] pending@[i])@ == key by {
                assert(serializable(self@.resources).contains_key(key));
            }
        }
        pending
    }

    /// What has to be resolved before the resources can be sent from the server
    /// to the client: those of [`Runtime::pending_resources`], each with its
    /// state.
    pub fn serialization_resolvers(&self) -> (resolvers: Vec<(ResourceId, ResourceHandle)>)
        ensures
            lists_keys(
                resolvers@.map_values(|resolver: (ResourceId, ResourceHandle)| resolver.0),
                serializable(self@.resources),
            ),
            forall|i: int|
                #![trigger resolvers@[i]]
                0 <= i < resolvers.len() ==> self@.resources[resolvers@[i].0@]
                    == AnyResource::Serializable(resolvers@[i].1),
            forall|i: int|
                #![trigger resolvers@[i]]
                0 <= i < resolvers.len() ==> self@.resources.contains_key(resolvers@[i].0@)
                    && self@.resources[resolvers@[i].0@] == AnyResource::Serializable(resolvers@[i].1),
            forall|key: u64| #[trigger]
                self@.resources.contains_key(key) && self@.resources[key] is Serializable ==> exists|i: int|
                    0 <= i < resolvers.len() && (#[trigger] resolvers@[i]).0@ == key,
            forall|i: int, j: int|
                #![trigger resolvers@[i], resolvers@[j]]
                0 <= i < j < resolvers.len() ==> slot_of(resolvers@[i].0@) < slot_of(resolvers@[j].0@),
    {
        let ids = self.pending_resources();
        let mut resolvers: Vec<(ResourceId, ResourceHandle)> = Vec::new();
        let ghost id_of = |resolver: (ResourceId, ResourceHandle)| resolver.0;
        let mut i: usize = 0;
        while i < ids.len()
            invariant
                i <= ids.len(),
                id_of == |resolver: (ResourceId, ResourceHandle)| resolver.0,
                lists_keys(ids@, serializable(self@.resources)),
                resolvers@.map_values(id_of) == ids@.take(i as int),
                forall|k: int|
                    #![trigger resolvers@[k]]
                    0 <= k < resolvers.len() ==> self@.resources[resolvers@[k].0@]
                        == AnyResource::Serializable(resolvers@[k].1),
            decreases ids.len() - i,
        {
            let id = ids[i];
            assert(serializable(self@.resources).contains_key(ids@[i as int]@));
            let ghost before = resolvers@;
            if let Some(AnyResource::Serializable(handle)) = self.resources.get(id) {
                resolvers.push((id, handle));
                assert(resolvers@.map_values(id_of) =~= before.map_values(id_of).push(id));
            }
            assert(ids@.take(i + 1) =~= ids@.take(i as int).push(id));
            i += 1;
        }
        assert(ids@.take(i as int) =~= ids@);
        proof {
            assert(resolvers.len() == ids.len());
            assert forall|k: int|
                #![trigger resolvers@[k]]
                0 <= k < resolvers.len() implies resolvers@[k].0 == ids@[k] by {
                assert(resolvers@.map_values(id_of)[k] == ids@[k]);
            }
            assert forall|key: u64| #[trigger]
                self@.resources.contains_key(key)
                    && self@.resources[key] is Serializable implies exists|k: int|
                0 <= k < resolvers.len() && (#[trigger] resolvers@[k]).0@ == key by {
                let k = choose|k: int| 0 <= k < ids.len() && (#[trigger] ids@[k])@ == key;
                assert(resolvers@[k].0@ == key);
            }
        }
        resolvers
    }
}

} // verus!
