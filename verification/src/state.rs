//! What a runtime holds, as plain data, and what its operations make of it.
use crate::node::{
    AnyResource, CleanupId, ContextValue, Property, ReactiveNode, ReactiveNodeState,
    ReactiveNodeType, TypeKey, ValueId,
};
use crate::secondary::{offers, offers_sparse, placed, takes, value_or};
use crate::sets::{inserted, swap_removed};
use crate::slots::{occupied, vacated};
use vstd::prelude::*;

verus! {

/// The contents of a runtime. Nodes, resources and stored values are known by
/// the numbers of their keys.
#[verifier::ext_equal]
pub struct RuntimeState {
    /// What owns the values that are created now.
    pub owner: Option<u64>,
    /// What subscribes to the values that are read now.
    pub observer: Option<u64>,
    /// The cleanup functions of each node, in the order of their registration.
    pub cleanups: Map<u64, Seq<CleanupId>>,
    pub stored_values: Map<u64, ValueId>,
    /// The generation that each slot for stored values has come to.
    pub stored_value_generations: Map<u64, u64>,
    pub nodes: Map<u64, ReactiveNode>,
    /// The generation that each slot for nodes has come to.
    pub generations: Map<u64, u64>,
    /// Who reads a node.
    pub subscribers: Map<u64, Seq<u64>>,
    /// What a node has read.
    pub sources: Map<u64, Seq<u64>>,
    pub owners: Map<u64, u64>,
    /// What goes when a node goes, or runs again.
    pub properties: Map<u64, Seq<Property>>,
    pub contexts: Map<u64, Map<u64, ContextValue>>,
    /// The effects that are waiting to run, in their order.
    pub pending_effects: Seq<u64>,
    pub resources: Map<u64, AnyResource>,
    /// The generation that each slot for resources has come to.
    pub resource_generations: Map<u64, u64>,
    /// Effects are being held back.
    pub batching: bool,
}

/// A map with `f` applied to the values under `keys`.
pub open spec fn changed_at<V>(map: Map<u64, V>, keys: Seq<u64>, f: spec_fn(V) -> V) -> Map<u64, V> {
    map.map_entries(
        |key: u64, value: V|
            if keys.contains(key) {
                f(value)
            } else {
                value
            },
    )
}

/// The keys can be dealt with one after the other.
pub(crate) proof fn lemma_changed_at_step<V>(
    map: Map<u64, V>,
    keys: Seq<u64>,
    f: spec_fn(V) -> V,
    i: int,
)
    requires
        keys.no_duplicates(),
        0 <= i < keys.len(),
    ensures
        map.contains_key(keys[i]) ==> {
            &&& changed_at(map, keys.take(i), f)[keys[i]] == map[keys[i]]
            &&& changed_at(map, keys.take(i + 1), f) == changed_at(map, keys.take(i), f).insert(
                keys[i],
                f(map[keys[i]]),
            )
        },
        !map.contains_key(keys[i]) ==> changed_at(map, keys.take(i + 1), f) == changed_at(
            map,
            keys.take(i),
            f,
        ),
        changed_at(map, keys.take(i), f).contains_key(keys[i]) == map.contains_key(keys[i]),
{
    let before = keys.take(i);
    let after = keys.take(i + 1);
    assert(!before.contains(keys[i]));
    assert(after =~= before.push(keys[i]));
    assert(after.contains(keys[i])) by {
        assert(after[i] == keys[i]);
    }
    assert forall|key: u64| key != keys[i] implies before.contains(key) == after.contains(key) by {
        if before.contains(key) {
            let j = before.index_of(key);
            assert(after[j] == key);
        }
        if after.contains(key) {
            let j = after.index_of(key);
            assert(before[j] == key);
        }
    }
    if map.contains_key(keys[i]) {
        assert(changed_at(map, after, f) =~= changed_at(map, before, f).insert(
            keys[i],
            f(map[keys[i]]),
        ));
    } else {
        assert(changed_at(map, after, f) =~= changed_at(map, before, f));
    }
}

/// Dealing with no key changes nothing.
pub(crate) proof fn lemma_changed_at_none<V>(map: Map<u64, V>, f: spec_fn(V) -> V)
    ensures
        changed_at(map, Seq::empty(), f) == map,
{
    assert(changed_at(map, Seq::empty(), f) =~= map);
}

/// A node that has to run again.
pub open spec fn dirtied(node: ReactiveNode) -> ReactiveNode {
    ReactiveNode { state: ReactiveNodeState::Dirty, ..node }
}

/// A node once it has been marked with `level`. Marking never lowers a state,
/// and a dirty node is noted as marked.
pub open spec fn marked(node: ReactiveNode, level: ReactiveNodeState) -> ReactiveNode {
    let state = if level.level() > node.state.level() {
        level
    } else {
        node.state
    };
    ReactiveNode {
        state: if state == ReactiveNodeState::Dirty {
            ReactiveNodeState::DirtyMarked
        } else {
            state
        },
        ..node
    }
}

/// A marked node is queued if it is an effect, other than the one that is
/// running.
pub open spec fn is_queued(id: u64, node: ReactiveNode, observer: Option<u64>) -> bool {
    node.node_type is Effect && observer != Some(id)
}

/// What a node is to its owner. A memo is disposed of like an effect.
pub open spec fn property_of(id: u64, node_type: ReactiveNodeType) -> Property {
    match node_type {
        ReactiveNodeType::Trigger => Property::Trigger(id),
        ReactiveNodeType::Signal => Property::Signal(id),
        ReactiveNodeType::Memo { f } => Property::Effect(id),
        ReactiveNodeType::Effect { f } => Property::Effect(id),
    }
}

/// The resources that are sent from the server to the client.
pub open spec fn serializable(resources: Map<u64, AnyResource>) -> Map<u64, AnyResource> {
    Map::new(
        |id: u64| resources.contains_key(id) && resources[id] is Serializable,
        |id: u64| resources[id],
    )
}

impl RuntimeState {
    /// A runtime without anything in it.
    pub open spec fn empty() -> RuntimeState {
        RuntimeState {
            owner: None,
            observer: None,
            cleanups: Map::empty(),
            stored_values: Map::empty(),
            stored_value_generations: Map::empty(),
            nodes: Map::empty(),
            generations: Map::empty(),
            subscribers: Map::empty(),
            sources: Map::empty(),
            owners: Map::empty(),
            properties: Map::empty(),
            contexts: Map::empty(),
            pending_effects: Seq::empty(),
            resources: Map::empty(),
            resource_generations: Map::empty(),
            batching: false,
        }
    }

    /// Who reads a node.
    pub open spec fn subscribers_of(self, id: u64) -> Seq<u64> {
        value_or(self.subscribers, id, Seq::empty())
    }

    /// What a node has read.
    pub open spec fn sources_of(self, id: u64) -> Seq<u64> {
        value_or(self.sources, id, Seq::empty())
    }

    /// The state of a node. One that is gone counts as clean.
    pub open spec fn state_of(self, id: u64) -> ReactiveNodeState {
        if self.nodes.contains_key(id) {
            self.nodes[id].state
        } else {
            ReactiveNodeState::Clean
        }
    }

    /// There is no such node, and no edge is recorded for it.
    pub open spec fn is_absent(self, id: u64) -> bool {
        &&& !self.nodes.contains_key(id)
        &&& !self.subscribers.contains_key(id)
        &&& !self.sources.contains_key(id)
    }

    /// The node, if it is there, in another state.
    pub open spec fn with_state(self, id: u64, state: ReactiveNodeState) -> RuntimeState {
        if self.nodes.contains_key(id) {
            RuntimeState {
                nodes: self.nodes.insert(id, ReactiveNode { state, ..self.nodes[id] }),
                ..self
            }
        } else {
            self
        }
    }

    // Marking

    /// One node of the graph marked with `level`, and queued if need be.
    pub open spec fn with_mark(self, id: u64, level: ReactiveNodeState) -> RuntimeState {
        RuntimeState {
            nodes: self.nodes.insert(id, marked(self.nodes[id], level)),
            pending_effects: if is_queued(id, self.nodes[id], self.observer) {
                self.pending_effects.push(id)
            } else {
                self.pending_effects
            },
            ..self
        }
    }

    /// Marking goes on at a node that is there and not marked yet.
    pub open spec fn is_open(self, id: u64) -> bool {
        self.nodes.contains_key(id) && !self.nodes[id].state.is_marked()
    }

    /// The nodes that are not marked yet.
    pub open spec fn open_nodes(self) -> Set<u64> {
        self.nodes.dom().filter(|id: u64| !self.nodes[id].state.is_marked())
    }

    /// The graph after the nodes of `todo`, and whatever is downstream of them,
    /// have been marked as to be checked: depth first, each node before its
    /// subscribers, and not past a node that is marked already.
    pub open spec fn visited(self, todo: Seq<u64>) -> RuntimeState
        decreases self.open_nodes().len(), todo.len(),
        when self.nodes.dom().finite()
        via Self::visited_decreases
    {
        if todo.len() == 0 {
            self
        } else if self.is_open(todo.first()) {
            self.with_mark(todo.first(), ReactiveNodeState::Check).visited(
                self.subscribers_of(todo.first()) + todo.drop_first(),
            )
        } else {
            self.visited(todo.drop_first())
        }
    }

    #[via_fn]
    proof fn visited_decreases(self, todo: Seq<u64>) {
        if todo.len() > 0 && self.is_open(todo.first()) {
            self.lemma_mark_closes(todo.first());
        }
    }

    /// Marking a node takes it out of the nodes that are not marked yet.
    pub proof fn lemma_mark_closes(self, id: u64)
        requires
            self.nodes.dom().finite(),
            self.is_open(id),
        ensures
            self.with_mark(id, ReactiveNodeState::Check).nodes.dom() == self.nodes.dom(),
            self.with_mark(id, ReactiveNodeState::Check).open_nodes() == self.open_nodes().remove(id),
            self.with_mark(id, ReactiveNodeState::Check).open_nodes().len()
                < self.open_nodes().len(),
    {
        let next = self.with_mark(id, ReactiveNodeState::Check);
        assert(next.nodes.dom() =~= self.nodes.dom());
        assert(next.open_nodes() =~= self.open_nodes().remove(id));
        assert(self.open_nodes().contains(id));
        vstd::set_lib::lemma_set_subset_finite(self.nodes.dom(), self.open_nodes());
    }

    /// The graph after a node has changed: the node is dirty and everything
    /// downstream is to be checked. Nothing happens where that is so already.
    pub open spec fn marked_dirty(self, id: u64) -> RuntimeState {
        if self.nodes.contains_key(id) && self.nodes[id].state != ReactiveNodeState::DirtyMarked {
            self.with_mark(id, ReactiveNodeState::Dirty).visited(self.subscribers_of(id))
        } else {
            self
        }
    }

    // Running

    /// A node is the owner and the observer of what happens next.
    pub open spec fn observed_by(self, id: u64) -> RuntimeState {
        RuntimeState { owner: Some(id), observer: Some(id), ..self }
    }

    /// The owner and the observer of `outer` are in place again.
    pub open spec fn observed_as(self, outer: RuntimeState) -> RuntimeState {
        RuntimeState { owner: outer.owner, observer: outer.observer, ..self }
    }

    /// A node subscribes to nothing that it has read.
    pub open spec fn unsubscribed(self, id: u64) -> RuntimeState {
        RuntimeState {
            subscribers: changed_at(
                self.subscribers,
                self.sources_of(id),
                |subscribers: Seq<u64>| swap_removed(subscribers, id),
            ),
            ..self
        }
    }

    /// Every subscriber of a node is dirty.
    pub open spec fn notified(self, id: u64) -> RuntimeState {
        RuntimeState {
            nodes: changed_at(
                self.nodes,
                self.subscribers_of(id),
                |node: ReactiveNode| dirtied(node),
            ),
            ..self
        }
    }

    /// A node has run. Its subscribers hear of it if its value has changed.
    pub open spec fn has_run(self, id: u64, changed: bool) -> RuntimeState {
        let told = if changed {
            self.notified(id)
        } else {
            self
        };
        told.with_state(id, ReactiveNodeState::Clean)
    }

    /// `id` is read: whoever observes subscribes to it.
    pub open spec fn subscribed(self, id: u64) -> RuntimeState {
        match self.observer {
            Some(observer) => RuntimeState {
                subscribers: if offers(self.subscribers, id) {
                    placed(
                        self.subscribers,
                        id,
                        inserted(self.subscribers_of(id), observer),
                    )
                } else {
                    self.subscribers
                },
                sources: if offers(self.sources, observer) {
                    placed(self.sources, observer, inserted(self.sources_of(observer), id))
                } else {
                    self.sources
                },
                ..self
            },
            None => self,
        }
    }

    // Ownership

    /// A property belongs to the current owner, if there is one.
    pub open spec fn registered(self, property: Property) -> RuntimeState {
        match self.owner {
            Some(owner) => RuntimeState {
                properties: if offers_sparse(self.properties, owner) {
                    placed(
                        self.properties,
                        owner,
                        value_or(self.properties, owner, Seq::empty()).push(property),
                    )
                } else {
                    self.properties
                },
                owners: match property.node() {
                    Some(node) => if takes(self.owners, node) {
                        placed(self.owners, node, owner)
                    } else {
                        self.owners
                    },
                    None => self.owners,
                },
                ..self
            },
            None => self,
        }
    }

    /// A cleanup function belongs to the current owner, if there is one.
    pub open spec fn with_cleanup(self, cleanup: CleanupId) -> RuntimeState {
        match self.owner {
            Some(owner) => if offers_sparse(self.cleanups, owner) {
                RuntimeState {
                    cleanups: placed(
                        self.cleanups,
                        owner,
                        value_or(self.cleanups, owner, Seq::empty()).push(cleanup),
                    ),
                    ..self
                }
            } else {
                self
            },
            None => self,
        }
    }

    /// The current owner, if there is one, provides a context value.
    pub open spec fn with_context(self, ty: TypeKey, value: ContextValue) -> RuntimeState {
        match self.owner {
            Some(owner) => if offers_sparse(self.contexts, owner) {
                RuntimeState {
                    contexts: placed(
                        self.contexts,
                        owner,
                        value_or(self.contexts, owner, Map::empty()).insert(ty.0, value),
                    ),
                    ..self
                }
            } else {
                self
            },
            None => self,
        }
    }

    /// The node is out of the graph, and no subscriber of it counts it among
    /// its sources any more.
    pub open spec fn detached(self, id: u64) -> RuntimeState {
        RuntimeState {
            subscribers: self.subscribers.remove(id),
            sources: changed_at(
                self.sources,
                self.subscribers_of(id),
                |sources: Seq<u64>| swap_removed(sources, id),
            ).remove(id),
            nodes: self.nodes.remove(id),
            generations: vacated(self.nodes, self.generations, id),
            ..self
        }
    }

    /// The node and its edges are forgotten.
    pub open spec fn without_node(self, id: u64) -> RuntimeState {
        RuntimeState {
            subscribers: self.subscribers.remove(id),
            sources: self.sources.remove(id),
            nodes: self.nodes.remove(id),
            generations: vacated(self.nodes, self.generations, id),
            ..self
        }
    }

    // Creation

    /// A new node, which is a property of the current owner.
    pub open spec fn with_node(self, id: u64, node: ReactiveNode) -> RuntimeState {
        RuntimeState {
            nodes: self.nodes.insert(id, node),
            generations: occupied(self.generations, id),
            ..self
        }.registered(property_of(id, node.node_type))
    }

    /// A new stored value, which is a property of the current owner.
    pub open spec fn with_stored_value(self, id: u64, value: ValueId) -> RuntimeState {
        RuntimeState {
            stored_values: self.stored_values.insert(id, value),
            stored_value_generations: occupied(self.stored_value_generations, id),
            ..self
        }.registered(Property::StoredValue(id))
    }

    /// The stored value, if it is there, is disposed of.
    pub open spec fn without_stored_value(self, id: u64) -> RuntimeState {
        RuntimeState {
            stored_values: self.stored_values.remove(id),
            stored_value_generations: vacated(
                self.stored_values,
                self.stored_value_generations,
                id,
            ),
            ..self
        }
    }

    /// A new resource.
    pub open spec fn with_resource(self, id: u64, resource: AnyResource) -> RuntimeState {
        RuntimeState {
            resources: self.resources.insert(id, resource),
            resource_generations: occupied(self.resource_generations, id),
            ..self
        }
    }

    /// The resource, if it is there, is disposed of.
    pub open spec fn without_resource(self, id: u64) -> RuntimeState {
        RuntimeState {
            resources: self.resources.remove(id),
            resource_generations: vacated(self.resources, self.resource_generations, id),
            ..self
        }
    }

    // Contexts

    /// The owner of a node's owner, and so on, `steps` times over.
    pub open spec fn ancestor(self, id: u64, steps: nat) -> Option<u64>
        decreases steps,
    {
        if steps == 0 {
            Some(id)
        } else {
            match self.ancestor(id, (steps - 1) as nat) {
                Some(node) => self.owners.get(node),
                None => None,
            }
        }
    }

    /// What a node itself provides under `ty`, if it is of type `target`.
    pub open spec fn local_context(self, id: u64, ty: TypeKey, target: TypeKey) -> Option<ValueId> {
        if self.contexts.contains_key(id) && self.contexts[id].contains_key(ty.0)
            && self.contexts[id][ty.0].ty == target {
            Some(self.contexts[id][ty.0].value)
        } else {
            None
        }
    }

    /// What the ancestor `steps` above a node provides.
    pub open spec fn context_above(
        self,
        id: u64,
        ty: TypeKey,
        target: TypeKey,
        steps: nat,
    ) -> Option<ValueId> {
        match self.ancestor(id, steps) {
            Some(node) => self.local_context(node, ty, target),
            None => None,
        }
    }

    /// `value` is what the nearest ancestor of a node provides, counting the
    /// node itself, or nothing where none of them provides anything.
    pub open spec fn finds_context(
        self,
        id: u64,
        ty: TypeKey,
        target: TypeKey,
        value: Option<ValueId>,
    ) -> bool {
        match value {
            Some(_) => exists|steps: nat| #[trigger]
                self.context_above(id, ty, target, steps) == value && forall|fewer: nat|
                    fewer < steps ==> #[trigger] self.context_above(id, ty, target, fewer) is None,
            None => forall|steps: nat| #[trigger]
                self.context_above(id, ty, target, steps) is None,
        }
    }
}

} // verus!
