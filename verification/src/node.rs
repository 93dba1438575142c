//! What the graph is made of: nodes, scope properties, resources and context
//! values, with the numbers that stand for what the embedding program holds.
use crate::keys::{NodeId, ResourceId, StoredValueId};
use vstd::prelude::*;

verus! {

/// A value held by the embedding program.
#[derive(Clone, Copy, Debug, PartialEq, Eq, Hash, Structural)]
pub struct ValueId(pub u64);

/// The function of a memo or an effect, held by the embedding program.
#[derive(Clone, Copy, Debug, PartialEq, Eq, Hash, Structural)]
pub struct ComputationId(pub u64);

/// A cleanup function held by the embedding program.
#[derive(Clone, Copy, Debug, PartialEq, Eq, Hash, Structural)]
pub struct CleanupId(pub u64);

/// A type of the embedding program.
#[derive(Clone, Copy, Debug, PartialEq, Eq, Hash, Structural)]
pub struct TypeKey(pub u64);

/// How far a node is from being up to date. Each state outranks the one before.
#[derive(Clone, Copy, Debug, PartialEq, Eq, Hash, Structural)]
pub enum ReactiveNodeState {
    /// Up to date.
    Clean,
    /// Some node upstream has changed: check the sources.
    Check,
    /// A source has changed: run again.
    Dirty,
    /// Dirty, and everything downstream has been marked already.
    DirtyMarked,
}

impl ReactiveNodeState {
    /// The place of a state in the order.
    pub open spec fn level(self) -> int {
        match self {
            ReactiveNodeState::Clean => 0,
            ReactiveNodeState::Check => 1,
            ReactiveNodeState::Dirty => 2,
            ReactiveNodeState::DirtyMarked => 3,
        }
    }

    /// Must a node in this state run again?
    pub open spec fn needs_update(self) -> bool {
        self.level() >= ReactiveNodeState::Dirty.level()
    }

    /// Does marking stop at a node in this state, because its subscribers are
    /// marked already?
    pub open spec fn is_marked(self) -> bool {
        self == ReactiveNodeState::Check || self == ReactiveNodeState::DirtyMarked
    }

    pub(crate) fn rank(self) -> (rank: u8)
        ensures
            rank == self.level(),
    {
        match self {
            ReactiveNodeState::Clean => 0,
            ReactiveNodeState::Check => 1,
            ReactiveNodeState::Dirty => 2,
            ReactiveNodeState::DirtyMarked => 3,
        }
    }
}

/// The kind of a node, with the function of those that compute.
#[derive(Clone, Copy, Debug, PartialEq, Eq, Hash, Structural)]
pub enum ReactiveNodeType {
    Trigger,
    Signal,
    Memo { f: ComputationId },
    Effect { f: ComputationId },
}

/// A node of the reactive graph. A trigger has no value; every other node has.
#[derive(Clone, Copy, Debug, PartialEq, Eq, Hash, Structural)]
pub struct ReactiveNode {
    pub value: Option<ValueId>,
    pub state: ReactiveNodeState,
    pub node_type: ReactiveNodeType,
}

/// Something that is disposed of together with the node that owns it.
#[derive(Clone, Copy, Debug, PartialEq, Eq, Hash)]
pub enum ScopeProperty {
    Trigger(NodeId),
    Signal(NodeId),
    Effect(NodeId),
    Resource(ResourceId),
    StoredValue(StoredValueId),
}

/// A scope property, with the number of the key that it holds.
pub enum Property {
    Trigger(u64),
    Signal(u64),
    Effect(u64),
    Resource(u64),
    StoredValue(u64),
}

impl Property {
    /// The node that the property is, if it is one.
    pub open spec fn node(self) -> Option<u64> {
        match self {
            Property::Trigger(node) => Some(node),
            Property::Signal(node) => Some(node),
            Property::Effect(node) => Some(node),
            _ => None,
        }
    }
}

impl View for ScopeProperty {
    type V = Property;

    open spec fn view(&self) -> Property {
        match *self {
            ScopeProperty::Trigger(node) => Property::Trigger(node@),
            ScopeProperty::Signal(node) => Property::Signal(node@),
            ScopeProperty::Effect(node) => Property::Effect(node@),
            ScopeProperty::Resource(id) => Property::Resource(id@),
            ScopeProperty::StoredValue(id) => Property::StoredValue(id@),
        }
    }
}

impl ScopeProperty {
    /// The node that the property is, if it is one.
    pub fn to_node_id(self) -> (node: Option<NodeId>)
        ensures
            node_view(node) == self@.node(),
    {
        match self {
            ScopeProperty::Trigger(node) => Some(node),
            ScopeProperty::Signal(node) => Some(node),
            ScopeProperty::Effect(node) => Some(node),
            _ => None,
        }
    }
}

/// The state of a resource, known by its type and its value.
#[derive(Clone, Copy, Debug, PartialEq, Eq, Hash, Structural)]
pub struct ResourceHandle {
    pub ty: TypeKey,
    pub state: ValueId,
}

/// A resource. Only a serializable one is sent from the server to the client.
#[derive(Clone, Copy, Debug, PartialEq, Eq, Hash, Structural)]
pub enum AnyResource {
    Unserializable(ResourceHandle),
    Serializable(ResourceHandle),
}

impl AnyResource {
    /// The state of the resource.
    pub open spec fn handle(self) -> ResourceHandle {
        match self {
            AnyResource::Unserializable(handle) => handle,
            AnyResource::Serializable(handle) => handle,
        }
    }
}

/// Why the state of a resource cannot be had.
#[derive(Clone, Copy, Debug, PartialEq, Eq, Hash, Structural)]
pub enum ResourceError {
    /// There is no such resource.
    NotFound,
    /// The state is of another type.
    WrongType,
}

/// A context value and the type that it has.
#[derive(Clone, Copy, Debug, PartialEq, Eq, Hash, Structural)]
pub struct ContextValue {
    pub ty: TypeKey,
    pub value: ValueId,
}

/// The number of an optional node.
pub open spec fn node_view(node: Option<NodeId>) -> Option<u64> {
    match node {
        Some(node) => Some(node@),
        None => None,
    }
}

/// The numbers of a sequence of nodes.
pub open spec fn node_views(nodes: Seq<NodeId>) -> Seq<u64> {
    nodes.map_values(|node: NodeId| node@)
}

/// The numbers of a sequence of scope properties.
pub open spec fn property_views(properties: Seq<ScopeProperty>) -> Seq<Property> {
    properties.map_values(|property: ScopeProperty| property@)
}

} // verus!
