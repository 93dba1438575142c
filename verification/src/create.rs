//! Creating scopes, triggers, signals, memos and effects in a runtime.
use crate::keys::{NodeId, RuntimeId, ScopeId, NULL_KEY};
use crate::node::{ComputationId, ReactiveNode, ReactiveNodeState, ReactiveNodeType, ValueId};
use crate::registry::{with_runtime, Runtimes, RuntimesState};
use crate::runtime::Runtime;
use crate::slots::{is_new_key, CAPACITY};
use std::marker::PhantomData;
use vstd::prelude::*;

verus! {

/// A scope of a runtime.
#[derive(Clone, Copy, Debug, PartialEq, Eq, Hash)]
pub struct Scope {
    pub runtime: RuntimeId,
    pub id: ScopeId,
}

/// Disposes of a scope.
#[derive(Debug, PartialEq, Eq, Hash)]
pub struct ScopeDisposer(pub Scope);

impl ScopeDisposer {
    /// Gives the scope up. A runtime keeps no record of its scopes, so nothing
    /// else is left to do. Returns the scope that is gone.
    pub fn dispose(self) -> (scope: Scope)
        ensures
            scope == self.0,
    {
        self.0
    }
}

/// A new scope of a runtime. It has no id of its own.
pub open spec fn is_raw_scope(scope: Scope, runtime: RuntimeId) -> bool {
    scope.runtime == runtime && scope.id@ == NULL_KEY
}

/// Notifies whoever has tracked it, without holding a value.
#[derive(Clone, Copy, Debug, PartialEq, Eq, Hash)]
pub struct Trigger {
    pub runtime: RuntimeId,
    pub id: NodeId,
}

/// The reading end of a signal that holds a `T`.
#[derive(Debug, PartialEq, Eq, Hash)]
pub struct ReadSignal<T> {
    pub runtime: RuntimeId,
    pub id: NodeId,
    pub ty: PhantomData<T>,
}

impl<T> Clone for ReadSignal<T> {
    fn clone(&self) -> (copy: Self)
        ensures
            copy == *self,
    {
        *self
    }
}

impl<T> Copy for ReadSignal<T> {

}

/// The writing end of a signal that holds a `T`.
#[derive(Debug, PartialEq, Eq, Hash)]
pub struct WriteSignal<T> {
    pub runtime: RuntimeId,
    pub id: NodeId,
    pub ty: PhantomData<T>,
}

impl<T> Clone for WriteSignal<T> {
    fn clone(&self) -> (copy: Self)
        ensures
            copy == *self,
    {
        *self
    }
}

impl<T> Copy for WriteSignal<T> {

}

/// A signal that holds a `T`, for reading and writing.
#[derive(Debug, PartialEq, Eq, Hash)]
pub struct RwSignal<T> {
    pub runtime: RuntimeId,
    pub id: NodeId,
    pub ty: PhantomData<T>,
}

impl<T> Clone for RwSignal<T> {
    fn clone(&self) -> (copy: Self)
        ensures
            copy == *self,
    {
        *self
    }
}

impl<T> Copy for RwSignal<T> {

}

/// A derived value of type `T`.
#[derive(Debug, PartialEq, Eq, Hash)]
pub struct Memo<T> {
    pub runtime: RuntimeId,
    pub id: NodeId,
    pub ty: PhantomData<T>,
}

impl<T> Clone for Memo<T> {
    fn clone(&self) -> (copy: Self)
        ensures
            copy == *self,
    {
        *self
    }
}

impl<T> Copy for Memo<T> {

}

/// A node has been created in a runtime: under a new key, and as a property of
/// the current owner.
pub open spec fn creates(
    before: RuntimesState,
    runtime: u64,
    id: u64,
    node: ReactiveNode,
    after: RuntimesState,
) -> bool {
    match before.find(runtime) {
        Some(state) => is_new_key(state.nodes, state.generations, id) && after == before.with(
            runtime,
            state.with_node(id, node),
        ),
        None => false,
    }
}

/// A new trigger, which has no value.
pub open spec fn trigger_node() -> ReactiveNode {
    ReactiveNode {
        value: None,
        state: ReactiveNodeState::Clean,
        node_type: ReactiveNodeType::Trigger,
    }
}

/// A new signal.
pub open spec fn signal_node(value: ValueId) -> ReactiveNode {
    ReactiveNode {
        value: Some(value),
        state: ReactiveNodeState::Clean,
        node_type: ReactiveNodeType::Signal,
    }
}

/// A new effect, which has yet to run.
pub open spec fn effect_node(value: ValueId, f: ComputationId) -> ReactiveNode {
    ReactiveNode {
        value: Some(value),
        state: ReactiveNodeState::Dirty,
        node_type: ReactiveNodeType::Effect { f },
    }
}

/// A new memo. Memos are lazy: it is dirty and runs when it is first asked for.
pub open spec fn memo_node(value: ValueId, f: ComputationId) -> ReactiveNode {
    ReactiveNode {
        value: Some(value),
        state: ReactiveNodeState::Dirty,
        node_type: ReactiveNodeType::Memo { f },
    }
}

impl RuntimeId {
    /// Creates a scope and what disposes of it.
    pub fn raw_scope_and_disposer(self, runtimes: &Runtimes) -> (r: (Scope, ScopeDisposer))
        requires
            runtimes@.has(self@),
        ensures
            is_raw_scope(r.0, self),
            r.1.0 == r.0,
    {
        let scope = Scope { runtime: self, id: ScopeId::default() };
        (scope, ScopeDisposer(scope))
    }

    /// Creates a scope and what disposes of it. The parent makes no difference.
    pub fn raw_scope_and_disposer_with_parent(self, runtimes: &Runtimes, parent: Option<Scope>) -> (r:
        (Scope, ScopeDisposer))
        requires
            runtimes@.has(self@),
        ensures
            is_raw_scope(r.0, self),
            r.1.0 == r.0,
    {
        self.raw_scope_and_disposer(runtimes)
    }

    /// Runs `f` in a new scope, which is left for the caller to dispose of.
    pub fn run_scope_undisposed<T>(
        self,
        runtimes: &mut Runtimes,
        f: impl FnOnce(&mut Runtimes, Scope) -> T,
        parent: Option<Scope>,
    ) -> (r: (T, ScopeId, ScopeDisposer))
        requires
            old(runtimes)@.has(self@),
            forall|inner: &mut Runtimes, scope: Scope|
                inner@ == old(runtimes)@ && is_raw_scope(scope, self) ==> #[trigger] f.requires(
                    (inner, scope),
                ),
        ensures
            is_raw_scope(r.2.0, self),
            r.1 == r.2.0.id,
            exists|inner: &mut Runtimes| #[trigger]
                f.ensures((inner, r.2.0), r.0) && inner@ == old(runtimes)@ && final(runtimes)@
                    == final(inner)@,
    {
        let (scope, disposer) = self.raw_scope_and_disposer_with_parent(runtimes, parent);
        let value = f(runtimes, scope);
        let r = (value, scope.id, disposer);
        assert(r.0 == value && r.2.0 == scope);
        r
    }

    /// Runs `f` in a new scope and disposes of the scope.
    pub fn run_scope<T>(
        self,
        runtimes: &mut Runtimes,
        f: impl FnOnce(&mut Runtimes, Scope) -> T,
        parent: Option<Scope>,
    ) -> (value: T)
        requires
            old(runtimes)@.has(self@),
            forall|inner: &mut Runtimes, scope: Scope|
                inner@ == old(runtimes)@ && is_raw_scope(scope, self) ==> #[trigger] f.requires(
                    (inner, scope),
                ),
        ensures
            exists|inner: &mut Runtimes, scope: Scope| #[trigger]
                f.ensures((inner, scope), value) && is_raw_scope(scope, self) && inner@ == old(
                    runtimes,
                )@ && final(runtimes)@ == final(inner)@,
    {
        let (ret, _, disposer) = self.run_scope_undisposed(runtimes, f, parent);
        disposer.dispose();
        ret
    }

    /// Creates a node.
    fn create_node(self, runtimes: &mut Runtimes, node: ReactiveNode) -> (id: NodeId)
        requires
            old(runtimes)@.has_room(self@),
        ensures
            creates(old(runtimes)@, self@, id@, node, final(runtimes)@),
    {
        let create = |runtime: &mut Runtime| -> (id: NodeId)
            requires
                old(runtime)@.nodes.len() < CAPACITY,
            ensures
                is_new_key(old(runtime)@.nodes, old(runtime)@.generations, id@),
                final(runtime)@ == old(runtime)@.with_node(id@, node),
            {
                runtime.add_node(node)
            };
        match with_runtime(runtimes, self, create) {
            Ok(id) => id,
            Err(_) => vstd::pervasive::unreached(),
        }
    }

    /// Creates a trigger.
    pub fn create_trigger(self, runtimes: &mut Runtimes) -> (trigger: Trigger)
        requires
            old(runtimes)@.has_room(self@),
        ensures
            trigger.runtime == self,
            creates(old(runtimes)@, self@, trigger.id@, trigger_node(), final(runtimes)@),
    {
        let id = self.create_node(
            runtimes,
            ReactiveNode {
                value: None,
                state: ReactiveNodeState::Clean,
                node_type: ReactiveNodeType::Trigger,
            },
        );
        Trigger { runtime: self, id }
    }

    /// Creates the node of a signal.
    pub fn create_concrete_signal(self, runtimes: &mut Runtimes, value: ValueId) -> (id: NodeId)
        requires
            old(runtimes)@.has_room(self@),
        ensures
            creates(old(runtimes)@, self@, id@, signal_node(value), final(runtimes)@),
    {
        self.create_node(
            runtimes,
            ReactiveNode {
                value: Some(value),
                state: ReactiveNodeState::Clean,
                node_type: ReactiveNodeType::Signal,
            },
        )
    }

    /// Creates a signal, as its two ends.
    pub fn create_signal<T>(self, runtimes: &mut Runtimes, value: ValueId) -> (ends: (
        ReadSignal<T>,
        WriteSignal<T>,
    ))
        requires
            old(runtimes)@.has_room(self@),
        ensures
            ends.0.runtime == self,
            ends.1.runtime == self,
            ends.0.id == ends.1.id,
            creates(old(runtimes)@, self@, ends.0.id@, signal_node(value), final(runtimes)@),
    {
        let id = self.create_concrete_signal(runtimes, value);
        (
            ReadSignal { runtime: self, id, ty: PhantomData },
            WriteSignal { runtime: self, id, ty: PhantomData },
        )
    }

    /// Creates a signal, as one handle.
    pub fn create_rw_signal<T>(self, runtimes: &mut Runtimes, value: ValueId) -> (signal: RwSignal<T>)
        requires
            old(runtimes)@.has_room(self@),
        ensures
            signal.runtime == self,
            creates(old(runtimes)@, self@, signal.id@, signal_node(value), final(runtimes)@),
    {
        let id = self.create_concrete_signal(runtimes, value);
        RwSignal { runtime: self, id, ty: PhantomData }
    }

    /// Creates the node of an effect.
    pub fn create_concrete_effect(
        self,
        runtimes: &mut Runtimes,
        value: ValueId,
        effect: ComputationId,
    ) -> (id: NodeId)
        requires
            old(runtimes)@.has_room(self@),
        ensures
            creates(old(runtimes)@, self@, id@, effect_node(value, effect), final(runtimes)@),
    {
        self.create_node(
            runtimes,
            ReactiveNode {
                value: Some(value),
                state: ReactiveNodeState::Dirty,
                node_type: ReactiveNodeType::Effect { f: effect },
            },
        )
    }

    /// Creates the node of a memo.
    pub fn create_concrete_memo(
        self,
        runtimes: &mut Runtimes,
        value: ValueId,
        computation: ComputationId,
    ) -> (id: NodeId)
        requires
            old(runtimes)@.has_room(self@),
        ensures
            creates(old(runtimes)@, self@, id@, memo_node(value, computation), final(runtimes)@),
    {
        self.create_node(
            runtimes,
            ReactiveNode {
                value: Some(value),
                state: ReactiveNodeState::Dirty,
                node_type: ReactiveNodeType::Memo { f: computation },
            },
        )
    }

    /// Creates an effect that runs `f` on `value`.
    pub fn create_effect(self, runtimes: &mut Runtimes, value: ValueId, f: ComputationId) -> (id:
        NodeId)
        requires
            old(runtimes)@.has_room(self@),
        ensures
            creates(old(runtimes)@, self@, id@, effect_node(value, f), final(runtimes)@),
    {
        self.create_concrete_effect(runtimes, value, f)
    }

    /// Creates a memo that runs `f` on `value`.
    pub fn create_memo<T>(self, runtimes: &mut Runtimes, value: ValueId, f: ComputationId) -> (memo:
        Memo<T>)
        requires
            old(runtimes)@.has_room(self@),
        ensures
            memo.runtime == self,
            creates(old(runtimes)@, self@, memo.id@, memo_node(value, f), final(runtimes)@),
    {
        let id = self.create_concrete_memo(runtimes, value, f);
        Memo { runtime: self, id, ty: PhantomData }
    }
}

} // verus!
