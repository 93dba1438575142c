//! The work of bringing nodes up to date and of disposing of them, as a list
//! of small tasks.
//!
//! Both recurse through the graph, and both run code of the embedding program
//! in the middle, which may change the graph at will. The recursion is
//! therefore kept as an explicit list: dealing with the first task changes the
//! runtime and may put new tasks in front of the others.
//!
//! While such code runs, the runtime is in the hands of the embedding program,
//! which finds it there again should the code unwind.
use crate::node::{
    CleanupId, ComputationId, Property, ReactiveNodeState, ReactiveNodeType, ValueId,
};
use crate::runtime::Runtime;
use crate::secondary::value_or;
use crate::state::RuntimeState;
use vstd::prelude::*;

verus! {

/// What the runtime asks of the embedding program.
#[derive(Clone, Copy, Debug, PartialEq, Eq, Hash, Structural)]
pub enum Call {
    /// Run a cleanup function. The answer does not matter.
    Cleanup(CleanupId),
    /// Run the function of a memo or an effect on its value. The answer says
    /// whether the value has changed.
    Run { f: ComputationId, value: Option<ValueId> },
}

/// A runtime together with the embedding program. Of the latter the runtime
/// knows nothing: it hands it over with every request and gets it back with the
/// answer. It has no way to make one or to copy it, so whatever the embedding
/// program counts, the requests are just those that are accounted for.
#[verifier::ext_equal]
pub struct Moment<W> {
    pub state: RuntimeState,
    pub world: W,
}

impl<W> Moment<W> {
    /// The runtime has moved on without the embedding program.
    pub open spec fn with(self, state: RuntimeState) -> Moment<W> {
        Moment { state, world: self.world }
    }

    /// A node has been marked as up to date.
    pub open spec fn marked_clean(self, id: u64) -> Moment<W> {
        self.with(self.state.with_state(id, ReactiveNodeState::Clean))
    }
}

/// A runtime in `state`, together with `world`.
pub open spec fn moment<W>(state: RuntimeState, world: W) -> Moment<W> {
    Moment { state, world }
}

/// `call` may answer `request` with `answer` and leave things as in `after`.
pub open spec fn answers<W, F: Fn(Runtime, W, Call) -> (Runtime, W, bool)>(
    call: F,
    before: Moment<W>,
    request: Call,
    after: Moment<W>,
    answer: bool,
) -> bool {
    exists|x: Runtime, y: Runtime|
        x@ == before.state && y@ == after.state && #[trigger] call.ensures(
            (x, before.world, request),
            (y, after.world, answer),
        )
}

/// A cleanup function has been run.
pub open spec fn cleans_up<W, F: Fn(Runtime, W, Call) -> (Runtime, W, bool)>(
    call: F,
    before: Moment<W>,
    cleanup: CleanupId,
    after: Moment<W>,
) -> bool {
    exists|answer: bool| #[trigger]
        answers(call, before, Call::Cleanup(cleanup), after, answer)
}

/// A node has been updated. A signal or a trigger has simply changed. A memo or
/// an effect lets go of its sources and runs, as the owner and the observer of
/// whatever its function does.
pub open spec fn updates<W, F: Fn(Runtime, W, Call) -> (Runtime, W, bool)>(
    call: F,
    before: Moment<W>,
    id: u64,
    after: Moment<W>,
) -> bool {
    if before.state.nodes.contains_key(id) {
        let node = before.state.nodes[id];
        match node.node_type {
            ReactiveNodeType::Signal => after == before.with(before.state.has_run(id, true)),
            ReactiveNodeType::Trigger => after == before.with(before.state.has_run(id, true)),
            ReactiveNodeType::Memo { f } => runs(call, before, id, f, node.value, after),
            ReactiveNodeType::Effect { f } => runs(call, before, id, f, node.value, after),
        }
    } else {
        after == before
    }
}

/// The function of a node has been run.
pub open spec fn runs<W, F: Fn(Runtime, W, Call) -> (Runtime, W, bool)>(
    call: F,
    before: Moment<W>,
    id: u64,
    f: ComputationId,
    value: Option<ValueId>,
    after: Moment<W>,
) -> bool {
    exists|ran: Moment<W>, changed: bool| #[trigger]
        answers(
            call,
            before.with(before.state.observed_by(id).unsubscribed(id)),
            (Call::Run { f, value }),
            ran,
            changed,
        ) && after == ran.with(ran.state.observed_as(before.state).has_run(id, changed))
}

/// A task. Nodes are known by the numbers of their keys.
pub enum Work {
    /// Bring a node up to date.
    Settle(u64),
    /// Bring a source of a node up to date, unless the node is dirty by now.
    Source { node: u64, source: u64 },
    /// Update a node if it is dirty.
    Refresh(u64),
    /// Dispose of the properties of a node.
    Properties(u64),
    /// Dispose of one property.
    Property(Property),
    /// Run the cleanup functions of a node.
    Cleanups(u64),
    /// Run one cleanup function.
    Cleanup(CleanupId),
    /// Take a node out of the graph.
    Detach(u64),
    /// Run a node.
    Update(u64),
    /// Mark a node as up to date.
    MarkClean(u64),
}

/// Bring the sources of a node up to date, in their order.
pub open spec fn source_work(node: u64, sources: Seq<u64>) -> Seq<Work> {
    sources.map_values(|source: u64| Work::Source { node, source })
}

/// Bring effects up to date, in their order.
pub open spec fn effect_work(effects: Seq<u64>) -> Seq<Work> {
    effects.map_values(|effect: u64| Work::Settle(effect))
}

/// Dispose of properties, in their order.
pub open spec fn property_work(properties: Seq<Property>) -> Seq<Work> {
    properties.map_values(|property: Property| Work::Property(property))
}

/// Run cleanup functions, in their order.
pub open spec fn cleanup_work(cleanups: Seq<CleanupId>) -> Seq<Work> {
    cleanups.map_values(|cleanup: CleanupId| Work::Cleanup(cleanup))
}

/// What it takes to dispose of a node: first of what it owns, then its cleanup
/// functions, then the node itself.
pub open spec fn disposal(node: u64) -> Seq<Work> {
    seq![Work::Properties(node), Work::Cleanups(node), Work::Detach(node)]
}

/// What comes of a task that runs no code of the embedding program: the runtime
/// after it, and the tasks that take its place.
pub open spec fn dealt_with(state: RuntimeState, work: Work) -> (RuntimeState, Seq<Work>) {
    match work {
        Work::Settle(node) => (
            state,
            if state.state_of(node) == ReactiveNodeState::Check {
                source_work(node, state.sources_of(node)).push(Work::Refresh(node))
            } else {
                seq![Work::Refresh(node)]
            },
        ),
        Work::Source { node, source } => (
            state,
            if state.state_of(node).needs_update() {
                Seq::empty()
            } else {
                seq![Work::Settle(source)]
            },
        ),
        Work::Refresh(node) => (
            state,
            if state.state_of(node).needs_update() {
                seq![
                    Work::Cleanups(node),
                    Work::Properties(node),
                    Work::Update(node),
                    Work::MarkClean(node),
                ]
            } else {
                seq![Work::MarkClean(node)]
            },
        ),
        Work::Properties(node) => (
            RuntimeState { properties: state.properties.remove(node), ..state },
            property_work(value_or(state.properties, node, Seq::empty())),
        ),
        Work::Property(property) => match property {
            Property::Resource(id) => (state.without_resource(id), Seq::empty()),
            Property::StoredValue(id) => (state.without_stored_value(id), Seq::empty()),
            Property::Trigger(node) => (state, disposal(node)),
            Property::Signal(node) => (state, disposal(node)),
            Property::Effect(node) => (state, disposal(node)),
        },
        Work::Cleanups(node) => (
            RuntimeState { cleanups: state.cleanups.remove(node), ..state },
            cleanup_work(value_or(state.cleanups, node, Seq::empty())),
        ),
        Work::Detach(node) => (state.detached(node), Seq::empty()),
        Work::MarkClean(node) => (
            state.with_state(node, ReactiveNodeState::Clean),
            Seq::empty(),
        ),
        // These two run code of the embedding program.
        Work::Cleanup(_) => (state, Seq::empty()),
        Work::Update(_) => (state, Seq::empty()),
    }
}

/// Dealing with `work` may take things from `before` to `after` and leave
/// the tasks `more` in its place.
pub open spec fn deals<W, F: Fn(Runtime, W, Call) -> (Runtime, W, bool)>(
    call: F,
    before: Moment<W>,
    work: Work,
    after: Moment<W>,
    more: Seq<Work>,
) -> bool {
    match work {
        Work::Cleanup(cleanup) => more == Seq::<Work>::empty() && cleans_up(
            call,
            before,
            cleanup,
            after,
        ),
        Work::Update(node) => more == Seq::<Work>::empty() && updates(call, before, node, after),
        _ => (after, more) == (
            before.with(dealt_with(before.state, work).0),
            dealt_with(before.state, work).1,
        ),
    }
}

/// One task has been dealt with: the first of the list.
pub open spec fn advances<W, F: Fn(Runtime, W, Call) -> (Runtime, W, bool)>(
    call: F,
    before: Moment<W>,
    list: Seq<Work>,
    after: Moment<W>,
    rest: Seq<Work>,
) -> bool {
    list.len() > 0 && exists|more: Seq<Work>| #[trigger]
        deals(call, before, list.first(), after, more) && rest == more + list.drop_first()
}

/// `steps` tasks have been dealt with.
pub open spec fn reaches<W, F: Fn(Runtime, W, Call) -> (Runtime, W, bool)>(
    call: F,
    before: Moment<W>,
    list: Seq<Work>,
    steps: nat,
    after: Moment<W>,
    rest: Seq<Work>,
) -> bool
    decreases steps,
{
    if steps == 0 {
        before == after && list == rest
    } else {
        exists|state: Moment<W>, work: Seq<Work>|
            reaches(call, before, list, (steps - 1) as nat, state, work) && #[trigger] advances(
                call,
                state,
                work,
                after,
                rest,
            )
    }
}

/// All the tasks of a list have been dealt with, and those that came of them.
#[verifier::opaque]
pub open spec fn completes<W, F: Fn(Runtime, W, Call) -> (Runtime, W, bool)>(
    call: F,
    before: Moment<W>,
    list: Seq<Work>,
    after: Moment<W>,
) -> bool {
    exists|steps: nat| #[trigger] reaches(call, before, list, steps, after, Seq::empty())
}

/// The most tasks that are dealt with in one go.
pub const LIMIT: u64 = 0xffff_ffff_ffff_ffff;

/// The list has been dealt with if `done`. Otherwise as many tasks as the limit
/// allows have been dealt with, and some are left.
pub open spec fn works_off<W, F: Fn(Runtime, W, Call) -> (Runtime, W, bool)>(
    call: F,
    before: Moment<W>,
    list: Seq<Work>,
    after: Moment<W>,
    done: bool,
) -> bool {
    if done {
        completes(call, before, list, after)
    } else {
        exists|rest: Seq<Work>| #[trigger]
            reaches(call, before, list, LIMIT as nat, after, rest) && rest.len() > 0
    }
}

/// A property is not there any more. A node has left the graph.
pub open spec fn is_gone(state: RuntimeState, property: Property) -> bool {
    match property {
        Property::Resource(id) => !state.resources.contains_key(id),
        Property::StoredValue(id) => !state.stored_values.contains_key(id),
        Property::Trigger(id) => state.is_absent(id),
        Property::Signal(id) => state.is_absent(id),
        Property::Effect(id) => state.is_absent(id),
    }
}

/// What is left of bringing a node up to date ends with marking it as such.
spec fn ends_clean(id: u64, state: RuntimeState, list: Seq<Work>) -> bool {
    if list.len() == 0 {
        state.state_of(id) == ReactiveNodeState::Clean
    } else {
        ||| list.last() == Work::MarkClean(id)
        ||| list.last() == Work::Refresh(id)
        ||| list.len() == 1 && list.last() == Work::Settle(id)
    }
}

proof fn lemma_ends_clean<W, F: Fn(Runtime, W, Call) -> (Runtime, W, bool)>(
    call: F,
    before: Moment<W>,
    id: u64,
    steps: nat,
    after: Moment<W>,
    rest: Seq<Work>,
)
    requires
        reaches(call, before, seq![Work::Settle(id)], steps, after, rest),
    ensures
        ends_clean(id, after.state, rest),
    decreases steps,
{
    if steps > 0 {
        let (state, work) = choose|state: Moment<W>, work: Seq<Work>|
            reaches(call, before, seq![Work::Settle(id)], (steps - 1) as nat, state, work)
                && #[trigger] advances(call, state, work, after, rest);
        lemma_ends_clean(call, before, id, (steps - 1) as nat, state, work);
        let more = choose|more: Seq<Work>| #[trigger]
            deals(call, state, work.first(), after, more) && rest == more + work.drop_first();
        if work.len() > 1 {
            assert(rest.last() == work.last());
        } else {
            assert(rest =~= more);
        }
    }
}

/// Once a node has been brought up to date, it is clean, whatever code has run
/// meanwhile.
pub proof fn lemma_settled_is_clean<W, F: Fn(Runtime, W, Call) -> (Runtime, W, bool)>(
    call: F,
    before: Moment<W>,
    id: u64,
    after: Moment<W>,
)
    requires
        completes(call, before, seq![Work::Settle(id)], after),
    ensures
        after.state.state_of(id) == ReactiveNodeState::Clean,
{
    reveal(completes);
    let steps = choose|steps: nat| #[trigger]
        reaches(call, before, seq![Work::Settle(id)], steps, after, Seq::empty());
    lemma_ends_clean(call, before, id, steps, after, Seq::empty());
}

} // verus!
