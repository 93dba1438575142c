//! How the runtimes of a thread come and go.
use crate::create::{
    creates, effect_node, is_raw_scope, memo_node, signal_node, trigger_node, Scope,
};
use crate::error_boundary::provides;
use crate::keys::{slot_of, RuntimeId};
use crate::laws::contexts::lemma_providing_exactly;
use crate::laws::generations::{
    is_aged, is_fresh, is_spent, lemma_move, lemma_put_in, lemma_spent_is_gone, lemma_take_out,
    puts_in, slots_move, takes_out, Slots,
};
use crate::laws::operations::lemma_creating_exactly;
use crate::node::{
    ComputationId, ContextValue, ReactiveNode, ReactiveNodeState, ReactiveNodeType, TypeKey, ValueId,
};
use crate::registry::{creates_runtime, RuntimesState};
use crate::secondary::offers_sparse;
use crate::state::RuntimeState;
use vstd::prelude::*;

verus! {

/// A runtime that has been created on a server was not there before. It is
/// empty, and the other runtimes are as they were.
pub proof fn lemma_create_runtime(before: RuntimesState, id: u64, after: RuntimesState)
    requires
        before is Server,
        creates_runtime(before, id, after),
    ensures
        !before.has(id),
        after.find(id) == Some(RuntimeState::empty()),
        forall|other: u64| other != id ==> #[trigger] after.find(other) == before.find(other),
        after.current() == before.current(),
{
}

/// A runtime that has been disposed of on a server cannot be found. The other
/// runtimes are as they were.
pub proof fn lemma_dispose_runtime(before: RuntimesState, id: u64)
    requires
        before is Server,
    ensures
        !before.without(id).has(id),
        forall|other: u64|
            other != id ==> #[trigger] before.without(id).find(other) == before.find(other),
        before.without(id).current() == before.current(),
{
}

/// Disposing of a runtime undoes its creation, whatever has happened in it: the
/// same runtimes are there, and none of them has changed.
pub proof fn lemma_create_then_dispose(
    before: RuntimesState,
    id: u64,
    created: RuntimesState,
    state: RuntimeState,
)
    requires
        before is Server,
        creates_runtime(before, id, created),
    ensures
        forall|other: u64| #[trigger]
            created.with(id, state).without(id).find(other) == before.find(other),
        created.with(id, state).without(id).current() == before.current(),
{
}

/// Disposing of a runtime once more changes nothing.
pub proof fn lemma_dispose_runtime_again(before: RuntimesState, id: u64)
    ensures
        before.without(id).without(id) == before.without(id),
{
    assert(before.without(id).without(id) =~= before.without(id));
}

// For good

/// The runtimes of a server as a slot map.
pub open spec fn runtime_slots(state: RuntimesState) -> Slots<RuntimeState> {
    match state {
        RuntimesState::Server { runtimes, generations, .. } => Slots {
            contents: runtimes,
            generations,
        },
        RuntimesState::Browser { .. } => Slots {
            contents: Map::empty(),
            generations: Map::empty(),
        },
    }
}

/// What happens to the runtimes of a thread: one is created, one is disposed of,
/// one that is there is worked on, or another one becomes the current one.
pub open spec fn runtimes_move(before: RuntimesState, after: RuntimesState) -> bool {
    ||| exists|id: u64| #[trigger] creates_runtime(before, id, after)
    ||| exists|id: u64| after == #[trigger] before.without(id)
    ||| exists|id: u64, state: RuntimeState|
        before.has(id) && after == #[trigger] before.with(id, state)
    ||| exists|current: Option<u64>| after == #[trigger] before.with_current(current)
}

/// What the runtimes of a server go through, from one operation to the next,
/// without a slot coming to the last generation.
pub open spec fn is_runtimes_history(history: Seq<RuntimesState>) -> bool {
    &&& history.len() > 0
    &&& history[0] is Server
    &&& is_aged(runtime_slots(history[0]))
    &&& forall|i: int|
        #![trigger history[i]]
        0 <= i < history.len() ==> is_fresh(runtime_slots(history[i]).generations)
    &&& forall|i: int, j: int|
        #![trigger history[i], history[j]]
        0 <= i && j == i + 1 && j < history.len() ==> runtimes_move(history[i], history[j])
}

/// A server on which nothing has been created yet is where a history begins.
pub proof fn lemma_new_server_is_aged()
    ensures
        is_aged(
            runtime_slots(
                RuntimesState::Server {
                    runtimes: Map::empty(),
                    generations: Map::empty(),
                    current: None,
                },
            ),
        ),
{
}

proof fn lemma_runtimes_move(before: RuntimesState, after: RuntimesState)
    requires
        before is Server,
        runtimes_move(before, after),
    ensures
        after is Server,
        slots_move(runtime_slots(before), runtime_slots(after)),
{
    let a = runtime_slots(before);
    let b = runtime_slots(after);
    if exists|id: u64| #[trigger] creates_runtime(before, id, after) {
        let id = choose|id: u64| #[trigger] creates_runtime(before, id, after);
        assert(puts_in(a, id, RuntimeState::empty(), b));
    } else if exists|id: u64| after == #[trigger] before.without(id) {
        let id = choose|id: u64| after == #[trigger] before.without(id);
        assert(takes_out(a, id, b));
    } else if exists|id: u64, state: RuntimeState|
        before.has(id) && after == #[trigger] before.with(id, state) {
        let (id, state) = choose|id: u64, state: RuntimeState|
            before.has(id) && after == #[trigger] before.with(id, state);
        assert(b.contents.dom() =~= a.contents.dom());
    } else {
        assert(b.contents.dom() =~= a.contents.dom());
    }
}

proof fn lemma_runtimes_history(history: Seq<RuntimesState>, n: int)
    requires
        is_runtimes_history(history),
        0 <= n < history.len(),
    ensures
        history[n] is Server,
        is_aged(runtime_slots(history[n])),
        forall|id: u64| #[trigger]
            is_spent(runtime_slots(history[0]).generations, id) ==> is_spent(
                runtime_slots(history[n]).generations,
                id,
            ),
    decreases n,
{
    if n > 0 {
        lemma_runtimes_history(history, n - 1);
        assert(runtimes_move(history[n - 1], history[n]));
        lemma_runtimes_move(history[n - 1], history[n]);
        let a = runtime_slots(history[n - 1]);
        let b = runtime_slots(history[n]);
        assert(is_fresh(runtime_slots(history[n - 1]).generations));
        lemma_move(a, b, 0);
        assert forall|id: u64| #[trigger]
            is_spent(runtime_slots(history[0]).generations, id) implies is_spent(
            b.generations,
            id,
        ) by {
            lemma_move(a, b, id);
        }
    }
}

/// From the moment a runtime has been disposed of, its id finds nothing, whatever
/// is created, disposed of and worked on afterwards, for as long as no slot has
/// come to the last generation. No new runtime gets the id.
pub proof fn lemma_disposed_for_good(
    before: RuntimesState,
    id: u64,
    history: Seq<RuntimesState>,
    next: u64,
    after: RuntimesState,
)
    requires
        before is Server,
        before.has(id),
        is_aged(runtime_slots(before)),
        is_fresh(runtime_slots(before).generations),
        is_runtimes_history(history),
        history[0] == before.without(id),
    ensures
        !history.last().has(id),
        creates_runtime(history.last(), next, after) ==> next != id && !after.has(id),
{
    let slots = runtime_slots(before);
    assert(slots.contents.contains_key(id));
    assert(slots.generations.contains_key(slot_of(id)));
    assert(takes_out(slots, id, runtime_slots(history[0])));
    lemma_take_out(slots, id, runtime_slots(history[0]), id);
    lemma_runtimes_history(history, history.len() - 1);
    let last = runtime_slots(history.last());
    assert(is_spent(last.generations, id));
    lemma_spent_is_gone(last, id);
    if creates_runtime(history.last(), next, after) {
        assert(puts_in(last, next, RuntimeState::empty(), runtime_slots(after)));
        lemma_put_in(last, next, RuntimeState::empty(), runtime_slots(after), id);
    }
}

/// In the browser everything is under one runtime: every id finds it, creating
/// one changes nothing, and it cannot be disposed of.
pub proof fn lemma_one_runtime(state: RuntimesState, a: u64, b: u64, after: RuntimesState)
    requires
        state is Browser,
    ensures
        state.has(a),
        state.find(a) == state.find(b),
        state.without(a) == state,
        creates_runtime(state, a, after) ==> after == state,
{
}

/// Work on one runtime is seen there and nowhere else.
pub proof fn lemma_separate_runtimes(
    before: RuntimesState,
    id: u64,
    state: RuntimeState,
    other: u64,
)
    ensures
        before.with(id, state).find(id) == Some(state),
        before is Server && other != id ==> before.with(id, state).find(other) == before.find(
            other,
        ),
        before.with(id, state).current() == before.current(),
{
}

/// The runtime that has been made the current one of a server is the current
/// one. No runtime changes by that.
pub proof fn lemma_current_runtime(before: RuntimesState, id: u64, other: u64)
    requires
        before is Server,
    ensures
        before.with_current(Some(id)).current() == id,
        before.with_current(Some(id)).find(other) == before.find(other),
{
}

// What each operation does

/// A runtime of a server is found under its id alone. In the browser every id
/// finds the same one.
pub proof fn lemma_find_exactly(state: RuntimesState, id: u64)
    ensures
        state matches RuntimesState::Server { runtimes, .. } ==> {
            &&& state.has(id) <==> runtimes.contains_key(id)
            &&& runtimes.contains_key(id) ==> state.find(id) == Some(runtimes[id])
        },
        state matches RuntimesState::Browser { runtime } ==> state.has(id) && state.find(id)
            == Some(runtime),
{
}

/// Work on one runtime leaves the others, the generations and the current one
/// as they were.
pub proof fn lemma_with_exactly(before: RuntimesState, id: u64, state: RuntimeState)
    ensures
        before matches RuntimesState::Server { runtimes, generations, current } ==> before.with(
            id,
            state,
        ) == (RuntimesState::Server { runtimes: runtimes.insert(id, state), generations, current }),
        before is Browser ==> before.with(id, state) == (RuntimesState::Browser { runtime: state }),
{
}

/// The observer of one runtime is replaced, and nothing else changes, there or in
/// any other runtime. Where there is no such runtime, nothing changes at all.
pub proof fn lemma_observer_exactly(
    before: RuntimesState,
    id: u64,
    observer: Option<u64>,
    other: u64,
)
    ensures
        ({
            let after = before.with_observer(id, observer);
            &&& !before.has(id) ==> after == before
            &&& before.has(id) ==> after.find(id) == Some(
                RuntimeState { observer, ..before.find(id).unwrap() },
            )
            &&& before is Server && other != id ==> after.find(other) == before.find(other)
            &&& after.has(other) <==> before.has(other)
            &&& after.current() == before.current()
            &&& before is Server <==> after is Server
        }),
{
}

/// Setting the observer back undoes setting it.
pub proof fn lemma_observer_back(before: RuntimesState, id: u64, observer: Option<u64>)
    ensures
        before.has(id) ==> before.with_observer(id, observer).with_observer(
            id,
            before.find(id).unwrap().observer,
        ) == before,
{
    if before.has(id) {
        let back = before.find(id).unwrap().observer;
        assert(before.with_observer(id, observer).with_observer(id, back) =~= before) by {
            if let RuntimesState::Server { runtimes, .. } = before {
                let state = RuntimeState { observer, ..runtimes[id] };
                assert(runtimes.insert(id, state).insert(
                    id,
                    RuntimeState { observer: back, ..state },
                ) =~= runtimes);
            }
        }
    }
}

/// Which runtime is the current one is a matter of servers only. Where there is
/// none, and in the browser, its id is the null key.
pub proof fn lemma_current_exactly(before: RuntimesState, current: Option<u64>)
    ensures
        before matches RuntimesState::Server { runtimes, generations, .. } ==> before.with_current(
            current,
        ) == (RuntimesState::Server { runtimes, generations, current }),
        before is Browser ==> before.with_current(current) == before && before.current()
            == 0x1_ffff_ffff,
        before is Server && current is None ==> before.with_current(current).current()
            == 0x1_ffff_ffff,
        before is Server ==> (current matches Some(id) ==> before.with_current(current).current()
            == id),
{
}

/// There is room for as many runtimes, and for as many nodes in each, as a slot
/// map has slots.
pub proof fn lemma_room_exactly(state: RuntimesState, id: u64)
    ensures
        state is Browser ==> state.can_create(),
        state matches RuntimesState::Server { runtimes, .. } ==> (state.can_create()
            <==> runtimes.len() < 0xffff_fffe),
        state.has_room(id) <==> (state.find(id) matches Some(runtime) && runtime.nodes.len()
            < 0xffff_fffe),
{
}

/// Disposing of a runtime on a server takes that one out, and leaves the others
/// and the current one as they were.
pub proof fn lemma_without_exactly(before: RuntimesState, id: u64)
    ensures
        before matches RuntimesState::Server { runtimes, current, .. } ==> (before.without(
            id,
        ) matches RuntimesState::Server { runtimes: left, current: now, .. } && left
            == runtimes.remove(id) && now == current),
        before is Browser ==> before.without(id) == before,
{
}

/// A node that has been created is in its runtime, under a key that no node had,
/// just as it was made. The other nodes there, their edges and the queue are as
/// they were, and so are the other runtimes.
pub proof fn lemma_create_node_exactly(
    before: RuntimesState,
    runtime: u64,
    id: u64,
    node: ReactiveNode,
    after: RuntimesState,
    n: u64,
    other: u64,
)
    requires
        creates(before, runtime, id, node, after),
    ensures
        before.has(runtime),
        after.has(runtime),
        before is Server && other != runtime ==> after.find(other) == before.find(other),
        after.current() == before.current(),
        ({
            let old_state = before.find(runtime).unwrap();
            let new_state = after.find(runtime).unwrap();
            &&& !old_state.nodes.contains_key(id)
            &&& new_state.nodes.contains_key(id) && new_state.nodes[id] == node
            &&& n != id ==> new_state.nodes.get(n) == old_state.nodes.get(n)
            &&& new_state == (RuntimeState {
                nodes: new_state.nodes,
                generations: new_state.generations,
                properties: new_state.properties,
                owners: new_state.owners,
                ..old_state
            })
        }),
{
    let state = before.find(runtime).unwrap();
    lemma_creating_exactly(state, id, node, n);
    lemma_creating_exactly(state, id, node, id);
}

/// A new signal or trigger is up to date: no reader has to run because of it. A
/// new memo or effect has yet to run. Each has the value and the function it was
/// given, and a trigger has no value.
pub proof fn lemma_new_nodes(value: ValueId, f: ComputationId)
    ensures
        trigger_node().value is None && trigger_node().state == ReactiveNodeState::Clean
            && trigger_node().node_type is Trigger,
        signal_node(value).value == Some(value) && signal_node(value).state
            == ReactiveNodeState::Clean && signal_node(value).node_type is Signal,
        memo_node(value, f).value == Some(value) && memo_node(value, f).state
            == ReactiveNodeState::Dirty && memo_node(value, f).node_type == (
        ReactiveNodeType::Memo { f }),
        effect_node(value, f).value == Some(value) && effect_node(value, f).state
            == ReactiveNodeState::Dirty && effect_node(value, f).node_type == (
        ReactiveNodeType::Effect { f }),
{
}

/// Two new scopes of one runtime have the same id, the null key, and know their
/// runtime.
pub proof fn lemma_raw_scopes(a: Scope, b: Scope, runtime: RuntimeId)
    requires
        is_raw_scope(a, runtime),
        is_raw_scope(b, runtime),
    ensures
        a.runtime == runtime,
        a.id@ == b.id@,
        a.id@ == 0x1_ffff_ffff,
{
}

/// What a boundary provides is a value of the type that it is provided under. It
/// goes to the owner of its runtime. What is under other types stays, and so do
/// the other runtimes.
pub proof fn lemma_boundary_provides(
    before: RuntimesState,
    runtime: u64,
    ty: TypeKey,
    value: ValueId,
    owner: u64,
    other: u64,
    key: u64,
)
    requires
        before.has(runtime),
        before.find(runtime).unwrap().owner == Some(owner),
        offers_sparse(before.find(runtime).unwrap().contexts, owner),
    ensures
        ({
            let after = provides(before, runtime, ty, value);
            let old_state = before.find(runtime).unwrap();
            let new_state = after.find(runtime).unwrap();
            &&& after.has(runtime)
            &&& before is Server && other != runtime ==> after.find(other) == before.find(other)
            &&& new_state == (RuntimeState { contexts: new_state.contexts, ..old_state })
            &&& new_state.contexts.contains_key(owner)
            &&& new_state.contexts[owner].get(ty.0) == Some(ContextValue { ty, value })
            &&& key != ty.0 && old_state.contexts.contains_key(owner)
                ==> new_state.contexts[owner].get(key) == old_state.contexts[owner].get(key)
        }),
{
    let state = before.find(runtime).unwrap();
    lemma_providing_exactly(state, ty, ContextValue { ty, value }, key, owner);
}

} // verus!
