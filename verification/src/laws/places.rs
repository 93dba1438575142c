//! Room for what belongs to a node.
//!
//! A secondary map turns a key away that is older than what it has, and one that
//! seems to be. As long as no slot has counted half way round, that does not
//! happen to a node that is there.
use crate::agenda::{advances, answers, deals, updates, Call, Moment, Work};
use crate::keys::{generation_of, is_null, slot_of};
use crate::laws::contexts::lemma_provided_context;
use crate::laws::generations::{
    is_aged, lemma_put_in, lemma_same_key, lemma_take_out, node_slots, puts_in, takes_out,
};
use crate::laws::graph::{
    is_consistent, lemma_new_node_is_consistent, lemma_reading_is_consistent,
};
use crate::laws::marking::{lemma_mark_dirty, subscribes, tells_all};
use crate::laws::ownership::{lemma_cleanup_is_owned, lemma_new_node_is_owned};
use crate::laws::upstream::lemma_removed_is_subset;
use crate::node::{
    CleanupId, ContextValue, Property, ReactiveNode, ReactiveNodeState, ReactiveNodeType, TypeKey,
    ValueId,
};
use crate::runtime::Runtime;
use crate::secondary::{offers, offers_sparse, placed, takes, value_or};
use crate::sets::inserted;
use crate::slots::{is_new_key, occupied};
use crate::state::{property_of, RuntimeState};
use vstd::prelude::*;

verus! {

/// How many generations there are before a slot has counted half way round.
pub const HALF_WAY: u64 = 0x8000_0000;

/// No slot has counted half way round.
pub open spec fn is_young(state: RuntimeState) -> bool {
    forall|slot: u64| #[trigger]
        state.generations.contains_key(slot) ==> state.generations[slot] < HALF_WAY
}

/// A key was handed out: its slot has come to its generation at least.
pub open spec fn is_known(generations: Map<u64, u64>, key: u64) -> bool {
    !is_null(key) && generations.contains_key(slot_of(key)) && generation_of(key)
        <= generations[slot_of(key)]
}

/// All keys of a map were handed out.
pub open spec fn are_known<V>(generations: Map<u64, u64>, contents: Map<u64, V>) -> bool {
    forall|key: u64| #[trigger] contents.contains_key(key) ==> is_known(generations, key)
}

/// The nodes are under the generations of their slots, and nothing is kept for a
/// later generation than a slot has come to. No such node is subscribed either.
pub open spec fn is_ordered(state: RuntimeState) -> bool {
    &&& is_aged(node_slots(state))
    &&& are_known(state.generations, state.subscribers)
    &&& are_known(state.generations, state.sources)
    &&& are_known(state.generations, state.owners)
    &&& are_known(state.generations, state.properties)
    &&& are_known(state.generations, state.cleanups)
    &&& are_known(state.generations, state.contexts)
    &&& forall|a: u64, b: u64| #[trigger] subscribes(state, a, b) ==> is_known(state.generations, b)
}

/// The owner and the observer, where there are any, were handed out.
pub open spec fn knows_owner(state: RuntimeState) -> bool {
    &&& state.owner matches Some(owner) ==> is_known(state.generations, owner)
    &&& state.observer matches Some(observer) ==> is_known(state.generations, observer)
}

/// Every map has a place for a key of the generation that its slot has come to.
proof fn lemma_has_place<V>(generations: Map<u64, u64>, contents: Map<u64, V>, id: u64)
    requires
        are_known(generations, contents),
        is_known(generations, id),
        generations[slot_of(id)] == generation_of(id),
        generation_of(id) < HALF_WAY,
    ensures
        offers(contents, id),
        takes(contents, id),
        offers_sparse(contents, id),
{
    assert forall|other: u64| #[trigger]
        contents.contains_key(other) && slot_of(other) == slot_of(id) && other
            != id implies generation_of(other) < generation_of(id) by {
        if generation_of(other) == generation_of(id) {
            lemma_same_key(other, id);
        }
    }
}

/// A node that is there is offered a place in every map, as long as no slot has
/// counted half way round.
pub proof fn lemma_nodes_have_places(state: RuntimeState, id: u64)
    requires
        is_ordered(state),
        is_young(state),
        state.nodes.contains_key(id),
    ensures
        offers(state.subscribers, id),
        offers(state.sources, id),
        takes(state.owners, id),
        offers_sparse(state.properties, id),
        offers_sparse(state.cleanups, id),
        offers_sparse(state.contexts, id),
{
    assert(node_slots(state).contents.contains_key(id));
    assert(state.generations.contains_key(slot_of(id)));
    lemma_has_place(state.generations, state.subscribers, id);
    lemma_has_place(state.generations, state.sources, id);
    lemma_has_place(state.generations, state.owners, id);
    lemma_has_place(state.generations, state.properties, id);
    lemma_has_place(state.generations, state.cleanups, id);
    lemma_has_place(state.generations, state.contexts, id);
}

/// A node that is there was handed out.
pub proof fn lemma_nodes_are_known(state: RuntimeState, id: u64)
    requires
        is_ordered(state),
        state.nodes.contains_key(id),
    ensures
        is_known(state.generations, id),
{
    assert(node_slots(state).contents.contains_key(id));
}

/// The second map has no other keys than the first.
pub open spec fn is_within<V, U>(a: Map<u64, V>, b: Map<u64, U>) -> bool {
    forall|key: u64| #[trigger] b.contains_key(key) ==> a.contains_key(key)
}

/// Slots count up.
spec fn counts_up(a: Map<u64, u64>, b: Map<u64, u64>) -> bool {
    forall|slot: u64| #[trigger] a.contains_key(slot) ==> b.contains_key(slot) && a[slot] <= b[slot]
}

proof fn lemma_known_on<V, U>(
    generations: Map<u64, u64>,
    contents: Map<u64, V>,
    later: Map<u64, u64>,
    after: Map<u64, U>,
)
    requires
        are_known(generations, contents),
        counts_up(generations, later),
        is_within(contents, after),
    ensures
        are_known(later, after),
{
    assert forall|key: u64| #[trigger] after.contains_key(key) implies is_known(later, key) by {
        assert(contents.contains_key(key));
    }
}

proof fn lemma_known_placed<V>(
    generations: Map<u64, u64>,
    contents: Map<u64, V>,
    key: u64,
    value: V,
)
    requires
        are_known(generations, contents),
        is_known(generations, key),
    ensures
        are_known(generations, placed(contents, key, value)),
{
    assert forall|other: u64| #[trigger]
        placed(contents, key, value).contains_key(other) implies is_known(generations, other) by {
        if other != key {
            assert(contents.contains_key(other));
        }
    }
}

/// The second graph has no other edges than the first.
pub open spec fn has_fewer_edges(a: RuntimeState, b: RuntimeState) -> bool {
    forall|x: u64, y: u64| #[trigger] subscribes(b, x, y) ==> subscribes(a, x, y)
}

/// What only shrinks, while slots count up, stays in order.
proof fn lemma_ordered_on(state: RuntimeState, after: RuntimeState)
    requires
        is_ordered(state),
        is_aged(node_slots(after)),
        counts_up(state.generations, after.generations),
        is_within(state.subscribers, after.subscribers),
        is_within(state.sources, after.sources),
        is_within(state.owners, after.owners),
        is_within(state.properties, after.properties),
        is_within(state.cleanups, after.cleanups),
        is_within(state.contexts, after.contexts),
        has_fewer_edges(state, after),
    ensures
        is_ordered(after),
{
    let old_ones = state.generations;
    let later = after.generations;
    lemma_known_on(old_ones, state.subscribers, later, after.subscribers);
    lemma_known_on(old_ones, state.sources, later, after.sources);
    lemma_known_on(old_ones, state.owners, later, after.owners);
    lemma_known_on(old_ones, state.properties, later, after.properties);
    lemma_known_on(old_ones, state.cleanups, later, after.cleanups);
    lemma_known_on(old_ones, state.contexts, later, after.contexts);
    assert forall|a: u64, b: u64| #[trigger] subscribes(after, a, b) implies is_known(later, b) by {
        assert(subscribes(state, a, b));
    }
}

/// What only changes states, lists and sets stays in order.
pub(crate) proof fn lemma_ordered_same(state: RuntimeState, after: RuntimeState)
    requires
        is_ordered(state),
        after.nodes.dom() == state.nodes.dom(),
        after.generations == state.generations,
        is_within(state.subscribers, after.subscribers),
        is_within(state.sources, after.sources),
        is_within(state.owners, after.owners),
        is_within(state.properties, after.properties),
        is_within(state.cleanups, after.cleanups),
        is_within(state.contexts, after.contexts),
        has_fewer_edges(state, after),
    ensures
        is_ordered(after),
{
    assert forall|key: u64| #[trigger] node_slots(after).contents.contains_key(
        key,
    ) implies node_slots(state).contents.contains_key(key) by {
        assert(after.nodes.dom().contains(key));
    }
    lemma_ordered_on(state, after);
}

/// A runtime without anything in it is in order.
pub proof fn lemma_empty_is_ordered()
    ensures
        is_ordered(RuntimeState::empty()),
        is_young(RuntimeState::empty()),
        knows_owner(RuntimeState::empty()),
{
}

/// Registering a property keeps a runtime in order.
pub proof fn lemma_registering_is_ordered(state: RuntimeState, property: Property)
    requires
        is_ordered(state),
        knows_owner(state),
        property.node() matches Some(id) ==> is_known(state.generations, id),
    ensures
        is_ordered(state.registered(property)),
{
    let after = state.registered(property);
    assert(node_slots(after) == node_slots(state));
    assert forall|a: u64, b: u64| #[trigger] subscribes(after, a, b) implies is_known(
        after.generations,
        b,
    ) by {
        assert(subscribes(state, a, b));
    }
    if let Some(owner) = state.owner {
        lemma_known_placed(
            state.generations,
            state.properties,
            owner,
            value_or(state.properties, owner, Seq::empty()).push(property),
        );
        if let Some(id) = property.node() {
            lemma_known_placed(state.generations, state.owners, id, owner);
        }
    }
}

/// Creating a node keeps a runtime in order. The new node was handed out.
pub proof fn lemma_creating_is_ordered(state: RuntimeState, id: u64, node: ReactiveNode)
    requires
        is_ordered(state),
        knows_owner(state),
        is_new_key(state.nodes, state.generations, id),
    ensures
        is_ordered(state.with_node(id, node)),
        knows_owner(state.with_node(id, node)),
{
    let middle = RuntimeState {
        nodes: state.nodes.insert(id, node),
        generations: occupied(state.generations, id),
        ..state
    };
    assert(puts_in(node_slots(state), id, node, node_slots(middle)));
    lemma_put_in(node_slots(state), id, node, node_slots(middle), id);
    lemma_ordered_on(state, middle);
    assert(knows_owner(middle));
    lemma_registering_is_ordered(middle, property_of(id, node.node_type));
}

/// There is no trace in the graph of a key that is handed out next.
pub proof fn lemma_new_key_is_unused(state: RuntimeState, id: u64)
    requires
        is_ordered(state),
        is_new_key(state.nodes, state.generations, id),
    ensures
        !state.subscribers.contains_key(id),
        !state.sources.contains_key(id),
        !state.owners.contains_key(id),
        !state.properties.contains_key(id),
        !state.cleanups.contains_key(id),
        !state.contexts.contains_key(id),
        forall|a: u64| !#[trigger] subscribes(state, a, id),
{
    assert(!is_known(state.generations, id));
}

/// A node that is created while an owner that is there runs belongs to that
/// owner, and finds the context values that the owner has provided. Nothing is
/// turned away as long as no slot has counted half way round.
pub proof fn lemma_creating_is_owned(
    state: RuntimeState,
    owner: u64,
    id: u64,
    node: ReactiveNode,
    ty: TypeKey,
    value: ContextValue,
)
    requires
        is_ordered(state),
        is_young(state),
        state.owner == Some(owner),
        state.nodes.contains_key(owner),
        is_new_key(state.nodes, state.generations, id),
        generation_of(id) < HALF_WAY,
    ensures
        state.with_node(id, node).properties[owner] == value_or(
            state.properties,
            owner,
            Seq::empty(),
        ).push(property_of(id, node.node_type)),
        state.with_node(id, node).owners.get(id) == Some(owner),
        state.with_context(ty, value).finds_context(owner, ty, value.ty, Some(value.value)),
        state.with_context(ty, value).with_node(id, node).finds_context(
            id,
            ty,
            value.ty,
            Some(value.value),
        ),
{
    lemma_nodes_have_places(state, owner);
    lemma_new_key_is_unused(state, id);
    assert(takes(state.owners, id)) by {
        let later = occupied(state.generations, id);
        lemma_known_on(state.generations, state.owners, later, state.owners);
        lemma_has_place(later, state.owners, id);
    }
    lemma_new_node_is_owned(state, owner, id, node);
    lemma_provided_context(state, owner, ty, value, id, node);
}

/// A cleanup function that is registered while an owner that is there runs
/// belongs to that owner.
pub proof fn lemma_cleanup_has_owner(state: RuntimeState, owner: u64, cleanup: CleanupId)
    requires
        is_ordered(state),
        is_young(state),
        state.owner == Some(owner),
        state.nodes.contains_key(owner),
    ensures
        state.with_cleanup(cleanup).cleanups[owner] == value_or(
            state.cleanups,
            owner,
            Seq::empty(),
        ).push(cleanup),
{
    lemma_nodes_have_places(state, owner);
    lemma_cleanup_is_owned(state, owner, cleanup);
}

/// Creating a node keeps the graph consistent, and everyone told.
pub proof fn lemma_creating_is_consistent(state: RuntimeState, id: u64, node: ReactiveNode)
    requires
        is_ordered(state),
        is_consistent(state),
        is_new_key(state.nodes, state.generations, id),
    ensures
        is_consistent(state.with_node(id, node)),
        tells_all(state) ==> tells_all(state.with_node(id, node)),
{
    lemma_new_key_is_unused(state, id);
    lemma_new_node_is_consistent(state, id, node);
}

/// Reading a node that is there keeps the graph consistent, as long as no slot
/// has counted half way round.
pub proof fn lemma_reading_nodes_is_consistent(state: RuntimeState, id: u64)
    requires
        is_ordered(state),
        is_young(state),
        is_consistent(state),
        state.observer matches Some(observer) ==> state.nodes.contains_key(observer),
    ensures
        is_consistent(state.subscribed(id)),
{
    if let Some(observer) = state.observer {
        lemma_nodes_have_places(state, observer);
    }
    lemma_reading_is_consistent(state, id);
}

/// A cleanup function keeps a runtime in order.
pub proof fn lemma_cleanup_is_ordered(state: RuntimeState, cleanup: CleanupId)
    requires
        is_ordered(state),
        knows_owner(state),
    ensures
        is_ordered(state.with_cleanup(cleanup)),
{
    let after = state.with_cleanup(cleanup);
    assert(node_slots(after) == node_slots(state));
    assert forall|a: u64, b: u64| #[trigger] subscribes(after, a, b) implies is_known(
        after.generations,
        b,
    ) by {
        assert(subscribes(state, a, b));
    }
    if let Some(owner) = state.owner {
        lemma_known_placed(
            state.generations,
            state.cleanups,
            owner,
            value_or(state.cleanups, owner, Seq::empty()).push(cleanup),
        );
    }
}

/// A context value keeps a runtime in order.
pub proof fn lemma_context_is_ordered(state: RuntimeState, ty: TypeKey, value: ContextValue)
    requires
        is_ordered(state),
        knows_owner(state),
    ensures
        is_ordered(state.with_context(ty, value)),
{
    let after = state.with_context(ty, value);
    assert(node_slots(after) == node_slots(state));
    assert forall|a: u64, b: u64| #[trigger] subscribes(after, a, b) implies is_known(
        after.generations,
        b,
    ) by {
        assert(subscribes(state, a, b));
    }
    if let Some(owner) = state.owner {
        lemma_known_placed(
            state.generations,
            state.contexts,
            owner,
            value_or(state.contexts, owner, Map::empty()).insert(ty.0, value),
        );
    }
}

/// A stored value keeps a runtime in order.
pub proof fn lemma_storing_is_ordered(state: RuntimeState, id: u64, value: ValueId)
    requires
        is_ordered(state),
        knows_owner(state),
    ensures
        is_ordered(state.with_stored_value(id, value)),
{
    let middle = RuntimeState {
        stored_values: state.stored_values.insert(id, value),
        stored_value_generations: occupied(state.stored_value_generations, id),
        ..state
    };
    lemma_ordered_same(state, middle);
    lemma_registering_is_ordered(middle, Property::StoredValue(id));
}

/// Reading a node keeps a runtime in order.
pub proof fn lemma_reading_is_ordered(state: RuntimeState, id: u64)
    requires
        is_ordered(state),
        knows_owner(state),
        is_known(state.generations, id),
    ensures
        is_ordered(state.subscribed(id)),
{
    assert(node_slots(state.subscribed(id)) == node_slots(state));
    if let Some(observer) = state.observer {
        lemma_known_placed(
            state.generations,
            state.subscribers,
            id,
            inserted(state.subscribers_of(id), observer),
        );
        lemma_known_placed(
            state.generations,
            state.sources,
            observer,
            inserted(state.sources_of(observer), id),
        );
        let after = state.subscribed(id);
        assert forall|a: u64, b: u64| #[trigger] subscribes(after, a, b) implies is_known(
            state.generations,
            b,
        ) by {
            if b != observer {
                let old_ones = state.subscribers_of(id);
                if a == id && !old_ones.contains(b) {
                    let j = old_ones.push(observer).index_of(b);
                    assert(old_ones.push(observer)[j] == b);
                }
                assert(subscribes(state, a, b));
            }
        }
    }
}

/// Letting go of sources, running, and marking keep a runtime in order.
pub proof fn lemma_running_is_ordered(
    state: RuntimeState,
    id: u64,
    changed: bool,
    node_state: ReactiveNodeState,
)
    requires
        is_ordered(state),
    ensures
        is_ordered(state.unsubscribed(id)),
        is_ordered(state.has_run(id, changed)),
        is_ordered(state.with_state(id, node_state)),
        state.nodes.dom().finite() ==> is_ordered(state.marked_dirty(id)),
{
    assert(has_fewer_edges(state, state.unsubscribed(id))) by {
        assert forall|a: u64, b: u64| #[trigger]
            subscribes(state.unsubscribed(id), a, b) implies subscribes(state, a, b) by {
            if state.sources_of(id).contains(a) && state.subscribers.contains_key(a) {
                lemma_removed_is_subset(state.subscribers_of(a), id, b);
            }
        }
    }
    lemma_ordered_same(state, state.unsubscribed(id));
    assert(state.has_run(id, changed).nodes.dom() =~= state.nodes.dom());
    lemma_ordered_same(state, state.has_run(id, changed));
    assert(state.with_state(id, node_state).nodes.dom() =~= state.nodes.dom());
    lemma_ordered_same(state, state.with_state(id, node_state));
    if state.nodes.dom().finite() && state.nodes.contains_key(id) && state.nodes[id].state
        != ReactiveNodeState::DirtyMarked {
        lemma_mark_dirty(state, id);
        lemma_ordered_same(state, state.marked_dirty(id));
    }
}

/// Taking a node out of the graph keeps a runtime in order, as long as no slot
/// has counted half way round.
pub proof fn lemma_leaving_is_ordered(state: RuntimeState, id: u64)
    requires
        is_ordered(state),
        is_young(state),
    ensures
        is_ordered(state.detached(id)),
        is_ordered(state.without_node(id)),
        counts_all_up(state, state.detached(id)),
        counts_all_up(state, state.without_node(id)),
{
    if state.nodes.contains_key(id) {
        assert(node_slots(state).contents.contains_key(id));
        assert(state.generations.contains_key(slot_of(id)));
    }
    assert(takes_out(node_slots(state), id, node_slots(state.detached(id))));
    lemma_take_out(node_slots(state), id, node_slots(state.detached(id)), id);
    lemma_ordered_on(state, state.detached(id));
    assert(takes_out(node_slots(state), id, node_slots(state.without_node(id))));
    lemma_ordered_on(state, state.without_node(id));
}

/// What was handed out before counts as handed out after.
pub open spec fn counts_all_up(before: RuntimeState, after: RuntimeState) -> bool {
    forall|id: u64| #[trigger]
        is_known(before.generations, id) ==> is_known(after.generations, id)
}

/// The code of the embedding program keeps a runtime in order, as long as no
/// slot has counted half way round.
pub open spec fn keeps_order<W, F: Fn(Runtime, W, Call) -> (Runtime, W, bool)>(call: F) -> bool {
    forall|before: Moment<W>, request: Call, after: Moment<W>, answer: bool| #[trigger]
        answers(call, before, request, after, answer) && is_ordered(before.state) && is_young(
            before.state,
        ) ==> is_ordered(after.state)
}

/// Every task of settling and disposing keeps a runtime in order, as long as the
/// code that runs meanwhile does and no slot has counted half way round.
pub proof fn lemma_task_is_ordered<W, F: Fn(Runtime, W, Call) -> (Runtime, W, bool)>(
    call: F,
    before: Moment<W>,
    list: Seq<Work>,
    after: Moment<W>,
    rest: Seq<Work>,
)
    requires
        keeps_order(call),
        is_ordered(before.state),
        is_young(before.state),
        advances(call, before, list, after, rest),
    ensures
        is_ordered(after.state),
{
    let more = choose|more: Seq<Work>| #[trigger]
        deals(call, before, list.first(), after, more) && rest == more + list.drop_first();
    match list.first() {
        Work::Update(id) => {
            lemma_update_is_ordered(call, before, id, after);
        },
        Work::Cleanup(cleanup) => {
            let answer = choose|answer: bool| #[trigger]
                answers(call, before, Call::Cleanup(cleanup), after, answer);
        },
        Work::Detach(id) => {
            lemma_leaving_is_ordered(before.state, id);
        },
        _ => {
            assert(after.state.nodes.dom() =~= before.state.nodes.dom());
            lemma_ordered_same(before.state, after.state);
        },
    }
}

proof fn lemma_update_is_ordered<W, F: Fn(Runtime, W, Call) -> (Runtime, W, bool)>(
    call: F,
    before: Moment<W>,
    id: u64,
    after: Moment<W>,
)
    requires
        keeps_order(call),
        is_ordered(before.state),
        is_young(before.state),
        updates(call, before, id, after),
    ensures
        is_ordered(after.state),
{
    if before.state.nodes.contains_key(id) {
        let node = before.state.nodes[id];
        let f = match node.node_type {
            ReactiveNodeType::Memo { f } => Some(f),
            ReactiveNodeType::Effect { f } => Some(f),
            _ => None,
        };
        if let Some(f) = f {
            let (ran, changed) = choose|ran: Moment<W>, changed: bool| #[trigger]
                answers(
                    call,
                    before.with(before.state.observed_by(id).unsubscribed(id)),
                    (Call::Run { f, value: node.value }),
                    ran,
                    changed,
                ) && after == ran.with(ran.state.observed_as(before.state).has_run(id, changed));
            let observed = before.state.observed_by(id);
            lemma_ordered_same(before.state, observed);
            lemma_running_is_ordered(observed, id, true, ReactiveNodeState::Clean);
            assert(is_young(observed.unsubscribed(id)));
            let back = ran.state.observed_as(before.state);
            lemma_ordered_same(ran.state, back);
            lemma_running_is_ordered(back, id, changed, ReactiveNodeState::Clean);
        } else {
            lemma_running_is_ordered(before.state, id, true, ReactiveNodeState::Clean);
        }
    }
}

} // verus!
