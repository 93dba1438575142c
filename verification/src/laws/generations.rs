//! Keys that are not handed out again.
//!
//! A slot counts its generation up when a value is put into it and when one is
//! taken out. Before the count goes full circle, a key whose value has been
//! taken out finds nothing any more.
use crate::keys::{generation_of, is_null, slot_of, HALF};
use crate::laws::marking::lemma_mark_dirty;
use crate::node::{AnyResource, ReactiveNode, ReactiveNodeState, ValueId};
use crate::slots::{is_new_key, occupied, vacated};
use crate::state::RuntimeState;
use vstd::prelude::*;

verus! {

/// The last generation. After it the count starts over.
pub const LAST_GENERATION: u64 = 0xffff_ffff;

/// What a slot map holds, and how far its slots have counted.
pub struct Slots<V> {
    pub contents: Map<u64, V>,
    pub generations: Map<u64, u64>,
}

/// A slot map is put together: a value is under the generation that its slot has
/// come to, and under no null key.
pub open spec fn is_aged<V>(slots: Slots<V>) -> bool {
    forall|key: u64| #[trigger]
        slots.contents.contains_key(key) ==> !is_null(key) && slots.generations.contains_key(
            slot_of(key),
        ) && slots.generations[slot_of(key)] == generation_of(key)
}

/// The slot of a key has counted past the key.
pub open spec fn is_spent(generations: Map<u64, u64>, key: u64) -> bool {
    generations.contains_key(slot_of(key)) && generation_of(key) < generations[slot_of(key)]
}

/// No slot has come to the last generation.
pub open spec fn is_fresh(generations: Map<u64, u64>) -> bool {
    forall|slot: u64| #[trigger]
        generations.contains_key(slot) ==> generations[slot] < LAST_GENERATION
}

/// What the operations of a slot map do: put a value in under a new key, take one
/// out, or change values in place.
pub open spec fn slots_move<V>(before: Slots<V>, after: Slots<V>) -> bool {
    ||| exists|key: u64, value: V| #[trigger] puts_in(before, key, value, after)
    ||| exists|key: u64| #[trigger] takes_out(before, key, after)
    ||| after.contents.dom() == before.contents.dom() && after.generations == before.generations
}

/// A value has been put in.
pub open spec fn puts_in<V>(before: Slots<V>, key: u64, value: V, after: Slots<V>) -> bool {
    is_new_key(before.contents, before.generations, key) && after == (Slots {
        contents: before.contents.insert(key, value),
        generations: occupied(before.generations, key),
    })
}

/// A value, if there was one, has been taken out.
pub open spec fn takes_out<V>(before: Slots<V>, key: u64, after: Slots<V>) -> bool {
    after == (Slots {
        contents: before.contents.remove(key),
        generations: vacated(before.contents, before.generations, key),
    })
}

/// A key is its slot together with its generation.
pub proof fn lemma_same_key(a: u64, b: u64)
    requires
        slot_of(a) == slot_of(b),
        generation_of(a) == generation_of(b),
    ensures
        a == b,
{
    assert(a == (a / HALF) * HALF + a % HALF) by (nonlinear_arith)
        requires
            HALF == 0x1_0000_0000,
    ;
    assert(b == (b / HALF) * HALF + b % HALF) by (nonlinear_arith)
        requires
            HALF == 0x1_0000_0000,
    ;
}

/// A spent key finds nothing.
pub proof fn lemma_spent_is_gone<V>(slots: Slots<V>, key: u64)
    requires
        is_aged(slots),
        is_spent(slots.generations, key),
    ensures
        !slots.contents.contains_key(key),
{
}

/// An empty slot map is put together.
pub proof fn lemma_empty_is_aged<V>(slots: Slots<V>)
    requires
        slots.contents == Map::<u64, V>::empty(),
    ensures
        is_aged(slots),
{
}

/// Putting a value in keeps a slot map put together. The new key is not spent,
/// and a spent key stays spent, so the two differ.
pub proof fn lemma_put_in<V>(before: Slots<V>, new: u64, value: V, after: Slots<V>, key: u64)
    requires
        is_aged(before),
        puts_in(before, new, value, after),
    ensures
        is_aged(after),
        !is_spent(after.generations, new),
        is_spent(before.generations, key) ==> is_spent(after.generations, key) && key != new,
{
    assert forall|k: u64| #[trigger] after.contents.contains_key(k) implies !is_null(k)
        && after.generations.contains_key(slot_of(k)) && after.generations[slot_of(k)]
        == generation_of(k) by {
        if k != new {
            assert(before.contents.contains_key(k));
        }
    }
}

/// Taking a value out keeps a slot map put together, and the key is spent then,
/// unless it is of the last generation. A spent key stays spent.
pub proof fn lemma_take_out<V>(before: Slots<V>, old_key: u64, after: Slots<V>, key: u64)
    requires
        is_aged(before),
        takes_out(before, old_key, after),
        before.contents.contains_key(old_key) ==> generation_of(old_key) < LAST_GENERATION,
    ensures
        is_aged(after),
        before.contents.contains_key(old_key) ==> is_spent(after.generations, old_key),
        is_spent(before.generations, key) ==> is_spent(after.generations, key),
{
    assert forall|k: u64| #[trigger] after.contents.contains_key(k) implies !is_null(k)
        && after.generations.contains_key(slot_of(k)) && after.generations[slot_of(k)]
        == generation_of(k) by {
        assert(before.contents.contains_key(k));
        if before.contents.contains_key(old_key) && slot_of(k) == slot_of(old_key) {
            lemma_same_key(k, old_key);
        }
    }
}

/// Whatever is done with a slot map in which no slot has come to the last
/// generation, it stays put together, and what is spent stays spent.
pub proof fn lemma_move<V>(before: Slots<V>, after: Slots<V>, key: u64)
    requires
        is_aged(before),
        is_fresh(before.generations),
        slots_move(before, after),
    ensures
        is_aged(after),
        is_spent(before.generations, key) ==> is_spent(after.generations, key),
{
    if exists|new: u64, value: V| #[trigger] puts_in(before, new, value, after) {
        let (new, value) = choose|new: u64, value: V| #[trigger]
            puts_in(before, new, value, after);
        lemma_put_in(before, new, value, after, key);
    } else if exists|old_key: u64| #[trigger] takes_out(before, old_key, after) {
        let old_key = choose|old_key: u64| #[trigger] takes_out(before, old_key, after);
        lemma_take_out(before, old_key, after, key);
    } else {
        assert forall|k: u64| #[trigger] after.contents.contains_key(k) implies !is_null(k)
            && after.generations.contains_key(slot_of(k)) && after.generations[slot_of(k)]
            == generation_of(k) by {
            assert(after.contents.dom().contains(k));
            assert(before.contents.contains_key(k));
        }
    }
}

/// What a slot map goes through, from one operation to the next, without a slot
/// coming to the last generation.
pub open spec fn is_history<V>(history: Seq<Slots<V>>) -> bool {
    &&& history.len() > 0
    &&& is_aged(history[0])
    &&& forall|i: int|
        #![trigger history[i]]
        0 <= i < history.len() ==> is_fresh(history[i].generations)
    &&& forall|i: int, j: int|
        #![trigger history[i], history[j]]
        0 <= i && j == i + 1 && j < history.len() ==> slots_move(history[i], history[j])
}

/// A key that is spent finds nothing from then on, and is not handed out again,
/// for as long as no slot has come to the last generation.
pub proof fn lemma_spent_for_good<V>(history: Seq<Slots<V>>, key: u64)
    requires
        is_history(history),
        is_spent(history[0].generations, key),
    ensures
        is_aged(history.last()),
        is_spent(history.last().generations, key),
        !history.last().contents.contains_key(key),
        !is_new_key(history.last().contents, history.last().generations, key),
    decreases history.len(),
{
    if history.len() > 1 {
        let shorter = history.drop_last();
        assert(is_history(shorter)) by {
            assert(shorter[0] == history[0]);
            assert forall|i: int|
                #![trigger shorter[i]]
                0 <= i < shorter.len() implies is_fresh(shorter[i].generations) by {
                assert(shorter[i] == history[i]);
            }
            assert forall|i: int, j: int|
                #![trigger shorter[i], shorter[j]]
                0 <= i && j == i + 1 && j < shorter.len() implies slots_move(
                shorter[i],
                shorter[j],
            ) by {
                assert(shorter[i] == history[i] && shorter[j] == history[j]);
            }
        }
        lemma_spent_for_good(shorter, key);
        let last = history.len() - 1;
        assert(slots_move(history[last - 1], history[last]));
        assert(is_fresh(history[last - 1].generations));
        lemma_move(history[last - 1], history[last], key);
    }
    lemma_spent_is_gone(history.last(), key);
}

/// A value that has been taken out of a slot map cannot be found under its key
/// again.
pub proof fn lemma_taken_out_for_good<V>(before: Slots<V>, key: u64, history: Seq<Slots<V>>)
    requires
        is_aged(before),
        is_fresh(before.generations),
        before.contents.contains_key(key),
        is_history(history),
        takes_out(before, key, history[0]),
    ensures
        !history.last().contents.contains_key(key),
{
    lemma_take_out(before, key, history[0], key);
    lemma_spent_for_good(history, key);
}

// The slot maps of a runtime

/// The nodes of a runtime.
pub open spec fn node_slots(state: RuntimeState) -> Slots<ReactiveNode> {
    Slots { contents: state.nodes, generations: state.generations }
}

/// The resources of a runtime.
pub open spec fn resource_slots(state: RuntimeState) -> Slots<AnyResource> {
    Slots { contents: state.resources, generations: state.resource_generations }
}

/// The stored values of a runtime.
pub open spec fn stored_value_slots(state: RuntimeState) -> Slots<ValueId> {
    Slots { contents: state.stored_values, generations: state.stored_value_generations }
}

/// Creating a node, disposing of it and forgetting it are operations of a slot
/// map, and so is everything that only changes states.
pub proof fn lemma_nodes_move(
    state: RuntimeState,
    id: u64,
    node: ReactiveNode,
    node_state: ReactiveNodeState,
    changed: bool,
)
    ensures
        is_new_key(state.nodes, state.generations, id) ==> puts_in(
            node_slots(state),
            id,
            node,
            node_slots(state.with_node(id, node)),
        ),
        takes_out(node_slots(state), id, node_slots(state.detached(id))),
        takes_out(node_slots(state), id, node_slots(state.without_node(id))),
        slots_move(node_slots(state), node_slots(state.with_state(id, node_state))),
        slots_move(node_slots(state), node_slots(state.has_run(id, changed))),
        state.nodes.dom().finite() ==> slots_move(
            node_slots(state),
            node_slots(state.marked_dirty(id)),
        ),
{
    assert(state.with_state(id, node_state).nodes.dom() =~= state.nodes.dom());
    assert(state.has_run(id, changed).nodes.dom() =~= state.nodes.dom());
    if state.nodes.dom().finite() && state.nodes.contains_key(id) && state.nodes[id].state
        != ReactiveNodeState::DirtyMarked {
        lemma_mark_dirty(state, id);
    }
}

/// Creating and disposing of resources and stored values are operations of slot
/// maps.
pub proof fn lemma_values_move(
    state: RuntimeState,
    id: u64,
    resource: AnyResource,
    value: ValueId,
)
    ensures
        is_new_key(state.resources, state.resource_generations, id) ==> puts_in(
            resource_slots(state),
            id,
            resource,
            resource_slots(state.with_resource(id, resource)),
        ),
        takes_out(resource_slots(state), id, resource_slots(state.without_resource(id))),
        is_new_key(state.stored_values, state.stored_value_generations, id) ==> puts_in(
            stored_value_slots(state),
            id,
            value,
            stored_value_slots(state.with_stored_value(id, value)),
        ),
        takes_out(
            stored_value_slots(state),
            id,
            stored_value_slots(state.without_stored_value(id)),
        ),
{
}

} // verus!
