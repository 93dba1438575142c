//! What every operation keeps true of the graph.
use crate::agenda::{
    advances, answers, completes, deals, reaches, updates, works_off, Call, Moment, Work, LIMIT,
};
use crate::keys::slot_of;
use crate::laws::marking::{lemma_mark_dirty, lemma_mark_dirty_tells_all, subscribes, tells_all};
use crate::node::{ReactiveNode, ReactiveNodeState, ReactiveNodeType};
use crate::runtime::Runtime;
use crate::secondary::offers;
use crate::sets::{inserted, swap_removed};
use crate::slots::is_new_key;
use crate::state::RuntimeState;
use vstd::prelude::*;

verus! {

/// The nodes have slots of their own.
pub open spec fn own_slots(state: RuntimeState) -> bool {
    forall|a: u64, b: u64|
        #![trigger state.nodes.contains_key(a), state.nodes.contains_key(b)]
        state.nodes.contains_key(a) && state.nodes.contains_key(b) && slot_of(a) == slot_of(b)
            ==> a == b
}

/// No edge is recorded twice.
pub open spec fn edges_are_sets(state: RuntimeState) -> bool {
    &&& forall|id: u64| #[trigger] state.subscribers_of(id).no_duplicates()
    &&& forall|id: u64| #[trigger] state.sources_of(id).no_duplicates()
}

/// Every node knows what it subscribes to.
pub open spec fn subscribers_know(state: RuntimeState) -> bool {
    forall|a: u64, b: u64| #[trigger]
        subscribes(state, a, b) && state.nodes.contains_key(b) ==> state.sources_of(b).contains(a)
}

/// The nodes and the edges of the graph fit together.
pub open spec fn is_consistent(state: RuntimeState) -> bool {
    &&& state.nodes.dom().finite()
    &&& own_slots(state)
    &&& edges_are_sets(state)
    &&& subscribers_know(state)
}

/// Insertion adds one item to a set.
pub(crate) proof fn lemma_inserted(ids: Seq<u64>, id: u64)
    requires
        ids.no_duplicates(),
    ensures
        inserted(ids, id).no_duplicates(),
        forall|other: u64| #[trigger]
            inserted(ids, id).contains(other) <==> ids.contains(other) || other == id,
{
    if !ids.contains(id) {
        let after = ids.push(id);
        assert forall|other: u64| #[trigger] after.contains(other) <==> ids.contains(other)
            || other == id by {
            if ids.contains(other) {
                assert(after[ids.index_of(other)] == other);
            }
            if other == id {
                assert(after[ids.len() as int] == id);
            }
            if after.contains(other) && other != id {
                assert(ids[after.index_of(other)] == other);
            }
        }
    }
}

/// Removal takes one item out of a set.
pub(crate) proof fn lemma_swap_removed(ids: Seq<u64>, id: u64)
    requires
        ids.no_duplicates(),
    ensures
        swap_removed(ids, id).no_duplicates(),
        forall|other: u64| #[trigger]
            swap_removed(ids, id).contains(other) <==> ids.contains(other) && other != id,
{
    if ids.contains(id) {
        let at = ids.index_of(id);
        let last = ids.len() - 1;
        let after = swap_removed(ids, id);
        assert forall|i: int| 0 <= i < after.len() implies #[trigger] after[i] == (if i == at {
            ids[last]
        } else {
            ids[i]
        }) by {}
        assert forall|other: u64| #[trigger] after.contains(other) <==> ids.contains(other)
            && other != id by {
            if after.contains(other) {
                let i = after.index_of(other);
                assert(ids.contains(after[i]));
            }
            if ids.contains(other) && other != id {
                let i = ids.index_of(other);
                if i == last {
                    assert(after[at] == other);
                } else {
                    assert(after[i] == other);
                }
            }
        }
    }
}

/// A graph without anything in it is consistent.
pub proof fn lemma_empty_is_consistent()
    ensures
        is_consistent(RuntimeState::empty()),
        tells_all(RuntimeState::empty()),
{
    let state = RuntimeState::empty();
    assert(state.nodes.dom() =~= Set::empty());
    assert forall|id: u64| #[trigger] state.subscribers_of(id).no_duplicates() by {}
    assert forall|id: u64| #[trigger] state.sources_of(id).no_duplicates() by {}
}

/// A new node keeps the graph consistent, provided that no trace is left of an
/// earlier node with the same key.
pub proof fn lemma_new_node_is_consistent(state: RuntimeState, id: u64, node: ReactiveNode)
    requires
        is_consistent(state),
        is_new_key(state.nodes, state.generations, id),
        state.subscribers_of(id).len() == 0,
        forall|a: u64| !#[trigger] subscribes(state, a, id),
    ensures
        is_consistent(state.with_node(id, node)),
        tells_all(state) ==> tells_all(state.with_node(id, node)),
{
    let after = state.with_node(id, node);
    assert(after.nodes == state.nodes.insert(id, node));
    assert(after.nodes.dom() =~= state.nodes.dom().insert(id));
    assert forall|a: u64, b: u64| #[trigger] subscribes(after, a, b) <==> subscribes(
        state,
        a,
        b,
    ) by {}
    assert forall|x: u64| #[trigger] after.subscribers_of(x).no_duplicates() by {
        assert(state.subscribers_of(x).no_duplicates());
    }
    assert forall|x: u64| #[trigger] after.sources_of(x).no_duplicates() by {
        assert(state.sources_of(x).no_duplicates());
    }
    assert forall|a: u64, b: u64| #[trigger]
        subscribes(after, a, b) && after.nodes.contains_key(b) implies after.sources_of(b).contains(
        a,
    ) by {
        assert(subscribes(state, a, b));
        assert(b != id);
    }
    if tells_all(state) {
        assert forall|a: u64, b: u64| #[trigger]
            subscribes(after, a, b) && after.state_of(a) != ReactiveNodeState::Clean
                && after.nodes.contains_key(b) implies after.state_of(b)
            != ReactiveNodeState::Clean by {
            assert(subscribes(state, a, b));
            assert(a != id && b != id);
        }
    }
}

/// Reading a node keeps the graph consistent, provided that the observer is
/// there and its sources can be recorded. If the observer is not up to date, as
/// is the case while it runs, it need not be told anything.
pub proof fn lemma_reading_is_consistent(state: RuntimeState, id: u64)
    requires
        is_consistent(state),
        state.observer matches Some(observer) ==> state.nodes.contains_key(observer) && offers(
            state.sources,
            observer,
        ),
    ensures
        is_consistent(state.subscribed(id)),
        tells_all(state) && (state.observer matches Some(observer) ==> state.state_of(observer)
            != ReactiveNodeState::Clean) ==> tells_all(state.subscribed(id)),
{
    if let Some(observer) = state.observer {
        let after = state.subscribed(id);
        lemma_inserted(state.subscribers_of(id), observer);
        lemma_inserted(state.sources_of(observer), id);
        assert forall|x: u64| #[trigger] after.subscribers_of(x).no_duplicates() by {
            assert(state.subscribers_of(x).no_duplicates());
        }
        assert forall|x: u64| #[trigger] after.sources_of(x).no_duplicates() by {
            assert(state.sources_of(x).no_duplicates());
        }
        assert forall|a: u64, b: u64| #[trigger] subscribes(after, a, b) implies subscribes(
            state,
            a,
            b,
        ) || (a == id && b == observer) by {}
        assert forall|a: u64, b: u64| #[trigger]
            subscribes(after, a, b) && after.nodes.contains_key(b) implies after.sources_of(
            b,
        ).contains(a) by {
            if subscribes(state, a, b) {
                assert(state.sources_of(b).contains(a));
                if b != observer {
                    assert(slot_of(b) != slot_of(observer));
                    assert(after.sources_of(b) == state.sources_of(b));
                }
            }
        }
        if tells_all(state) && state.state_of(observer) != ReactiveNodeState::Clean {
            assert forall|a: u64, b: u64| #[trigger]
                subscribes(after, a, b) && after.state_of(a) != ReactiveNodeState::Clean
                    && after.nodes.contains_key(b) implies after.state_of(b)
                != ReactiveNodeState::Clean by {
                if subscribes(state, a, b) {
                }
            }
        }
    }
}

proof fn lemma_unsubscribed_edges(state: RuntimeState, id: u64)
    requires
        edges_are_sets(state),
    ensures
        edges_are_sets(state.unsubscribed(id)),
        forall|a: u64, b: u64| #[trigger]
            subscribes(state.unsubscribed(id), a, b) <==> subscribes(state, a, b) && !(b == id
                && state.sources_of(id).contains(a)),
{
    let after = state.unsubscribed(id);
    assert forall|x: u64| #[trigger]
        after.subscribers_of(x) == if state.sources_of(id).contains(x) {
            swap_removed(state.subscribers_of(x), id)
        } else {
            state.subscribers_of(x)
        } by {}
    assert forall|x: u64| #[trigger] after.subscribers_of(x).no_duplicates() by {
        assert(state.subscribers_of(x).no_duplicates());
        lemma_swap_removed(state.subscribers_of(x), id);
    }
    assert forall|x: u64| #[trigger] after.sources_of(x).no_duplicates() by {
        assert(state.sources_of(x).no_duplicates());
    }
    assert forall|a: u64, b: u64| #[trigger] subscribes(after, a, b) <==> subscribes(state, a, b)
        && !(b == id && state.sources_of(id).contains(a)) by {
        assert(state.subscribers_of(a).no_duplicates());
        lemma_swap_removed(state.subscribers_of(a), id);
    }
}

/// A node that lets go of its sources keeps the graph consistent, and
/// subscribes to nothing at all until it reads again.
pub proof fn lemma_letting_go_is_consistent(state: RuntimeState, id: u64)
    requires
        is_consistent(state),
    ensures
        is_consistent(state.unsubscribed(id)),
        tells_all(state) ==> tells_all(state.unsubscribed(id)),
        state.nodes.contains_key(id) ==> forall|a: u64|
            !#[trigger] subscribes(state.unsubscribed(id), a, id),
{
    let after = state.unsubscribed(id);
    lemma_unsubscribed_edges(state, id);
    assert forall|a: u64, b: u64| #[trigger]
        subscribes(after, a, b) && after.nodes.contains_key(b) implies after.sources_of(b).contains(
        a,
    ) by {
        assert(subscribes(state, a, b));
    }
    if tells_all(state) {
        assert forall|a: u64, b: u64| #[trigger]
            subscribes(after, a, b) && after.state_of(a) != ReactiveNodeState::Clean
                && after.nodes.contains_key(b) implies after.state_of(b)
            != ReactiveNodeState::Clean by {
            assert(subscribes(state, a, b));
        }
    }
    if state.nodes.contains_key(id) {
        assert forall|a: u64| !#[trigger] subscribes(after, a, id) by {
            if subscribes(state, a, id) {
                assert(state.sources_of(id).contains(a));
            }
        }
    }
}

/// Taking a node out of the graph keeps it consistent. The node is gone with
/// its edges, and nothing that subscribed to it counts it among its sources.
pub proof fn lemma_detaching_is_consistent(state: RuntimeState, id: u64)
    requires
        is_consistent(state),
    ensures
        is_consistent(state.detached(id)),
        tells_all(state) ==> tells_all(state.detached(id)),
        state.detached(id).is_absent(id),
        forall|b: u64| #[trigger]
            subscribes(state, id, b) ==> !state.detached(id).sources_of(b).contains(id),
{
    let after = state.detached(id);
    assert(after.nodes.dom() =~= state.nodes.dom().remove(id));
    assert forall|x: u64| #[trigger]
        after.sources_of(x) == if x == id {
            Seq::empty()
        } else if state.subscribers_of(id).contains(x) {
            swap_removed(state.sources_of(x), id)
        } else {
            state.sources_of(x)
        } by {}
    assert forall|x: u64| #[trigger] after.subscribers_of(x).no_duplicates() by {
        assert(state.subscribers_of(x).no_duplicates());
    }
    assert forall|x: u64| #[trigger] after.sources_of(x).no_duplicates() by {
        assert(state.sources_of(x).no_duplicates());
        lemma_swap_removed(state.sources_of(x), id);
    }
    assert forall|a: u64, b: u64| #[trigger] subscribes(after, a, b) implies subscribes(state, a, b)
        && a != id by {}
    assert forall|a: u64, b: u64| #[trigger]
        subscribes(after, a, b) && after.nodes.contains_key(b) implies after.sources_of(b).contains(
        a,
    ) by {
        assert(subscribes(state, a, b));
        assert(state.sources_of(b).no_duplicates());
        lemma_swap_removed(state.sources_of(b), id);
    }
    assert forall|b: u64| #[trigger] subscribes(state, id, b) implies !after.sources_of(b).contains(
        id,
    ) by {
        assert(state.sources_of(b).no_duplicates());
        lemma_swap_removed(state.sources_of(b), id);
    }
    if tells_all(state) {
        assert forall|a: u64, b: u64| #[trigger]
            subscribes(after, a, b) && after.state_of(a) != ReactiveNodeState::Clean
                && after.nodes.contains_key(b) implies after.state_of(b)
            != ReactiveNodeState::Clean by {
            assert(subscribes(state, a, b));
        }
    }
}

/// Forgetting a node keeps the graph consistent.
pub proof fn lemma_forgetting_is_consistent(state: RuntimeState, id: u64)
    requires
        is_consistent(state),
    ensures
        is_consistent(state.without_node(id)),
        tells_all(state) ==> tells_all(state.without_node(id)),
        state.without_node(id).is_absent(id),
{
    let after = state.without_node(id);
    assert(after.nodes.dom() =~= state.nodes.dom().remove(id));
    assert forall|x: u64| #[trigger] after.subscribers_of(x).no_duplicates() by {
        assert(state.subscribers_of(x).no_duplicates());
    }
    assert forall|x: u64| #[trigger] after.sources_of(x).no_duplicates() by {
        assert(state.sources_of(x).no_duplicates());
    }
    assert forall|a: u64, b: u64| #[trigger] subscribes(after, a, b) implies subscribes(state, a, b)
        && a != id by {}
    assert forall|a: u64, b: u64| #[trigger]
        subscribes(after, a, b) && after.nodes.contains_key(b) implies after.sources_of(b).contains(
        a,
    ) by {
        assert(subscribes(state, a, b));
    }
    if tells_all(state) {
        assert forall|a: u64, b: u64| #[trigger]
            subscribes(after, a, b) && after.state_of(a) != ReactiveNodeState::Clean
                && after.nodes.contains_key(b) implies after.state_of(b)
            != ReactiveNodeState::Clean by {
            assert(subscribes(state, a, b));
        }
    }
}

/// A graph with the same nodes and the same edges is consistent as well.
pub(crate) proof fn lemma_same_edges(state: RuntimeState, after: RuntimeState)
    requires
        is_consistent(state),
        after.nodes.dom() == state.nodes.dom(),
        after.subscribers == state.subscribers,
        after.sources == state.sources,
    ensures
        is_consistent(after),
{
    assert forall|a: u64| #[trigger] after.nodes.contains_key(a) <==> state.nodes.contains_key(
        a,
    ) by {
        assert(after.nodes.dom().contains(a) <==> state.nodes.dom().contains(a));
    }
    assert forall|x: u64| #[trigger] after.subscribers_of(x).no_duplicates() by {
        assert(state.subscribers_of(x).no_duplicates());
    }
    assert forall|x: u64| #[trigger] after.sources_of(x).no_duplicates() by {
        assert(state.sources_of(x).no_duplicates());
    }
    assert forall|a: u64, b: u64| #[trigger]
        subscribes(after, a, b) && after.nodes.contains_key(b) implies after.sources_of(b).contains(
        a,
    ) by {
        assert(subscribes(state, a, b));
    }
}

/// Marking keeps the graph consistent.
pub proof fn lemma_marking_is_consistent(state: RuntimeState, id: u64)
    requires
        is_consistent(state),
    ensures
        is_consistent(state.marked_dirty(id)),
        tells_all(state) ==> tells_all(state.marked_dirty(id)),
{
    if state.nodes.contains_key(id) && state.nodes[id].state != ReactiveNodeState::DirtyMarked {
        lemma_mark_dirty(state, id);
        lemma_same_edges(state, state.marked_dirty(id));
    }
    if tells_all(state) {
        lemma_mark_dirty_tells_all(state, id);
    }
}

/// A node that has run keeps the graph consistent. Nothing goes unnoticed as
/// long as the node was not up to date before, and everything that it has read
/// is.
pub proof fn lemma_running_is_consistent(state: RuntimeState, id: u64, changed: bool)
    requires
        is_consistent(state),
    ensures
        is_consistent(state.has_run(id, changed)),
        tells_all(state) && state.state_of(id) != ReactiveNodeState::Clean && (forall|a: u64|
            #[trigger] subscribes(state, a, id) ==> state.state_of(a) == ReactiveNodeState::Clean)
            ==> tells_all(state.has_run(id, changed)),
{
    let after = state.has_run(id, changed);
    assert(after.nodes.dom() =~= state.nodes.dom());
    lemma_same_edges(state, after);
    if tells_all(state) && state.state_of(id) != ReactiveNodeState::Clean && (forall|a: u64|
        #[trigger] subscribes(state, a, id) ==> state.state_of(a) == ReactiveNodeState::Clean) {
        assert forall|a: u64, b: u64| #[trigger]
            subscribes(after, a, b) && after.state_of(a) != ReactiveNodeState::Clean
                && after.nodes.contains_key(b) implies after.state_of(b)
            != ReactiveNodeState::Clean by {
            assert(subscribes(state, a, b));
            assert(a != id);
            if state.state_of(a) == ReactiveNodeState::Clean {
                assert(subscribes(state, id, a));
            }
        }
    }
}

/// Marking a node as clean keeps the graph consistent. Nothing goes unnoticed
/// as long as all its sources are clean.
pub proof fn lemma_cleaning_is_consistent(state: RuntimeState, id: u64)
    requires
        is_consistent(state),
    ensures
        is_consistent(state.with_state(id, ReactiveNodeState::Clean)),
        tells_all(state) && (forall|a: u64| #[trigger]
            state.sources_of(id).contains(a) ==> state.state_of(a) == ReactiveNodeState::Clean)
            ==> tells_all(state.with_state(id, ReactiveNodeState::Clean)),
{
    let after = state.with_state(id, ReactiveNodeState::Clean);
    assert(after.nodes.dom() =~= state.nodes.dom());
    lemma_same_edges(state, after);
    if tells_all(state) && (forall|a: u64| #[trigger]
        state.sources_of(id).contains(a) ==> state.state_of(a) == ReactiveNodeState::Clean) {
        assert forall|a: u64, b: u64| #[trigger]
            subscribes(after, a, b) && after.state_of(a) != ReactiveNodeState::Clean
                && after.nodes.contains_key(b) implies after.state_of(b)
            != ReactiveNodeState::Clean by {
            assert(subscribes(state, a, b));
            if b == id {
                assert(state.sources_of(id).contains(a));
            }
        }
    }
}

/// The code of the embedding program keeps a consistent graph consistent.
pub open spec fn keeps_consistent<W, F: Fn(Runtime, W, Call) -> (Runtime, W, bool)>(call: F) -> bool {
    forall|before: Moment<W>, request: Call, after: Moment<W>, answer: bool| #[trigger]
        answers(call, before, request, after, answer) && is_consistent(before.state) ==> is_consistent(
            after.state,
        )
}

proof fn lemma_update_is_consistent<W, F: Fn(Runtime, W, Call) -> (Runtime, W, bool)>(
    call: F,
    before: Moment<W>,
    id: u64,
    after: Moment<W>,
)
    requires
        keeps_consistent(call),
        is_consistent(before.state),
        updates(call, before, id, after),
    ensures
        is_consistent(after.state),
{
    if before.state.nodes.contains_key(id) {
        let node = before.state.nodes[id];
        let f = match node.node_type {
            ReactiveNodeType::Memo { f } => Some(f),
            ReactiveNodeType::Effect { f } => Some(f),
            _ => None,
        };
        if let Some(f) = f {
            let (ran, changed) = choose|ran: Moment<W>, changed: bool| #[trigger]
                answers(
                    call,
                    before.with(before.state.observed_by(id).unsubscribed(id)),
                    (Call::Run { f, value: node.value }),
                    ran,
                    changed,
                ) && after == ran.with(
                    ran.state.observed_as(before.state).has_run(id, changed),
                );
            lemma_same_edges(before.state, before.state.observed_by(id));
            lemma_letting_go_is_consistent(before.state.observed_by(id), id);
            lemma_same_edges(ran.state, ran.state.observed_as(before.state));
            lemma_running_is_consistent(ran.state.observed_as(before.state), id, changed);
        } else {
            lemma_running_is_consistent(before.state, id, true);
        }
    }
}

proof fn lemma_reaching_is_consistent<W, F: Fn(Runtime, W, Call) -> (Runtime, W, bool)>(
    call: F,
    before: Moment<W>,
    list: Seq<Work>,
    steps: nat,
    after: Moment<W>,
    rest: Seq<Work>,
)
    requires
        keeps_consistent(call),
        is_consistent(before.state),
        reaches(call, before, list, steps, after, rest),
    ensures
        is_consistent(after.state),
    decreases steps,
{
    if steps > 0 {
        let (state, work) = choose|state: Moment<W>, work: Seq<Work>|
            reaches(call, before, list, (steps - 1) as nat, state, work) && #[trigger] advances(
                call,
                state,
                work,
                after,
                rest,
            );
        lemma_reaching_is_consistent(call, before, list, (steps - 1) as nat, state, work);
        let more = choose|more: Seq<Work>| #[trigger]
            deals(call, state, work.first(), after, more) && rest == more + work.drop_first();
        match work.first() {
            Work::Update(id) => {
                lemma_update_is_consistent(call, state, id, after);
            },
            Work::Cleanup(_) => {},
            Work::Detach(id) => {
                lemma_detaching_is_consistent(state.state, id);
            },
            _ => {
                assert(after.state.nodes.dom() =~= state.state.nodes.dom());
                lemma_same_edges(state.state, after.state);
            },
        }
    }
}

/// Settling and disposing keep the graph consistent, as long as the code that
/// runs meanwhile does.
pub proof fn lemma_work_is_consistent<W, F: Fn(Runtime, W, Call) -> (Runtime, W, bool)>(
    call: F,
    before: Moment<W>,
    list: Seq<Work>,
    after: Moment<W>,
    done: bool,
)
    requires
        keeps_consistent(call),
        is_consistent(before.state),
        works_off(call, before, list, after, done),
    ensures
        is_consistent(after.state),
{
    reveal(completes);
    if done {
        let steps = choose|steps: nat| #[trigger]
            reaches(call, before, list, steps, after, Seq::empty());
        lemma_reaching_is_consistent(call, before, list, steps, after, Seq::empty());
    } else {
        let rest = choose|rest: Seq<Work>| #[trigger]
            reaches(call, before, list, LIMIT as nat, after, rest) && rest.len() > 0;
        lemma_reaching_is_consistent(call, before, list, LIMIT as nat, after, rest);
    }
}

} // verus!
