//! What each operation does to a runtime, and what it leaves as it was.
//!
//! These laws look at the parts of a runtime one by one: who subscribes to whom,
//! what each node has read, what belongs to it, and how far it is from being up
//! to date.
use crate::keys::{slot_of, ResourceId};
use crate::laws::generations::{lemma_same_key, node_slots};
use crate::laws::graph::{is_consistent, lemma_inserted, lemma_swap_removed};
use crate::laws::marking::{downstream, leads, lemma_mark_dirty, reached, subscribes};
use crate::laws::places::{
    is_ordered, is_young, knows_owner, lemma_nodes_are_known, lemma_nodes_have_places,
    lemma_reading_is_ordered, lemma_reading_nodes_is_consistent,
};
use crate::node::{
    AnyResource, CleanupId, Property, ReactiveNode, ReactiveNodeState, ReactiveNodeType,
    ResourceHandle, ValueId,
};
use crate::secondary::{offers, offers_sparse, takes, value_or};
use crate::sets::swap_removed;
use crate::slots::lists_keys;
use crate::state::{is_queued, marked, property_of, serializable, RuntimeState};
use vstd::prelude::*;

verus! {

/// The subscribers of `a` have `b` among them.
pub open spec fn edge(state: RuntimeState, a: u64, b: u64) -> bool {
    state.subscribers.contains_key(a) && state.subscribers[a].contains(b)
}

/// The sources of `b` have `a` among them.
pub open spec fn source(state: RuntimeState, b: u64, a: u64) -> bool {
    state.sources.contains_key(b) && state.sources[b].contains(a)
}

/// Nobody is listed twice.
pub open spec fn lists_once(state: RuntimeState) -> bool {
    &&& forall|a: u64| #[trigger]
        state.subscribers.contains_key(a) ==> state.subscribers[a].no_duplicates()
    &&& forall|b: u64| #[trigger] state.sources.contains_key(b) ==> state.sources[b].no_duplicates()
}

/// A consistent graph lists nobody twice, and its nodes know what they subscribe
/// to.
pub proof fn lemma_consistent_lists(state: RuntimeState, a: u64, b: u64)
    requires
        is_consistent(state),
    ensures
        lists_once(state),
        edge(state, a, b) && state.nodes.contains_key(b) ==> source(state, b, a),
{
    assert forall|x: u64| #[trigger]
        state.subscribers.contains_key(x) implies state.subscribers[x].no_duplicates() by {
        assert(state.subscribers_of(x).no_duplicates());
    }
    assert forall|x: u64| #[trigger]
        state.sources.contains_key(x) implies state.sources[x].no_duplicates() by {
        assert(state.sources_of(x).no_duplicates());
    }
    if edge(state, a, b) && state.nodes.contains_key(b) {
        assert(subscribes(state, a, b));
    }
}

/// `after` lists what `before` lists, in the same places, without `id`: the last
/// of them has its place.
pub open spec fn lists_without(before: Seq<u64>, id: u64, after: Seq<u64>) -> bool {
    if before.contains(id) {
        &&& after.len() == before.len() - 1
        &&& forall|i: int|
            #![trigger after[i]]
            0 <= i < after.len() ==> after[i] == if before[i] == id {
                before.last()
            } else {
                before[i]
            }
    } else {
        after == before
    }
}

proof fn lemma_lists_without(ids: Seq<u64>, id: u64)
    requires
        ids.no_duplicates(),
    ensures
        lists_without(ids, id, swap_removed(ids, id)),
{
    if ids.contains(id) {
        let at = ids.index_of(id);
        let after = swap_removed(ids, id);
        assert forall|i: int|
            #![trigger after[i]]
            0 <= i < after.len() implies after[i] == if ids[i] == id {
            ids.last()
        } else {
            ids[i]
        } by {
            assert(ids[at] == id);
        }
    }
}

// States

/// A node is as dirty as it says, and one that is not there is clean.
pub proof fn lemma_state_of(state: RuntimeState, id: u64)
    ensures
        state.nodes.contains_key(id) ==> state.state_of(id) == state.nodes[id].state,
        !state.nodes.contains_key(id) ==> state.state_of(id) == ReactiveNodeState::Clean,
        state.state_of(id).needs_update() <==> state.state_of(id) == ReactiveNodeState::Dirty
            || state.state_of(id) == ReactiveNodeState::DirtyMarked,
{
}

/// Giving a node another state changes that state and nothing else. A node that
/// is not there does not come into being.
pub proof fn lemma_with_state(state: RuntimeState, id: u64, to: ReactiveNodeState, n: u64)
    ensures
        ({
            let after = state.with_state(id, to);
            &&& after == (RuntimeState { nodes: after.nodes, ..state })
            &&& after.nodes.contains_key(n) <==> state.nodes.contains_key(n)
            &&& state.nodes.contains_key(n) ==> after.nodes[n] == (ReactiveNode {
                state: if n == id {
                    to
                } else {
                    state.nodes[n].state
                },
                ..state.nodes[n]
            })
        }),
{
    assert(state.with_state(id, to) =~= RuntimeState {
        nodes: state.with_state(id, to).nodes,
        ..state
    });
}

/// A node that has run is clean. If its value has changed, exactly its
/// subscribers are dirty by that. Values, kinds, edges and everything else stay.
pub proof fn lemma_has_run_exactly(state: RuntimeState, id: u64, changed: bool, n: u64)
    ensures
        ({
            let after = state.has_run(id, changed);
            &&& after == (RuntimeState { nodes: after.nodes, ..state })
            &&& after.nodes.contains_key(n) <==> state.nodes.contains_key(n)
            &&& state.nodes.contains_key(n) ==> after.nodes[n] == (ReactiveNode {
                state: if n == id {
                    ReactiveNodeState::Clean
                } else if changed && edge(state, id, n) {
                    ReactiveNodeState::Dirty
                } else {
                    state.nodes[n].state
                },
                ..state.nodes[n]
            })
        }),
{
    let after = state.has_run(id, changed);
    assert(after =~= RuntimeState { nodes: after.nodes, ..state });
}

// Marking

/// `path` goes from a subscriber of `changed` to a subscriber of that, and so on,
/// past nodes that are there, clean or dirty but not marked, and other than
/// `changed`.
pub open spec fn is_way(state: RuntimeState, changed: u64, path: Seq<u64>) -> bool {
    &&& path.len() > 0
    &&& edge(state, changed, path[0])
    &&& forall|i: int|
        #![trigger path[i]]
        0 <= i < path.len() ==> state.nodes.contains_key(path[i]) && path[i] != changed && (
        state.nodes[path[i]].state == ReactiveNodeState::Clean || state.nodes[path[i]].state
            == ReactiveNodeState::Dirty)
    &&& forall|i: int, j: int|
        #![trigger path[i], path[j]]
        0 <= i && j == i + 1 && j < path.len() ==> edge(state, path[i], path[j])
}

proof fn lemma_way_is_downstream(state: RuntimeState, changed: u64, n: u64)
    requires
        state.nodes.contains_key(changed),
        state.nodes[changed].state != ReactiveNodeState::DirtyMarked,
    ensures
        downstream(state, changed, n) <==> exists|path: Seq<u64>| #[trigger]
            is_way(state, changed, path) && path.last() == n,
{
    let first = state.with_mark(changed, ReactiveNodeState::Dirty);
    let from = state.subscribers_of(changed);
    assert forall|x: u64| #[trigger] first.is_open(x) <==> state.nodes.contains_key(x) && x
        != changed && (state.nodes[x].state == ReactiveNodeState::Clean || state.nodes[x].state
        == ReactiveNodeState::Dirty) by {}
    if downstream(state, changed, n) {
        let path = choose|path: Seq<u64>| #[trigger] leads(first, from, path) && path.last() == n;
        assert forall|i: int|
            #![trigger path[i]]
            0 <= i < path.len() implies state.nodes.contains_key(path[i]) && path[i] != changed && (
        state.nodes[path[i]].state == ReactiveNodeState::Clean || state.nodes[path[i]].state
            == ReactiveNodeState::Dirty) by {
            assert(first.is_open(path[i]));
        }
        assert forall|i: int, j: int|
            #![trigger path[i], path[j]]
            0 <= i && j == i + 1 && j < path.len() implies edge(state, path[i], path[j]) by {
            assert(subscribes(first, path[i], path[j]));
        }
        assert(is_way(state, changed, path));
    }
    if exists|path: Seq<u64>| #[trigger] is_way(state, changed, path) && path.last() == n {
        let path = choose|path: Seq<u64>| #[trigger]
            is_way(state, changed, path) && path.last() == n;
        assert forall|i: int|
            #![trigger path[i]]
            0 <= i < path.len() implies first.is_open(path[i]) by {}
        assert forall|i: int, j: int|
            #![trigger path[i], path[j]]
            0 <= i && j == i + 1 && j < path.len() implies subscribes(
            first,
            path[i],
            path[j],
        ) by {
            assert(edge(state, path[i], path[j]));
        }
        assert(leads(first, from, path));
        assert(reached(first, from, n));
    }
}

/// Marking a node as dirty makes it so. A node that some way leads to is to be
/// checked if it was clean, and known to be marked if it was dirty. No other
/// node changes, and no node changes its value or kind. The queue keeps what it
/// has, and gets exactly the effects among these nodes after that, each once,
/// other than the one that is running. Nothing else changes. Where there is no
/// such node, or it is known to be marked, nothing happens at all.
pub proof fn lemma_mark_dirty_exactly(state: RuntimeState, id: u64, n: u64)
    requires
        state.nodes.dom().finite(),
    ensures
        ({
            let after = state.marked_dirty(id);
            let starts = state.nodes.contains_key(id) && state.nodes[id].state
                != ReactiveNodeState::DirtyMarked;
            let leads_there = exists|path: Seq<u64>| #[trigger]
                is_way(state, id, path) && path.last() == n;
            let more = after.pending_effects.skip(state.pending_effects.len() as int);
            &&& !starts ==> after == state
            &&& after == (RuntimeState {
                nodes: after.nodes,
                pending_effects: after.pending_effects,
                ..state
            })
            &&& after.nodes.contains_key(n) <==> state.nodes.contains_key(n)
            &&& starts && state.nodes.contains_key(n) ==> after.nodes[n] == (ReactiveNode {
                state: if n == id {
                    ReactiveNodeState::DirtyMarked
                } else if !leads_there {
                    state.nodes[n].state
                } else if state.nodes[n].state == ReactiveNodeState::Dirty {
                    ReactiveNodeState::DirtyMarked
                } else {
                    ReactiveNodeState::Check
                },
                ..state.nodes[n]
            })
            &&& after.pending_effects.len() >= state.pending_effects.len()
            &&& after.pending_effects.take(state.pending_effects.len() as int)
                == state.pending_effects
            &&& more.no_duplicates()
            &&& starts ==> (more.contains(n) <==> state.nodes.contains_key(n)
                && state.nodes[n].node_type is Effect && state.observer != Some(n) && (n == id
                || leads_there))
        }),
{
    let after = state.marked_dirty(id);
    let k = state.pending_effects.len() as int;
    if state.nodes.contains_key(id) && state.nodes[id].state != ReactiveNodeState::DirtyMarked {
        lemma_mark_dirty(state, id);
        lemma_way_is_downstream(state, id, n);
        let more = after.pending_effects.skip(k);
        assert(after.pending_effects.len() == k + more.len());
        assert(after.pending_effects.take(k) =~= state.pending_effects);
        assert(after.nodes.contains_key(n) <==> state.nodes.contains_key(n)) by {
            assert(after.nodes.dom().contains(n) <==> state.nodes.dom().contains(n));
        }
        if exists|path: Seq<u64>| #[trigger] is_way(state, id, path) && path.last() == n {
            let path = choose|path: Seq<u64>| #[trigger]
                is_way(state, id, path) && path.last() == n;
            assert(state.nodes.contains_key(path[path.len() - 1]));
            assert(path[path.len() - 1] == n);
        }
    } else {
        assert(after.pending_effects.take(k) =~= state.pending_effects);
        assert(after.pending_effects.skip(k) =~= Seq::empty());
    }
}

/// Marking one node raises it to a level and notes a dirty one as marked. It
/// keeps its value and its kind. An effect is queued unless it is running, and
/// nothing else is.
pub proof fn lemma_mark_one(
    id: u64,
    node: ReactiveNode,
    level: ReactiveNodeState,
    observer: Option<u64>,
)
    ensures
        marked(node, level).value == node.value,
        marked(node, level).node_type == node.node_type,
        marked(node, level).state != ReactiveNodeState::Dirty,
        marked(node, level).state == ReactiveNodeState::Clean <==> node.state
            == ReactiveNodeState::Clean && level == ReactiveNodeState::Clean,
        marked(node, level).state == ReactiveNodeState::DirtyMarked <==> node.state
            == ReactiveNodeState::Dirty || node.state == ReactiveNodeState::DirtyMarked || level
            == ReactiveNodeState::Dirty || level == ReactiveNodeState::DirtyMarked,
        is_queued(id, node, observer) <==> node.node_type is Effect && observer != Some(id),
{
}

/// What is visited one after the other is visited in that order: everything that
/// comes of the first nodes comes before the others.
pub proof fn lemma_visits_in_order(state: RuntimeState, a: Seq<u64>, b: Seq<u64>)
    requires
        state.nodes.dom().finite(),
    ensures
        state.visited(a + b) == state.visited(a).visited(b),
        state.visited(a).nodes.dom() == state.nodes.dom(),
    decreases state.open_nodes().len(), a.len(),
{
    if a.len() == 0 {
        assert(a + b =~= b);
    } else {
        let first = a.first();
        assert((a + b).first() == first);
        assert((a + b).drop_first() =~= a.drop_first() + b);
        if state.is_open(first) {
            state.lemma_mark_closes(first);
            let next = state.with_mark(first, ReactiveNodeState::Check);
            let from = state.subscribers_of(first);
            lemma_visits_in_order(next, from + a.drop_first(), b);
            assert(from + (a.drop_first() + b) =~= (from + a.drop_first()) + b);
        } else {
            lemma_visits_in_order(state, a.drop_first(), b);
        }
    }
}

/// A visit goes depth first. A node that is missing or marked is passed over.
/// Any other node is marked and, if it is an effect that is not running, queued;
/// then come its subscribers, in their order.
pub proof fn lemma_visit_one(state: RuntimeState, id: u64)
    requires
        state.nodes.dom().finite(),
    ensures
        ({
            let open = state.nodes.contains_key(id) && (state.nodes[id].state
                == ReactiveNodeState::Clean || state.nodes[id].state == ReactiveNodeState::Dirty);
            let here = RuntimeState {
                nodes: state.nodes.insert(
                    id,
                    ReactiveNode {
                        state: if state.nodes[id].state == ReactiveNodeState::Dirty {
                            ReactiveNodeState::DirtyMarked
                        } else {
                            ReactiveNodeState::Check
                        },
                        ..state.nodes[id]
                    },
                ),
                pending_effects: if state.nodes[id].node_type is Effect && state.observer != Some(
                    id,
                ) {
                    state.pending_effects.push(id)
                } else {
                    state.pending_effects
                },
                ..state
            };
            &&& !open ==> state.visited(seq![id]) == state
            &&& open && state.subscribers.contains_key(id) ==> state.visited(seq![id])
                == here.visited(state.subscribers[id])
            &&& open && !state.subscribers.contains_key(id) ==> state.visited(seq![id]) == here
            &&& state.visited(Seq::empty()) == state
        }),
{
    let todo = seq![id];
    assert(todo.first() == id);
    assert(todo.drop_first() =~= Seq::<u64>::empty());
    let subscribers = state.subscribers_of(id);
    assert(subscribers + todo.drop_first() =~= subscribers);
    reveal_with_fuel(RuntimeState::visited, 2);
    if state.is_open(id) {
        state.lemma_mark_closes(id);
    }
}

/// How a node came to be dirty makes no difference to what marking it means, and
/// a dirty node is marked as in a visit.
pub proof fn lemma_marking_is_visiting(state: RuntimeState, id: u64)
    requires
        state.nodes.dom().finite(),
        state.nodes.contains_key(id),
        state.nodes[id].state != ReactiveNodeState::DirtyMarked,
    ensures
        ({
            let dirty = RuntimeState {
                nodes: state.nodes.insert(
                    id,
                    ReactiveNode { state: ReactiveNodeState::Dirty, ..state.nodes[id] },
                ),
                ..state
            };
            state.marked_dirty(id) == dirty.visited(seq![id])
        }),
{
    let dirty = RuntimeState {
        nodes: state.nodes.insert(
            id,
            ReactiveNode { state: ReactiveNodeState::Dirty, ..state.nodes[id] },
        ),
        ..state
    };
    assert(dirty.nodes.dom() =~= state.nodes.dom());
    dirty.lemma_mark_closes(id);
    assert(dirty.with_mark(id, ReactiveNodeState::Check) =~= state.with_mark(
        id,
        ReactiveNodeState::Dirty,
    ));
    let todo = seq![id];
    assert(todo.first() == id);
    assert(dirty.subscribers_of(id) + todo.drop_first() =~= state.subscribers_of(id));
}

// Edges

/// A node that lets go of its sources is taken off the subscribers of each of
/// them. No other edge is lost and none is added.
pub proof fn lemma_letting_go_exactly(state: RuntimeState, id: u64, a: u64, b: u64)
    requires
        lists_once(state),
    ensures
        ({
            let after = state.unsubscribed(id);
            &&& after == (RuntimeState { subscribers: after.subscribers, ..state })
            &&& edge(after, a, b) <==> edge(state, a, b) && !(b == id && source(state, id, a))
            &&& after.subscribers.contains_key(a) <==> state.subscribers.contains_key(a)
            &&& state.subscribers.contains_key(a) && source(state, id, a) ==> lists_without(
                state.subscribers[a],
                id,
                after.subscribers[a],
            )
            &&& state.subscribers.contains_key(a) && !source(state, id, a) ==> after.subscribers[a]
                == state.subscribers[a]
        }),
{
    let after = state.unsubscribed(id);
    assert(after =~= RuntimeState { subscribers: after.subscribers, ..state });
    if state.subscribers.contains_key(a) {
        lemma_swap_removed(state.subscribers[a], id);
        lemma_lists_without(state.subscribers[a], id);
    }
}

/// A node that is taken out of the graph is gone, with its own subscribers and
/// its own sources, and is taken off the sources of its subscribers. No edge
/// between other nodes is lost, and no other node changes.
pub proof fn lemma_detaching_exactly(state: RuntimeState, id: u64, a: u64, b: u64)
    requires
        lists_once(state),
    ensures
        ({
            let after = state.detached(id);
            &&& after == (RuntimeState {
                subscribers: after.subscribers,
                sources: after.sources,
                nodes: after.nodes,
                generations: after.generations,
                ..state
            })
            &&& after.nodes == state.nodes.remove(id)
            &&& edge(after, a, b) <==> edge(state, a, b) && a != id
            &&& a != id ==> (after.subscribers.contains_key(a) <==> state.subscribers.contains_key(
                a,
            ))
            &&& a != id && state.subscribers.contains_key(a) ==> after.subscribers[a]
                == state.subscribers[a]
            &&& source(after, b, a) <==> source(state, b, a) && b != id && !(a == id && edge(
                state,
                id,
                b,
            ))
            &&& b != id ==> (after.sources.contains_key(b) <==> state.sources.contains_key(b))
            &&& b != id && state.sources.contains_key(b) && edge(state, id, b) ==> lists_without(
                state.sources[b],
                id,
                after.sources[b],
            )
            &&& b != id && state.sources.contains_key(b) && !edge(state, id, b) ==> after.sources[b]
                == state.sources[b]
            &&& !after.nodes.contains_key(id) && !after.subscribers.contains_key(id)
                && !after.sources.contains_key(id)
        }),
{
    let after = state.detached(id);
    assert(after =~= RuntimeState {
        subscribers: after.subscribers,
        sources: after.sources,
        nodes: after.nodes,
        generations: after.generations,
        ..state
    });
    if state.sources.contains_key(b) {
        lemma_swap_removed(state.sources[b], id);
        lemma_lists_without(state.sources[b], id);
    }
}

/// A node that is forgotten is gone, with its own subscribers and its own
/// sources. Everything else stays as it was.
pub proof fn lemma_forgetting_exactly(state: RuntimeState, id: u64, n: u64)
    ensures
        ({
            let after = state.without_node(id);
            &&& after == (RuntimeState {
                subscribers: after.subscribers,
                sources: after.sources,
                nodes: after.nodes,
                generations: after.generations,
                ..state
            })
            &&& after.nodes.get(n) == (if n == id { None } else { state.nodes.get(n) })
            &&& after.subscribers.get(n) == (if n == id { None } else { state.subscribers.get(n) })
            &&& after.sources.get(n) == (if n == id { None } else { state.sources.get(n) })
        }),
{
    let after = state.without_node(id);
    assert(after =~= RuntimeState {
        subscribers: after.subscribers,
        sources: after.sources,
        nodes: after.nodes,
        generations: after.generations,
        ..state
    });
}

/// Reading a node adds one edge, from the node to the observer, and one source of
/// the observer, each at the end unless it is there already. Every other edge and
/// source of a node that is there stays. While nobody observes, nothing changes.
pub proof fn lemma_reading_exactly(state: RuntimeState, id: u64, a: u64, b: u64)
    requires
        is_ordered(state),
        is_young(state),
        lists_once(state),
        state.nodes.contains_key(id),
        state.nodes.contains_key(a),
        state.nodes.contains_key(b),
        state.observer matches Some(observer) ==> state.nodes.contains_key(observer),
    ensures
        ({
            let after = state.subscribed(id);
            &&& after == (RuntimeState {
                subscribers: after.subscribers,
                sources: after.sources,
                ..state
            })
            &&& state.observer is None ==> after == state
            &&& edge(after, a, b) <==> edge(state, a, b) || (a == id && state.observer == Some(b))
            &&& source(after, b, a) <==> source(state, b, a) || (a == id && state.observer == Some(
                b,
            ))
            &&& a != id ==> after.subscribers.get(a) == state.subscribers.get(a)
            &&& state.observer != Some(b) ==> after.sources.get(b) == state.sources.get(b)
            &&& state.observer matches Some(observer) ==> {
                &&& after.subscribers[id] == if edge(state, id, observer) {
                    state.subscribers[id]
                } else if state.subscribers.contains_key(id) {
                    state.subscribers[id].push(observer)
                } else {
                    seq![observer]
                }
                &&& after.sources[observer] == if source(state, observer, id) {
                    state.sources[observer]
                } else if state.sources.contains_key(observer) {
                    state.sources[observer].push(id)
                } else {
                    seq![id]
                }
            }
        }),
{
    let after = state.subscribed(id);
    assert(after =~= RuntimeState {
        subscribers: after.subscribers,
        sources: after.sources,
        ..state
    });
    if let Some(observer) = state.observer {
        lemma_nodes_have_places(state, id);
        lemma_nodes_have_places(state, observer);
        if !state.subscribers.contains_key(id) {
            assert(Seq::<u64>::empty().push(observer) =~= seq![observer]);
        }
        if !state.sources.contains_key(observer) {
            assert(Seq::<u64>::empty().push(id) =~= seq![id]);
        }
        lemma_inserted(state.subscribers_of(id), observer);
        lemma_inserted(state.sources_of(observer), id);
        lemma_own_slot(state, a, id);
        lemma_own_slot(state, b, observer);
        assert(!Seq::<u64>::empty().contains(b));
        assert(!Seq::<u64>::empty().contains(a));
    }
}

/// Reading while somebody observes goes by the places that are offered: the
/// observer is put at the end of the subscribers of the node, and the node at the
/// end of the sources of the observer, unless they are there already. What is
/// kept for other slots stays.
pub proof fn lemma_subscribing_exactly(state: RuntimeState, id: u64, observer: u64, n: u64)
    requires
        state.observer == Some(observer),
    ensures
        ({
            let after = state.subscribed(id);
            &&& after == (RuntimeState {
                subscribers: after.subscribers,
                sources: after.sources,
                ..state
            })
            &&& !offers(state.subscribers, id) ==> after.subscribers == state.subscribers
            &&& !offers(state.sources, observer) ==> after.sources == state.sources
            &&& slot_of(n) != slot_of(id) ==> after.subscribers.get(n) == state.subscribers.get(n)
            &&& slot_of(n) != slot_of(observer) ==> after.sources.get(n) == state.sources.get(n)
            &&& offers(state.subscribers, id) ==> after.subscribers.get(id) == Some(
                if edge(state, id, observer) {
                    state.subscribers[id]
                } else if state.subscribers.contains_key(id) {
                    state.subscribers[id].push(observer)
                } else {
                    seq![observer]
                },
            )
            &&& offers(state.sources, observer) ==> after.sources.get(observer) == Some(
                if source(state, observer, id) {
                    state.sources[observer]
                } else if state.sources.contains_key(observer) {
                    state.sources[observer].push(id)
                } else {
                    seq![id]
                },
            )
        }),
{
    assert(Seq::<u64>::empty().push(observer) =~= seq![observer]);
    assert(Seq::<u64>::empty().push(id) =~= seq![id]);
    assert(!Seq::<u64>::empty().contains(observer));
    assert(!Seq::<u64>::empty().contains(id));
}

/// Nodes have been read, one after the other.
pub open spec fn having_read(state: RuntimeState, ids: Seq<u64>) -> RuntimeState
    decreases ids.len(),
{
    if ids.len() == 0 {
        state
    } else {
        having_read(state, ids.drop_last()).subscribed(ids.last())
    }
}

proof fn lemma_having_read(state: RuntimeState, ids: Seq<u64>, observer: u64)
    requires
        is_consistent(state),
        is_ordered(state),
        is_young(state),
        knows_owner(state),
        state.observer == Some(observer),
        state.nodes.contains_key(observer),
        forall|i: int| 0 <= i < ids.len() ==> state.nodes.contains_key(#[trigger] ids[i]),
    ensures
        is_consistent(having_read(state, ids)),
        is_ordered(having_read(state, ids)),
        having_read(state, ids) == (RuntimeState {
            subscribers: having_read(state, ids).subscribers,
            sources: having_read(state, ids).sources,
            ..state
        }),
    decreases ids.len(),
{
    if ids.len() > 0 {
        let shorter = ids.drop_last();
        let middle = having_read(state, shorter);
        assert forall|i: int| 0 <= i < shorter.len() implies state.nodes.contains_key(
            #[trigger] shorter[i],
        ) by {
            assert(shorter[i] == ids[i]);
        }
        lemma_having_read(state, shorter, observer);
        assert(state.nodes.contains_key(ids[ids.len() - 1]));
        lemma_nodes_are_known(state, ids.last());
        lemma_reading_nodes_is_consistent(middle, ids.last());
        lemma_reading_is_ordered(middle, ids.last());
    }
}

/// A node that subscribes to nothing and then reads some nodes subscribes to
/// exactly those, and exactly those are new among its sources. Nobody else
/// subscribes to anything by that.
pub proof fn lemma_subscribes_to_what_it_reads(
    state: RuntimeState,
    ids: Seq<u64>,
    observer: u64,
    a: u64,
    b: u64,
)
    requires
        is_consistent(state),
        is_ordered(state),
        is_young(state),
        knows_owner(state),
        state.observer == Some(observer),
        state.nodes.contains_key(observer),
        forall|i: int| 0 <= i < ids.len() ==> state.nodes.contains_key(#[trigger] ids[i]),
        forall|x: u64| !#[trigger] edge(state, x, observer),
        state.nodes.contains_key(a),
        state.nodes.contains_key(b),
    ensures
        edge(having_read(state, ids), a, observer) <==> ids.contains(a),
        source(having_read(state, ids), observer, a) <==> source(state, observer, a)
            || ids.contains(a),
        b != observer ==> (edge(having_read(state, ids), a, b) <==> edge(state, a, b)),
    decreases ids.len(),
{
    if ids.len() > 0 {
        let shorter = ids.drop_last();
        let middle = having_read(state, shorter);
        assert forall|i: int| 0 <= i < shorter.len() implies state.nodes.contains_key(
            #[trigger] shorter[i],
        ) by {
            assert(shorter[i] == ids[i]);
        }
        lemma_having_read(state, shorter, observer);
        lemma_subscribes_to_what_it_reads(state, shorter, observer, a, b);
        lemma_consistent_lists(middle, a, b);
        assert(state.nodes.contains_key(ids[ids.len() - 1]));
        lemma_reading_exactly(middle, ids.last(), a, observer);
        lemma_reading_exactly(middle, ids.last(), a, b);
        assert(ids.contains(a) <==> shorter.contains(a) || a == ids.last()) by {
            assert(ids =~= shorter.push(ids.last()));
            if shorter.contains(a) {
                assert(ids[shorter.index_of(a)] == a);
            }
            if a == ids.last() {
                assert(ids[ids.len() - 1] == a);
            }
            if ids.contains(a) {
                let i = ids.index_of(a);
                if i < shorter.len() {
                    assert(shorter[i] == a);
                }
            }
        }
    }
}

/// Two nodes that are there have slots of their own.
proof fn lemma_own_slot(state: RuntimeState, a: u64, b: u64)
    requires
        is_ordered(state),
        state.nodes.contains_key(a),
        state.nodes.contains_key(b),
    ensures
        slot_of(a) == slot_of(b) ==> a == b,
{
    assert(node_slots(state).contents.contains_key(a));
    assert(node_slots(state).contents.contains_key(b));
    if slot_of(a) == slot_of(b) {
        lemma_same_key(a, b);
    }
}

// Running

/// A node that runs is both the owner and the observer, and nothing else changes
/// by that.
pub proof fn lemma_observed_by(state: RuntimeState, id: u64)
    ensures
        state.observed_by(id).owner == Some(id),
        state.observed_by(id).observer == Some(id),
        (RuntimeState {
            owner: state.owner,
            observer: state.observer,
            ..state.observed_by(id)
        }) == state,
{
}

/// Putting the owner and the observer back takes them from before, and everything
/// else as it is now.
pub proof fn lemma_observed_as(state: RuntimeState, outer: RuntimeState)
    ensures
        state.observed_as(outer).owner == outer.owner,
        state.observed_as(outer).observer == outer.observer,
        (RuntimeState {
            owner: state.owner,
            observer: state.observer,
            ..state.observed_as(outer)
        }) == state,
        state.observed_by(0).observed_as(state) == state,
{
}

// Ownership

/// What is registered goes to the end of the owner's properties, and the owner of
/// a node is noted. What belongs to nodes in other slots stays as it is, and so
/// does everything else. Without an owner nothing changes.
pub proof fn lemma_registering_exactly(state: RuntimeState, property: Property, n: u64)
    ensures
        ({
            let after = state.registered(property);
            &&& after == (RuntimeState {
                properties: after.properties,
                owners: after.owners,
                ..state
            })
            &&& state.owner is None ==> after == state
            &&& state.owner matches Some(owner) ==> {
                &&& slot_of(n) != slot_of(owner) ==> after.properties.get(n)
                    == state.properties.get(n)
                &&& offers_sparse(state.properties, owner) ==> after.properties.contains_key(owner)
                    && after.properties[owner] == (if state.properties.contains_key(owner) {
                    state.properties[owner].push(property)
                } else {
                    seq![property]
                })
                &&& !offers_sparse(state.properties, owner) ==> after.properties
                    == state.properties
                &&& match property {
                    Property::Trigger(id) => is_noted(state, id, owner, n, after),
                    Property::Signal(id) => is_noted(state, id, owner, n, after),
                    Property::Effect(id) => is_noted(state, id, owner, n, after),
                    _ => after.owners == state.owners,
                }
            }
        }),
{
    let after = state.registered(property);
    assert(after =~= RuntimeState { properties: after.properties, owners: after.owners, ..state });
    if let Some(owner) = state.owner {
        assert(Seq::<Property>::empty().push(property) =~= seq![property]);
    }
}

/// The owner of a node is on record, if the record takes the node, and that of
/// nodes in other slots is what it was.
pub open spec fn is_noted(
    state: RuntimeState,
    id: u64,
    owner: u64,
    n: u64,
    after: RuntimeState,
) -> bool {
    &&& takes(state.owners, id) ==> after.owners.contains_key(id) && after.owners[id] == owner
    &&& !takes(state.owners, id) ==> after.owners == state.owners
    &&& slot_of(n) != slot_of(id) ==> after.owners.get(n) == state.owners.get(n)
}

/// A cleanup function goes to the end of the owner's. Those of nodes in other
/// slots stay as they are, and so does everything else.
pub proof fn lemma_cleanup_exactly(state: RuntimeState, cleanup: CleanupId, n: u64)
    ensures
        ({
            let after = state.with_cleanup(cleanup);
            &&& after == (RuntimeState { cleanups: after.cleanups, ..state })
            &&& state.owner is None ==> after == state
            &&& state.owner matches Some(owner) ==> {
                &&& slot_of(n) != slot_of(owner) ==> after.cleanups.get(n) == state.cleanups.get(n)
                &&& offers_sparse(state.cleanups, owner) ==> after.cleanups.contains_key(owner)
                    && after.cleanups[owner] == (if state.cleanups.contains_key(owner) {
                    state.cleanups[owner].push(cleanup)
                } else {
                    seq![cleanup]
                })
                &&& !offers_sparse(state.cleanups, owner) ==> after == state
            }
        }),
{
    let after = state.with_cleanup(cleanup);
    assert(after =~= RuntimeState { cleanups: after.cleanups, ..state });
    assert(Seq::<CleanupId>::empty().push(cleanup) =~= seq![cleanup]);
}

/// A new node is in the graph under its key, as it was made, and belongs to the
/// owner as what it is: a memo like an effect. No other node changes, no edge is
/// added or lost, and nothing is queued.
pub proof fn lemma_creating_exactly(state: RuntimeState, id: u64, node: ReactiveNode, n: u64)
    ensures
        ({
            let after = state.with_node(id, node);
            let property = match node.node_type {
                ReactiveNodeType::Trigger => Property::Trigger(id),
                ReactiveNodeType::Signal => Property::Signal(id),
                ReactiveNodeType::Memo { .. } => Property::Effect(id),
                ReactiveNodeType::Effect { .. } => Property::Effect(id),
            };
            &&& after == (RuntimeState {
                nodes: after.nodes,
                generations: after.generations,
                properties: after.properties,
                owners: after.owners,
                ..state
            })
            &&& after.nodes.get(n) == (if n == id { Some(node) } else { state.nodes.get(n) })
            &&& state.owner is None ==> after.properties == state.properties && after.owners
                == state.owners
            &&& state.owner matches Some(owner) ==> {
                &&& slot_of(n) != slot_of(owner) ==> after.properties.get(n)
                    == state.properties.get(n)
                &&& offers_sparse(state.properties, owner) ==> after.properties.contains_key(owner)
                    && after.properties[owner].len() > 0 && after.properties[owner].last()
                    == property && after.properties[owner].drop_last() == (
                if state.properties.contains_key(owner) {
                    state.properties[owner]
                } else {
                    Seq::empty()
                })
                &&& takes(state.owners, id) ==> after.owners.get(id) == Some(owner)
                &&& slot_of(n) != slot_of(id) ==> after.owners.get(n) == state.owners.get(n)
            }
        }),
{
    let after = state.with_node(id, node);
    assert(after =~= RuntimeState {
        nodes: after.nodes,
        generations: after.generations,
        properties: after.properties,
        owners: after.owners,
        ..state
    });
    if let Some(owner) = state.owner {
        let list = value_or(state.properties, owner, Seq::empty());
        assert(list.push(property_of(id, node.node_type)).drop_last() =~= list);
    }
}

// Values and resources

/// A new stored value is found under its key, and belongs to the owner. No other
/// stored value changes, and nothing but what belongs to the owner.
pub proof fn lemma_storing_exactly(state: RuntimeState, id: u64, value: ValueId, n: u64)
    ensures
        ({
            let after = state.with_stored_value(id, value);
            &&& after == (RuntimeState {
                stored_values: after.stored_values,
                stored_value_generations: after.stored_value_generations,
                properties: after.properties,
                ..state
            })
            &&& after.stored_values.get(n) == (if n == id {
                Some(value)
            } else {
                state.stored_values.get(n)
            })
            &&& state.owner is None ==> after.properties == state.properties
            &&& state.owner matches Some(owner) ==> (slot_of(n) != slot_of(owner)
                ==> after.properties.get(n) == state.properties.get(n)) && (offers_sparse(
                state.properties,
                owner,
            ) ==> after.properties.contains_key(owner) && after.properties[owner].len() > 0
                && after.properties[owner].last() == Property::StoredValue(id)
                && after.properties[owner].drop_last() == (if state.properties.contains_key(
                owner,
            ) {
                state.properties[owner]
            } else {
                Seq::empty()
            }))
        }),
{
    let after = state.with_stored_value(id, value);
    assert(after =~= RuntimeState {
        stored_values: after.stored_values,
        stored_value_generations: after.stored_value_generations,
        properties: after.properties,
        ..state
    });
    if let Some(owner) = state.owner {
        let list = value_or(state.properties, owner, Seq::empty());
        assert(list.push(Property::StoredValue(id)).drop_last() =~= list);
    }
}

/// A new resource is found under its key. No other resource changes, and nothing
/// else does.
pub proof fn lemma_resource_exactly(state: RuntimeState, id: u64, resource: AnyResource, n: u64)
    ensures
        ({
            let after = state.with_resource(id, resource);
            &&& after == (RuntimeState {
                resources: after.resources,
                resource_generations: after.resource_generations,
                ..state
            })
            &&& after.resources.get(n) == (if n == id {
                Some(resource)
            } else {
                state.resources.get(n)
            })
        }),
{
}

/// Disposing of a stored value or of a resource takes it out, and nothing else.
pub proof fn lemma_discarding_exactly(state: RuntimeState, id: u64, n: u64)
    ensures
        ({
            let after = state.without_stored_value(id);
            &&& after == (RuntimeState {
                stored_values: after.stored_values,
                stored_value_generations: after.stored_value_generations,
                ..state
            })
            &&& after.stored_values.get(n) == (if n == id {
                None
            } else {
                state.stored_values.get(n)
            })
        }),
        ({
            let after = state.without_resource(id);
            &&& after == (RuntimeState {
                resources: after.resources,
                resource_generations: after.resource_generations,
                ..state
            })
            &&& after.resources.get(n) == (if n == id { None } else { state.resources.get(n) })
        }),
{
}

/// A resource is sent to the client exactly when it is there and serializable,
/// whatever other resources there are, and it is sent as it is.
pub proof fn lemma_serializable(resources: Map<u64, AnyResource>, id: u64, handle: ResourceHandle)
    ensures
        serializable(resources).contains_key(id) <==> resources.contains_key(id)
            && resources[id] is Serializable,
        serializable(resources).contains_key(id) ==> serializable(resources)[id] == resources[id],
        AnyResource::Serializable(handle).handle() == handle,
        AnyResource::Unserializable(handle).handle() == handle,
{
}

/// In a list of the resources that are sent to the client, a resource is listed
/// exactly when it is there and serializable, whatever other resources there
/// are, and it is listed once.
pub proof fn lemma_listed_exactly(
    ids: Seq<ResourceId>,
    resources: Map<u64, AnyResource>,
    id: u64,
)
    requires
        lists_keys(ids, serializable(resources)),
    ensures
        (exists|i: int| 0 <= i < ids.len() && (#[trigger] ids[i])@ == id)
            <==> resources.contains_key(id) && resources[id] is Serializable,
        forall|i: int, j: int|
            #![trigger ids[i], ids[j]]
            0 <= i < ids.len() && 0 <= j < ids.len() && ids[i]@ == ids[j]@ ==> i == j,
{
    if resources.contains_key(id) && resources[id] is Serializable {
        assert(serializable(resources).contains_key(id));
    }
    if exists|i: int| 0 <= i < ids.len() && (#[trigger] ids[i])@ == id {
        let i = choose|i: int| 0 <= i < ids.len() && (#[trigger] ids[i])@ == id;
        assert(serializable(resources).contains_key(ids[i]@));
    }
    assert forall|i: int, j: int|
        #![trigger ids[i], ids[j]]
        0 <= i < ids.len() && 0 <= j < ids.len() && ids[i]@ == ids[j]@ implies i == j by {
        if i < j {
            assert(slot_of(ids[i]@) < slot_of(ids[j]@));
        } else if j < i {
            assert(slot_of(ids[j]@) < slot_of(ids[i]@));
        }
    }
}

/// A property is a node if it is a trigger, a signal or an effect.
pub proof fn lemma_property_node(id: u64)
    ensures
        Property::Trigger(id).node() == Some(id),
        Property::Signal(id).node() == Some(id),
        Property::Effect(id).node() == Some(id),
        Property::Resource(id).node() is None,
        Property::StoredValue(id).node() is None,
{
}

/// A runtime without anything in it has nothing in it.
pub proof fn lemma_empty(id: u64)
    ensures
        ({
            let state = RuntimeState::empty();
            &&& state.owner is None && state.observer is None && !state.batching
            &&& state.pending_effects.len() == 0
            &&& !state.nodes.contains_key(id) && !state.subscribers.contains_key(id)
            &&& !state.sources.contains_key(id) && !state.owners.contains_key(id)
            &&& !state.properties.contains_key(id) && !state.cleanups.contains_key(id)
            &&& !state.contexts.contains_key(id) && !state.resources.contains_key(id)
            &&& !state.stored_values.contains_key(id)
        }),
{
}

} // verus!
