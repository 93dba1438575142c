//! What a change of one node means for the graph.
use crate::node::{ReactiveNode, ReactiveNodeState};
use crate::state::{is_queued, marked, RuntimeState};
use vstd::prelude::*;

verus! {

/// `b` subscribes to `a`.
pub open spec fn subscribes(state: RuntimeState, a: u64, b: u64) -> bool {
    state.subscribers_of(a).contains(b)
}

/// `path` starts at one of `from` and goes from subscriber to subscriber, past
/// no node that is missing or marked already.
pub open spec fn leads(state: RuntimeState, from: Seq<u64>, path: Seq<u64>) -> bool {
    &&& path.len() > 0
    &&& from.contains(path.first())
    &&& forall|i: int| #![trigger path[i]] 0 <= i < path.len() ==> state.is_open(path[i])
    &&& forall|i: int, j: int|
        #![trigger path[i], path[j]]
        0 <= i && j == i + 1 && j < path.len() ==> subscribes(state, path[i], path[j])
}

/// Some path leads to a node.
pub open spec fn reached(state: RuntimeState, from: Seq<u64>, id: u64) -> bool {
    exists|path: Seq<u64>| #[trigger] leads(state, from, path) && path.last() == id
}

/// A node is downstream of a node that has changed, and not marked yet.
pub open spec fn downstream(state: RuntimeState, changed: u64, id: u64) -> bool {
    reached(
        state.with_mark(changed, ReactiveNodeState::Dirty),
        state.subscribers_of(changed),
        id,
    )
}

proof fn lemma_reached_is_open(state: RuntimeState, from: Seq<u64>, id: u64)
    requires
        reached(state, from, id),
    ensures
        state.is_open(id),
{
    let path = choose|path: Seq<u64>| #[trigger] leads(state, from, path) && path.last() == id;
    assert(state.is_open(path[path.len() - 1]));
}

/// A subscriber of a node that is reached is reached too.
pub(crate) proof fn lemma_reached_next(state: RuntimeState, from: Seq<u64>, a: u64, b: u64)
    requires
        reached(state, from, a),
        subscribes(state, a, b),
        state.is_open(b),
    ensures
        reached(state, from, b),
{
    let path = choose|path: Seq<u64>| #[trigger] leads(state, from, path) && path.last() == a;
    let longer = path.push(b);
    assert(longer.first() == path.first());
    assert(leads(state, from, longer));
    assert(longer.last() == b);
}

pub(crate) proof fn lemma_reached_start(state: RuntimeState, from: Seq<u64>, id: u64)
    requires
        from.contains(id),
        state.is_open(id),
    ensures
        reached(state, from, id),
{
    let path = seq![id];
    assert(leads(state, from, path));
    assert(path.last() == id);
}

/// The last place of `id` in a path.
proof fn lemma_last_place(path: Seq<u64>, id: u64) -> (k: int)
    requires
        path.contains(id),
    ensures
        0 <= k < path.len(),
        path[k] == id,
        forall|i: int| #![trigger path[i]] k < i < path.len() ==> path[i] != id,
    decreases path.len(),
{
    if path.last() == id {
        path.len() - 1
    } else {
        let shorter = path.drop_last();
        let at = path.index_of(id);
        assert(shorter[at] == id);
        let k = lemma_last_place(shorter, id);
        assert forall|i: int| #![trigger path[i]] k < i < path.len() implies path[i] != id by {
            if i < shorter.len() {
                assert(shorter[i] == path[i]);
            }
        }
        k
    }
}

/// Visiting an open node goes on with its subscribers.
proof fn lemma_reached_step(state: RuntimeState, todo: Seq<u64>, id: u64)
    requires
        todo.len() > 0,
        state.is_open(todo.first()),
    ensures
        reached(state, todo, id) <==> id == todo.first() || reached(
            state.with_mark(todo.first(), ReactiveNodeState::Check),
            state.subscribers_of(todo.first()) + todo.drop_first(),
            id,
        ),
{
    let first = todo.first();
    let next = state.with_mark(first, ReactiveNodeState::Check);
    let subscribers = state.subscribers_of(first);
    let from = subscribers + todo.drop_first();
    assert forall|n: u64| #[trigger] next.is_open(n) <==> n != first && state.is_open(n) by {}
    assert forall|a: u64, b: u64| #[trigger] subscribes(next, a, b) == subscribes(state, a, b) by {}
    if reached(state, todo, id) && id != first {
        let path = choose|path: Seq<u64>| #[trigger] leads(state, todo, path) && path.last() == id;
        if path.contains(first) {
            let k = lemma_last_place(path, first);
            assert(k < path.len() - 1);
            let tail = path.skip(k + 1);
            assert(subscribes(state, path[k], path[k + 1]));
            let j = subscribers.index_of(tail.first());
            assert(from[j] == tail.first());
            assert forall|i: int| #![trigger tail[i]] 0 <= i < tail.len() implies next.is_open(
                tail[i],
            ) by {
                assert(tail[i] == path[k + 1 + i]);
                assert(state.is_open(path[k + 1 + i]));
            }
            assert forall|i: int, j: int|
                #![trigger tail[i], tail[j]]
                0 <= i && j == i + 1 && j < tail.len() implies subscribes(
                next,
                tail[i],
                tail[j],
            ) by {
                assert(tail[i] == path[k + 1 + i] && tail[j] == path[k + 1 + j]);
                assert(subscribes(state, path[k + 1 + i], path[k + 1 + j]));
            }
            assert(leads(next, from, tail));
            assert(tail.last() == id);
        } else {
            assert(path.first() != first) by {
                assert(path.contains(path[0]));
            }
            let j = todo.index_of(path.first());
            assert(from[subscribers.len() + j - 1] == path.first());
            assert forall|i: int| #![trigger path[i]] 0 <= i < path.len() implies next.is_open(
                path[i],
            ) by {
                assert(path.contains(path[i]));
            }
            assert(leads(next, from, path));
        }
    }
    if id == first {
        lemma_reached_start(state, todo, id);
    }
    if reached(next, from, id) {
        let path = choose|path: Seq<u64>| #[trigger] leads(next, from, path) && path.last() == id;
        let j = from.index_of(path.first());
        if j < subscribers.len() {
            assert(subscribers[j] == path.first());
            let longer = seq![first] + path;
            assert forall|i: int| #![trigger longer[i]] 0 <= i < longer.len() implies state.is_open(
                longer[i],
            ) by {
                if i > 0 {
                    assert(longer[i] == path[i - 1]);
                    assert(next.is_open(path[i - 1]));
                }
            }
            assert forall|i: int, j: int|
                #![trigger longer[i], longer[j]]
                0 <= i && j == i + 1 && j < longer.len() implies subscribes(
                state,
                longer[i],
                longer[j],
            ) by {
                assert(longer[j] == path[j - 1]);
                if i > 0 {
                    assert(longer[i] == path[i - 1]);
                    assert(subscribes(next, path[i - 1], path[j - 1]));
                } else {
                    assert(longer[i] == first);
                    assert(subscribes(state, first, path.first()));
                }
            }
            assert(leads(state, todo, longer));
            assert(longer.last() == id);
        } else {
            assert(todo[j - subscribers.len() + 1] == path.first());
            assert(leads(state, todo, path));
        }
    }
}

/// A node that is not open is not gone past.
proof fn lemma_reached_skip(state: RuntimeState, todo: Seq<u64>, id: u64)
    requires
        todo.len() > 0,
        !state.is_open(todo.first()),
    ensures
        reached(state, todo, id) <==> reached(state, todo.drop_first(), id),
{
    let rest = todo.drop_first();
    if reached(state, todo, id) {
        let path = choose|path: Seq<u64>| #[trigger] leads(state, todo, path) && path.last() == id;
        assert(state.is_open(path[0]));
        let j = todo.index_of(path.first());
        assert(rest[j - 1] == path.first());
        assert(leads(state, rest, path));
    }
    if reached(state, rest, id) {
        let path = choose|path: Seq<u64>| #[trigger] leads(state, rest, path) && path.last() == id;
        let j = rest.index_of(path.first());
        assert(todo[j + 1] == path.first());
        assert(leads(state, todo, path));
    }
}

/// `more` are the nodes that a visit puts into the queue: the effects among
/// those that it reaches, other than the one that is running, each once.
pub open spec fn queues(state: RuntimeState, from: Seq<u64>, more: Seq<u64>) -> bool {
    &&& more.no_duplicates()
    &&& forall|id: u64| #[trigger]
        more.contains(id) <==> reached(state, from, id) && is_queued(
            id,
            state.nodes[id],
            state.observer,
        )
}

/// Every node that a visit reaches is marked, no other node changes, and `more`
/// is put into the queue.
pub open spec fn marks(state: RuntimeState, from: Seq<u64>, more: Seq<u64>) -> RuntimeState {
    RuntimeState {
        nodes: state.nodes.map_entries(
            |id: u64, node: ReactiveNode|
                if reached(state, from, id) {
                    marked(node, ReactiveNodeState::Check)
                } else {
                    node
                },
        ),
        pending_effects: state.pending_effects + more,
        ..state
    }
}

proof fn lemma_visited(state: RuntimeState, todo: Seq<u64>) -> (more: Seq<u64>)
    requires
        state.nodes.dom().finite(),
    ensures
        state.visited(todo) == marks(state, todo, more),
        queues(state, todo, more),
    decreases state.open_nodes().len(), todo.len(),
{
    let after = state.visited(todo);
    if todo.len() == 0 {
        assert forall|id: u64| !reached(state, todo, id) by {
            if reached(state, todo, id) {
                let path = choose|path: Seq<u64>| #[trigger]
                    leads(state, todo, path) && path.last() == id;
                assert(todo.contains(path.first()));
            }
        }
        let more = Seq::<u64>::empty();
        assert(after =~= marks(state, todo, more));
        more
    } else if state.is_open(todo.first()) {
        let first = todo.first();
        let next = state.with_mark(first, ReactiveNodeState::Check);
        let from = state.subscribers_of(first) + todo.drop_first();
        state.lemma_mark_closes(first);
        let later = lemma_visited(next, from);
        let queued = is_queued(first, state.nodes[first], state.observer);
        let more = if queued {
            seq![first] + later
        } else {
            later
        };
        assert forall|id: u64| #[trigger] reached(state, todo, id) <==> id == first || reached(
            next,
            from,
            id,
        ) by {
            lemma_reached_step(state, todo, id);
        }
        assert(!reached(next, from, first)) by {
            if reached(next, from, first) {
                lemma_reached_is_open(next, from, first);
            }
        }
        assert(!later.contains(first));
        assert forall|id: u64| #[trigger] more.contains(id) <==> (queued && id == first)
            || later.contains(id) by {
            if queued {
                assert(more[0] == first);
                if later.contains(id) {
                    let j = later.index_of(id);
                    assert(more[j + 1] == id);
                }
                if more.contains(id) {
                    let j = more.index_of(id);
                    assert(j == 0 || later[j - 1] == id);
                }
            }
        }
        assert(queues(state, todo, more));
        assert(next.pending_effects + later =~= state.pending_effects + more);
        assert(after =~= marks(state, todo, more));
        more
    } else {
        let rest = todo.drop_first();
        let more = lemma_visited(state, rest);
        assert forall|id: u64| #[trigger] reached(state, todo, id) <==> reached(state, rest, id) by {
            lemma_reached_skip(state, todo, id);
        }
        assert(after =~= marks(state, todo, more));
        more
    }
}

/// Marking a node as dirty, and what is downstream of it, in terms of paths
/// through the graph.
///
/// The node itself is dirty and known to be marked. A node that a path of nodes
/// not marked yet leads to is to be checked, or stays dirty and is known to be
/// marked. Nothing else changes but the queue. It gets the effects among these
/// nodes, each once, except for the one that is running.
pub proof fn lemma_mark_dirty(state: RuntimeState, id: u64)
    requires
        state.nodes.dom().finite(),
        state.nodes.contains_key(id),
        state.nodes[id].state != ReactiveNodeState::DirtyMarked,
    ensures
        ({
            let after = state.marked_dirty(id);
            let more = after.pending_effects.skip(state.pending_effects.len() as int);
            &&& after == (RuntimeState {
                nodes: after.nodes,
                pending_effects: state.pending_effects + more,
                ..state
            })
            &&& after.nodes.dom() == state.nodes.dom()
            &&& after.nodes[id] == (ReactiveNode {
                state: ReactiveNodeState::DirtyMarked,
                ..state.nodes[id]
            })
            &&& forall|n: u64| #[trigger]
                state.nodes.contains_key(n) && n != id ==> after.nodes[n] == (if downstream(
                    state,
                    id,
                    n,
                ) {
                    marked(state.nodes[n], ReactiveNodeState::Check)
                } else {
                    state.nodes[n]
                })
            &&& more.no_duplicates()
            &&& forall|n: u64| #[trigger]
                more.contains(n) <==> (n == id || downstream(state, id, n))
                    && state.nodes.contains_key(n) && is_queued(n, state.nodes[n], state.observer)
        }),
{
    let first = state.with_mark(id, ReactiveNodeState::Dirty);
    let from = state.subscribers_of(id);
    let after = state.marked_dirty(id);
    assert(first.nodes.dom() =~= state.nodes.dom());
    let later = lemma_visited(first, from);
    assert(!reached(first, from, id)) by {
        if reached(first, from, id) {
            lemma_reached_is_open(first, from, id);
        }
    }
    assert forall|n: u64| #[trigger] downstream(state, id, n) implies state.nodes.contains_key(n)
        && n != id by {
        lemma_reached_is_open(first, from, n);
    }
    let queued = is_queued(id, state.nodes[id], state.observer);
    let more = if queued {
        seq![id] + later
    } else {
        later
    };
    assert(!later.contains(id));
    assert forall|n: u64| #[trigger] more.contains(n) <==> (queued && n == id)
        || later.contains(n) by {
        if queued {
            assert(more[0] == id);
            if later.contains(n) {
                let j = later.index_of(n);
                assert(more[j + 1] == n);
            }
            if more.contains(n) {
                let j = more.index_of(n);
                assert(j == 0 || later[j - 1] == n);
            }
        }
    }
    assert(after.pending_effects =~= state.pending_effects + more);
    assert(after.pending_effects.skip(state.pending_effects.len() as int) =~= more);
    assert(after.nodes.dom() =~= state.nodes.dom());
    assert forall|n: u64| #[trigger] more.contains(n) <==> (n == id || downstream(state, id, n))
        && state.nodes.contains_key(n) && is_queued(n, state.nodes[n], state.observer) by {
        if n != id && downstream(state, id, n) {
            assert(first.nodes[n] == state.nodes[n]);
        }
    }
}

/// Marking a node as dirty a second time changes nothing.
pub proof fn lemma_mark_dirty_again(state: RuntimeState, id: u64)
    requires
        state.nodes.dom().finite(),
    ensures
        state.marked_dirty(id).marked_dirty(id) == state.marked_dirty(id),
{
    if state.nodes.contains_key(id) && state.nodes[id].state != ReactiveNodeState::DirtyMarked {
        lemma_mark_dirty(state, id);
    }
}

/// Marking never brings a node closer to being up to date.
pub proof fn lemma_mark_dirty_raises(state: RuntimeState, id: u64, n: u64)
    requires
        state.nodes.dom().finite(),
    ensures
        state.state_of(n).level() <= state.marked_dirty(id).state_of(n).level(),
{
    if state.nodes.contains_key(id) && state.nodes[id].state != ReactiveNodeState::DirtyMarked {
        lemma_mark_dirty(state, id);
    }
}

/// Whoever subscribes to a node that is not up to date is not up to date
/// either.
pub open spec fn tells_all(state: RuntimeState) -> bool {
    forall|a: u64, b: u64| #[trigger]
        subscribes(state, a, b) && state.state_of(a) != ReactiveNodeState::Clean
            && state.nodes.contains_key(b) ==> state.state_of(b) != ReactiveNodeState::Clean
}

/// Marking a node as dirty tells everyone who has to know: what subscribes to a
/// node that is not up to date is not up to date either, and so it stays.
pub proof fn lemma_mark_dirty_tells_all(state: RuntimeState, id: u64)
    requires
        state.nodes.dom().finite(),
        tells_all(state),
    ensures
        tells_all(state.marked_dirty(id)),
{
    let after = state.marked_dirty(id);
    if state.nodes.contains_key(id) && state.nodes[id].state != ReactiveNodeState::DirtyMarked {
        lemma_mark_dirty(state, id);
        let first = state.with_mark(id, ReactiveNodeState::Dirty);
        let from = state.subscribers_of(id);
        assert forall|a: u64, b: u64| #[trigger]
            subscribes(after, a, b) && after.state_of(a) != ReactiveNodeState::Clean
                && after.nodes.contains_key(b) implies after.state_of(b)
            != ReactiveNodeState::Clean by {
            assert(subscribes(state, a, b));
            if b != id && first.is_open(b) {
                if a == id {
                    lemma_reached_start(first, from, b);
                    assert(downstream(state, id, b));
                } else if downstream(state, id, a) {
                    assert(subscribes(first, a, b));
                    lemma_reached_next(first, from, a, b);
                    assert(downstream(state, id, b));
                }
            }
        }
    }
}

/// A chain of nodes, each of which subscribes to the one before.
pub open spec fn is_chain(state: RuntimeState, chain: Seq<u64>) -> bool {
    &&& chain.len() > 0
    &&& forall|i: int|
        #![trigger chain[i]]
        0 <= i < chain.len() ==> state.nodes.contains_key(chain[i])
    &&& forall|i: int, j: int|
        #![trigger chain[i], chain[j]]
        0 <= i && j == i + 1 && j < chain.len() ==> subscribes(state, chain[i], chain[j])
}

proof fn lemma_chain_is_told(state: RuntimeState, chain: Seq<u64>)
    requires
        tells_all(state),
        is_chain(state, chain),
        state.state_of(chain.first()) != ReactiveNodeState::Clean,
    ensures
        state.state_of(chain.last()) != ReactiveNodeState::Clean,
    decreases chain.len(),
{
    if chain.len() > 1 {
        let shorter = chain.drop_last();
        assert(is_chain(state, shorter)) by {
            assert forall|i: int|
                #![trigger shorter[i]]
                0 <= i < shorter.len() implies state.nodes.contains_key(shorter[i]) by {
                assert(shorter[i] == chain[i]);
            }
            assert forall|i: int, j: int|
                #![trigger shorter[i], shorter[j]]
                0 <= i && j == i + 1 && j < shorter.len() implies subscribes(
                state,
                shorter[i],
                shorter[j],
            ) by {
                assert(shorter[i] == chain[i] && shorter[j] == chain[j]);
            }
        }
        lemma_chain_is_told(state, shorter);
        let last = chain.len() - 1;
        assert(subscribes(state, chain[last - 1], chain[last]));
    }
}

/// Once a node has been marked as dirty, nothing that depends on it, however
/// far downstream, counts as up to date.
pub proof fn lemma_change_is_noticed(state: RuntimeState, id: u64, chain: Seq<u64>)
    requires
        state.nodes.dom().finite(),
        tells_all(state),
        is_chain(state, chain),
        chain.first() == id,
    ensures
        state.marked_dirty(id).state_of(chain.last()) != ReactiveNodeState::Clean,
{
    let after = state.marked_dirty(id);
    lemma_mark_dirty_tells_all(state, id);
    if state.nodes[id].state != ReactiveNodeState::DirtyMarked {
        lemma_mark_dirty(state, id);
    }
    assert(state.nodes.contains_key(chain[0]));
    assert(is_chain(after, chain)) by {
        assert forall|i: int, j: int|
            #![trigger chain[i], chain[j]]
            0 <= i && j == i + 1 && j < chain.len() implies subscribes(
            after,
            chain[i],
            chain[j],
        ) by {
            assert(subscribes(state, chain[i], chain[j]));
        }
    }
    lemma_chain_is_told(after, chain);
}

/// Where everyone is told, what a clean node depends on, however far upstream,
/// is clean as well.
pub proof fn lemma_clean_upstream(state: RuntimeState, chain: Seq<u64>)
    requires
        tells_all(state),
        is_chain(state, chain),
        state.state_of(chain.last()) == ReactiveNodeState::Clean,
    ensures
        state.state_of(chain.first()) == ReactiveNodeState::Clean,
{
    if state.state_of(chain.first()) != ReactiveNodeState::Clean {
        lemma_chain_is_told(state, chain);
    }
}

} // verus!
