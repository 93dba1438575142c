//! Marking: what a change of one node means for the nodes downstream.
use crate::keys::NodeId;
use crate::node::{node_view, ReactiveNode, ReactiveNodeState, ReactiveNodeType};
use crate::runtime::Runtime;
use crate::sets::{set_get, set_len};
use crate::state::{is_queued, marked, RuntimeState};
use vstd::prelude::*;

verus! {

/// A place in the subscribers of a node: the node, and how many of them have
/// been dealt with.
pub(crate) struct Cursor {
    node: NodeId,
    next: usize,
}

/// The nodes that are left to visit, the last cursor's first.
spec fn left(state: RuntimeState, cursors: Seq<Cursor>) -> Seq<u64>
    decreases cursors.len(),
{
    if cursors.len() == 0 {
        Seq::empty()
    } else {
        let top = cursors.last();
        state.subscribers_of(top.node@).skip(top.next as int) + left(state, cursors.drop_last())
    }
}

spec fn in_bounds(state: RuntimeState, cursors: Seq<Cursor>) -> bool {
    forall|i: int|
        #![trigger cursors[i]]
        0 <= i < cursors.len() ==> cursors[i].next <= state.subscribers_of(cursors[i].node@).len()
}

/// Marking changes nothing but the states of nodes and the queue.
spec fn same_graph(a: RuntimeState, b: RuntimeState) -> bool {
    a == RuntimeState { nodes: a.nodes, pending_effects: a.pending_effects, ..b }
}

impl Runtime {
    /// Marks one node with at least `level`, and queues it if it is an effect
    /// other than the one that is running.
    pub fn mark(
        node_id: NodeId,
        node: &mut ReactiveNode,
        level: ReactiveNodeState,
        pending_effects: &mut Vec<NodeId>,
        current_observer: Option<NodeId>,
    )
        ensures
            *final(node) == marked(*old(node), level),
            is_queued(node_id@, *old(node), node_view(current_observer)) ==>
                final(pending_effects)@ == old(pending_effects)@.push(node_id),
            !is_queued(node_id@, *old(node), node_view(current_observer)) ==>
                final(pending_effects)@ == old(pending_effects)@,
    {
        if level.rank() > node.state.rank() {
            node.state = level;
        }
        if let ReactiveNodeType::Effect { .. } = node.node_type {
            let is_running = match current_observer {
                Some(observer) => observer.same(node_id),
                None => false,
            };
            if !is_running {
                pending_effects.push(node_id);
            }
        }
        if let ReactiveNodeState::Dirty = node.state {
            node.state = ReactiveNodeState::DirtyMarked;
        }
    }

    /// Marks a node of the graph.
    fn mark_at(&mut self, id: NodeId, level: ReactiveNodeState)
        requires
            old(self)@.nodes.contains_key(id@),
        ensures
            final(self)@ == old(self)@.with_mark(id@, level),
    {
        if let Some(node) = self.nodes.get_mut(id) {
            Runtime::mark(id, node, level, &mut self.pending_effects, self.observer);
        }
        assert(self@ =~= old(self)@.with_mark(id@, level));
    }

    /// Marks a node as dirty and everything downstream as to be checked, and
    /// queues the effects among them.
    ///
    /// This is a depth-first traversal of the graph that keeps a stack of
    /// cursors instead of buffering the nodes that are left to visit. It does
    /// not go past a node that is marked already, so no node is visited twice.
    pub fn mark_dirty(&mut self, node: NodeId)
        ensures
            final(self)@ == old(self)@.marked_dirty(node@),
    {
        match self.nodes.get(node) {
            None => {
                return ;
            },
            Some(current_node) => {
                if let ReactiveNodeState::DirtyMarked = current_node.state {
                    return ;
                }
            },
        }
        self.mark_at(node, ReactiveNodeState::Dirty);
        let mut stack: Vec<Cursor> = Vec::new();
        stack.push(Cursor { node, next: 0 });
        proof {
            let subscribers = self@.subscribers_of(node@);
            assert(subscribers.skip(0) =~= subscribers);
            assert(left(self@, stack@.drop_last()) =~= Seq::empty());
            assert(left(self@, stack@) =~= subscribers);
            assert(self@.nodes.dom() =~= old(self)@.nodes.dom());
        }
        while stack.len() > 0
            invariant
                same_graph(self@, old(self)@),
                self@.nodes.dom().finite(),
                in_bounds(self@, stack@),
                self@.visited(left(self@, stack@)) == old(self)@.marked_dirty(node@),
            decreases self@.open_nodes().len(), left(self@, stack@).len() + stack.len(),
        {
            let last: usize = stack.len() - 1;
            let parent = stack[last].node;
            let next: usize = stack[last].next;
            let ghost before = stack@;
            let ghost todo = left(self@, stack@);
            let child = match self.node_subscribers.get(parent) {
                Some(subscribers) => if next < set_len(subscribers) {
                    set_get(subscribers, next)
                } else {
                    None
                },
                None => None,
            };
            match child {
                None => {
                    stack.pop();
                    assert(self@.subscribers_of(parent@).skip(next as int) =~= Seq::empty());
                    assert(left(self@, stack@) =~= todo);
                },
                Some(child) => {
                    stack.set(last, Cursor { node: parent, next: next + 1 });
                    proof {
                        let subscribers = self@.subscribers_of(parent@);
                        assert(stack@.drop_last() =~= before.drop_last());
                        assert(subscribers.skip(next as int).drop_first() =~= subscribers.skip(
                            next + 1,
                        ));
                        assert(todo.first() == child@);
                        assert(left(self@, stack@) =~= todo.drop_first());
                    }
                    let is_open = match self.nodes.get(child) {
                        Some(node) => match node.state {
                            ReactiveNodeState::Check => false,
                            ReactiveNodeState::DirtyMarked => false,
                            _ => true,
                        },
                        None => false,
                    };
                    if is_open {
                        let ghost state = self@;
                        proof {
                            state.lemma_mark_closes(child@);
                        }
                        self.mark_at(child, ReactiveNodeState::Check);
                        let ghost rest = stack@;
                        proof {
                            lemma_left_same(state, self@, rest);
                        }
                        stack.push(Cursor { node: child, next: 0 });
                        proof {
                            let subscribers = self@.subscribers_of(child@);
                            assert(subscribers.skip(0) =~= subscribers);
                            assert(stack@.drop_last() =~= rest);
                            assert(left(self@, stack@) == subscribers + todo.drop_first());
                        }
                    }
                },
            }
        }
        assert(left(self@, stack@) =~= Seq::empty());
    }
}

/// What is left to visit depends on the edges alone.
proof fn lemma_left_same(a: RuntimeState, b: RuntimeState, cursors: Seq<Cursor>)
    requires
        a.subscribers == b.subscribers,
    ensures
        left(a, cursors) == left(b, cursors),
    decreases cursors.len(),
{
    if cursors.len() > 0 {
        lemma_left_same(a, b, cursors.drop_last());
    }
}

} // verus!
