//! The edges of the graph, the ownership tree, and context lookup.
use crate::keys::NodeId;
use crate::node::{
    property_views, CleanupId, ContextValue, ReactiveNode, ReactiveNodeState, ScopeProperty,
    TypeKey, ValueId,
};
use crate::runtime::Runtime;
use crate::sets::{
    ids_in, set_get, set_insert, set_len, set_remove, swap_removed, table_get, table_insert,
};
use crate::state::{changed_at, dirtied, lemma_changed_at_none, lemma_changed_at_step, RuntimeState};
use vstd::prelude::*;

verus! {

impl Runtime {
    /// Takes a node out of the subscribers of everything that it has read.
    pub fn cleanup_sources(&mut self, node_id: NodeId)
        ensures
            final(self)@ == old(self)@.unsubscribed(node_id@),
    {
        let ghost f = |subscribers: Seq<u64>| swap_removed(subscribers, node_id@);
        let ghost map = old(self)@.subscribers;
        proof {
            lemma_changed_at_none(map, f);
        }
        if let Some(sources) = self.node_sources.get(node_id) {
            let len: usize = set_len(sources);
            let ghost keys = ids_in(*sources);
            let mut i: usize = 0;
            assert(keys.take(0) =~= Seq::empty());
            while i < len
                invariant
                    i <= len,
                    len == keys.len(),
                    keys == ids_in(*sources),
                    keys.no_duplicates(),
                    f == |subscribers: Seq<u64>| swap_removed(subscribers, node_id@),
                    self@ == (RuntimeState {
                        subscribers: changed_at(map, keys.take(i as int), f),
                        ..old(self)@
                    }),
                decreases len - i,
            {
                proof {
                    lemma_changed_at_step(map, keys, f, i as int);
                }
                if let Some(source) = set_get(sources, i) {
                    if let Some(subscribers) = self.node_subscribers.get_mut(source) {
                        set_remove(subscribers, node_id);
                    }
                }
                i += 1;
            }
            assert(keys.take(len as int) =~= keys);
        }
        assert(self@ =~= old(self)@.unsubscribed(node_id@));
    }

    /// Marks every subscriber of a node as dirty.
    pub(crate) fn notify(&mut self, node_id: NodeId)
        ensures
            final(self)@ == old(self)@.notified(node_id@),
    {
        let ghost f = |node: ReactiveNode| dirtied(node);
        let ghost map = old(self)@.nodes;
        proof {
            lemma_changed_at_none(map, f);
        }
        if let Some(subs) = self.node_subscribers.get(node_id) {
            let len: usize = set_len(subs);
            let ghost keys = ids_in(*subs);
            let mut i: usize = 0;
            assert(keys.take(0) =~= Seq::empty());
            while i < len
                invariant
                    i <= len,
                    len == keys.len(),
                    keys == ids_in(*subs),
                    keys.no_duplicates(),
                    f == |node: ReactiveNode| dirtied(node),
                    self@ == (RuntimeState {
                        nodes: changed_at(map, keys.take(i as int), f),
                        ..old(self)@
                    }),
                decreases len - i,
            {
                proof {
                    lemma_changed_at_step(map, keys, f, i as int);
                }
                if let Some(sub_id) = set_get(subs, i) {
                    if let Some(sub) = self.nodes.get_mut(sub_id) {
                        sub.state = ReactiveNodeState::Dirty;
                    }
                }
                i += 1;
            }
            assert(keys.take(len as int) =~= keys);
        }
        assert(self@ =~= old(self)@.notified(node_id@));
    }

    /// Takes a node out of the graph. Each of its subscribers drops it from its
    /// sources, so that none of them tries to read it any more.
    pub(crate) fn detach(&mut self, node: NodeId)
        ensures
            final(self)@ == old(self)@.detached(node@),
    {
        let ghost f = |sources: Seq<u64>| swap_removed(sources, node@);
        let ghost map = old(self)@.sources;
        proof {
            lemma_changed_at_none(map, f);
        }
        let subs = self.node_subscribers.remove(node);
        if let Some(subs) = subs {
            let len: usize = set_len(&subs);
            let ghost keys = ids_in(subs);
            let mut i: usize = 0;
            assert(keys.take(0) =~= Seq::empty());
            while i < len
                invariant
                    i <= len,
                    len == keys.len(),
                    keys == ids_in(subs),
                    keys.no_duplicates(),
                    f == |sources: Seq<u64>| swap_removed(sources, node@),
                    self@ == (RuntimeState {
                        subscribers: old(self)@.subscribers.remove(node@),
                        sources: changed_at(map, keys.take(i as int), f),
                        ..old(self)@
                    }),
                decreases len - i,
            {
                proof {
                    lemma_changed_at_step(map, keys, f, i as int);
                }
                if let Some(effect) = set_get(&subs, i) {
                    if let Some(effect_sources) = self.node_sources.get_mut(effect) {
                        set_remove(effect_sources, node);
                    }
                }
                i += 1;
            }
            assert(keys.take(len as int) =~= keys);
        }
        self.node_sources.remove(node);
        self.nodes.remove(node);
        assert(self@ =~= old(self)@.detached(node@));
    }

    /// Forgets a node and its edges.
    pub fn dispose_node(&mut self, node: NodeId)
        ensures
            final(self)@ == old(self)@.without_node(node@),
    {
        self.node_sources.remove(node);
        self.node_subscribers.remove(node);
        self.nodes.remove(node);
    }

    /// Records that a node is read: whoever observes subscribes to it, and
    /// counts it among its sources.
    pub fn subscribe(&mut self, node: NodeId)
        ensures
            final(self)@ == old(self)@.subscribed(node@),
    {
        if let Some(observer) = self.observer {
            if let Some(subs) = self.node_subscribers.entry_or_default(node) {
                set_insert(subs, observer);
            }
            if let Some(sources) = self.node_sources.entry_or_default(observer) {
                set_insert(sources, node);
            }
        }
        assert(self@ =~= old(self)@.subscribed(node@));
    }

    /// Makes something a property of the current owner, which is also noted as
    /// the owner of a node.
    pub fn register_property(&mut self, property: ScopeProperty)
        ensures
            final(self)@ == old(self)@.registered(property@),
    {
        if let Some(owner) = self.owner {
            if let Some(entry) = self.node_properties.entry_or_default(owner) {
                let ghost list = entry@;
                entry.push(property);
                assert(property_views(entry@) =~= property_views(list).push(property@));
            }
            if let Some(node) = property.to_node_id() {
                self.node_owners.insert(node, owner);
            }
        }
        assert(self@ =~= old(self)@.registered(property@));
    }

    /// Makes something a property of the current owner.
    pub fn push_scope_property(&mut self, prop: ScopeProperty)
        ensures
            final(self)@ == old(self)@.registered(prop@),
    {
        self.register_property(prop);
    }

    /// Registers a function to be run when the current owner runs again or is
    /// disposed of.
    pub fn on_cleanup(&mut self, cleanup: CleanupId)
        ensures
            final(self)@ == old(self)@.with_cleanup(cleanup),
    {
        if let Some(owner) = self.owner {
            if let Some(list) = self.on_cleanups.entry_or_default(owner) {
                list.push(cleanup);
            }
        }
        assert(self@ =~= old(self)@.with_cleanup(cleanup));
    }

    /// Provides a context value to the current owner and what it owns.
    pub fn provide_context(&mut self, ty: TypeKey, value: ContextValue)
        ensures
            final(self)@ == old(self)@.with_context(ty, value),
    {
        if let Some(owner) = self.owner {
            if let Some(table) = self.contexts.entry_or_default(owner) {
                table_insert(table, ty, value);
            }
        }
        assert(self@ =~= old(self)@.with_context(ty, value));
    }

    /// Finds the context value of type `target` that the nearest ancestor of a
    /// node, counting the node itself, provides under `ty`.
    pub fn get_context(&self, node: NodeId, ty: TypeKey, target: TypeKey) -> (value: Option<ValueId>)
        ensures
            self@.finds_context(node@, ty, target, value),
    {
        let len: usize = self.node_owners.len();
        let mut at = node;
        let mut steps: usize = 0;
        loop
            invariant
                steps <= len,
                self@.owners.dom().finite(),
                len == self@.owners.len(),
                self@.ancestor(node@, steps as nat) == Some(at@),
                forall|n: nat| n < steps ==> #[trigger]
                    self@.ancestor(node@, n) is Some && self@.owners.contains_key(
                        self@.ancestor(node@, n).unwrap(),
                    ),
                forall|n: nat| n < steps ==> #[trigger]
                    self@.context_above(node@, ty, target, n) is None,
            decreases len - steps,
        {
            if let Some(table) = self.contexts.get(at) {
                if let Some(found) = table_get(table, ty) {
                    if found.ty == target {
                        assert(self@.context_above(node@, ty, target, steps as nat) == Some(
                            found.value,
                        ));
                        return Some(found.value);
                    }
                }
            }
            assert(self@.context_above(node@, ty, target, steps as nat) is None);
            match self.node_owners.get(at) {
                None => {
                    proof {
                        assert forall|n: nat| #[trigger]
                            self@.context_above(node@, ty, target, n) is None by {
                            if n > steps {
                                lemma_no_ancestor(self@, node@, steps as nat, n);
                            }
                        }
                    }
                    return None;
                },
                Some(parent) => {
                    if steps == len {
                        proof {
                            lemma_cycle(self@, node@, ty, target);
                        }
                        return None;
                    }
                    steps += 1;
                    at = parent;
                },
            }
        }
    }
}

/// There is nothing above a node without an owner.
proof fn lemma_no_ancestor(state: RuntimeState, id: u64, steps: nat, n: nat)
    requires
        state.ancestor(id, steps) matches Some(node) && !state.owners.contains_key(node),
        n > steps,
    ensures
        state.ancestor(id, n) is None,
    decreases n,
{
    if n > steps + 1 {
        lemma_no_ancestor(state, id, steps, (n - 1) as nat);
    }
}

/// Ancestors that repeat once go on repeating.
proof fn lemma_repeats(state: RuntimeState, id: u64, i: nat, j: nat, d: nat)
    requires
        state.ancestor(id, i) == state.ancestor(id, j),
    ensures
        state.ancestor(id, i + d) == state.ancestor(id, j + d),
    decreases d,
{
    if d > 0 {
        lemma_repeats(state, id, i, j, (d - 1) as nat);
    }
}

/// Where ancestors repeat, what one round does not find is not found at all.
proof fn lemma_one_round(
    state: RuntimeState,
    id: u64,
    ty: TypeKey,
    target: TypeKey,
    i: nat,
    j: nat,
    n: nat,
)
    requires
        i < j,
        state.ancestor(id, i) == state.ancestor(id, j),
        forall|m: nat| m < j ==> #[trigger] state.context_above(id, ty, target, m) is None,
    ensures
        state.context_above(id, ty, target, n) is None,
    decreases n,
{
    if n >= j {
        let d = (n - j) as nat;
        lemma_repeats(state, id, i, j, d);
        assert(i + d < n);
        lemma_one_round(state, id, ty, target, i, j, i + d);
        assert(state.ancestor(id, n) == state.ancestor(id, i + d));
    }
}

/// An ownership chain that is longer than the number of owned nodes goes in a
/// circle.
proof fn lemma_cycle(state: RuntimeState, id: u64, ty: TypeKey, target: TypeKey)
    requires
        state.owners.dom().finite(),
        forall|n: nat| n <= state.owners.len() ==> #[trigger]
            state.ancestor(id, n) is Some && state.owners.contains_key(
                state.ancestor(id, n).unwrap(),
            ),
        forall|n: nat| n <= state.owners.len() ==> #[trigger]
            state.context_above(id, ty, target, n) is None,
    ensures
        forall|n: nat| #[trigger] state.context_above(id, ty, target, n) is None,
{
    let len = state.owners.len();
    let chain = Seq::new(len + 1, |i: int| state.ancestor(id, i as nat).unwrap());
    assert(!chain.no_duplicates()) by {
        if chain.no_duplicates() {
            chain.unique_seq_to_set();
            assert(chain.to_set().subset_of(state.owners.dom())) by {
                assert forall|node: u64| chain.to_set().contains(
                    node,
                ) implies state.owners.dom().contains(node) by {
                    let i = chain.index_of(node);
                    assert(state.ancestor(id, i as nat) is Some);
                }
            }
            vstd::set_lib::lemma_len_subset(chain.to_set(), state.owners.dom());
        }
    }
    let (i, j) = choose|i: int, j: int|
        0 <= i < chain.len() && 0 <= j < chain.len() && i != j && chain[i] == chain[j];
    let lower = if i < j { i } else { j };
    let upper = if i < j { j } else { i };
    assert(state.ancestor(id, lower as nat) == state.ancestor(id, upper as nat)) by {
        assert(state.ancestor(id, lower as nat) is Some);
        assert(state.ancestor(id, upper as nat) is Some);
    }
    assert forall|n: nat| #[trigger] state.context_above(id, ty, target, n) is None by {
        lemma_one_round(state, id, ty, target, lower as nat, upper as nat, n);
    }
}

} // verus!
