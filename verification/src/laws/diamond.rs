//! Two memos that read the same signal, and a third that reads both.
use crate::agenda::{
    answers, cleanup_work, completes, property_work, source_work, updates, Call, Moment, Work,
};
use crate::keys::slot_of;
use crate::laws::graph::is_consistent;
use crate::laws::marking::{
    downstream, lemma_mark_dirty, lemma_reached_next, lemma_reached_start, subscribes,
};
use crate::laws::settling::{
    completes_both, is_rerun_by, lemma_check_source, lemma_cleanups, lemma_dirty_stops_checking,
    lemma_no_sources, lemma_no_work, lemma_properties, lemma_refresh, lemma_settle_check,
    lemma_settle_clean, lemma_settle_dirty,
};
use crate::laws::upstream::lemma_removed_is_subset;
use crate::node::{ComputationId, ReactiveNodeState, ReactiveNodeType, ValueId};
use crate::runtime::Runtime;
use crate::state::RuntimeState;
use vstd::prelude::*;

verus! {

/// A signal, the two memos that read it, and the memo that reads those, with
/// their functions.
pub struct Diamond {
    pub top: u64,
    pub left: u64,
    pub right: u64,
    pub bottom: u64,
    pub left_fn: ComputationId,
    pub right_fn: ComputationId,
    pub bottom_fn: ComputationId,
}

impl Diamond {
    /// A node is one of the four.
    pub open spec fn has(self, id: u64) -> bool {
        id == self.top || id == self.left || id == self.right || id == self.bottom
    }

    /// `b` reads `a`.
    pub open spec fn has_edge(self, a: u64, b: u64) -> bool {
        ||| a == self.top && (b == self.left || b == self.right)
        ||| (a == self.left || a == self.right) && b == self.bottom
    }

    /// What a node is.
    pub open spec fn node_type(self, id: u64) -> ReactiveNodeType {
        if id == self.top {
            ReactiveNodeType::Signal
        } else if id == self.left {
            ReactiveNodeType::Memo { f: self.left_fn }
        } else if id == self.right {
            ReactiveNodeType::Memo { f: self.right_fn }
        } else {
            ReactiveNodeType::Memo { f: self.bottom_fn }
        }
    }

    /// What a node reads, in its order.
    pub open spec fn sources(self, id: u64) -> Seq<u64> {
        if id == self.top {
            Seq::empty()
        } else if id == self.bottom {
            seq![self.left, self.right]
        } else {
            seq![self.top]
        }
    }

    /// The four are different nodes of the graph, each with its sources and
    /// without anything to clean up.
    pub open spec fn is_in(self, state: RuntimeState) -> bool {
        &&& self.top != self.left && self.top != self.right && self.top != self.bottom
        &&& self.left != self.right && self.left != self.bottom && self.right != self.bottom
        &&& forall|id: u64| #[trigger]
            self.has(id) ==> {
                &&& state.nodes.contains_key(id)
                &&& state.nodes[id].node_type == self.node_type(id)
                &&& state.sources_of(id) == self.sources(id)
                &&& !state.cleanups.contains_key(id)
                &&& !state.properties.contains_key(id)
            }
        &&& forall|a: u64, b: u64| #[trigger] self.has_edge(a, b) ==> subscribes(state, a, b)
    }
}

/// What is read is subscribed to and settled, in the order of `sources`.
pub open spec fn reads<W, F: Fn(Runtime, W, Call) -> (Runtime, W, bool)>(
    call: F,
    before: Moment<W>,
    sources: Seq<u64>,
    after: Moment<W>,
) -> bool
    decreases sources.len(),
{
    if sources.len() == 0 {
        after == before
    } else {
        exists|middle: Moment<W>| #[trigger]
            completes(
                call,
                before.with(before.state.subscribed(sources.first())),
                seq![Work::Settle(sources.first())],
                middle,
            ) && reads(call, middle, sources.drop_first(), after)
    }
}

/// A function reads `sources`, and does nothing else to the runtime. Its value
/// has changed, and `log` says of the embedding program that the function has
/// been run.
pub open spec fn computes<W, F: Fn(Runtime, W, Call) -> (Runtime, W, bool)>(
    call: F,
    log: spec_fn(W) -> Seq<ComputationId>,
    f: ComputationId,
    sources: Seq<u64>,
) -> bool {
    forall|before: Moment<W>, value: Option<ValueId>, after: Moment<W>, changed: bool| #[trigger]
        answers(call, before, (Call::Run { f, value }), after, changed) ==> changed && exists|
            read: Moment<W>,
        | #[trigger]
            reads(call, before, sources, read) && after.state == read.state && log(after.world)
                == log(read.world).push(f)
}

/// All three functions read their sources.
pub open spec fn diamond_computes<W, F: Fn(Runtime, W, Call) -> (Runtime, W, bool)>(
    call: F,
    log: spec_fn(W) -> Seq<ComputationId>,
    d: Diamond,
) -> bool {
    &&& computes(call, log, d.left_fn, d.sources(d.left))
    &&& computes(call, log, d.right_fn, d.sources(d.right))
    &&& computes(call, log, d.bottom_fn, d.sources(d.bottom))
}

/// What stays true of the four while they are settled.
spec fn has_shape(state: RuntimeState, d: Diamond) -> bool {
    &&& forall|a: u64, b: u64|
        #![trigger d.has(a), d.has(b)]
        d.has(a) && d.has(b) && slot_of(a) == slot_of(b) ==> a == b
    &&& d.top != d.left && d.top != d.right && d.top != d.bottom
    &&& d.left != d.right && d.left != d.bottom && d.right != d.bottom
    &&& forall|id: u64| #[trigger]
        d.has(id) ==> {
            &&& state.nodes.contains_key(id)
            &&& state.nodes[id].node_type == d.node_type(id)
            &&& state.sources_of(id) == d.sources(id)
            &&& !state.cleanups.contains_key(id)
            &&& !state.properties.contains_key(id)
        }
    &&& forall|a: u64, b: u64|
        #![trigger subscribes(state, a, b)]
        d.has(a) && d.has(b) && subscribes(state, a, b) ==> d.has_edge(a, b)
}

/// The subscribers of all but the signal are the same.
spec fn same_below(a: RuntimeState, b: RuntimeState, d: Diamond) -> bool {
    &&& a.subscribers_of(d.left) == b.subscribers_of(d.left)
    &&& a.subscribers_of(d.right) == b.subscribers_of(d.right)
    &&& a.subscribers_of(d.bottom) == b.subscribers_of(d.bottom)
}

/// The shape does not depend on the states of nodes.
proof fn lemma_shape_same(state: RuntimeState, after: RuntimeState, d: Diamond)
    requires
        has_shape(state, d),
        after.subscribers == state.subscribers,
        after.sources == state.sources,
        after.cleanups == state.cleanups,
        after.properties == state.properties,
        forall|id: u64| #[trigger]
            d.has(id) ==> after.nodes.contains_key(id) && after.nodes[id].node_type
                == state.nodes[id].node_type,
    ensures
        has_shape(after, d),
        same_below(state, after, d),
{
    assert forall|a: u64, b: u64|
        #![trigger subscribes(after, a, b)]
        d.has(a) && d.has(b) && subscribes(after, a, b) implies d.has_edge(a, b) by {
        assert(subscribes(state, a, b));
    }
}

proof fn lemma_shape_run(state: RuntimeState, d: Diamond, id: u64)
    requires
        has_shape(state, d),
        d.has(id),
    ensures
        has_shape(state.has_run(id, true), d),
        same_below(state, state.has_run(id, true), d),
        state.has_run(id, true).state_of(id) == ReactiveNodeState::Clean,
        forall|n: u64| #[trigger]
            d.has(n) && n != id ==> state.has_run(id, true).state_of(n) == (if subscribes(
                state,
                id,
                n,
            ) {
                ReactiveNodeState::Dirty
            } else {
                state.state_of(n)
            }),
{
    let after = state.has_run(id, true);
    assert forall|n: u64| #[trigger] d.has(n) implies after.nodes.contains_key(n)
        && after.nodes[n].node_type == state.nodes[n].node_type by {}
    lemma_shape_same(state, after, d);
}

proof fn lemma_shape_free(state: RuntimeState, d: Diamond, id: u64)
    requires
        has_shape(state, d),
        d.has(id),
    ensures
        has_shape(state.observed_by(id).unsubscribed(id), d),
        d.has_edge(d.top, id) ==> same_below(state, state.observed_by(id).unsubscribed(id), d),
        state.observed_by(id).unsubscribed(id).subscribers_of(d.bottom) == state.subscribers_of(
            d.bottom,
        ),
{
    let after = state.observed_by(id).unsubscribed(id);
    assert forall|a: u64, b: u64|
        #![trigger subscribes(after, a, b)]
        d.has(a) && d.has(b) && subscribes(after, a, b) implies d.has_edge(a, b) by {
        if state.sources_of(id).contains(a) && state.subscribers.contains_key(a) {
            lemma_removed_is_subset(state.subscribers_of(a), id, b);
        }
        assert(subscribes(state, a, b));
    }
    assert forall|n: u64| #[trigger] d.has(n) implies after.sources_of(n) == state.sources_of(n) by {}
    assert(d.has(d.bottom) && d.has(d.left) && d.has(d.right));
    assert(!d.sources(id).contains(d.bottom));
}

proof fn lemma_shape_read(state: RuntimeState, d: Diamond, id: u64, observer: u64)
    requires
        has_shape(state, d),
        state.observer == Some(observer),
        d.has_edge(id, observer),
    ensures
        has_shape(state.subscribed(id), d),
        id == d.top ==> same_below(state, state.subscribed(id), d),
        state.subscribed(id).subscribers_of(d.bottom) == state.subscribers_of(d.bottom),
        state.subscribed(id).nodes == state.nodes,
        state.subscribed(id).observer == state.observer,
        state.subscribed(id).owner == state.owner,
{
    let after = state.subscribed(id);
    assert(d.has(id) && d.has(observer));
    assert(d.has(d.top) && d.has(d.left) && d.has(d.right) && d.has(d.bottom));
    assert(state.sources_of(observer).contains(id)) by {
        if observer == d.bottom {
            assert(d.sources(observer)[0] == d.left && d.sources(observer)[1] == d.right);
        } else {
            assert(d.sources(observer)[0] == d.top);
        }
    }
    assert forall|n: u64| #[trigger] d.has(n) implies after.sources_of(n) == state.sources_of(n) by {
        if n != observer {
            assert(slot_of(n) != slot_of(observer));
        }
    }
    assert forall|a: u64, b: u64|
        #![trigger subscribes(after, a, b)]
        d.has(a) && d.has(b) && subscribes(after, a, b) implies d.has_edge(a, b) by {
        if a != id {
            assert(slot_of(a) != slot_of(id));
            assert(subscribes(state, a, b));
        } else if b != observer {
            let old_ones = state.subscribers_of(id);
            if !old_ones.contains(b) {
                let j = old_ones.push(observer).index_of(b);
                assert(old_ones.push(observer)[j] == b);
            }
            assert(subscribes(state, a, b));
        }
    }
    assert forall|n: u64| #[trigger] d.has(n) && n != id implies after.subscribers_of(n)
        == state.subscribers_of(n) by {
        assert(slot_of(n) != slot_of(id));
    }
}

/// A dirty node with nothing to clean up simply runs.
pub(crate) proof fn lemma_bare_rerun<W, F: Fn(Runtime, W, Call) -> (Runtime, W, bool)>(
    call: F,
    before: Moment<W>,
    id: u64,
    after: Moment<W>,
)
    requires
        before.state.state_of(id).needs_update(),
        !before.state.cleanups.contains_key(id),
        !before.state.properties.contains_key(id),
        completes(call, before, seq![Work::Refresh(id)], after) || completes(
            call,
            before,
            seq![Work::Settle(id)],
            after,
        ),
    ensures
        exists|ran: Moment<W>| #[trigger]
            updates(call, before, id, ran) && after == ran.marked_clean(id),
{
    lemma_refresh(call, before, id, after);
    lemma_settle_dirty(call, before, id, after);
    let (cleaned, bare, ran) = choose|cleaned: Moment<W>, bare: Moment<W>, ran: Moment<W>|
        #[trigger] is_rerun_by(call, before, id, cleaned, bare, ran, after);
    lemma_cleanups(call, before, id, cleaned);
    assert(RuntimeState { cleanups: before.state.cleanups.remove(id), ..before.state }
        =~= before.state);
    assert(cleanup_work(Seq::empty()) =~= Seq::empty());
    lemma_no_work(call, before, cleaned);
    lemma_properties(call, before, id, bare);
    assert(RuntimeState { properties: before.state.properties.remove(id), ..before.state }
        =~= before.state);
    assert(property_work(Seq::empty()) =~= Seq::empty());
    lemma_no_work(call, before, bare);
    assert(updates(call, before, id, ran));
}

/// One of the two memos in the middle runs while the signal is clean.
proof fn lemma_side_runs<W, F: Fn(Runtime, W, Call) -> (Runtime, W, bool)>(
    call: F,
    log: spec_fn(W) -> Seq<ComputationId>,
    d: Diamond,
    before: Moment<W>,
    id: u64,
    f: ComputationId,
    after: Moment<W>,
)
    requires
        diamond_computes(call, log, d),
        has_shape(before.state, d),
        id == d.left && f == d.left_fn || id == d.right && f == d.right_fn,
        before.state.state_of(id).needs_update(),
        before.state.state_of(d.top) == ReactiveNodeState::Clean,
        completes(call, before, seq![Work::Refresh(id)], after) || completes(
            call,
            before,
            seq![Work::Settle(id)],
            after,
        ),
    ensures
        has_shape(after.state, d),
        same_below(before.state, after.state, d),
        log(after.world) == log(before.world).push(f),
        after.state.state_of(id) == ReactiveNodeState::Clean,
        forall|n: u64| #[trigger]
            d.has(n) && n != id ==> after.state.state_of(n) == (if subscribes(
                before.state,
                id,
                n,
            ) {
                ReactiveNodeState::Dirty
            } else {
                before.state.state_of(n)
            }),
{
    assert(d.has(id) && d.has(d.top));
    assert(d.has_edge(d.top, id));
    lemma_bare_rerun(call, before, id, after);
    let ran = choose|ran: Moment<W>| #[trigger]
        updates(call, before, id, ran) && after == ran.marked_clean(id);
    let value = before.state.nodes[id].value;
    let free = before.with(before.state.observed_by(id).unsubscribed(id));
    let (answered, changed) = choose|answered: Moment<W>, changed: bool| #[trigger]
        answers(call, free, (Call::Run { f, value }), answered, changed) && ran == answered.with(
            answered.state.observed_as(before.state).has_run(id, changed),
        );
    lemma_shape_free(before.state, d, id);
    let sources = seq![d.top];
    let read = choose|read: Moment<W>| #[trigger]
        reads(call, free, sources, read) && answered.state == read.state && log(answered.world)
            == log(read.world).push(f);
    let subscribed = free.with(free.state.subscribed(d.top));
    let middle = choose|middle: Moment<W>| #[trigger]
        completes(call, subscribed, seq![Work::Settle(sources.first())], middle) && reads(
            call,
            middle,
            sources.drop_first(),
            read,
        );
    assert(sources.drop_first().len() == 0);
    assert(read == middle);
    lemma_shape_read(free.state, d, d.top, id);
    lemma_settle_clean(call, subscribed, d.top, middle);
    assert(answered.state == subscribed.state);
    let back = answered.state.observed_as(before.state);
    lemma_shape_same(answered.state, back, d);
    lemma_shape_run(back, d, id);
    assert(after.state =~= ran.state);
    assert(d.has(d.left) && d.has(d.right) && d.has(d.bottom));
    assert forall|n: u64| #[trigger] d.has(n) && n != id implies subscribes(back, id, n)
        == subscribes(before.state, id, n) by {}
}

/// The bottom memo runs once the signal and the left memo are clean, and has the
/// right memo run on the way.
proof fn lemma_bottom_runs<W, F: Fn(Runtime, W, Call) -> (Runtime, W, bool)>(
    call: F,
    log: spec_fn(W) -> Seq<ComputationId>,
    d: Diamond,
    before: Moment<W>,
    after: Moment<W>,
)
    requires
        diamond_computes(call, log, d),
        has_shape(before.state, d),
        before.state.state_of(d.top) == ReactiveNodeState::Clean,
        before.state.state_of(d.left) == ReactiveNodeState::Clean,
        before.state.state_of(d.right).needs_update(),
        before.state.state_of(d.bottom).needs_update(),
        completes(call, before, seq![Work::Refresh(d.bottom)], after),
    ensures
        log(after.world) == log(before.world).push(d.right_fn).push(d.bottom_fn),
        forall|n: u64| #[trigger]
            d.has(n) ==> after.state.state_of(n) == ReactiveNodeState::Clean,
{
    let id = d.bottom;
    let f = d.bottom_fn;
    assert(d.has(d.top) && d.has(d.left) && d.has(d.right) && d.has(d.bottom));
    assert(d.has_edge(d.left, id) && d.has_edge(d.right, id));
    lemma_bare_rerun(call, before, id, after);
    let ran = choose|ran: Moment<W>| #[trigger]
        updates(call, before, id, ran) && after == ran.marked_clean(id);
    let value = before.state.nodes[id].value;
    let free = before.with(before.state.observed_by(id).unsubscribed(id));
    let (answered, changed) = choose|answered: Moment<W>, changed: bool| #[trigger]
        answers(call, free, (Call::Run { f, value }), answered, changed) && ran == answered.with(
            answered.state.observed_as(before.state).has_run(id, changed),
        );
    lemma_shape_free(before.state, d, id);
    let sources = seq![d.left, d.right];
    let read = choose|read: Moment<W>| #[trigger]
        reads(call, free, sources, read) && answered.state == read.state && log(answered.world)
            == log(read.world).push(f);
    let first = free.with(free.state.subscribed(d.left));
    let left = choose|middle: Moment<W>| #[trigger]
        completes(call, first, seq![Work::Settle(sources.first())], middle) && reads(
            call,
            middle,
            sources.drop_first(),
            read,
        );
    lemma_shape_read(free.state, d, d.left, id);
    lemma_settle_clean(call, first, d.left, left);
    let others = sources.drop_first();
    assert(others.first() == d.right);
    let second = left.with(left.state.subscribed(d.right));
    let right = choose|middle: Moment<W>| #[trigger]
        completes(call, second, seq![Work::Settle(others.first())], middle) && reads(
            call,
            middle,
            others.drop_first(),
            read,
        );
    assert(others.drop_first().len() == 0);
    assert(read == right);
    lemma_shape_read(left.state, d, d.right, id);
    lemma_side_runs(call, log, d, second, d.right, d.right_fn, right);
    assert(!d.has_edge(d.right, d.top) && !d.has_edge(d.right, d.left));
    assert(!subscribes(second.state, d.right, d.top));
    assert(!subscribes(second.state, d.right, d.left));
    let back = answered.state.observed_as(before.state);
    lemma_shape_same(answered.state, back, d);
    lemma_shape_run(back, d, id);
    assert(after.state =~= ran.state);
    assert forall|n: u64| #[trigger] d.has(n) && n != id implies !subscribes(back, id, n) by {
        assert(!d.has_edge(id, n));
    }
}

/// A diamond in which everything was clean, and whose signal has changed: when
/// the memo at the bottom is settled, each of the three functions is run exactly
/// once, that of the bottom after both of the others, and in the end all four
/// nodes are clean. So the memo at the bottom never sees one memo that has heard
/// of the change next to one that has not.
pub proof fn lemma_diamond<W, F: Fn(Runtime, W, Call) -> (Runtime, W, bool)>(
    call: F,
    log: spec_fn(W) -> Seq<ComputationId>,
    d: Diamond,
    start: RuntimeState,
    before: Moment<W>,
    after: Moment<W>,
)
    requires
        is_consistent(start),
        d.is_in(start),
        forall|id: u64| #[trigger] d.has(id) ==> start.state_of(id) == ReactiveNodeState::Clean,
        diamond_computes(call, log, d),
        before.state == start.marked_dirty(d.top),
        completes(call, before, seq![Work::Settle(d.bottom)], after),
    ensures
        log(after.world) == log(before.world) + seq![d.left_fn, d.right_fn, d.bottom_fn],
        forall|id: u64| #[trigger]
            d.has(id) ==> after.state.state_of(id) == ReactiveNodeState::Clean,
{
    assert(d.has(d.top) && d.has(d.left) && d.has(d.right) && d.has(d.bottom));
    assert(d.has_edge(d.top, d.left) && d.has_edge(d.top, d.right));
    assert(d.has_edge(d.left, d.bottom) && d.has_edge(d.right, d.bottom));
    lemma_diamond_is_marked(d, start);
    let state = before.state;
    let left_sources = seq![d.top];
    let bottom_sources = seq![d.left, d.right];

    // The left memo is checked first, and the signal on its behalf.
    lemma_settle_check(call, before, d.bottom, after);
    let checked = choose|checked: Moment<W>| #[trigger]
        completes_both(
            call,
            before,
            source_work(d.bottom, bottom_sources),
            checked,
            seq![Work::Refresh(d.bottom)],
            after,
        );
    lemma_check_source(call, before, d.bottom, bottom_sources, checked);
    let right_only = bottom_sources.drop_first();
    let left = choose|middle: Moment<W>| #[trigger]
        completes_both(
            call,
            before,
            seq![Work::Settle(bottom_sources.first())],
            middle,
            source_work(d.bottom, right_only),
            checked,
        );
    assert(bottom_sources.first() == d.left);
    lemma_settle_check(call, before, d.left, left);
    let left_checked = choose|checked: Moment<W>| #[trigger]
        completes_both(
            call,
            before,
            source_work(d.left, left_sources),
            checked,
            seq![Work::Refresh(d.left)],
            left,
        );
    lemma_check_source(call, before, d.left, left_sources, left_checked);
    let told = choose|middle: Moment<W>| #[trigger]
        completes_both(
            call,
            before,
            seq![Work::Settle(left_sources.first())],
            middle,
            source_work(d.left, left_sources.drop_first()),
            left_checked,
        );
    assert(left_sources.first() == d.top);
    assert(left_sources.drop_first() =~= Seq::empty());
    lemma_no_sources(call, told, d.left, left_checked);

    // The signal tells both memos.
    lemma_bare_rerun(call, before, d.top, told);
    let changed = choose|ran: Moment<W>| #[trigger]
        updates(call, before, d.top, ran) && told == ran.marked_clean(d.top);
    lemma_shape_run(state, d, d.top);
    assert(told.state =~= state.has_run(d.top, true));
    assert(told.world == before.world);
    assert(!subscribes(state, d.top, d.bottom)) by {
        assert(!d.has_edge(d.top, d.bottom));
    }

    // The left memo runs, and with that the bottom is dirty.
    lemma_side_runs(call, log, d, told, d.left, d.left_fn, left);
    assert(subscribes(told.state, d.left, d.bottom)) by {
        assert(subscribes(state, d.left, d.bottom));
    }
    assert(!subscribes(told.state, d.left, d.top) && !subscribes(told.state, d.left, d.right)) by {
        assert(!d.has_edge(d.left, d.top) && !d.has_edge(d.left, d.right));
    }
    lemma_dirty_stops_checking(call, left, d.bottom, right_only, checked);
    lemma_bottom_runs(call, log, d, left, after);
    assert(log(before.world) + seq![d.left_fn, d.right_fn, d.bottom_fn] =~= log(before.world).push(
        d.left_fn,
    ).push(d.right_fn).push(d.bottom_fn));
}

/// How a diamond is marked when its signal changes.
proof fn lemma_diamond_is_marked(d: Diamond, start: RuntimeState)
    requires
        is_consistent(start),
        d.is_in(start),
        forall|id: u64| #[trigger] d.has(id) ==> start.state_of(id) == ReactiveNodeState::Clean,
    ensures
        has_shape(start.marked_dirty(d.top), d),
        start.marked_dirty(d.top).state_of(d.top) == ReactiveNodeState::DirtyMarked,
        start.marked_dirty(d.top).state_of(d.left) == ReactiveNodeState::Check,
        start.marked_dirty(d.top).state_of(d.right) == ReactiveNodeState::Check,
        start.marked_dirty(d.top).state_of(d.bottom) == ReactiveNodeState::Check,
        start.marked_dirty(d.top).subscribers == start.subscribers,
{
    let after = start.marked_dirty(d.top);
    assert(d.has(d.top) && d.has(d.left) && d.has(d.right) && d.has(d.bottom));
    assert(d.has_edge(d.top, d.left) && d.has_edge(d.top, d.right) && d.has_edge(
        d.left,
        d.bottom,
    ));
    lemma_mark_dirty(start, d.top);
    let first = start.with_mark(d.top, ReactiveNodeState::Dirty);
    let from = start.subscribers_of(d.top);
    assert(first.is_open(d.left) && first.is_open(d.right) && first.is_open(d.bottom));
    lemma_reached_start(first, from, d.left);
    lemma_reached_start(first, from, d.right);
    assert(subscribes(start, d.left, d.bottom));
    assert(subscribes(first, d.left, d.bottom));
    lemma_reached_next(first, from, d.left, d.bottom);
    assert(downstream(start, d.top, d.left) && downstream(start, d.top, d.right) && downstream(
        start,
        d.top,
        d.bottom,
    ));
    assert(has_shape(start, d)) by {
        assert forall|a: u64, b: u64|
            #![trigger d.has(a), d.has(b)]
            d.has(a) && d.has(b) && slot_of(a) == slot_of(b) implies a == b by {
            assert(start.nodes.contains_key(a) && start.nodes.contains_key(b));
        }
        assert forall|a: u64, b: u64|
            #![trigger subscribes(start, a, b)]
            d.has(a) && d.has(b) && subscribes(start, a, b) implies d.has_edge(a, b) by {
            assert(start.sources_of(b).contains(a));
            assert(d.sources(b).contains(a));
        }
    }
    assert forall|id: u64| #[trigger] d.has(id) implies after.nodes.contains_key(id)
        && after.nodes[id].node_type == start.nodes[id].node_type by {
        assert(start.nodes.contains_key(id));
    }
    lemma_shape_same(start, after, d);
}

} // verus!
