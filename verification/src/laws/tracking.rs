//! What is tracked, and what is not.
use crate::agenda::{completes, source_work, updates, Call, Moment, Work};
use crate::laws::diamond::lemma_bare_rerun;
use crate::laws::graph::{is_consistent, lemma_letting_go_is_consistent, lemma_same_edges};
use crate::laws::marking::{
    downstream, leads, lemma_mark_dirty, lemma_reached_start, reached, subscribes,
};
use crate::laws::places::{
    is_ordered, is_young, lemma_nodes_have_places, lemma_ordered_same, lemma_running_is_ordered,
};
use crate::laws::settling::{
    completes_both, is_rerun, lemma_check_source, lemma_no_sources, lemma_refresh,
    lemma_settle_check,
};
use crate::node::ReactiveNodeState;
use crate::registry::RuntimesState;
use crate::runtime::Runtime;
use crate::secondary::offers;
use crate::state::RuntimeState;
use vstd::prelude::*;

verus! {

/// Whoever observes subscribes to what is read, and counts it among its
/// sources.
pub proof fn lemma_tracked_read(state: RuntimeState, id: u64, observer: u64)
    requires
        state.observer == Some(observer),
        offers(state.subscribers, id),
        offers(state.sources, observer),
    ensures
        subscribes(state.subscribed(id), id, observer),
        state.subscribed(id).sources_of(observer).contains(id),
{
    let subscribers = state.subscribers_of(id);
    if !subscribers.contains(observer) {
        assert(subscribers.push(observer)[subscribers.len() as int] == observer);
    }
    let sources = state.sources_of(observer);
    if !sources.contains(id) {
        assert(sources.push(id)[sources.len() as int] == id);
    }
}

/// A node that is there is tracked by an observer that is there, as long as no
/// slot has counted half way round: nothing is turned away.
pub proof fn lemma_read_is_tracked(state: RuntimeState, id: u64, observer: u64)
    requires
        is_ordered(state),
        is_young(state),
        state.observer == Some(observer),
        state.nodes.contains_key(id),
        state.nodes.contains_key(observer),
    ensures
        subscribes(state.subscribed(id), id, observer),
        state.subscribed(id).sources_of(observer).contains(id),
{
    lemma_nodes_have_places(state, id);
    lemma_nodes_have_places(state, observer);
    lemma_tracked_read(state, id, observer);
}

/// While nobody observes, reading leaves no trace.
pub proof fn lemma_untracked_read(state: RuntimeState, id: u64)
    requires
        state.observer is None,
    ensures
        state.subscribed(id) == state,
{
}

/// Suspending the tracking in a runtime and resuming it changes nothing.
pub proof fn lemma_resumed_tracking(state: RuntimesState, id: u64)
    ensures
        state.find(id) matches Some(runtime) ==> state.with_observer(id, None).with_observer(
            id,
            runtime.observer,
        ) == state,
{
    if let Some(runtime) = state.find(id) {
        let back = state.with_observer(id, None).with_observer(id, runtime.observer);
        assert(RuntimeState { observer: runtime.observer, ..runtime } == runtime);
        assert(back =~= state);
    }
}

/// A change reaches a node only through something that the node subscribes to:
/// the node that has changed, or something downstream of it.
pub proof fn lemma_only_subscribers_notice(state: RuntimeState, changed: u64, id: u64)
    requires
        state.nodes.dom().finite(),
        id != changed,
        forall|a: u64| #[trigger]
            subscribes(state, a, id) ==> a != changed && !downstream(state, changed, a),
    ensures
        state.marked_dirty(changed).state_of(id) == state.state_of(id),
{
    if state.nodes.contains_key(changed) && state.nodes[changed].state
        != ReactiveNodeState::DirtyMarked {
        lemma_mark_dirty(state, changed);
        let first = state.with_mark(changed, ReactiveNodeState::Dirty);
        let from = state.subscribers_of(changed);
        if downstream(state, changed, id) {
            let path = choose|path: Seq<u64>| #[trigger]
                leads(first, from, path) && path.last() == id;
            if path.len() == 1 {
                assert(subscribes(state, changed, id));
            } else {
                let shorter = path.drop_last();
                let before = shorter.last();
                assert(shorter.first() == path.first());
                assert forall|i: int|
                    #![trigger shorter[i]]
                    0 <= i < shorter.len() implies first.is_open(shorter[i]) by {
                    assert(shorter[i] == path[i]);
                }
                assert forall|i: int, j: int|
                    #![trigger shorter[i], shorter[j]]
                    0 <= i && j == i + 1 && j < shorter.len() implies subscribes(
                    first,
                    shorter[i],
                    shorter[j],
                ) by {
                    assert(shorter[i] == path[i] && shorter[j] == path[j]);
                }
                assert(leads(first, from, shorter));
                assert(reached(first, from, before));
                assert(subscribes(first, path[path.len() - 2], path[path.len() - 1]));
                assert(subscribes(state, before, id));
            }
        }
    }
}

/// Nothing leads to a node that reads nothing.
proof fn lemma_reader_of_nothing(state: RuntimeState, changed: u64, id: u64)
    requires
        forall|a: u64| !#[trigger] subscribes(state, a, id),
    ensures
        !downstream(state, changed, id),
{
    if downstream(state, changed, id) {
        let first = state.with_mark(changed, ReactiveNodeState::Dirty);
        let path = choose|path: Seq<u64>| #[trigger]
            leads(first, state.subscribers_of(changed), path) && path.last() == id;
        if path.len() == 1 {
            assert(subscribes(state, changed, id));
        } else {
            let last = path.len() - 1;
            assert(subscribes(first, path[last - 1], path[last]));
            assert(subscribes(state, path[last - 1], id));
        }
    }
}

/// A memo runs and reads `source`, and then `other` while tracking is
/// suspended. The untracked read leaves no trace. Once the memo has run, it
/// subscribes to `source` and to nothing else.
pub proof fn lemma_memo_with_untracked_read(
    state: RuntimeState,
    memo: u64,
    source: u64,
    other: u64,
    changed: bool,
)
    requires
        is_consistent(state),
        is_ordered(state),
        is_young(state),
        state.nodes.contains_key(memo),
        state.nodes.contains_key(source),
        state.sources_of(memo).len() == 0 || state.sources_of(memo) == seq![source],
    ensures
        ({
            let running = state.observed_by(memo).unsubscribed(memo).subscribed(source);
            let suspended = (RuntimeState { observer: None, ..running });
            let after = running.observed_as(state).has_run(memo, changed);
            &&& (RuntimeState { observer: running.observer, ..suspended.subscribed(other) })
                == running
            &&& subscribes(after, source, memo)
            &&& forall|a: u64| #[trigger] subscribes(after, a, memo) ==> a == source
            &&& after.sources_of(memo) == seq![source]
            &&& after.state_of(memo) == ReactiveNodeState::Clean
        }),
{
    let observed = state.observed_by(memo);
    lemma_same_edges(state, observed);
    lemma_letting_go_is_consistent(observed, memo);
    let free = observed.unsubscribed(memo);
    lemma_ordered_same(state, observed);
    lemma_running_is_ordered(observed, memo, changed, ReactiveNodeState::Clean);
    assert(is_young(free));
    let running = free.subscribed(source);
    lemma_read_is_tracked(free, source, memo);
    lemma_nodes_have_places(free, source);
    lemma_nodes_have_places(free, memo);
    let after = running.observed_as(state).has_run(memo, changed);
    assert forall|a: u64| #[trigger] subscribes(after, a, memo) implies a == source by {
        assert(subscribes(running, a, memo));
        if a != source {
            assert(subscribes(free, a, memo));
        }
    }
    assert(subscribes(after, source, memo)) by {
        assert(subscribes(running, source, memo));
    }
    let sources = state.sources_of(memo);
    assert(free.sources_of(memo) == sources);
    if sources.len() == 0 {
        assert(sources.push(source) =~= seq![source]);
    } else {
        assert(sources[0] == source);
        assert(sources.contains(source));
    }
}

/// A memo that subscribes to one signal alone does not notice a change of
/// another node.
pub proof fn lemma_untracked_change_goes_unnoticed(
    state: RuntimeState,
    memo: u64,
    source: u64,
    other: u64,
)
    requires
        state.nodes.dom().finite(),
        memo != other,
        source != other,
        forall|a: u64| #[trigger] subscribes(state, a, memo) ==> a == source,
        forall|a: u64| !#[trigger] subscribes(state, a, source),
    ensures
        state.marked_dirty(other).state_of(memo) == state.state_of(memo),
{
    lemma_reader_of_nothing(state, other, source);
    lemma_only_subscribers_notice(state, other, memo);
}

/// A memo that has read one signal alone runs again when it is settled after the
/// signal has changed: once the signal has told it, and with everything else as
/// it is then.
pub proof fn lemma_tracked_change_reruns<W, F: Fn(Runtime, W, Call) -> (Runtime, W, bool)>(
    call: F,
    state: RuntimeState,
    memo: u64,
    source: u64,
    before: Moment<W>,
    after: Moment<W>,
)
    requires
        state.nodes.dom().finite(),
        memo != source,
        state.nodes.contains_key(memo),
        state.state_of(memo) == ReactiveNodeState::Clean,
        state.nodes.contains_key(source),
        state.nodes[source].node_type is Signal,
        state.state_of(source) == ReactiveNodeState::Clean,
        !state.cleanups.contains_key(source),
        !state.properties.contains_key(source),
        subscribes(state, source, memo),
        state.sources_of(memo) == seq![source],
        before.state == state.marked_dirty(source),
        completes(call, before, seq![Work::Settle(memo)], after),
    ensures
        is_rerun(call, before.with(before.state.has_run(source, true)), memo, after),
{
    let marked = before.state;
    let sources = seq![source];
    lemma_mark_dirty(state, source);
    let first = state.with_mark(source, ReactiveNodeState::Dirty);
    lemma_reached_start(first, state.subscribers_of(source), memo);
    assert(downstream(state, source, memo));
    assert(marked.state_of(memo) == ReactiveNodeState::Check);
    lemma_settle_check(call, before, memo, after);
    let checked = choose|checked: Moment<W>| #[trigger]
        completes_both(
            call,
            before,
            source_work(memo, sources),
            checked,
            seq![Work::Refresh(memo)],
            after,
        );
    lemma_check_source(call, before, memo, sources, checked);
    let told = choose|middle: Moment<W>| #[trigger]
        completes_both(
            call,
            before,
            seq![Work::Settle(sources.first())],
            middle,
            source_work(memo, sources.drop_first()),
            checked,
        );
    assert(sources.drop_first() =~= Seq::empty());
    lemma_no_sources(call, told, memo, checked);
    lemma_bare_rerun(call, before, source, told);
    let ran = choose|ran: Moment<W>| #[trigger]
        updates(call, before, source, ran) && told == ran.marked_clean(source);
    assert(told.state =~= marked.has_run(source, true));
    assert(told == before.with(marked.has_run(source, true)));
    assert(marked.subscribers_of(source).contains(memo)) by {
        assert(subscribes(state, source, memo));
    }
    lemma_refresh(call, told, memo, after);
}

} // verus!
