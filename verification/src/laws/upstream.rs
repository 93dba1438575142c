//! What settling a node means for everything that the node depends on.
use crate::agenda::{
    advances, answers, completes, deals, effect_work, lemma_settled_is_clean, reaches, source_work,
    updates, Call, Moment, Work,
};
use crate::laws::graph::{
    is_consistent, lemma_cleaning_is_consistent, lemma_detaching_is_consistent,
    lemma_letting_go_is_consistent, lemma_running_is_consistent, lemma_same_edges,
};
use crate::laws::marking::{is_chain, lemma_clean_upstream, subscribes, tells_all};
use crate::laws::settling::{
    completes_both, is_rerun_by, lemma_dirty_stops_checking, lemma_effects_in_order,
    lemma_no_sources, lemma_no_work, lemma_plain_step, lemma_refresh, lemma_split_done,
};
use crate::node::{ReactiveNodeState, ReactiveNodeType};
use crate::runtime::Runtime;
use crate::sets::swap_removed;
use crate::state::RuntimeState;
use vstd::prelude::*;

verus! {

/// A node is there and holds a value, or nothing, without computing it.
pub open spec fn is_plain(state: RuntimeState, id: u64) -> bool {
    state.nodes.contains_key(id) && (state.nodes[id].node_type is Signal
        || state.nodes[id].node_type is Trigger)
}

/// The graph is consistent and everyone in it is told. `upstream` has the
/// sources of every node in it, and signals and triggers have none.
pub open spec fn is_sound(state: RuntimeState, upstream: Set<u64>) -> bool {
    &&& is_consistent(state)
    &&& tells_all(state)
    &&& forall|id: u64, source: u64|
        #![trigger upstream.contains(id), state.sources_of(id).contains(source)]
        upstream.contains(id) && state.sources_of(id).contains(source) ==> upstream.contains(source)
    &&& forall|id: u64| #[trigger]
        upstream.contains(id) && is_plain(state, id) ==> state.sources_of(id).len() == 0
}

/// Nothing upstream has been written to: what was clean still is, and what is to
/// be checked was to be checked before, with no fewer sources. A node that is
/// not there counts as clean.
pub open spec fn leaves_alone(
    before: RuntimeState,
    after: RuntimeState,
    upstream: Set<u64>,
) -> bool {
    &&& forall|id: u64| #[trigger]
        upstream.contains(id) && before.state_of(id) == ReactiveNodeState::Clean ==> after.state_of(
            id,
        ) == ReactiveNodeState::Clean
    &&& forall|id: u64| #[trigger]
        upstream.contains(id) && after.state_of(id) == ReactiveNodeState::Check ==> before.state_of(
            id,
        ) == ReactiveNodeState::Check
    &&& forall|id: u64, source: u64|
        #![trigger upstream.contains(id), after.sources_of(id).contains(source)]
        upstream.contains(id) && after.state_of(id) == ReactiveNodeState::Check
            && after.sources_of(id).contains(source) ==> before.sources_of(id).contains(source)
}

/// Nothing upstream has come into being or been brought up to date.
pub open spec fn settles_nothing(
    before: RuntimeState,
    after: RuntimeState,
    upstream: Set<u64>,
) -> bool {
    forall|id: u64| #[trigger]
        upstream.contains(id) && after.nodes.contains_key(id) ==> before.nodes.contains_key(id) && (
        before.state_of(id).needs_update() ==> after.state_of(id).needs_update())
}

/// A node that runs is still to be marked as clean, and everything that it has
/// read is clean.
pub open spec fn has_read(after: RuntimeState, id: u64) -> bool {
    &&& after.state_of(id) != ReactiveNodeState::Clean
    &&& forall|source: u64| #[trigger]
        subscribes(after, source, id) ==> after.state_of(source) == ReactiveNodeState::Clean
}

/// The code of the embedding program keeps the graph sound and writes to nothing
/// upstream. Cleanup functions bring nothing upstream up to date. A function
/// that runs for a node upstream brings whatever it reads up to date, and leaves
/// it at that.
pub open spec fn writes_nothing_upstream<W, F: Fn(Runtime, W, Call) -> (Runtime, W, bool)>(
    call: F,
    upstream: Set<u64>,
) -> bool {
    forall|before: Moment<W>, request: Call, after: Moment<W>, answer: bool| #[trigger]
        answers(call, before, request, after, answer) && is_sound(before.state, upstream) ==> {
            &&& is_sound(after.state, upstream)
            &&& leaves_alone(before.state, after.state, upstream)
            &&& request is Cleanup ==> settles_nothing(before.state, after.state, upstream)
            &&& request is Run ==> (before.state.observer matches Some(id) ==> (upstream.contains(id)
                && before.state.state_of(id) != ReactiveNodeState::Clean ==> has_read(
                after.state,
                id,
            )))
        }
}

// Steps that leave everything upstream alone

proof fn lemma_alone_then(
    before: RuntimeState,
    middle: RuntimeState,
    after: RuntimeState,
    upstream: Set<u64>,
)
    requires
        leaves_alone(before, middle, upstream),
        leaves_alone(middle, after, upstream),
    ensures
        leaves_alone(before, after, upstream),
{
    assert forall|id: u64, source: u64|
        #![trigger upstream.contains(id), after.sources_of(id).contains(source)]
        upstream.contains(id) && after.state_of(id) == ReactiveNodeState::Check && after.sources_of(
            id,
        ).contains(source) implies before.sources_of(id).contains(source) by {
        assert(middle.sources_of(id).contains(source));
    }
}

/// Whether a graph is sound depends on its nodes and edges alone.
proof fn lemma_sound_same(state: RuntimeState, after: RuntimeState, upstream: Set<u64>)
    requires
        is_sound(state, upstream),
        after.nodes == state.nodes,
        after.subscribers == state.subscribers,
        after.sources == state.sources,
    ensures
        is_sound(after, upstream),
        leaves_alone(state, after, upstream),
        settles_nothing(state, after, upstream),
{
    lemma_same_edges(state, after);
    assert forall|a: u64, b: u64| #[trigger]
        subscribes(after, a, b) && after.state_of(a) != ReactiveNodeState::Clean
            && after.nodes.contains_key(b) implies after.state_of(b) != ReactiveNodeState::Clean by {
        assert(subscribes(state, a, b));
    }
    assert forall|id: u64, source: u64|
        #![trigger upstream.contains(id), after.sources_of(id).contains(source)]
        upstream.contains(id) && after.sources_of(id).contains(source) implies upstream.contains(
        source,
    ) by {
        assert(state.sources_of(id).contains(source));
    }
}

/// A set has no new items after a removal.
pub(crate) proof fn lemma_removed_is_subset(ids: Seq<u64>, id: u64, other: u64)
    requires
        swap_removed(ids, id).contains(other),
    ensures
        ids.contains(other),
{
    if ids.contains(id) {
        let after = swap_removed(ids, id);
        let i = after.index_of(other);
        let at = ids.index_of(id);
        if i == at {
            assert(ids[ids.len() - 1] == other);
        } else {
            assert(ids[i] == other);
        }
    }
}

proof fn lemma_detaching_leaves_alone(state: RuntimeState, id: u64, upstream: Set<u64>)
    requires
        is_sound(state, upstream),
    ensures
        is_sound(state.detached(id), upstream),
        leaves_alone(state, state.detached(id), upstream),
        settles_nothing(state, state.detached(id), upstream),
{
    let after = state.detached(id);
    lemma_detaching_is_consistent(state, id);
    assert forall|n: u64, source: u64| #[trigger]
        after.sources_of(n).contains(source) implies state.sources_of(n).contains(source) by {
        if state.subscribers_of(id).contains(n) && n != id {
            assert(after.sources_of(n) == swap_removed(state.sources_of(n), id));
            lemma_removed_is_subset(state.sources_of(n), id, source);
        }
    }
    assert forall|n: u64| #[trigger] upstream.contains(n) && is_plain(after, n) implies after.sources_of(
        n,
    ).len() == 0 by {
        assert(is_plain(state, n));
        if after.sources_of(n).len() > 0 {
            assert(after.sources_of(n).contains(after.sources_of(n)[0]));
            assert(state.sources_of(n).contains(after.sources_of(n)[0]));
        }
    }
}

/// A task is part of disposing of something.
pub open spec fn is_disposal(work: Work) -> bool {
    match work {
        Work::Properties(_) => true,
        Work::Property(_) => true,
        Work::Cleanups(_) => true,
        Work::Cleanup(_) => true,
        Work::Detach(_) => true,
        _ => false,
    }
}

/// All tasks of a list are.
pub open spec fn are_disposals(list: Seq<Work>) -> bool {
    forall|i: int| #![trigger list[i]] 0 <= i < list.len() ==> is_disposal(list[i])
}

proof fn lemma_disposing_leaves_alone<W, F: Fn(Runtime, W, Call) -> (Runtime, W, bool)>(
    call: F,
    upstream: Set<u64>,
    before: Moment<W>,
    list: Seq<Work>,
    steps: nat,
    after: Moment<W>,
    rest: Seq<Work>,
)
    requires
        writes_nothing_upstream(call, upstream),
        is_sound(before.state, upstream),
        are_disposals(list),
        reaches(call, before, list, steps, after, rest),
    ensures
        is_sound(after.state, upstream),
        leaves_alone(before.state, after.state, upstream),
        settles_nothing(before.state, after.state, upstream),
        are_disposals(rest),
    decreases steps,
{
    if steps > 0 {
        let (state, work) = choose|state: Moment<W>, work: Seq<Work>|
            reaches(call, before, list, (steps - 1) as nat, state, work) && #[trigger] advances(
                call,
                state,
                work,
                after,
                rest,
            );
        lemma_disposing_leaves_alone(
            call,
            upstream,
            before,
            list,
            (steps - 1) as nat,
            state,
            work,
        );
        let more = choose|more: Seq<Work>| #[trigger]
            deals(call, state, work.first(), after, more) && rest == more + work.drop_first();
        assert(is_disposal(work[0]));
        match work.first() {
            Work::Cleanup(cleanup) => {
                let answer = choose|answer: bool| #[trigger]
                    answers(call, state, Call::Cleanup(cleanup), after, answer);
            },
            Work::Detach(id) => {
                lemma_detaching_leaves_alone(state.state, id, upstream);
            },
            _ => {
                lemma_sound_same(state.state, after.state, upstream);
            },
        }
        lemma_alone_then(before.state, state.state, after.state, upstream);
        assert(are_disposals(more));
        assert forall|i: int| #![trigger rest[i]] 0 <= i < rest.len() implies is_disposal(
            rest[i],
        ) by {
            if i < more.len() {
                assert(rest[i] == more[i]);
            } else {
                assert(rest[i] == work[i - more.len() + 1]);
            }
        }
    }
}

/// A node that has run, and has read only what is clean, leaves everything
/// upstream alone.
proof fn lemma_running_leaves_alone(
    state: RuntimeState,
    id: u64,
    changed: bool,
    upstream: Set<u64>,
)
    requires
        is_sound(state, upstream),
        has_read(state, id),
    ensures
        is_sound(state.has_run(id, changed), upstream),
        leaves_alone(state, state.has_run(id, changed), upstream),
        state.has_run(id, changed).state_of(id) == ReactiveNodeState::Clean,
{
    let after = state.has_run(id, changed);
    lemma_running_is_consistent(state, id, changed);
    assert forall|n: u64| state.state_of(n) == ReactiveNodeState::Clean implies #[trigger]
        after.state_of(n) == ReactiveNodeState::Clean by {
        if state.nodes.contains_key(n) && state.subscribers_of(id).contains(n) {
            assert(subscribes(state, id, n));
        }
    }
    assert forall|n: u64, source: u64|
        #![trigger upstream.contains(n), after.sources_of(n).contains(source)]
        upstream.contains(n) && after.sources_of(n).contains(source) implies upstream.contains(
        source,
    ) by {
        assert(state.sources_of(n).contains(source));
    }
    assert forall|n: u64| #[trigger] upstream.contains(n) && is_plain(after, n) implies after.sources_of(
        n,
    ).len() == 0 by {
        assert(is_plain(state, n));
    }
}

proof fn lemma_update_leaves_alone<W, F: Fn(Runtime, W, Call) -> (Runtime, W, bool)>(
    call: F,
    upstream: Set<u64>,
    before: Moment<W>,
    id: u64,
    after: Moment<W>,
)
    requires
        writes_nothing_upstream(call, upstream),
        is_sound(before.state, upstream),
        upstream.contains(id),
        before.state.nodes.contains_key(id) ==> before.state.state_of(id)
            != ReactiveNodeState::Clean,
        updates(call, before, id, after),
    ensures
        is_sound(after.state, upstream),
        leaves_alone(before.state, after.state, upstream),
        after.state.state_of(id) == ReactiveNodeState::Clean,
{
    if before.state.nodes.contains_key(id) {
        let node = before.state.nodes[id];
        let f = match node.node_type {
            ReactiveNodeType::Memo { f } => Some(f),
            ReactiveNodeType::Effect { f } => Some(f),
            _ => None,
        };
        if let Some(f) = f {
            let (ran, changed) = choose|ran: Moment<W>, changed: bool| #[trigger]
                answers(
                    call,
                    before.with(before.state.observed_by(id).unsubscribed(id)),
                    (Call::Run { f, value: node.value }),
                    ran,
                    changed,
                ) && after == ran.with(ran.state.observed_as(before.state).has_run(id, changed));
            let observed = before.state.observed_by(id);
            let free = observed.unsubscribed(id);
            lemma_sound_same(before.state, observed, upstream);
            lemma_letting_go_is_consistent(observed, id);
            assert(is_sound(free, upstream)) by {
                assert forall|n: u64, source: u64|
                    #![trigger upstream.contains(n), free.sources_of(n).contains(source)]
                    upstream.contains(n) && free.sources_of(n).contains(
                        source,
                    ) implies upstream.contains(source) by {
                    assert(observed.sources_of(n).contains(source));
                }
                assert forall|n: u64| #[trigger]
                    upstream.contains(n) && is_plain(free, n) implies free.sources_of(n).len()
                    == 0 by {
                    assert(is_plain(observed, n));
                }
            }
            assert(leaves_alone(before.state, free, upstream));
            assert(free.state_of(id) != ReactiveNodeState::Clean);
            let back = ran.state.observed_as(before.state);
            lemma_sound_same(ran.state, back, upstream);
            assert(has_read(ran.state, id));
            assert(has_read(back, id)) by {
                assert forall|source: u64| #[trigger]
                    subscribes(back, source, id) implies back.state_of(source)
                    == ReactiveNodeState::Clean by {
                    assert(subscribes(ran.state, source, id));
                }
            }
            lemma_running_leaves_alone(back, id, changed, upstream);
            lemma_alone_then(before.state, free, ran.state, upstream);
            lemma_alone_then(before.state, ran.state, back, upstream);
            lemma_alone_then(before.state, back, after.state, upstream);
        } else {
            assert(is_plain(before.state, id));
            assert(has_read(before.state, id)) by {
                assert forall|source: u64| #[trigger]
                    subscribes(before.state, source, id) implies before.state.state_of(source)
                    == ReactiveNodeState::Clean by {
                    assert(before.state.sources_of(id).contains(source));
                }
            }
            lemma_running_leaves_alone(before.state, id, true, upstream);
        }
    }
}

/// A node that has been checked leaves everything upstream alone.
proof fn lemma_refresh_leaves_alone<W, F: Fn(Runtime, W, Call) -> (Runtime, W, bool)>(
    call: F,
    upstream: Set<u64>,
    before: Moment<W>,
    id: u64,
    after: Moment<W>,
)
    requires
        writes_nothing_upstream(call, upstream),
        is_sound(before.state, upstream),
        upstream.contains(id),
        before.state.state_of(id) == ReactiveNodeState::Check ==> forall|source: u64| #[trigger]
            before.state.sources_of(id).contains(source) ==> before.state.state_of(source)
                == ReactiveNodeState::Clean,
        completes(call, before, seq![Work::Refresh(id)], after),
    ensures
        is_sound(after.state, upstream),
        leaves_alone(before.state, after.state, upstream),
{
    lemma_refresh(call, before, id, after);
    if before.state.state_of(id).needs_update() {
        let (cleaned, bare, ran) = choose|cleaned: Moment<W>, bare: Moment<W>, ran: Moment<W>|
            #[trigger] is_rerun_by(call, before, id, cleaned, bare, ran, after);
        let cleanups = seq![Work::Cleanups(id)];
        let properties = seq![Work::Properties(id)];
        reveal(completes);
        let m = choose|m: nat| #[trigger] reaches(call, before, cleanups, m, cleaned, Seq::empty());
        lemma_disposing_leaves_alone(
            call,
            upstream,
            before,
            cleanups,
            m,
            cleaned,
            Seq::empty(),
        );
        let n = choose|n: nat| #[trigger] reaches(call, cleaned, properties, n, bare, Seq::empty());
        lemma_disposing_leaves_alone(
            call,
            upstream,
            cleaned,
            properties,
            n,
            bare,
            Seq::empty(),
        );
        lemma_update_leaves_alone(call, upstream, bare, id, ran);
        assert(after.state =~= ran.state);
        lemma_alone_then(before.state, cleaned.state, bare.state, upstream);
        lemma_alone_then(before.state, bare.state, ran.state, upstream);
    } else if before.state.state_of(id) == ReactiveNodeState::Check {
        let state = before.state;
        lemma_cleaning_is_consistent(state, id);
        assert forall|n: u64, source: u64|
            #![trigger upstream.contains(n), after.state.sources_of(n).contains(source)]
            upstream.contains(n) && after.state.sources_of(n).contains(
                source,
            ) implies upstream.contains(source) by {
            assert(state.sources_of(n).contains(source));
        }
        assert forall|n: u64| #[trigger]
            upstream.contains(n) && is_plain(after.state, n) implies after.state.sources_of(n).len()
            == 0 by {
            assert(is_plain(state, n));
        }
    } else {
        assert(after.state =~= before.state);
    }
}

proof fn lemma_settling_leaves_alone<W, F: Fn(Runtime, W, Call) -> (Runtime, W, bool)>(
    call: F,
    upstream: Set<u64>,
    before: Moment<W>,
    id: u64,
    steps: nat,
    after: Moment<W>,
)
    requires
        writes_nothing_upstream(call, upstream),
        is_sound(before.state, upstream),
        upstream.contains(id),
        reaches(call, before, seq![Work::Settle(id)], steps, after, Seq::empty()),
    ensures
        is_sound(after.state, upstream),
        leaves_alone(before.state, after.state, upstream),
    decreases steps,
{
    let settle = seq![Work::Settle(id)];
    let refresh = seq![Work::Refresh(id)];
    assert(steps > 0) by {
        assert(settle.len() == 1);
    }
    lemma_plain_step(call, before, settle, steps, after, Seq::empty());
    assert(before.with(before.state) == before);
    if before.state.state_of(id) == ReactiveNodeState::Check {
        let sources = before.state.sources_of(id);
        assert(source_work(id, sources).push(Work::Refresh(id)) + settle.drop_first()
            =~= source_work(id, sources) + refresh);
        let (m, checked) = lemma_split_done(
            call,
            before,
            source_work(id, sources),
            refresh,
            (steps - 1) as nat,
            after,
        );
        lemma_checking_leaves_alone(call, upstream, before, id, sources, m, checked);
        assert(completes(call, checked, refresh, after)) by {
            reveal(completes);
        }
        lemma_refresh_leaves_alone(call, upstream, checked, id, after);
        lemma_alone_then(before.state, checked.state, after.state, upstream);
    } else {
        assert(refresh + settle.drop_first() =~= refresh);
        assert(completes(call, before, refresh, after)) by {
            reveal(completes);
        }
        lemma_refresh_leaves_alone(call, upstream, before, id, after);
    }
}

proof fn lemma_checking_leaves_alone<W, F: Fn(Runtime, W, Call) -> (Runtime, W, bool)>(
    call: F,
    upstream: Set<u64>,
    before: Moment<W>,
    id: u64,
    sources: Seq<u64>,
    steps: nat,
    after: Moment<W>,
)
    requires
        writes_nothing_upstream(call, upstream),
        is_sound(before.state, upstream),
        upstream.contains(id),
        forall|source: u64| #[trigger] sources.contains(source) ==> upstream.contains(source),
        reaches(call, before, source_work(id, sources), steps, after, Seq::empty()),
    ensures
        is_sound(after.state, upstream),
        leaves_alone(before.state, after.state, upstream),
        after.state.state_of(id).needs_update() || forall|source: u64| #[trigger]
            sources.contains(source) ==> after.state.state_of(source) == ReactiveNodeState::Clean,
    decreases steps,
{
    let list = source_work(id, sources);
    if sources.len() == 0 {
        assert(list =~= Seq::empty());
        assert(sources =~= Seq::empty());
        assert(completes(call, before, list, after)) by {
            reveal(completes);
        }
        lemma_no_sources(call, before, id, after);
    } else if before.state.state_of(id).needs_update() {
        assert(completes(call, before, list, after)) by {
            reveal(completes);
        }
        lemma_dirty_stops_checking(call, before, id, sources, after);
    } else {
        let first = sources.first();
        let others = sources.drop_first();
        let settle = seq![Work::Settle(first)];
        assert(steps > 0) by {
            assert(list.len() == sources.len());
        }
        lemma_plain_step(call, before, list, steps, after, Seq::empty());
        assert(before.with(before.state) == before);
        assert(list.first() == Work::Source { node: id, source: first });
        assert(list.drop_first() =~= source_work(id, others));
        let (m, middle) = lemma_split_done(
            call,
            before,
            settle,
            source_work(id, others),
            (steps - 1) as nat,
            after,
        );
        assert(sources.contains(first));
        assert forall|source: u64| #[trigger] others.contains(source) implies upstream.contains(
            source,
        ) by {
            let j = others.index_of(source);
            assert(sources[j + 1] == source);
            assert(sources.contains(source));
        }
        lemma_settling_leaves_alone(call, upstream, before, first, m, middle);
        assert(completes(call, before, settle, middle)) by {
            reveal(completes);
        }
        lemma_settled_is_clean(call, before, first, middle);
        lemma_checking_leaves_alone(
            call,
            upstream,
            middle,
            id,
            others,
            (steps - 1 - m) as nat,
            after,
        );
        lemma_alone_then(before.state, middle.state, after.state, upstream);
        assert forall|source: u64| #[trigger] sources.contains(
            source,
        ) && !after.state.state_of(id).needs_update() implies after.state.state_of(source)
            == ReactiveNodeState::Clean by {
            let j = sources.index_of(source);
            if j > 0 {
                assert(others[j - 1] == source);
                assert(others.contains(source));
            }
        }
    }
}

/// Settling a node keeps everyone told: whatever subscribes to a node that is
/// not up to date is not up to date either. What was clean upstream of the node
/// still is.
///
/// This is so as long as the code that runs meanwhile writes to nothing
/// upstream. A function that writes to what it has read is marked as clean with
/// a source that is not.
pub proof fn lemma_settling_tells_all<W, F: Fn(Runtime, W, Call) -> (Runtime, W, bool)>(
    call: F,
    upstream: Set<u64>,
    before: Moment<W>,
    id: u64,
    after: Moment<W>,
)
    requires
        writes_nothing_upstream(call, upstream),
        is_sound(before.state, upstream),
        upstream.contains(id),
        completes(call, before, seq![Work::Settle(id)], after),
    ensures
        tells_all(after.state),
        is_sound(after.state, upstream),
        leaves_alone(before.state, after.state, upstream),
{
    reveal(completes);
    let steps = choose|steps: nat| #[trigger]
        reaches(call, before, seq![Work::Settle(id)], steps, after, Seq::empty());
    lemma_settling_leaves_alone(call, upstream, before, id, steps, after);
}

/// Settling effects one after the other keeps everyone told as well.
pub proof fn lemma_effects_tell_all<W, F: Fn(Runtime, W, Call) -> (Runtime, W, bool)>(
    call: F,
    upstream: Set<u64>,
    before: Moment<W>,
    effects: Seq<u64>,
    after: Moment<W>,
)
    requires
        writes_nothing_upstream(call, upstream),
        is_sound(before.state, upstream),
        forall|id: u64| #[trigger] effects.contains(id) ==> upstream.contains(id),
        completes(call, before, effect_work(effects), after),
    ensures
        tells_all(after.state),
        is_sound(after.state, upstream),
        leaves_alone(before.state, after.state, upstream),
    decreases effects.len(),
{
    if effects.len() == 0 {
        assert(effect_work(effects) =~= Seq::empty());
        lemma_no_work(call, before, after);
    } else {
        let others = effects.drop_first();
        lemma_effects_in_order(call, before, effects, after);
        let middle = choose|middle: Moment<W>| #[trigger]
            completes_both(
                call,
                before,
                seq![Work::Settle(effects.first())],
                middle,
                effect_work(others),
                after,
            );
        assert(effects.contains(effects.first()));
        lemma_settling_tells_all(call, upstream, before, effects.first(), middle);
        assert forall|id: u64| #[trigger] others.contains(id) implies upstream.contains(id) by {
            let j = others.index_of(id);
            assert(effects[j + 1] == id);
            assert(effects.contains(id));
        }
        lemma_effects_tell_all(call, upstream, middle, others, after);
        lemma_alone_then(before.state, middle.state, after.state, upstream);
    }
}

/// Once a node has been settled, everything that it depends on, however far
/// upstream, is clean: it has seen no value that is out of date.
pub proof fn lemma_settled_is_current<W, F: Fn(Runtime, W, Call) -> (Runtime, W, bool)>(
    call: F,
    upstream: Set<u64>,
    before: Moment<W>,
    id: u64,
    after: Moment<W>,
    chain: Seq<u64>,
)
    requires
        writes_nothing_upstream(call, upstream),
        is_sound(before.state, upstream),
        upstream.contains(id),
        completes(call, before, seq![Work::Settle(id)], after),
        is_chain(after.state, chain),
        chain.last() == id,
    ensures
        after.state.state_of(chain.first()) == ReactiveNodeState::Clean,
{
    lemma_settling_tells_all(call, upstream, before, id, after);
    lemma_settled_is_clean(call, before, id, after);
    lemma_clean_upstream(after.state, chain);
}

} // verus!
