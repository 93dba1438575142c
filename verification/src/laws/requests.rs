//! What the runtime asks of the embedding program, and when.
//!
//! These laws follow the requests one by one: which functions are called, with
//! what, in which order, and what the runtime looks like at that moment.
use crate::agenda::{
    answers, cleans_up, cleanup_work, completes, effect_work, is_gone, property_work, reaches,
    source_work, updates, works_off, Call, Moment, Work, LIMIT,
};
use crate::laws::graph::{is_consistent, lemma_letting_go_is_consistent, lemma_same_edges};
use crate::laws::marking::subscribes;
use crate::laws::operations::{
    edge, lemma_has_run_exactly, lemma_letting_go_exactly, lists_once, source,
};
use crate::laws::settling::{
    completes_both, is_disposed_by, is_rerun, is_rerun_by, lemma_check_source, lemma_cleanup,
    lemma_dirty_stops_checking, lemma_dispose_node, lemma_effects_in_order, lemma_in_order,
    lemma_no_sources, lemma_no_work, lemma_plain_work, lemma_refresh, lemma_settle_check, lemma_settle_clean,
    lemma_settle_dirty,
};
use crate::node::{
    CleanupId, ComputationId, Property, ReactiveNode, ReactiveNodeState, ReactiveNodeType,
};
use crate::runtime::Runtime;
use crate::state::RuntimeState;
use vstd::prelude::*;

verus! {

// Running a node

/// A memo or an effect runs on a clean slate: when its function is called, no
/// node has it as a subscriber, whatever it has read before. So once it has run
/// it subscribes to exactly those nodes that this run has read.
pub proof fn lemma_runs_anew<W, F: Fn(Runtime, W, Call) -> (Runtime, W, bool)>(
    call: F,
    before: Moment<W>,
    id: u64,
    f: ComputationId,
    after: Moment<W>,
)
    requires
        is_consistent(before.state),
        before.state.nodes.contains_key(id),
        before.state.nodes[id].node_type == (ReactiveNodeType::Memo { f })
            || before.state.nodes[id].node_type == (ReactiveNodeType::Effect { f }),
        updates(call, before, id, after),
    ensures
        exists|start: Moment<W>, ran: Moment<W>, changed: bool| #[trigger]
            answers(
                call,
                start,
                (Call::Run { f, value: before.state.nodes[id].value }),
                ran,
                changed,
            ) && (forall|a: u64| !#[trigger] subscribes(start.state, a, id)) && (forall|a: u64|
                #[trigger] subscribes(after.state, a, id) <==> subscribes(ran.state, a, id)),
{
    let start = before.with(before.state.observed_by(id).unsubscribed(id));
    let value = before.state.nodes[id].value;
    let (ran, changed) = choose|ran: Moment<W>, changed: bool| #[trigger]
        answers(call, start, (Call::Run { f, value }), ran, changed) && after == ran.with(
            ran.state.observed_as(before.state).has_run(id, changed),
        );
    lemma_same_edges(before.state, before.state.observed_by(id));
    lemma_letting_go_is_consistent(before.state.observed_by(id), id);
    assert forall|a: u64| #[trigger]
        subscribes(after.state, a, id) <==> subscribes(ran.state, a, id) by {
        lemma_has_run_exactly(ran.state.observed_as(before.state), id, changed, a);
    }
}

/// Running a memo or an effect calls its function once, on its value. At that
/// moment the node owns and observes, has let go of everything that it had read,
/// and everything else is as it was. Afterwards the owner and the observer from before are back, the
/// node is clean and, if the answer was that its value has changed, its
/// subscribers are dirty. Everything else is as the function has left it.
pub proof fn lemma_run_exactly<W, F: Fn(Runtime, W, Call) -> (Runtime, W, bool)>(
    call: F,
    before: Moment<W>,
    id: u64,
    f: ComputationId,
    after: Moment<W>,
)
    requires
        lists_once(before.state),
        before.state.nodes.contains_key(id),
        before.state.nodes[id].node_type == (ReactiveNodeType::Memo { f })
            || before.state.nodes[id].node_type == (ReactiveNodeType::Effect { f }),
        updates(call, before, id, after),
    ensures
        exists|x: Runtime, y: Runtime, changed: bool| #[trigger]
            call.ensures(
                (x, before.world, (Call::Run { f, value: before.state.nodes[id].value })),
                (y, after.world, changed),
            ) && {
                &&& x@ == (RuntimeState {
                    owner: Some(id),
                    observer: Some(id),
                    subscribers: x@.subscribers,
                    ..before.state
                })
                &&& forall|a: u64, b: u64| #[trigger]
                    edge(x@, a, b) <==> edge(before.state, a, b) && !(b == id && source(
                        before.state,
                        id,
                        a,
                    ))
                &&& after.state == (RuntimeState {
                    owner: before.state.owner,
                    observer: before.state.observer,
                    nodes: after.state.nodes,
                    ..y@
                })
                &&& forall|n: u64| #[trigger]
                    after.state.nodes.contains_key(n) <==> y@.nodes.contains_key(n)
                &&& forall|n: u64| #[trigger]
                    y@.nodes.contains_key(n) ==> after.state.nodes[n] == (ReactiveNode {
                        state: if n == id {
                            ReactiveNodeState::Clean
                        } else if changed && edge(y@, id, n) {
                            ReactiveNodeState::Dirty
                        } else {
                            y@.nodes[n].state
                        },
                        ..y@.nodes[n]
                    })
            },
{
    let start = before.with(before.state.observed_by(id).unsubscribed(id));
    let value = before.state.nodes[id].value;
    let (ran, changed) = choose|ran: Moment<W>, changed: bool| #[trigger]
        answers(call, start, (Call::Run { f, value }), ran, changed) && after == ran.with(
            ran.state.observed_as(before.state).has_run(id, changed),
        );
    let (x, y) = choose|x: Runtime, y: Runtime|
        x@ == start.state && y@ == ran.state && #[trigger] call.ensures(
            (x, start.world, (Call::Run { f, value })),
            (y, ran.world, changed),
        );
    assert(lists_once(before.state.observed_by(id)));
    lemma_letting_go_exactly(before.state.observed_by(id), id, 0, 0);
    assert forall|a: u64, b: u64| #[trigger]
        edge(x@, a, b) <==> edge(before.state, a, b) && !(b == id && source(
            before.state,
            id,
            a,
        )) by {
        lemma_letting_go_exactly(before.state.observed_by(id), id, a, b);
        assert(source(before.state.observed_by(id), id, a) == source(before.state, id, a));
    }
    let back = ran.state.observed_as(before.state);
    lemma_has_run_exactly(back, id, changed, id);
    assert forall|n: u64| #[trigger]
        after.state.nodes.contains_key(n) <==> y@.nodes.contains_key(n) by {
        lemma_has_run_exactly(back, id, changed, n);
    }
    assert forall|n: u64| #[trigger]
        y@.nodes.contains_key(n) implies after.state.nodes[n] == (ReactiveNode {
        state: if n == id {
            ReactiveNodeState::Clean
        } else if changed && edge(y@, id, n) {
            ReactiveNodeState::Dirty
        } else {
            y@.nodes[n].state
        },
        ..y@.nodes[n]
    }) by {
        lemma_has_run_exactly(back, id, changed, n);
        assert(edge(back, id, n) == edge(y@, id, n));
    }
    assert(call.ensures(
        (x, before.world, (Call::Run { f, value: before.state.nodes[id].value })),
        (y, after.world, changed),
    ));
}

/// A signal or a trigger that is updated calls nothing. It is clean and all its
/// subscribers are dirty. Where there is no such node, nothing happens.
pub proof fn lemma_change_exactly<W, F: Fn(Runtime, W, Call) -> (Runtime, W, bool)>(
    call: F,
    before: Moment<W>,
    id: u64,
    after: Moment<W>,
    n: u64,
)
    requires
        before.state.nodes.contains_key(id) ==> before.state.nodes[id].node_type is Signal
            || before.state.nodes[id].node_type is Trigger,
        updates(call, before, id, after),
    ensures
        !before.state.nodes.contains_key(id) ==> after == before,
        after.world == before.world,
        after.state == (RuntimeState { nodes: after.state.nodes, ..before.state }),
        after.state.nodes.contains_key(n) <==> before.state.nodes.contains_key(n),
        before.state.nodes.contains_key(id) && before.state.nodes.contains_key(n)
            ==> after.state.nodes[n] == (ReactiveNode {
            state: if n == id {
                ReactiveNodeState::Clean
            } else if edge(before.state, id, n) {
                ReactiveNodeState::Dirty
            } else {
                before.state.nodes[n].state
            },
            ..before.state.nodes[n]
        }),
{
    lemma_has_run_exactly(before.state, id, true, n);
}

/// Running a cleanup function is one call to the embedding program with the
/// runtime as it is, and the runtime goes on as that call has left it.
pub proof fn lemma_cleanup_is_a_call<W, F: Fn(Runtime, W, Call) -> (Runtime, W, bool)>(
    call: F,
    before: Moment<W>,
    cleanup: CleanupId,
    after: Moment<W>,
)
    ensures
        cleans_up(call, before, cleanup, after) <==> exists|x: Runtime, y: Runtime, answer: bool|
            x@ == before.state && y@ == after.state && #[trigger] call.ensures(
                (x, before.world, Call::Cleanup(cleanup)),
                (y, after.world, answer),
            ),
{
    if exists|x: Runtime, y: Runtime, answer: bool|
        x@ == before.state && y@ == after.state && #[trigger] call.ensures(
            (x, before.world, Call::Cleanup(cleanup)),
            (y, after.world, answer),
        ) {
        let (x, y, answer) = choose|x: Runtime, y: Runtime, answer: bool|
            x@ == before.state && y@ == after.state && #[trigger] call.ensures(
                (x, before.world, Call::Cleanup(cleanup)),
                (y, after.world, answer),
            );
        assert(answers(call, before, Call::Cleanup(cleanup), after, answer));
    }
}

// Lists

/// Every cleanup function of a list is run, once and in order.
pub proof fn lemma_each_cleanup_runs<W, F: Fn(Runtime, W, Call) -> (Runtime, W, bool)>(
    call: F,
    before: Moment<W>,
    list: Seq<CleanupId>,
    after: Moment<W>,
)
    ensures
        list.len() == 0 ==> (completes(call, before, cleanup_work(list), after) <==> after
            == before),
        list.len() > 0 ==> (completes(call, before, cleanup_work(list), after) <==> exists|
            middle: Moment<W>,
        | #[trigger]
            cleans_up(call, before, list.first(), middle) && completes(
                call,
                middle,
                cleanup_work(list.drop_first()),
                after,
            )),
{
    if list.len() == 0 {
        assert(cleanup_work(list) =~= Seq::empty());
        lemma_no_work(call, before, after);
    } else {
        let first = seq![Work::Cleanup(list.first())];
        let others = cleanup_work(list.drop_first());
        assert(cleanup_work(list) =~= first + others);
        lemma_in_order(call, before, first, others, after);
        if completes(call, before, cleanup_work(list), after) {
            let middle = choose|middle: Moment<W>| #[trigger]
                completes_both(call, before, first, middle, others, after);
            lemma_cleanup(call, before, list.first(), middle);
        }
        if exists|middle: Moment<W>| #[trigger]
            cleans_up(call, before, list.first(), middle) && completes(
                call,
                middle,
                others,
                after,
            ) {
            let middle = choose|middle: Moment<W>| #[trigger]
                cleans_up(call, before, list.first(), middle) && completes(
                    call,
                    middle,
                    others,
                    after,
                );
            lemma_cleanup(call, before, list.first(), middle);
            assert(completes_both(call, before, first, middle, others, after));
        }
    }
}

/// The cleanup functions of a node have been run, one after the other: `path`
/// goes from one call to the next.
pub open spec fn runs_through<W, F: Fn(Runtime, W, Call) -> (Runtime, W, bool)>(
    call: F,
    list: Seq<CleanupId>,
    path: Seq<Moment<W>>,
) -> bool {
    &&& path.len() == list.len() + 1
    &&& forall|i: int|
        #![trigger list[i]]
        0 <= i < list.len() ==> cleans_up(call, path[i], list[i], path[i + 1])
}

proof fn lemma_cleanups_along<W, F: Fn(Runtime, W, Call) -> (Runtime, W, bool)>(
    call: F,
    before: Moment<W>,
    list: Seq<CleanupId>,
    after: Moment<W>,
) -> (path: Seq<Moment<W>>)
    requires
        completes(call, before, cleanup_work(list), after),
    ensures
        runs_through(call, list, path),
        path.first() == before,
        path.last() == after,
    decreases list.len(),
{
    lemma_each_cleanup_runs(call, before, list, after);
    if list.len() == 0 {
        seq![before]
    } else {
        let middle = choose|middle: Moment<W>| #[trigger]
            cleans_up(call, before, list.first(), middle) && completes(
                call,
                middle,
                cleanup_work(list.drop_first()),
                after,
            );
        let tail = lemma_cleanups_along(call, middle, list.drop_first(), after);
        let path = seq![before] + tail;
        assert forall|i: int|
            #![trigger list[i]]
            0 <= i < list.len() implies cleans_up(call, path[i], list[i], path[i + 1]) by {
            if i > 0 {
                assert(list.drop_first()[i - 1] == list[i]);
                assert(path[i] == tail[i - 1] && path[i + 1] == tail[i]);
            } else {
                assert(path[1] == tail[0]);
            }
        }
        path
    }
}

/// Running the cleanup functions of a node takes them off the node and calls
/// every one that was registered, each once, in the order of registration.
/// Nothing else happens to the runtime in between.
pub proof fn lemma_registered_cleanups_run<W, F: Fn(Runtime, W, Call) -> (Runtime, W, bool)>(
    call: F,
    before: Moment<W>,
    id: u64,
    after: Moment<W>,
)
    requires
        completes(call, before, seq![Work::Cleanups(id)], after),
    ensures
        !before.state.cleanups.contains_key(id) ==> after == before,
        before.state.cleanups.contains_key(id) ==> exists|path: Seq<Moment<W>>| #[trigger]
            runs_through(call, before.state.cleanups[id], path) && path.first() == (Moment {
                state: RuntimeState {
                    cleanups: before.state.cleanups.remove(id),
                    ..before.state
                },
                world: before.world,
            }) && path.last() == after,
{
    lemma_plain_work(call, before, Work::Cleanups(id), after);
    let start = Moment {
        state: RuntimeState { cleanups: before.state.cleanups.remove(id), ..before.state },
        world: before.world,
    };
    if before.state.cleanups.contains_key(id) {
        let path = lemma_cleanups_along(call, start, before.state.cleanups[id], after);
        assert(runs_through(call, before.state.cleanups[id], path));
    } else {
        lemma_each_cleanup_runs(call, start, Seq::empty(), after);
        assert(start =~= before) by {
            assert(before.state.cleanups.remove(id) =~= before.state.cleanups);
        }
    }
}

/// Every property of a list is disposed of, once and in order.
pub proof fn lemma_each_property_goes<W, F: Fn(Runtime, W, Call) -> (Runtime, W, bool)>(
    call: F,
    before: Moment<W>,
    list: Seq<Property>,
    after: Moment<W>,
)
    ensures
        list.len() == 0 ==> (completes(call, before, property_work(list), after) <==> after
            == before),
        list.len() > 0 ==> (completes(call, before, property_work(list), after) <==> exists|
            middle: Moment<W>,
        | #[trigger]
            completes(call, before, seq![Work::Property(list.first())], middle) && completes(
                call,
                middle,
                property_work(list.drop_first()),
                after,
            )),
{
    if list.len() == 0 {
        assert(property_work(list) =~= Seq::empty());
        lemma_no_work(call, before, after);
    } else {
        let first = seq![Work::Property(list.first())];
        let others = property_work(list.drop_first());
        assert(property_work(list) =~= first + others);
        lemma_in_order(call, before, first, others, after);
        if exists|middle: Moment<W>| #[trigger]
            completes(call, before, first, middle) && completes(call, middle, others, after) {
            let middle = choose|middle: Moment<W>| #[trigger]
                completes(call, before, first, middle) && completes(call, middle, others, after);
            assert(completes_both(call, before, first, middle, others, after));
        }
    }
}

/// Disposing of the properties of a node takes them off the node and disposes of
/// every one, in the order in which they were registered.
pub proof fn lemma_registered_properties_go<W, F: Fn(Runtime, W, Call) -> (Runtime, W, bool)>(
    call: F,
    before: Moment<W>,
    id: u64,
    after: Moment<W>,
)
    ensures
        !before.state.properties.contains_key(id) ==> (completes(
            call,
            before,
            seq![Work::Properties(id)],
            after,
        ) <==> after == before),
        before.state.properties.contains_key(id) ==> (completes(
            call,
            before,
            seq![Work::Properties(id)],
            after,
        ) <==> completes(
            call,
            (Moment {
                state: RuntimeState {
                    properties: before.state.properties.remove(id),
                    ..before.state
                },
                world: before.world,
            }),
            property_work(before.state.properties[id]),
            after,
        )),
{
    lemma_plain_work(call, before, Work::Properties(id), after);
    if !before.state.properties.contains_key(id) {
        lemma_each_property_goes(call, before, Seq::empty(), after);
        assert(before.state.properties.remove(id) =~= before.state.properties);
    }
}

/// Disposing of a resource or of a stored value takes it out, without a call.
/// Disposing of a node disposes of its properties, then runs its cleanup
/// functions, then takes it out of the graph.
pub proof fn lemma_property_goes<W, F: Fn(Runtime, W, Call) -> (Runtime, W, bool)>(
    call: F,
    before: Moment<W>,
    property: Property,
    after: Moment<W>,
)
    ensures
        completes(call, before, seq![Work::Property(property)], after) <==> match property {
            Property::Resource(id) => after == (Moment {
                state: before.state.without_resource(id),
                world: before.world,
            }),
            Property::StoredValue(id) => after == (Moment {
                state: before.state.without_stored_value(id),
                world: before.world,
            }),
            Property::Trigger(id) => exists|orphaned: Moment<W>, cleaned: Moment<W>|
                #![trigger
                    completes(call, before, seq![Work::Properties(id)], orphaned),
                    completes(call, orphaned, seq![Work::Cleanups(id)], cleaned)
                ]
                completes(call, before, seq![Work::Properties(id)], orphaned) && completes(
                    call,
                    orphaned,
                    seq![Work::Cleanups(id)],
                    cleaned,
                ) && after == (Moment { state: cleaned.state.detached(id), world: cleaned.world }),
            Property::Signal(id) => exists|orphaned: Moment<W>, cleaned: Moment<W>|
                #![trigger
                    completes(call, before, seq![Work::Properties(id)], orphaned),
                    completes(call, orphaned, seq![Work::Cleanups(id)], cleaned)
                ]
                completes(call, before, seq![Work::Properties(id)], orphaned) && completes(
                    call,
                    orphaned,
                    seq![Work::Cleanups(id)],
                    cleaned,
                ) && after == (Moment { state: cleaned.state.detached(id), world: cleaned.world }),
            Property::Effect(id) => exists|orphaned: Moment<W>, cleaned: Moment<W>|
                #![trigger
                    completes(call, before, seq![Work::Properties(id)], orphaned),
                    completes(call, orphaned, seq![Work::Cleanups(id)], cleaned)
                ]
                completes(call, before, seq![Work::Properties(id)], orphaned) && completes(
                    call,
                    orphaned,
                    seq![Work::Cleanups(id)],
                    cleaned,
                ) && after == (Moment { state: cleaned.state.detached(id), world: cleaned.world }),
        },
{
    match property {
        Property::Resource(id) => {
            lemma_plain_work(call, before, Work::Property(property), after);
            lemma_no_work(call, before.with(before.state.without_resource(id)), after);
        },
        Property::StoredValue(id) => {
            lemma_plain_work(call, before, Work::Property(property), after);
            lemma_no_work(call, before.with(before.state.without_stored_value(id)), after);
        },
        Property::Trigger(id) => {
            lemma_node_goes(call, before, property, id, after);
        },
        Property::Signal(id) => {
            lemma_node_goes(call, before, property, id, after);
        },
        Property::Effect(id) => {
            lemma_node_goes(call, before, property, id, after);
        },
    }
}

proof fn lemma_node_goes<W, F: Fn(Runtime, W, Call) -> (Runtime, W, bool)>(
    call: F,
    before: Moment<W>,
    property: Property,
    id: u64,
    after: Moment<W>,
)
    requires
        property.node() == Some(id),
    ensures
        completes(call, before, seq![Work::Property(property)], after) <==> exists|
            orphaned: Moment<W>,
            cleaned: Moment<W>,
        |
            #![trigger
                completes(call, before, seq![Work::Properties(id)], orphaned),
                completes(call, orphaned, seq![Work::Cleanups(id)], cleaned)
            ]
            completes(call, before, seq![Work::Properties(id)], orphaned) && completes(
                call,
                orphaned,
                seq![Work::Cleanups(id)],
                cleaned,
            ) && after == (Moment { state: cleaned.state.detached(id), world: cleaned.world }),
{
    lemma_dispose_node(call, before, property, id, after);
    if exists|orphaned: Moment<W>, cleaned: Moment<W>|
        #![trigger
            completes(call, before, seq![Work::Properties(id)], orphaned),
            completes(call, orphaned, seq![Work::Cleanups(id)], cleaned)
        ]
        completes(call, before, seq![Work::Properties(id)], orphaned) && completes(
            call,
            orphaned,
            seq![Work::Cleanups(id)],
            cleaned,
        ) && after == (Moment { state: cleaned.state.detached(id), world: cleaned.world }) {
        let (orphaned, cleaned) = choose|orphaned: Moment<W>, cleaned: Moment<W>|
            #![trigger
                completes(call, before, seq![Work::Properties(id)], orphaned),
                completes(call, orphaned, seq![Work::Cleanups(id)], cleaned)
            ]
            completes(call, before, seq![Work::Properties(id)], orphaned) && completes(
                call,
                orphaned,
                seq![Work::Cleanups(id)],
                cleaned,
            ) && after == (Moment { state: cleaned.state.detached(id), world: cleaned.world });
        assert(is_disposed_by(call, before, id, orphaned, cleaned, after));
    }
}

/// Every effect of a list is brought up to date, in order.
pub proof fn lemma_each_effect_settles<W, F: Fn(Runtime, W, Call) -> (Runtime, W, bool)>(
    call: F,
    before: Moment<W>,
    list: Seq<u64>,
    after: Moment<W>,
)
    ensures
        list.len() == 0 ==> (completes(call, before, effect_work(list), after) <==> after
            == before),
        list.len() > 0 ==> (completes(call, before, effect_work(list), after) <==> exists|
            middle: Moment<W>,
        | #[trigger]
            completes(call, before, seq![Work::Settle(list.first())], middle) && completes(
                call,
                middle,
                effect_work(list.drop_first()),
                after,
            )),
{
    if list.len() == 0 {
        assert(effect_work(list) =~= Seq::empty());
        lemma_no_work(call, before, after);
    } else {
        let first = seq![Work::Settle(list.first())];
        let others = effect_work(list.drop_first());
        lemma_effects_in_order(call, before, list, after);
        if exists|middle: Moment<W>| #[trigger]
            completes(call, before, first, middle) && completes(call, middle, others, after) {
            let middle = choose|middle: Moment<W>| #[trigger]
                completes(call, before, first, middle) && completes(call, middle, others, after);
            assert(completes_both(call, before, first, middle, others, after));
        }
    }
}

/// The sources of a node are brought up to date in order, for as long as the
/// node is not dirty.
pub proof fn lemma_each_source_settles<W, F: Fn(Runtime, W, Call) -> (Runtime, W, bool)>(
    call: F,
    before: Moment<W>,
    id: u64,
    list: Seq<u64>,
    after: Moment<W>,
)
    ensures
        ({
            let dirty = before.state.nodes.contains_key(id) && (before.state.nodes[id].state
                == ReactiveNodeState::Dirty || before.state.nodes[id].state
                == ReactiveNodeState::DirtyMarked);
            &&& dirty || list.len() == 0 ==> (completes(call, before, source_work(id, list), after)
                <==> after == before)
            &&& !dirty && list.len() > 0 ==> (completes(call, before, source_work(id, list), after)
                <==> exists|middle: Moment<W>| #[trigger]
                completes(call, before, seq![Work::Settle(list.first())], middle) && completes(
                    call,
                    middle,
                    source_work(id, list.drop_first()),
                    after,
                ))
        }),
{
    if list.len() == 0 {
        assert(source_work(id, list) =~= Seq::empty());
        lemma_no_work(call, before, after);
    } else if before.state.state_of(id).needs_update() {
        lemma_dirty_stops_checking(call, before, id, list, after);
    } else {
        let first = seq![Work::Settle(list.first())];
        let others = source_work(id, list.drop_first());
        lemma_check_source(call, before, id, list, after);
        if exists|middle: Moment<W>| #[trigger]
            completes(call, before, first, middle) && completes(call, middle, others, after) {
            let middle = choose|middle: Moment<W>| #[trigger]
                completes(call, before, first, middle) && completes(call, middle, others, after);
            assert(completes_both(call, before, first, middle, others, after));
        }
    }
}

// Settling

/// A node that is dirty has its cleanup functions run, then its properties
/// disposed of, then runs, and is clean. One that is not dirty is clean by now,
/// without a call.
pub proof fn lemma_refresh_exactly<W, F: Fn(Runtime, W, Call) -> (Runtime, W, bool)>(
    call: F,
    before: Moment<W>,
    id: u64,
    after: Moment<W>,
)
    ensures
        ({
            let dirty = before.state.nodes.contains_key(id) && (before.state.nodes[id].state
                == ReactiveNodeState::Dirty || before.state.nodes[id].state
                == ReactiveNodeState::DirtyMarked);
            &&& dirty ==> (completes(call, before, seq![Work::Refresh(id)], after) <==> exists|
                cleaned: Moment<W>,
                bare: Moment<W>,
                ran: Moment<W>,
            |
                #![trigger
                    completes(call, before, seq![Work::Cleanups(id)], cleaned),
                    completes(call, cleaned, seq![Work::Properties(id)], bare),
                    updates(call, bare, id, ran)
                ]
                completes(call, before, seq![Work::Cleanups(id)], cleaned) && completes(
                    call,
                    cleaned,
                    seq![Work::Properties(id)],
                    bare,
                ) && updates(call, bare, id, ran) && after == (Moment {
                    state: ran.state.with_state(id, ReactiveNodeState::Clean),
                    world: ran.world,
                }))
            &&& !dirty ==> (completes(call, before, seq![Work::Refresh(id)], after) <==> after == (
            Moment {
                state: before.state.with_state(id, ReactiveNodeState::Clean),
                world: before.world,
            }))
        }),
{
    lemma_refresh(call, before, id, after);
    if exists|cleaned: Moment<W>, bare: Moment<W>, ran: Moment<W>|
        #![trigger
            completes(call, before, seq![Work::Cleanups(id)], cleaned),
            completes(call, cleaned, seq![Work::Properties(id)], bare),
            updates(call, bare, id, ran)
        ]
        completes(call, before, seq![Work::Cleanups(id)], cleaned) && completes(
            call,
            cleaned,
            seq![Work::Properties(id)],
            bare,
        ) && updates(call, bare, id, ran) && after == (Moment {
            state: ran.state.with_state(id, ReactiveNodeState::Clean),
            world: ran.world,
        }) {
        let (cleaned, bare, ran) = choose|cleaned: Moment<W>, bare: Moment<W>, ran: Moment<W>|
            #![trigger
                completes(call, before, seq![Work::Cleanups(id)], cleaned),
                completes(call, cleaned, seq![Work::Properties(id)], bare),
                updates(call, bare, id, ran)
            ]
            completes(call, before, seq![Work::Cleanups(id)], cleaned) && completes(
                call,
                cleaned,
                seq![Work::Properties(id)],
                bare,
            ) && updates(call, bare, id, ran) && after == (Moment {
                state: ran.state.with_state(id, ReactiveNodeState::Clean),
                world: ran.world,
            });
        assert(is_rerun_by(call, before, id, cleaned, bare, ran, after));
    }
    if is_rerun(call, before, id, after) {
        let (cleaned, bare, ran) = choose|cleaned: Moment<W>, bare: Moment<W>, ran: Moment<W>|
            #[trigger]
            is_rerun_by(call, before, id, cleaned, bare, ran, after);
        assert(completes(call, before, seq![Work::Cleanups(id)], cleaned));
    }
}

/// Bringing a node up to date does nothing to one that is clean or not there. A
/// node that is to be checked has its sources brought up to date first. Any
/// other is refreshed at once.
pub proof fn lemma_settle_exactly<W, F: Fn(Runtime, W, Call) -> (Runtime, W, bool)>(
    call: F,
    before: Moment<W>,
    id: u64,
    after: Moment<W>,
)
    ensures
        !before.state.nodes.contains_key(id) || before.state.nodes[id].state
            == ReactiveNodeState::Clean ==> (completes(
            call,
            before,
            seq![Work::Settle(id)],
            after,
        ) <==> after == before),
        before.state.nodes.contains_key(id) && (before.state.nodes[id].state
            == ReactiveNodeState::Dirty || before.state.nodes[id].state
            == ReactiveNodeState::DirtyMarked) ==> (completes(
            call,
            before,
            seq![Work::Settle(id)],
            after,
        ) <==> completes(call, before, seq![Work::Refresh(id)], after)),
        before.state.nodes.contains_key(id) && before.state.nodes[id].state
            == ReactiveNodeState::Check && before.state.sources.contains_key(id) ==> (completes(
            call,
            before,
            seq![Work::Settle(id)],
            after,
        ) <==> exists|checked: Moment<W>| #[trigger]
            completes(call, before, source_work(id, before.state.sources[id]), checked)
                && completes(call, checked, seq![Work::Refresh(id)], after)),
        before.state.nodes.contains_key(id) && before.state.nodes[id].state
            == ReactiveNodeState::Check && !before.state.sources.contains_key(id) ==> (completes(
            call,
            before,
            seq![Work::Settle(id)],
            after,
        ) <==> completes(call, before, seq![Work::Refresh(id)], after)),
{
    let state = before.state.state_of(id);
    if state == ReactiveNodeState::Clean {
        lemma_settle_clean(call, before, id, after);
    } else if state == ReactiveNodeState::Check {
        let sources = source_work(id, before.state.sources_of(id));
        lemma_settle_check(call, before, id, after);
        if !before.state.sources.contains_key(id) {
            lemma_no_sources(call, before, id, before);
            assert forall|checked: Moment<W>| #[trigger]
                completes(call, before, sources, checked) implies checked == before by {
                lemma_no_sources(call, before, id, checked);
            }
        }
        if exists|checked: Moment<W>| #[trigger]
            completes(call, before, sources, checked) && completes(
                call,
                checked,
                seq![Work::Refresh(id)],
                after,
            ) {
            let checked = choose|checked: Moment<W>| #[trigger]
                completes(call, before, sources, checked) && completes(
                    call,
                    checked,
                    seq![Work::Refresh(id)],
                    after,
                );
            assert(completes_both(
                call,
                before,
                sources,
                checked,
                seq![Work::Refresh(id)],
                after,
            ));
        }
    } else {
        lemma_settle_dirty(call, before, id, after);
        lemma_refresh(call, before, id, after);
    }
}

/// Work that is given up has gone through as many tasks as a 64-bit counter can
/// count, and there are more. Work that is not given up is complete.
pub proof fn lemma_given_up<W, F: Fn(Runtime, W, Call) -> (Runtime, W, bool)>(
    call: F,
    before: Moment<W>,
    list: Seq<Work>,
    after: Moment<W>,
    done: bool,
)
    requires
        works_off(call, before, list, after, done),
    ensures
        done ==> completes(call, before, list, after),
        !done ==> exists|rest: Seq<Work>| #[trigger]
            reaches(call, before, list, 0xffff_ffff_ffff_ffffnat, after, rest) && rest.len() > 0,
{
    assert(LIMIT as nat == 0xffff_ffff_ffff_ffffnat);
}

/// A property is gone if there is nothing under its key any more: no resource,
/// no stored value, or no node, subscribers and sources.
pub proof fn lemma_gone_exactly(state: RuntimeState, id: u64)
    ensures
        is_gone(state, Property::Resource(id)) <==> !state.resources.contains_key(id),
        is_gone(state, Property::StoredValue(id)) <==> !state.stored_values.contains_key(id),
        is_gone(state, Property::Trigger(id)) <==> !state.nodes.contains_key(id)
            && !state.subscribers.contains_key(id) && !state.sources.contains_key(id),
        is_gone(state, Property::Signal(id)) <==> is_gone(state, Property::Trigger(id)),
        is_gone(state, Property::Effect(id)) <==> is_gone(state, Property::Trigger(id)),
{
}

} // verus!
