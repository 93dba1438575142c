//! How nodes are brought up to date and disposed of.
//!
//! The tasks of [`crate::agenda`] are dealt with one by one. These laws put
//! them together again: what it means, from start to end, to settle a node, to
//! check its sources and to dispose of a property.
use crate::agenda::{
    advances, cleans_up, cleanup_work, completes, deals, dealt_with, disposal, effect_work, is_gone,
    lemma_settled_is_clean, property_work, reaches, source_work, updates, works_off, Call, Moment,
    Work, LIMIT,
};
use crate::create::memo_node;
use crate::node::{CleanupId, ComputationId, Property, ReactiveNodeState, ValueId};
use crate::runtime::Runtime;
use crate::secondary::value_or;
use crate::state::{dirtied, RuntimeState};
use vstd::prelude::*;

verus! {

// How lists of tasks are dealt with

/// Tasks at the end of a list wait.
proof fn lemma_append<W, F: Fn(Runtime, W, Call) -> (Runtime, W, bool)>(
    call: F,
    before: Moment<W>,
    a: Seq<Work>,
    b: Seq<Work>,
    steps: nat,
    after: Moment<W>,
    rest: Seq<Work>,
)
    requires
        reaches(call, before, a, steps, after, rest),
    ensures
        reaches(call, before, a + b, steps, after, rest + b),
    decreases steps,
{
    if steps > 0 {
        let (state, work) = choose|state: Moment<W>, work: Seq<Work>|
            reaches(call, before, a, (steps - 1) as nat, state, work) && #[trigger] advances(
                call,
                state,
                work,
                after,
                rest,
            );
        lemma_append(call, before, a, b, (steps - 1) as nat, state, work);
        let more = choose|more: Seq<Work>| #[trigger]
            deals(call, state, work.first(), after, more) && rest == more + work.drop_first();
        assert((work + b).first() == work.first());
        assert(rest + b =~= more + (work + b).drop_first());
        assert(advances(call, state, work + b, after, rest + b));
    }
}

/// One stretch of work after the other.
proof fn lemma_then<W, F: Fn(Runtime, W, Call) -> (Runtime, W, bool)>(
    call: F,
    before: Moment<W>,
    a: Seq<Work>,
    m: nat,
    middle: Moment<W>,
    b: Seq<Work>,
    n: nat,
    after: Moment<W>,
    c: Seq<Work>,
)
    requires
        reaches(call, before, a, m, middle, b),
        reaches(call, middle, b, n, after, c),
    ensures
        reaches(call, before, a, m + n, after, c),
    decreases n,
{
    if n > 0 {
        let (state, work) = choose|state: Moment<W>, work: Seq<Work>|
            reaches(call, middle, b, (n - 1) as nat, state, work) && #[trigger] advances(
                call,
                state,
                work,
                after,
                c,
            );
        lemma_then(call, before, a, m, middle, b, (n - 1) as nat, state, work);
        assert(reaches(call, before, a, (m + n - 1) as nat, state, work));
        assert(advances(call, state, work, after, c));
    }
}

/// The first task comes first.
proof fn lemma_first_step<W, F: Fn(Runtime, W, Call) -> (Runtime, W, bool)>(
    call: F,
    before: Moment<W>,
    list: Seq<Work>,
    steps: nat,
    after: Moment<W>,
    rest: Seq<Work>,
) -> (next: (Moment<W>, Seq<Work>))
    requires
        steps > 0,
        reaches(call, before, list, steps, after, rest),
    ensures
        advances(call, before, list, next.0, next.1),
        reaches(call, next.0, next.1, (steps - 1) as nat, after, rest),
    decreases steps,
{
    let (state, work) = choose|state: Moment<W>, work: Seq<Work>|
        reaches(call, before, list, (steps - 1) as nat, state, work) && #[trigger] advances(
            call,
            state,
            work,
            after,
            rest,
        );
    if steps == 1 {
        (after, rest)
    } else {
        let next = lemma_first_step(call, before, list, (steps - 1) as nat, state, work);
        assert(reaches(call, next.0, next.1, (steps - 2) as nat, state, work));
        next
    }
}

/// One task that runs no code of the embedding program goes one way only.
pub(crate) proof fn lemma_plain_step<W, F: Fn(Runtime, W, Call) -> (Runtime, W, bool)>(
    call: F,
    before: Moment<W>,
    list: Seq<Work>,
    steps: nat,
    after: Moment<W>,
    rest: Seq<Work>,
)
    requires
        steps > 0,
        reaches(call, before, list, steps, after, rest),
        list.len() > 0,
        !(list.first() is Cleanup),
        !(list.first() is Update),
    ensures
        reaches(
            call,
            before.with(dealt_with(before.state, list.first()).0),
            dealt_with(before.state, list.first()).1 + list.drop_first(),
            (steps - 1) as nat,
            after,
            rest,
        ),
{
    let next = lemma_first_step(call, before, list, steps, after, rest);
}

/// Where there is nothing to do, nothing is done.
pub(crate) proof fn lemma_nothing_left<W, F: Fn(Runtime, W, Call) -> (Runtime, W, bool)>(
    call: F,
    before: Moment<W>,
    steps: nat,
    after: Moment<W>,
    rest: Seq<Work>,
)
    requires
        reaches(call, before, Seq::empty(), steps, after, rest),
    ensures
        steps == 0,
        after == before,
        rest == Seq::<Work>::empty(),
{
    if steps > 0 {
        let next = lemma_first_step(call, before, Seq::empty(), steps, after, rest);
    }
}

/// Work on a list of two parts is still in the first, or done with it.
proof fn lemma_split<W, F: Fn(Runtime, W, Call) -> (Runtime, W, bool)>(
    call: F,
    before: Moment<W>,
    a: Seq<Work>,
    b: Seq<Work>,
    steps: nat,
    after: Moment<W>,
    rest: Seq<Work>,
)
    requires
        reaches(call, before, a + b, steps, after, rest),
    ensures
        is_in_first(call, before, a, b, steps, after, rest) || exists|m: nat, middle: Moment<W>|
            #[trigger] is_in_second(call, before, a, b, steps, after, rest, m, middle),
    decreases steps,
{
    if steps == 0 {
        assert(reaches(call, before, a, 0, after, a));
    } else {
        let (state, work) = choose|state: Moment<W>, work: Seq<Work>|
            reaches(call, before, a + b, (steps - 1) as nat, state, work) && #[trigger] advances(
                call,
                state,
                work,
                after,
                rest,
            );
        lemma_split(call, before, a, b, (steps - 1) as nat, state, work);
        if is_in_first(call, before, a, b, (steps - 1) as nat, state, work) {
            let left = choose|left: Seq<Work>| #[trigger]
                reaches(call, before, a, (steps - 1) as nat, state, left) && work == left + b;
            if left.len() == 0 {
                assert(work =~= b);
                assert(left =~= Seq::empty());
                assert(reaches(call, state, b, 0, state, b));
                assert(reaches(call, state, b, 1, after, rest));
                assert(is_in_second(call, before, a, b, steps, after, rest, (steps - 1) as nat, state));
            } else {
                let more = choose|more: Seq<Work>| #[trigger]
                    deals(call, state, work.first(), after, more) && rest == more
                        + work.drop_first();
                assert(work.first() == left.first());
                let next = more + left.drop_first();
                assert(rest =~= next + b);
                assert(advances(call, state, left, after, next));
                assert(reaches(call, before, a, steps, after, next));
            }
        } else {
            let (m, middle) = choose|m: nat, middle: Moment<W>| #[trigger]
                is_in_second(call, before, a, b, (steps - 1) as nat, state, work, m, middle);
            assert(reaches(call, middle, b, (steps - m) as nat, after, rest)) by {
                assert((steps - m - 1) as nat == ((steps - 1) as nat - m) as nat);
                assert(advances(call, state, work, after, rest));
            }
            assert(is_in_second(call, before, a, b, steps, after, rest, m, middle));
        }
    }
}

spec fn is_in_first<W, F: Fn(Runtime, W, Call) -> (Runtime, W, bool)>(
    call: F,
    before: Moment<W>,
    a: Seq<Work>,
    b: Seq<Work>,
    steps: nat,
    after: Moment<W>,
    rest: Seq<Work>,
) -> bool {
    exists|left: Seq<Work>| #[trigger]
        reaches(call, before, a, steps, after, left) && rest == left + b
}

spec fn is_in_second<W, F: Fn(Runtime, W, Call) -> (Runtime, W, bool)>(
    call: F,
    before: Moment<W>,
    a: Seq<Work>,
    b: Seq<Work>,
    steps: nat,
    after: Moment<W>,
    rest: Seq<Work>,
    m: nat,
    middle: Moment<W>,
) -> bool {
    &&& m <= steps
    &&& reaches(call, before, a, m, middle, Seq::empty())
    &&& reaches(call, middle, b, (steps - m) as nat, after, rest)
}

/// Work on a list of two parts that is done was done with the first part at
/// some point.
pub(crate) proof fn lemma_split_done<W, F: Fn(Runtime, W, Call) -> (Runtime, W, bool)>(
    call: F,
    before: Moment<W>,
    a: Seq<Work>,
    b: Seq<Work>,
    steps: nat,
    after: Moment<W>,
) -> (at: (nat, Moment<W>))
    requires
        reaches(call, before, a + b, steps, after, Seq::empty()),
    ensures
        at.0 <= steps,
        reaches(call, before, a, at.0, at.1, Seq::empty()),
        reaches(call, at.1, b, (steps - at.0) as nat, after, Seq::empty()),
{
    lemma_split(call, before, a, b, steps, after, Seq::empty());
    if is_in_first(call, before, a, b, steps, after, Seq::empty()) {
        let left = choose|left: Seq<Work>| #[trigger]
            reaches(call, before, a, steps, after, left) && Seq::<Work>::empty() == left + b;
        assert((left + b).len() == 0);
        assert(left =~= Seq::empty() && b =~= Seq::empty());
        assert(reaches(call, after, b, 0, after, Seq::empty()));
        (steps, after)
    } else {
        choose|m: nat, middle: Moment<W>| #[trigger]
            is_in_second(call, before, a, b, steps, after, Seq::empty(), m, middle)
    }
}

/// `a` is dealt with first, which leads to `middle`, then `b`.
pub open spec fn completes_both<W, F: Fn(Runtime, W, Call) -> (Runtime, W, bool)>(
    call: F,
    before: Moment<W>,
    a: Seq<Work>,
    middle: Moment<W>,
    b: Seq<Work>,
    after: Moment<W>,
) -> bool {
    completes(call, before, a, middle) && completes(call, middle, b, after)
}

/// Tasks are dealt with in their order: a list of two parts is done when its
/// first part, with everything that comes of it, and then its second part is
/// done.
pub proof fn lemma_in_order<W, F: Fn(Runtime, W, Call) -> (Runtime, W, bool)>(
    call: F,
    before: Moment<W>,
    a: Seq<Work>,
    b: Seq<Work>,
    after: Moment<W>,
)
    ensures
        completes(call, before, a + b, after) <==> exists|middle: Moment<W>| #[trigger]
            completes_both(call, before, a, middle, b, after),
{
    reveal(completes);
    if completes(call, before, a + b, after) {
        let steps = choose|steps: nat| #[trigger]
            reaches(call, before, a + b, steps, after, Seq::empty());
        let (m, middle) = lemma_split_done(call, before, a, b, steps, after);
        assert(completes_both(call, before, a, middle, b, after));
    }
    if exists|middle: Moment<W>| #[trigger]
        completes_both(call, before, a, middle, b, after) {
        let middle = choose|middle: Moment<W>| #[trigger]
            completes_both(call, before, a, middle, b, after);
        let m = choose|m: nat| #[trigger] reaches(call, before, a, m, middle, Seq::empty());
        let n = choose|n: nat| #[trigger] reaches(call, middle, b, n, after, Seq::empty());
        lemma_append(call, before, a, b, m, middle, Seq::empty());
        assert(Seq::<Work>::empty() + b =~= b);
        lemma_then(call, before, a + b, m, middle, b, n, after, Seq::empty());
    }
}

/// Doing nothing changes nothing.
pub proof fn lemma_no_work<W, F: Fn(Runtime, W, Call) -> (Runtime, W, bool)>(
    call: F,
    before: Moment<W>,
    after: Moment<W>,
)
    ensures
        completes(call, before, Seq::empty(), after) <==> after == before,
{
    reveal(completes);
    if completes(call, before, Seq::empty(), after) {
        let steps = choose|steps: nat| #[trigger]
            reaches(call, before, Seq::empty(), steps, after, Seq::empty());
        lemma_nothing_left(call, before, steps, after, Seq::empty());
    }
    assert(reaches(call, before, Seq::empty(), 0, before, Seq::empty()));
}

/// A task that runs no code of the embedding program is done when what takes
/// its place is done.
pub(crate) proof fn lemma_plain_work<W, F: Fn(Runtime, W, Call) -> (Runtime, W, bool)>(
    call: F,
    before: Moment<W>,
    work: Work,
    after: Moment<W>,
)
    requires
        !(work is Cleanup),
        !(work is Update),
    ensures
        completes(call, before, seq![work], after) <==> completes(
            call,
            before.with(dealt_with(before.state, work).0),
            dealt_with(before.state, work).1,
            after,
        ),
{
    reveal(completes);
    let list = seq![work];
    let state = before.with(dealt_with(before.state, work).0);
    let more = dealt_with(before.state, work).1;
    assert(more + list.drop_first() =~= more);
    if completes(call, before, list, after) {
        let steps = choose|steps: nat| #[trigger]
            reaches(call, before, list, steps, after, Seq::empty());
        assert(steps > 0);
        lemma_plain_step(call, before, list, steps, after, Seq::empty());
    }
    if completes(call, state, more, after) {
        let steps = choose|steps: nat| #[trigger]
            reaches(call, state, more, steps, after, Seq::empty());
        assert(deals(call, before, work, state, more));
        assert(advances(call, before, list, state, more));
        assert(reaches(call, before, list, 0, before, list));
        assert(reaches(call, before, list, 1, state, more));
        lemma_then(call, before, list, 1, state, more, steps, after, Seq::empty());
    }
}

/// A task that runs code of the embedding program is done when that has run.
proof fn lemma_code_work<W, F: Fn(Runtime, W, Call) -> (Runtime, W, bool)>(
    call: F,
    before: Moment<W>,
    work: Work,
    after: Moment<W>,
)
    requires
        work is Cleanup || work is Update,
    ensures
        completes(call, before, seq![work], after) <==> deals(
            call,
            before,
            work,
            after,
            Seq::empty(),
        ),
{
    reveal(completes);
    let list = seq![work];
    if completes(call, before, list, after) {
        let steps = choose|steps: nat| #[trigger]
            reaches(call, before, list, steps, after, Seq::empty());
        assert(steps > 0);
        let next = lemma_first_step(call, before, list, steps, after, Seq::empty());
        let more = choose|more: Seq<Work>| #[trigger]
            deals(call, before, work, next.0, more) && next.1 == more + list.drop_first();
        assert(next.1 =~= Seq::empty());
        lemma_nothing_left(call, next.0, (steps - 1) as nat, after, Seq::empty());
    }
    if deals(call, before, work, after, Seq::empty()) {
        assert(Seq::<Work>::empty() + list.drop_first() =~= Seq::<Work>::empty());
        assert(deals(call, before, list.first(), after, Seq::empty()));
        assert(advances(call, before, list, after, Seq::empty()));
        assert(reaches(call, before, list, 0, before, list));
        assert(reaches(call, before, list, 1, after, Seq::empty()));
    }
}

// Disposing

/// A cleanup function is run once.
pub proof fn lemma_cleanup<W, F: Fn(Runtime, W, Call) -> (Runtime, W, bool)>(
    call: F,
    before: Moment<W>,
    cleanup: CleanupId,
    after: Moment<W>,
)
    ensures
        completes(call, before, seq![Work::Cleanup(cleanup)], after) <==> cleans_up(
            call,
            before,
            cleanup,
            after,
        ),
{
    lemma_code_work(call, before, Work::Cleanup(cleanup), after);
}

/// The cleanup functions of a node are taken off the node, then run in the
/// order of their registration.
pub proof fn lemma_cleanups<W, F: Fn(Runtime, W, Call) -> (Runtime, W, bool)>(
    call: F,
    before: Moment<W>,
    id: u64,
    after: Moment<W>,
)
    ensures
        completes(call, before, seq![Work::Cleanups(id)], after) <==> completes(
            call,
            before.with(
                (RuntimeState {
                    cleanups: before.state.cleanups.remove(id),
                    ..before.state
                }),
            ),
            cleanup_work(value_or(before.state.cleanups, id, Seq::empty())),
            after,
        ),
{
    lemma_plain_work(call, before, Work::Cleanups(id), after);
}

/// The properties of a node are taken off the node, then disposed of in the
/// order in which they were created.
pub proof fn lemma_properties<W, F: Fn(Runtime, W, Call) -> (Runtime, W, bool)>(
    call: F,
    before: Moment<W>,
    id: u64,
    after: Moment<W>,
)
    ensures
        completes(call, before, seq![Work::Properties(id)], after) <==> completes(
            call,
            before.with(
                (RuntimeState {
                    properties: before.state.properties.remove(id),
                    ..before.state
                }),
            ),
            property_work(value_or(before.state.properties, id, Seq::empty())),
            after,
        ),
{
    lemma_plain_work(call, before, Work::Properties(id), after);
}

/// What a node owns has been disposed of, which leads to `orphaned`; its
/// cleanup functions have run, which leads to `cleaned`; the node itself has
/// left the graph.
pub open spec fn is_disposed_by<W, F: Fn(Runtime, W, Call) -> (Runtime, W, bool)>(
    call: F,
    before: Moment<W>,
    id: u64,
    orphaned: Moment<W>,
    cleaned: Moment<W>,
    after: Moment<W>,
) -> bool {
    &&& completes(call, before, seq![Work::Properties(id)], orphaned)
    &&& completes(call, orphaned, seq![Work::Cleanups(id)], cleaned)
    &&& after == cleaned.with(cleaned.state.detached(id))
}

/// Disposing of a node is disposing of all its children, running its cleanup
/// functions, and taking it out of the graph, in this order.
pub proof fn lemma_dispose_node<W, F: Fn(Runtime, W, Call) -> (Runtime, W, bool)>(
    call: F,
    before: Moment<W>,
    property: Property,
    id: u64,
    after: Moment<W>,
)
    requires
        property.node() == Some(id),
    ensures
        completes(call, before, seq![Work::Property(property)], after) <==> exists|
            orphaned: Moment<W>,
            cleaned: Moment<W>,
        | #[trigger] is_disposed_by(call, before, id, orphaned, cleaned, after),
{
    lemma_plain_work(call, before, Work::Property(property), after);
    let first = seq![Work::Properties(id)];
    let second = seq![Work::Cleanups(id)];
    let third = seq![Work::Detach(id)];
    assert(disposal(id) =~= first + (second + third));
    lemma_in_order(call, before, first, second + third, after);
    if completes(call, before, disposal(id), after) {
        let orphaned = choose|orphaned: Moment<W>| #[trigger]
            completes_both(call, before, first, orphaned, second + third, after);
        lemma_in_order(call, orphaned, second, third, after);
        let cleaned = choose|cleaned: Moment<W>| #[trigger]
            completes_both(call, orphaned, second, cleaned, third, after);
        lemma_plain_work(call, cleaned, Work::Detach(id), after);
        lemma_no_work(call, cleaned.with(cleaned.state.detached(id)), after);
        assert(is_disposed_by(call, before, id, orphaned, cleaned, after));
    }
    if exists|orphaned: Moment<W>, cleaned: Moment<W>| #[trigger]
        is_disposed_by(call, before, id, orphaned, cleaned, after) {
        let (orphaned, cleaned) = choose|orphaned: Moment<W>, cleaned: Moment<W>| #[trigger]
            is_disposed_by(call, before, id, orphaned, cleaned, after);
        lemma_plain_work(call, cleaned, Work::Detach(id), after);
        lemma_no_work(call, cleaned.with(cleaned.state.detached(id)), after);
        assert(completes_both(call, orphaned, second, cleaned, third, after));
        lemma_in_order(call, orphaned, second, third, after);
        assert(completes_both(call, before, first, orphaned, second + third, after));
    }
}

/// A property that has been disposed of is gone, whatever code has run
/// meanwhile.
pub proof fn lemma_disposed_is_gone<W, F: Fn(Runtime, W, Call) -> (Runtime, W, bool)>(
    call: F,
    before: Moment<W>,
    property: Property,
    after: Moment<W>,
)
    requires
        completes(call, before, seq![Work::Property(property)], after),
    ensures
        is_gone(after.state, property),
{
    match property.node() {
        Some(id) => {
            lemma_dispose_node(call, before, property, id, after);
        },
        None => {
            lemma_plain_work(call, before, Work::Property(property), after);
            lemma_no_work(call, before.with(dealt_with(before.state, Work::Property(property)).0), after);
        },
    }
}

// Settling

/// Where there are no sources, there is nothing to check.
pub proof fn lemma_no_sources<W, F: Fn(Runtime, W, Call) -> (Runtime, W, bool)>(
    call: F,
    before: Moment<W>,
    id: u64,
    after: Moment<W>,
)
    ensures
        completes(call, before, source_work(id, Seq::empty()), after) <==> after == before,
{
    assert(source_work(id, Seq::empty()) =~= Seq::empty());
    lemma_no_work(call, before, after);
}

/// As soon as a node is dirty, its other sources are left alone.
pub proof fn lemma_dirty_stops_checking<W, F: Fn(Runtime, W, Call) -> (Runtime, W, bool)>(
    call: F,
    before: Moment<W>,
    id: u64,
    sources: Seq<u64>,
    after: Moment<W>,
)
    requires
        before.state.state_of(id).needs_update(),
    ensures
        completes(call, before, source_work(id, sources), after) <==> after == before,
    decreases sources.len(),
{
    if sources.len() == 0 {
        assert(sources =~= Seq::empty());
        lemma_no_sources(call, before, id, after);
    } else {
        let first = Work::Source { node: id, source: sources.first() };
        let others = source_work(id, sources.drop_first());
        assert(source_work(id, sources) =~= seq![first] + others);
        lemma_in_order(call, before, seq![first], others, after);
        lemma_dirty_stops_checking(call, before, id, sources.drop_first(), after);
        if completes(call, before, source_work(id, sources), after) {
            let middle = choose|middle: Moment<W>| #[trigger]
                completes_both(call, before, seq![first], middle, others, after);
            lemma_plain_work(call, before, first, middle);
            lemma_no_work(call, before, middle);
        }
        if after == before {
            lemma_plain_work(call, before, first, before);
            lemma_no_work(call, before, before);
            assert(completes_both(call, before, seq![first], before, others, after));
        }
    }
}

/// A node that is not dirty has its first source brought up to date, then the
/// others checked.
pub proof fn lemma_check_source<W, F: Fn(Runtime, W, Call) -> (Runtime, W, bool)>(
    call: F,
    before: Moment<W>,
    id: u64,
    sources: Seq<u64>,
    after: Moment<W>,
)
    requires
        sources.len() > 0,
        !before.state.state_of(id).needs_update(),
    ensures
        completes(call, before, source_work(id, sources), after) <==> exists|middle: Moment<W>|
            #[trigger] completes_both(
                call,
                before,
                seq![Work::Settle(sources.first())],
                middle,
                source_work(id, sources.drop_first()),
                after,
            ),
{
    let first = Work::Source { node: id, source: sources.first() };
    let settle = seq![Work::Settle(sources.first())];
    let others = source_work(id, sources.drop_first());
    assert(source_work(id, sources) =~= seq![first] + others);
    lemma_in_order(call, before, seq![first], others, after);
    if completes(call, before, source_work(id, sources), after) {
        let middle = choose|middle: Moment<W>| #[trigger]
            completes_both(call, before, seq![first], middle, others, after);
        lemma_plain_work(call, before, first, middle);
        assert(completes_both(call, before, settle, middle, others, after));
    }
    if exists|middle: Moment<W>| #[trigger]
        completes_both(call, before, settle, middle, others, after) {
        let middle = choose|middle: Moment<W>| #[trigger]
            completes_both(call, before, settle, middle, others, after);
        lemma_plain_work(call, before, first, middle);
        assert(completes_both(call, before, seq![first], middle, others, after));
    }
}

/// A node that is dirty has had its cleanup functions run, which leads to
/// `cleaned`, its properties disposed of, which leads to `bare`, and has run,
/// which leads to `ran`. In the end it is clean.
pub open spec fn is_rerun_by<W, F: Fn(Runtime, W, Call) -> (Runtime, W, bool)>(
    call: F,
    before: Moment<W>,
    id: u64,
    cleaned: Moment<W>,
    bare: Moment<W>,
    ran: Moment<W>,
    after: Moment<W>,
) -> bool {
    &&& completes(call, before, seq![Work::Cleanups(id)], cleaned)
    &&& completes(call, cleaned, seq![Work::Properties(id)], bare)
    &&& updates(call, bare, id, ran)
    &&& after == ran.marked_clean(id)
}

/// A node that is dirty runs again.
pub open spec fn is_rerun<W, F: Fn(Runtime, W, Call) -> (Runtime, W, bool)>(
    call: F,
    before: Moment<W>,
    id: u64,
    after: Moment<W>,
) -> bool {
    exists|cleaned: Moment<W>, bare: Moment<W>, ran: Moment<W>| #[trigger]
        is_rerun_by(call, before, id, cleaned, bare, ran, after)
}

/// `updates`, as the outcome of a task.
pub(crate) proof fn lemma_update<W, F: Fn(Runtime, W, Call) -> (Runtime, W, bool)>(
    call: F,
    before: Moment<W>,
    id: u64,
    after: Moment<W>,
)
    ensures
        completes(call, before, seq![Work::Update(id)], after) <==> updates(
            call,
            before,
            id,
            after,
        ),
{
    lemma_code_work(call, before, Work::Update(id), after);
}

pub(crate) proof fn lemma_mark_clean<W, F: Fn(Runtime, W, Call) -> (Runtime, W, bool)>(
    call: F,
    before: Moment<W>,
    id: u64,
    after: Moment<W>,
)
    ensures
        completes(call, before, seq![Work::MarkClean(id)], after) <==> after == before.marked_clean(id),
{
    lemma_plain_work(call, before, Work::MarkClean(id), after);
    lemma_no_work(call, before.marked_clean(id), after);
}

/// After its sources have been checked, a node runs if it is dirty and is clean
/// in any case.
pub proof fn lemma_refresh<W, F: Fn(Runtime, W, Call) -> (Runtime, W, bool)>(
    call: F,
    before: Moment<W>,
    id: u64,
    after: Moment<W>,
)
    ensures
        completes(call, before, seq![Work::Refresh(id)], after) <==> if before.state.state_of(
            id,
        ).needs_update() {
            is_rerun(call, before, id, after)
        } else {
            after == before.marked_clean(id)
        },
{
    lemma_plain_work(call, before, Work::Refresh(id), after);
    if before.state.state_of(id).needs_update() {
        lemma_rerun(call, before, id, after);
    } else {
        lemma_mark_clean(call, before, id, after);
    }
}

proof fn lemma_rerun<W, F: Fn(Runtime, W, Call) -> (Runtime, W, bool)>(
    call: F,
    before: Moment<W>,
    id: u64,
    after: Moment<W>,
)
    ensures
        completes(
            call,
            before,
            seq![
                Work::Cleanups(id),
                Work::Properties(id),
                Work::Update(id),
                Work::MarkClean(id),
            ],
            after,
        ) <==> is_rerun(call, before, id, after),
{
    let list = seq![
        Work::Cleanups(id),
        Work::Properties(id),
        Work::Update(id),
        Work::MarkClean(id),
    ];
    let a = seq![Work::Cleanups(id)];
    let b = seq![Work::Properties(id)];
    let c = seq![Work::Update(id)];
    let d = seq![Work::MarkClean(id)];
    assert(list =~= a + (b + (c + d)));
    lemma_in_order(call, before, a, b + (c + d), after);
    if completes(call, before, list, after) {
        let cleaned = choose|middle: Moment<W>| #[trigger]
            completes_both(call, before, a, middle, b + (c + d), after);
        lemma_in_order(call, cleaned, b, c + d, after);
        let bare = choose|middle: Moment<W>| #[trigger]
            completes_both(call, cleaned, b, middle, c + d, after);
        lemma_in_order(call, bare, c, d, after);
        let ran = choose|middle: Moment<W>| #[trigger]
            completes_both(call, bare, c, middle, d, after);
        lemma_update(call, bare, id, ran);
        lemma_mark_clean(call, ran, id, after);
        assert(is_rerun_by(call, before, id, cleaned, bare, ran, after));
    }
    if is_rerun(call, before, id, after) {
        let (cleaned, bare, ran) = choose|
            cleaned: Moment<W>,
            bare: Moment<W>,
            ran: Moment<W>,
        | #[trigger]
            is_rerun_by(call, before, id, cleaned, bare, ran, after);
        lemma_update(call, bare, id, ran);
        lemma_mark_clean(call, ran, id, after);
        assert(completes_both(call, bare, c, ran, d, after));
        lemma_in_order(call, bare, c, d, after);
        assert(completes_both(call, cleaned, b, bare, c + d, after));
        lemma_in_order(call, cleaned, b, c + d, after);
        assert(completes_both(call, before, a, cleaned, b + (c + d), after));
    }
}

/// Settling a node that is dirty runs it once more.
pub proof fn lemma_settle_dirty<W, F: Fn(Runtime, W, Call) -> (Runtime, W, bool)>(
    call: F,
    before: Moment<W>,
    id: u64,
    after: Moment<W>,
)
    requires
        before.state.state_of(id).needs_update(),
    ensures
        completes(call, before, seq![Work::Settle(id)], after) <==> is_rerun(
            call,
            before,
            id,
            after,
        ),
{
    lemma_plain_work(call, before, Work::Settle(id), after);
    lemma_refresh(call, before, id, after);
}

/// Settling a node that is to be checked first checks its sources. It then runs
/// only if one of them has made it dirty.
pub proof fn lemma_settle_check<W, F: Fn(Runtime, W, Call) -> (Runtime, W, bool)>(
    call: F,
    before: Moment<W>,
    id: u64,
    after: Moment<W>,
)
    requires
        before.state.state_of(id) == ReactiveNodeState::Check,
    ensures
        completes(call, before, seq![Work::Settle(id)], after) <==> exists|checked: Moment<W>|
            #[trigger] completes_both(
                call,
                before,
                source_work(id, before.state.sources_of(id)),
                checked,
                seq![Work::Refresh(id)],
                after,
            ),
{
    let sources = source_work(id, before.state.sources_of(id));
    lemma_plain_work(call, before, Work::Settle(id), after);
    assert(sources.push(Work::Refresh(id)) =~= sources + seq![Work::Refresh(id)]);
    lemma_in_order(call, before, sources, seq![Work::Refresh(id)], after);
}

/// Settling a node that is clean, or not there, changes nothing: no code runs.
pub proof fn lemma_settle_clean<W, F: Fn(Runtime, W, Call) -> (Runtime, W, bool)>(
    call: F,
    before: Moment<W>,
    id: u64,
    after: Moment<W>,
)
    requires
        before.state.state_of(id) == ReactiveNodeState::Clean,
    ensures
        completes(call, before, seq![Work::Settle(id)], after) <==> after == before,
{
    lemma_plain_work(call, before, Work::Settle(id), after);
    lemma_refresh(call, before, id, after);
    assert(before.marked_clean(id) =~= before);
}

/// Checking sources that are all clean changes nothing.
proof fn lemma_clean_sources<W, F: Fn(Runtime, W, Call) -> (Runtime, W, bool)>(
    call: F,
    before: Moment<W>,
    id: u64,
    sources: Seq<u64>,
    after: Moment<W>,
)
    requires
        forall|source: u64| #[trigger]
            sources.contains(source) ==> before.state.state_of(source) == ReactiveNodeState::Clean,
    ensures
        completes(call, before, source_work(id, sources), after) <==> after == before,
    decreases sources.len(),
{
    if sources.len() == 0 {
        assert(sources =~= Seq::empty());
        lemma_no_sources(call, before, id, after);
    } else if before.state.state_of(id).needs_update() {
        lemma_dirty_stops_checking(call, before, id, sources, after);
    } else {
        let first = seq![Work::Settle(sources.first())];
        let others = sources.drop_first();
        assert(sources.contains(sources.first()));
        assert forall|source: u64| #[trigger] others.contains(source) implies before.state.state_of(source)
            == ReactiveNodeState::Clean by {
            let j = others.index_of(source);
            assert(sources[j + 1] == source);
            assert(sources.contains(source));
        }
        lemma_check_source(call, before, id, sources, after);
        lemma_clean_sources(call, before, id, others, after);
        if completes(call, before, source_work(id, sources), after) {
            let middle = choose|middle: Moment<W>| #[trigger]
                completes_both(call, before, first, middle, source_work(id, others), after);
            lemma_settle_clean(call, before, sources.first(), middle);
        }
        if after == before {
            lemma_settle_clean(call, before, sources.first(), before);
            assert(completes_both(call, before, first, before, source_work(id, others), after));
        }
    }
}

/// A node that is to be checked, and all of whose sources turn out to be clean,
/// is clean without running again.
pub proof fn lemma_unchanged_sources<W, F: Fn(Runtime, W, Call) -> (Runtime, W, bool)>(
    call: F,
    before: Moment<W>,
    id: u64,
    after: Moment<W>,
)
    requires
        before.state.state_of(id) == ReactiveNodeState::Check,
        forall|source: u64| #[trigger]
            before.state.sources_of(id).contains(source) ==> before.state.state_of(source)
                == ReactiveNodeState::Clean,
    ensures
        completes(call, before, seq![Work::Settle(id)], after) <==> after == before.marked_clean(id),
{
    let sources = before.state.sources_of(id);
    lemma_settle_check(call, before, id, after);
    lemma_refresh(call, before, id, after);
    if completes(call, before, seq![Work::Settle(id)], after) {
        let checked = choose|checked: Moment<W>| #[trigger]
            completes_both(
                call,
                before,
                source_work(id, sources),
                checked,
                seq![Work::Refresh(id)],
                after,
            );
        lemma_clean_sources(call, before, id, sources, checked);
    }
    if after == before.marked_clean(id) {
        lemma_clean_sources(call, before, id, sources, before);
        assert(completes_both(
            call,
            before,
            source_work(id, sources),
            before,
            seq![Work::Refresh(id)],
            after,
        ));
    }
}

/// Once a node has been settled, settling it again changes nothing: no code
/// runs, whatever the code is.
pub proof fn lemma_settle_again<W, F: Fn(Runtime, W, Call) -> (Runtime, W, bool)>(
    call: F,
    before: Moment<W>,
    id: u64,
    settled: Moment<W>,
    after: Moment<W>,
)
    requires
        completes(call, before, seq![Work::Settle(id)], settled),
        completes(call, settled, seq![Work::Settle(id)], after),
    ensures
        after == settled,
{
    lemma_settled_is_clean(call, before, id, settled);
    lemma_settle_clean(call, settled, id, after);
}

/// Settling a node that is clean takes so few tasks that it is always done.
pub proof fn lemma_settle_clean_is_done<W, F: Fn(Runtime, W, Call) -> (Runtime, W, bool)>(
    call: F,
    before: Moment<W>,
    id: u64,
    after: Moment<W>,
    done: bool,
)
    requires
        before.state.state_of(id) == ReactiveNodeState::Clean,
        works_off(call, before, seq![Work::Settle(id)], after, done),
    ensures
        done,
        after == before,
{
    if !done {
        let rest = choose|rest: Seq<Work>| #[trigger]
            reaches(call, before, seq![Work::Settle(id)], LIMIT as nat, after, rest) && rest.len()
                > 0;
        let steps = LIMIT as nat;
        let settle = seq![Work::Settle(id)];
        let refresh = seq![Work::Refresh(id)];
        let mark = seq![Work::MarkClean(id)];
        lemma_plain_step(call, before, settle, steps, after, rest);
        assert(dealt_with(before.state, Work::Settle(id)).1 + settle.drop_first() =~= refresh);
        lemma_plain_step(call, before, refresh, (steps - 1) as nat, after, rest);
        assert(dealt_with(before.state, Work::Refresh(id)).1 + refresh.drop_first() =~= mark);
        lemma_plain_step(call, before, mark, (steps - 2) as nat, after, rest);
        assert(dealt_with(before.state, Work::MarkClean(id)).1 + mark.drop_first() =~= Seq::empty());
        assert(before.marked_clean(id) =~= before);
        lemma_nothing_left(call, before, (steps - 3) as nat, after, rest);
    }
    lemma_settle_clean(call, before, id, after);
}

/// A new memo runs the first time it is settled, and not before.
pub proof fn lemma_memo_is_lazy<W, F: Fn(Runtime, W, Call) -> (Runtime, W, bool)>(
    call: F,
    before: Moment<W>,
    id: u64,
    value: ValueId,
    f: ComputationId,
    after: Moment<W>,
)
    ensures
        before.state.with_node(id, memo_node(value, f)).state_of(id) == ReactiveNodeState::Dirty,
        completes(
            call,
            before.with(before.state.with_node(id, memo_node(value, f))),
            seq![Work::Settle(id)],
            after,
        ) <==> is_rerun(call, before.with(before.state.with_node(id, memo_node(value, f))), id, after),
{
    lemma_settle_dirty(call, before.with(before.state.with_node(id, memo_node(value, f))), id, after);
}

/// A node that has run is clean. If its value has changed, everything that
/// subscribes to it has to run as well. If it has not, nothing else changes.
pub proof fn lemma_has_run(before: RuntimeState, id: u64, changed: bool, other: u64)
    ensures
        before.has_run(id, changed).state_of(id) == ReactiveNodeState::Clean,
        other != id && before.nodes.contains_key(other) ==> before.has_run(id, changed).nodes[other]
            == (if changed && before.subscribers_of(id).contains(other) {
            dirtied(before.nodes[other])
        } else {
            before.nodes[other]
        }),
        !changed ==> before.has_run(id, changed) == before.with_state(id, ReactiveNodeState::Clean),
{
}

/// Effects are settled one after the other.
pub proof fn lemma_effects_in_order<W, F: Fn(Runtime, W, Call) -> (Runtime, W, bool)>(
    call: F,
    before: Moment<W>,
    effects: Seq<u64>,
    after: Moment<W>,
)
    requires
        effects.len() > 0,
    ensures
        completes(call, before, effect_work(effects), after) <==> exists|middle: Moment<W>|
            #[trigger] completes_both(
                call,
                before,
                seq![Work::Settle(effects.first())],
                middle,
                effect_work(effects.drop_first()),
                after,
            ),
{
    assert(effect_work(effects) =~= seq![Work::Settle(effects.first())] + effect_work(
        effects.drop_first(),
    ));
    lemma_in_order(
        call,
        before,
        seq![Work::Settle(effects.first())],
        effect_work(effects.drop_first()),
        after,
    );
}

// Who owns and observes

/// A node that runs is the owner and the observer of what its function does.
/// Afterwards the owner and the observer from before are in place again,
/// whatever the function has done about them.
pub proof fn lemma_update_restores<W, F: Fn(Runtime, W, Call) -> (Runtime, W, bool)>(
    call: F,
    before: Moment<W>,
    id: u64,
    after: Moment<W>,
)
    requires
        updates(call, before, id, after),
    ensures
        after.state.owner == before.state.owner,
        after.state.observer == before.state.observer,
{
}

/// No cleanup function changes the owner or the observer.
pub open spec fn cleanups_keep_observer<W, F: Fn(Runtime, W, Call) -> (Runtime, W, bool)>(call: F) -> bool {
    forall|before: Moment<W>, cleanup: CleanupId, after: Moment<W>| #[trigger]
        cleans_up(call, before, cleanup, after) ==> after.state.owner == before.state.owner && after.state.observer
            == before.state.observer
}

proof fn lemma_reaching_restores<W, F: Fn(Runtime, W, Call) -> (Runtime, W, bool)>(
    call: F,
    before: Moment<W>,
    list: Seq<Work>,
    steps: nat,
    after: Moment<W>,
    rest: Seq<Work>,
)
    requires
        cleanups_keep_observer(call),
        reaches(call, before, list, steps, after, rest),
    ensures
        after.state.owner == before.state.owner,
        after.state.observer == before.state.observer,
    decreases steps,
{
    if steps > 0 {
        let (state, work) = choose|state: Moment<W>, work: Seq<Work>|
            reaches(call, before, list, (steps - 1) as nat, state, work) && #[trigger] advances(
                call,
                state,
                work,
                after,
                rest,
            );
        lemma_reaching_restores(call, before, list, (steps - 1) as nat, state, work);
        let more = choose|more: Seq<Work>| #[trigger]
            deals(call, state, work.first(), after, more) && rest == more + work.drop_first();
        if let Work::Update(id) = work.first() {
            lemma_update_restores(call, state, id, after);
        }
    }
}

/// Settling and disposing leave the owner and the observer as they were, as
/// long as no cleanup function changes them.
pub proof fn lemma_work_restores<W, F: Fn(Runtime, W, Call) -> (Runtime, W, bool)>(
    call: F,
    before: Moment<W>,
    list: Seq<Work>,
    after: Moment<W>,
    done: bool,
)
    requires
        cleanups_keep_observer(call),
        works_off(call, before, list, after, done),
    ensures
        after.state.owner == before.state.owner,
        after.state.observer == before.state.observer,
{
    reveal(completes);
    if done {
        let steps = choose|steps: nat| #[trigger]
            reaches(call, before, list, steps, after, Seq::empty());
        lemma_reaching_restores(call, before, list, steps, after, Seq::empty());
    } else {
        let rest = choose|rest: Seq<Work>| #[trigger]
            reaches(call, before, list, LIMIT as nat, after, rest) && rest.len() > 0;
        lemma_reaching_restores(call, before, list, LIMIT as nat, after, rest);
    }
}

} // verus!
