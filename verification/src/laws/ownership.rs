//! What a node owns, and how long that lasts.
use crate::agenda::{
    advances, answers, completes, deals, dealt_with, disposal, is_gone, property_work, reaches,
    updates, works_off, Call, Moment, Work, LIMIT,
};
use crate::laws::settling::{
    completes_both, is_disposed_by, lemma_dispose_node, lemma_disposed_is_gone, lemma_in_order,
    lemma_nothing_left, lemma_plain_step, lemma_properties,
};
use crate::laws::upstream::{are_disposals, is_disposal};
use crate::node::{CleanupId, Property, ReactiveNode, ReactiveNodeType};
use crate::runtime::Runtime;
use crate::secondary::{offers_sparse, takes, value_or};
use crate::slots::occupied;
use crate::state::{property_of, RuntimeState};
use vstd::prelude::*;

verus! {

/// A new node belongs to the current owner: it is the last of the owner's
/// properties, and the owner is noted as its owner.
pub proof fn lemma_new_node_is_owned(
    state: RuntimeState,
    owner: u64,
    id: u64,
    node: ReactiveNode,
)
    requires
        state.owner == Some(owner),
        offers_sparse(state.properties, owner),
        takes(state.owners, id),
    ensures
        state.with_node(id, node).properties[owner] == value_or(
            state.properties,
            owner,
            Seq::empty(),
        ).push(property_of(id, node.node_type)),
        state.with_node(id, node).owners.get(id) == Some(owner),
        state.with_node(id, node).nodes.get(id) == Some(node),
{
}

/// Outside of any owner, a new node belongs to nobody.
pub proof fn lemma_new_node_without_owner(state: RuntimeState, id: u64, node: ReactiveNode)
    requires
        state.owner is None,
    ensures
        state.with_node(id, node) == (RuntimeState {
            nodes: state.nodes.insert(id, node),
            generations: occupied(state.generations, id),
            ..state
        }),
{
}

/// A cleanup function belongs to the current owner, after those that it has
/// already.
pub proof fn lemma_cleanup_is_owned(state: RuntimeState, owner: u64, cleanup: CleanupId)
    requires
        state.owner == Some(owner),
        offers_sparse(state.cleanups, owner),
    ensures
        state.with_cleanup(cleanup).cleanups[owner] == value_or(
            state.cleanups,
            owner,
            Seq::empty(),
        ).push(cleanup),
{
}

/// The code of the embedding program does not bring a property back.
pub open spec fn leaves_gone<W, F: Fn(Runtime, W, Call) -> (Runtime, W, bool)>(
    call: F,
    property: Property,
) -> bool {
    forall|before: Moment<W>, request: Call, after: Moment<W>, answer: bool| #[trigger]
        answers(call, before, request, after, answer) && is_gone(before.state, property) ==> is_gone(
            after.state,
            property,
        )
}

proof fn lemma_update_leaves_gone<W, F: Fn(Runtime, W, Call) -> (Runtime, W, bool)>(
    call: F,
    before: Moment<W>,
    id: u64,
    after: Moment<W>,
    property: Property,
)
    requires
        leaves_gone(call, property),
        is_gone(before.state, property),
        updates(call, before, id, after),
    ensures
        is_gone(after.state, property),
{
    if before.state.nodes.contains_key(id) {
        let node = before.state.nodes[id];
        let f = match node.node_type {
            ReactiveNodeType::Memo { f } => Some(f),
            ReactiveNodeType::Effect { f } => Some(f),
            _ => None,
        };
        if let Some(f) = f {
            let (ran, changed) = choose|ran: Moment<W>, changed: bool| #[trigger]
                answers(
                    call,
                    before.with(before.state.observed_by(id).unsubscribed(id)),
                    (Call::Run { f, value: node.value }),
                    ran,
                    changed,
                ) && after == ran.with(
                    ran.state.observed_as(before.state).has_run(id, changed),
                );
            assert(is_gone(before.state.observed_by(id).unsubscribed(id), property));
            assert(is_gone(ran.state, property));
        }
    }
}

proof fn lemma_reaching_leaves_gone<W, F: Fn(Runtime, W, Call) -> (Runtime, W, bool)>(
    call: F,
    before: Moment<W>,
    list: Seq<Work>,
    steps: nat,
    after: Moment<W>,
    rest: Seq<Work>,
    property: Property,
)
    requires
        leaves_gone(call, property),
        is_gone(before.state, property),
        reaches(call, before, list, steps, after, rest),
    ensures
        is_gone(after.state, property),
    decreases steps,
{
    if steps > 0 {
        let (state, work) = choose|state: Moment<W>, work: Seq<Work>|
            reaches(call, before, list, (steps - 1) as nat, state, work) && #[trigger] advances(
                call,
                state,
                work,
                after,
                rest,
            );
        lemma_reaching_leaves_gone(
            call,
            before,
            list,
            (steps - 1) as nat,
            state,
            work,
            property,
        );
        let more = choose|more: Seq<Work>| #[trigger]
            deals(call, state, work.first(), after, more) && rest == more + work.drop_first();
        if let Work::Update(id) = work.first() {
            lemma_update_leaves_gone(call, state, id, after, property);
        }
    }
}

/// What is gone stays gone while other work is done, unless the code that runs
/// brings it back.
pub proof fn lemma_gone_for_good<W, F: Fn(Runtime, W, Call) -> (Runtime, W, bool)>(
    call: F,
    before: Moment<W>,
    list: Seq<Work>,
    after: Moment<W>,
    property: Property,
)
    requires
        leaves_gone(call, property),
        is_gone(before.state, property),
        completes(call, before, list, after),
    ensures
        is_gone(after.state, property),
{
    reveal(completes);
    let steps = choose|steps: nat| #[trigger]
        reaches(call, before, list, steps, after, Seq::empty());
    lemma_reaching_leaves_gone(call, before, list, steps, after, Seq::empty(), property);
}

/// Once the properties of a node have been disposed of, as happens when it runs
/// again and when it is disposed of itself, every one of them is gone, unless
/// the code that runs meanwhile brings it back.
pub proof fn lemma_properties_are_gone<W, F: Fn(Runtime, W, Call) -> (Runtime, W, bool)>(
    call: F,
    before: Moment<W>,
    id: u64,
    after: Moment<W>,
    property: Property,
)
    requires
        completes(call, before, seq![Work::Properties(id)], after),
        value_or(before.state.properties, id, Seq::empty()).contains(property),
        leaves_gone(call, property),
    ensures
        is_gone(after.state, property),
{
    let properties = value_or(before.state.properties, id, Seq::empty());
    let start = before.with(
        RuntimeState { properties: before.state.properties.remove(id), ..before.state },
    );
    lemma_properties(call, before, id, after);
    let at = properties.index_of(property);
    let first = property_work(properties.take(at));
    let this = seq![Work::Property(property)];
    let others = property_work(properties.skip(at + 1));
    assert(property_work(properties) =~= first + (this + others));
    lemma_in_order(call, start, first, this + others, after);
    let reached = choose|middle: Moment<W>| #[trigger]
        completes_both(call, start, first, middle, this + others, after);
    lemma_in_order(call, reached, this, others, after);
    let disposed = choose|middle: Moment<W>| #[trigger]
        completes_both(call, reached, this, middle, others, after);
    lemma_disposed_is_gone(call, reached, property, disposed);
    lemma_gone_for_good(call, disposed, others, after, property);
}

// What is owned by something that is owned

/// What goes when a node goes.
pub open spec fn properties_of(state: RuntimeState, id: u64) -> Seq<Property> {
    value_or(state.properties, id, Seq::empty())
}

/// One property is a node that owns another.
pub open spec fn is_parent(state: RuntimeState, parent: Property, child: Property) -> bool {
    parent.node() matches Some(id) && properties_of(state, id).contains(child)
}

/// A node owns a property, `depth` owners removed.
pub open spec fn owns(state: RuntimeState, id: u64, property: Property, depth: nat) -> bool
    decreases depth,
{
    if depth == 0 {
        properties_of(state, id).contains(property)
    } else {
        exists|parent: Property| #[trigger]
            is_parent(state, parent, property) && owns(state, id, parent, (depth - 1) as nat)
    }
}

/// The code of the embedding program takes nothing away from its owner.
pub open spec fn leaves_owned<W, F: Fn(Runtime, W, Call) -> (Runtime, W, bool)>(call: F) -> bool {
    forall|
        before: Moment<W>,
        request: Call,
        after: Moment<W>,
        answer: bool,
        id: u64,
        property: Property,
    |
        #![trigger
            answers(call, before, request, after, answer),
            properties_of(after.state, id).contains(property)
        ]
        answers(call, before, request, after, answer) && properties_of(before.state, id).contains(
            property,
        ) ==> properties_of(after.state, id).contains(property)
}

/// A property is on the list, or belongs to a node whose properties are.
spec fn is_listed(state: RuntimeState, list: Seq<Work>, property: Property) -> bool {
    ||| list.contains(Work::Property(property))
    ||| exists|id: u64| #[trigger]
        list.contains(Work::Properties(id)) && properties_of(state, id).contains(property)
}

/// A property is going to be disposed of, once `depth` owners have been.
spec fn is_doomed(state: RuntimeState, list: Seq<Work>, property: Property, depth: nat) -> bool
    decreases depth,
{
    if depth == 0 {
        is_listed(state, list, property)
    } else {
        exists|parent: Property| #[trigger]
            is_parent(state, parent, property) && is_doomed(
                state,
                list,
                parent,
                (depth - 1) as nat,
            )
    }
}

/// A property is gone, about to leave the graph, or going to be disposed of.
spec fn is_going(state: RuntimeState, list: Seq<Work>, property: Property) -> bool {
    ||| is_gone(state, property)
    ||| property.node() matches Some(id) && list.contains(Work::Detach(id))
    ||| exists|depth: nat| #[trigger] is_doomed(state, list, property, depth)
}

/// What becomes of something that is doomed when one task is dealt with.
proof fn lemma_doomed_step<W, F: Fn(Runtime, W, Call) -> (Runtime, W, bool)>(
    call: F,
    before: Moment<W>,
    list: Seq<Work>,
    after: Moment<W>,
    rest: Seq<Work>,
    property: Property,
    depth: nat,
)
    requires
        leaves_owned(call),
        are_disposals(list),
        advances(call, before, list, after, rest),
        is_doomed(before.state, list, property, depth),
    ensures
        list.first() == Work::Property(property) || exists|d: nat| #[trigger]
            is_doomed(after.state, rest, property, d),
    decreases depth,
{
    let more = choose|more: Seq<Work>| #[trigger]
        deals(call, before, list.first(), after, more) && rest == more + list.drop_first();
    assert(is_disposal(list[0]));
    assert forall|work: Work| #[trigger] list.contains(work) && work != list.first() implies rest.contains(
        work,
    ) by {
        let i = list.index_of(work);
        assert(rest[more.len() + i - 1] == work);
    }
    assert forall|work: Work| #[trigger] more.contains(work) implies rest.contains(work) by {
        assert(rest[more.index_of(work)] == work);
    }
    // What is owned stays owned, unless it is put on the list.
    assert forall|id: u64, child: Property| #[trigger]
        properties_of(before.state, id).contains(child) implies properties_of(
        after.state,
        id,
    ).contains(child) || rest.contains(Work::Property(child)) by {
        match list.first() {
            Work::Properties(node) => {
                if node == id {
                    let j = properties_of(before.state, id).index_of(child);
                    assert(more[j] == Work::Property(child));
                    assert(more.contains(Work::Property(child)));
                }
            },
            Work::Cleanup(cleanup) => {
                let answer = choose|answer: bool| #[trigger]
                    answers(call, before, Call::Cleanup(cleanup), after, answer);
            },
            _ => {},
        }
    }
    if depth == 0 {
        if list.first() != Work::Property(property) {
            if !list.contains(Work::Property(property)) {
                let id = choose|id: u64| #[trigger]
                    list.contains(Work::Properties(id)) && properties_of(
                        before.state,
                        id,
                    ).contains(property);
                if list.first() == Work::Properties(id) {
                    let j = properties_of(before.state, id).index_of(property);
                    assert(more[j] == Work::Property(property));
                    assert(more.contains(Work::Property(property)));
                } else {
                    assert(rest.contains(Work::Properties(id)));
                }
            }
            assert(is_listed(after.state, rest, property));
            assert(is_doomed(after.state, rest, property, 0));
        }
    } else {
        let parent = choose|parent: Property| #[trigger]
            is_parent(before.state, parent, property) && is_doomed(
                before.state,
                list,
                parent,
                (depth - 1) as nat,
            );
        let id = parent.node().unwrap();
        lemma_doomed_step(call, before, list, after, rest, parent, (depth - 1) as nat);
        if rest.contains(Work::Property(property)) {
            assert(is_doomed(after.state, rest, property, 0));
        } else {
            assert(properties_of(after.state, id).contains(property));
            if list.first() == Work::Property(parent) {
                assert(more == disposal(id));
                assert(more[0] == Work::Properties(id));
                assert(more.contains(Work::Properties(id)));
                assert(is_doomed(after.state, rest, property, 0));
            } else {
                let d = choose|d: nat| #[trigger] is_doomed(after.state, rest, parent, d);
                assert(is_parent(after.state, parent, property));
                assert(is_doomed(after.state, rest, property, d + 1));
            }
        }
    }
}

proof fn lemma_going_step<W, F: Fn(Runtime, W, Call) -> (Runtime, W, bool)>(
    call: F,
    before: Moment<W>,
    list: Seq<Work>,
    after: Moment<W>,
    rest: Seq<Work>,
    property: Property,
)
    requires
        leaves_owned(call),
        leaves_gone(call, property),
        are_disposals(list),
        advances(call, before, list, after, rest),
        is_going(before.state, list, property),
    ensures
        is_going(after.state, rest, property),
        are_disposals(rest),
{
    let more = choose|more: Seq<Work>| #[trigger]
        deals(call, before, list.first(), after, more) && rest == more + list.drop_first();
    assert(is_disposal(list[0]));
    assert(are_disposals(more));
    assert forall|i: int| #![trigger rest[i]] 0 <= i < rest.len() implies is_disposal(rest[i]) by {
        if i < more.len() {
            assert(rest[i] == more[i]);
        } else {
            assert(rest[i] == list[i - more.len() + 1]);
        }
    }
    if is_gone(before.state, property) {
        assert(reaches(call, before, list, 0, before, list));
        assert(reaches(call, before, list, 1, after, rest));
        lemma_reaching_leaves_gone(call, before, list, 1, after, rest, property);
    } else if property.node() matches Some(id) && list.contains(Work::Detach(id)) {
        let id = property.node().unwrap();
        if list.first() == Work::Detach(id) {
            assert(is_gone(after.state, property));
        } else {
            let i = list.index_of(Work::Detach(id));
            assert(rest[more.len() + i - 1] == Work::Detach(id));
            assert(rest.contains(Work::Detach(id)));
        }
    } else {
        let depth = choose|depth: nat| #[trigger] is_doomed(before.state, list, property, depth);
        lemma_doomed_step(call, before, list, after, rest, property, depth);
        if list.first() == Work::Property(property) {
            if let Some(id) = property.node() {
                assert(more == disposal(id));
                assert(more[2] == Work::Detach(id));
                assert(rest[2] == Work::Detach(id));
                assert(rest.contains(Work::Detach(id)));
            } else {
                assert(is_gone(after.state, property));
            }
        }
    }
}

proof fn lemma_reaching_goes<W, F: Fn(Runtime, W, Call) -> (Runtime, W, bool)>(
    call: F,
    before: Moment<W>,
    list: Seq<Work>,
    steps: nat,
    after: Moment<W>,
    rest: Seq<Work>,
    property: Property,
)
    requires
        leaves_owned(call),
        leaves_gone(call, property),
        are_disposals(list),
        is_going(before.state, list, property),
        reaches(call, before, list, steps, after, rest),
    ensures
        is_going(after.state, rest, property),
        are_disposals(rest),
    decreases steps,
{
    if steps > 0 {
        let (state, work) = choose|state: Moment<W>, work: Seq<Work>|
            reaches(call, before, list, (steps - 1) as nat, state, work) && #[trigger] advances(
                call,
                state,
                work,
                after,
                rest,
            );
        lemma_reaching_goes(call, before, list, (steps - 1) as nat, state, work, property);
        lemma_going_step(call, state, work, after, rest, property);
    }
}

proof fn lemma_nothing_is_doomed(state: RuntimeState, property: Property, depth: nat)
    ensures
        !is_doomed(state, Seq::empty(), property, depth),
    decreases depth,
{
    if depth > 0 && is_doomed(state, Seq::empty(), property, depth) {
        let parent = choose|parent: Property| #[trigger]
            is_parent(state, parent, property) && is_doomed(
                state,
                Seq::empty(),
                parent,
                (depth - 1) as nat,
            );
        lemma_nothing_is_doomed(state, parent, (depth - 1) as nat);
    }
}

proof fn lemma_owned_is_doomed(state: RuntimeState, id: u64, property: Property, depth: nat)
    requires
        owns(state, id, property, depth),
    ensures
        is_doomed(state, seq![Work::Properties(id)], property, depth),
    decreases depth,
{
    let list = seq![Work::Properties(id)];
    assert(list[0] == Work::Properties(id));
    assert(list.contains(Work::Properties(id)));
    if depth > 0 {
        let parent = choose|parent: Property| #[trigger]
            is_parent(state, parent, property) && owns(state, id, parent, (depth - 1) as nat);
        lemma_owned_is_doomed(state, id, parent, (depth - 1) as nat);
    }
}

/// Once the properties of a node have been disposed of, everything that it
/// owned is gone, however many owners removed, unless the code that runs
/// meanwhile brings it back or takes it away from its owner.
pub proof fn lemma_descendants_are_gone<W, F: Fn(Runtime, W, Call) -> (Runtime, W, bool)>(
    call: F,
    before: Moment<W>,
    id: u64,
    after: Moment<W>,
    property: Property,
    depth: nat,
)
    requires
        completes(call, before, seq![Work::Properties(id)], after),
        owns(before.state, id, property, depth),
        leaves_owned(call),
        leaves_gone(call, property),
    ensures
        is_gone(after.state, property),
{
    reveal(completes);
    let list = seq![Work::Properties(id)];
    let steps = choose|steps: nat| #[trigger]
        reaches(call, before, list, steps, after, Seq::empty());
    lemma_owned_is_doomed(before.state, id, property, depth);
    lemma_reaching_goes(call, before, list, steps, after, Seq::empty(), property);
    if !is_gone(after.state, property) {
        let d = choose|d: nat| #[trigger] is_doomed(after.state, Seq::empty(), property, d);
        lemma_nothing_is_doomed(after.state, property, d);
    }
}

/// Disposing of a node disposes of everything that it owns, however many owners
/// removed.
pub proof fn lemma_disposal_takes_descendants<
    W,
    F: Fn(Runtime, W, Call) -> (Runtime, W, bool),
>(
    call: F,
    before: Moment<W>,
    disposed: Property,
    id: u64,
    after: Moment<W>,
    property: Property,
    depth: nat,
)
    requires
        disposed.node() == Some(id),
        completes(call, before, seq![Work::Property(disposed)], after),
        owns(before.state, id, property, depth),
        leaves_owned(call),
        leaves_gone(call, property),
    ensures
        is_gone(after.state, disposed),
        is_gone(after.state, property),
{
    lemma_disposed_is_gone(call, before, disposed, after);
    lemma_dispose_node(call, before, disposed, id, after);
    let (orphaned, cleaned) = choose|orphaned: Moment<W>, cleaned: Moment<W>| #[trigger]
        is_disposed_by(call, before, id, orphaned, cleaned, after);
    lemma_descendants_are_gone(call, before, id, orphaned, property, depth);
    lemma_gone_for_good(call, orphaned, seq![Work::Cleanups(id)], cleaned, property);
}

/// Disposing of a property once more changes nothing: it is gone, and there is
/// nothing left that belongs to it.
pub proof fn lemma_dispose_again<W, F: Fn(Runtime, W, Call) -> (Runtime, W, bool)>(
    call: F,
    before: Moment<W>,
    property: Property,
    after: Moment<W>,
    done: bool,
)
    requires
        is_gone(before.state, property),
        property.node() matches Some(id) ==> !before.state.properties.contains_key(id)
            && !before.state.cleanups.contains_key(id),
        works_off(call, before, seq![Work::Property(property)], after, done),
    ensures
        done,
        after == before,
{
    reveal(completes);
    let list = seq![Work::Property(property)];
    assert(list.len() == 1);
    let (steps, rest) = if done {
        let steps = choose|steps: nat| #[trigger]
            reaches(call, before, list, steps, after, Seq::empty());
        (steps, Seq::empty())
    } else {
        let rest = choose|rest: Seq<Work>| #[trigger]
            reaches(call, before, list, LIMIT as nat, after, rest) && rest.len() > 0;
        (LIMIT as nat, rest)
    };
    assert(steps > 0);
    lemma_plain_step(call, before, list, steps, after, rest);
    let first = dealt_with(before.state, Work::Property(property));
    assert(first.0 =~= before.state);
    assert(first.1 + list.drop_first() =~= first.1);
    assert(before.with(before.state) == before);
    if let Some(id) = property.node() {
        let two = seq![Work::Cleanups(id), Work::Detach(id)];
        let one = seq![Work::Detach(id)];
        assert(first.1 == disposal(id));
        assert(steps > 1);
        lemma_plain_step(call, before, disposal(id), (steps - 1) as nat, after, rest);
        let second = dealt_with(before.state, Work::Properties(id));
        assert(second.0 =~= before.state);
        assert(second.1 + disposal(id).drop_first() =~= two);
        assert(two.len() == 2);
        lemma_plain_step(call, before, two, (steps - 2) as nat, after, rest);
        let third = dealt_with(before.state, Work::Cleanups(id));
        assert(third.0 =~= before.state);
        assert(third.1 + two.drop_first() =~= one);
        assert(one.len() == 1);
        lemma_plain_step(call, before, one, (steps - 3) as nat, after, rest);
        let fourth = dealt_with(before.state, Work::Detach(id));
        assert(fourth.0 =~= before.state);
        assert(fourth.1 + one.drop_first() =~= Seq::empty());
        lemma_nothing_left(call, before, (steps - 4) as nat, after, rest);
    } else {
        assert(first.1 =~= Seq::empty());
        lemma_nothing_left(call, before, (steps - 1) as nat, after, rest);
    }
}

} // verus!
