//! How context values are found.
use crate::error_boundary::provides;
use crate::keys::slot_of;
use crate::node::{ContextValue, ReactiveNode, TypeKey, ValueId};
use crate::registry::RuntimesState;
use crate::secondary::{offers_sparse, takes};
use crate::state::RuntimeState;
use vstd::prelude::*;

verus! {

/// There is one answer to what a node finds.
pub proof fn lemma_one_context(
    state: RuntimeState,
    id: u64,
    ty: TypeKey,
    target: TypeKey,
    a: Option<ValueId>,
    b: Option<ValueId>,
)
    requires
        state.finds_context(id, ty, target, a),
        state.finds_context(id, ty, target, b),
    ensures
        a == b,
{
    if a is Some && b is Some {
        let m = choose|steps: nat| #[trigger]
            state.context_above(id, ty, target, steps) == a && forall|fewer: nat|
                fewer < steps ==> #[trigger] state.context_above(id, ty, target, fewer) is None;
        let n = choose|steps: nat| #[trigger]
            state.context_above(id, ty, target, steps) == b && forall|fewer: nat|
                fewer < steps ==> #[trigger] state.context_above(id, ty, target, fewer) is None;
        assert(m == n);
    }
}

/// What a node provides itself comes before anything further up.
pub proof fn lemma_own_context(
    state: RuntimeState,
    id: u64,
    ty: TypeKey,
    target: TypeKey,
    value: Option<ValueId>,
)
    requires
        state.local_context(id, ty, target) is Some,
    ensures
        state.finds_context(id, ty, target, value) <==> value == state.local_context(
            id,
            ty,
            target,
        ),
{
    let own = state.local_context(id, ty, target);
    assert(state.context_above(id, ty, target, 0) == own);
    assert(state.finds_context(id, ty, target, own));
    if state.finds_context(id, ty, target, value) {
        lemma_one_context(state, id, ty, target, value, own);
    }
}

proof fn lemma_ancestor_of_owner(state: RuntimeState, id: u64, owner: u64, steps: nat)
    requires
        state.owners.get(id) == Some(owner),
    ensures
        state.ancestor(id, steps + 1) == state.ancestor(owner, steps),
    decreases steps,
{
    if steps > 0 {
        lemma_ancestor_of_owner(state, id, owner, (steps - 1) as nat);
    } else {
        assert(state.ancestor(id, 0) == Some(id));
    }
}

/// A node that provides nothing itself finds what its owner finds.
pub proof fn lemma_inherited_context(
    state: RuntimeState,
    id: u64,
    owner: u64,
    ty: TypeKey,
    target: TypeKey,
    value: Option<ValueId>,
)
    requires
        state.local_context(id, ty, target) is None,
        state.owners.get(id) == Some(owner),
    ensures
        state.finds_context(id, ty, target, value) <==> state.finds_context(
            owner,
            ty,
            target,
            value,
        ),
{
    assert(state.context_above(id, ty, target, 0) is None);
    assert forall|steps: nat| #[trigger]
        state.context_above(owner, ty, target, steps) == state.context_above(
            id,
            ty,
            target,
            steps + 1,
        ) by {
        lemma_ancestor_of_owner(state, id, owner, steps);
    }
    if state.finds_context(id, ty, target, value) {
        if value is Some {
            let n = choose|steps: nat| #[trigger]
                state.context_above(id, ty, target, steps) == value && forall|fewer: nat|
                    fewer < steps ==> #[trigger] state.context_above(id, ty, target, fewer) is None;
            assert(n > 0);
            let m = (n - 1) as nat;
            assert(state.context_above(owner, ty, target, m) == value);
        }
    }
    if state.finds_context(owner, ty, target, value) {
        if value is Some {
            let m = choose|steps: nat| #[trigger]
                state.context_above(owner, ty, target, steps) == value && forall|fewer: nat|
                    fewer < steps ==> #[trigger] state.context_above(owner, ty, target, fewer) is None;
            assert(state.context_above(id, ty, target, m + 1) == value);
            assert forall|fewer: nat| fewer < m + 1 implies #[trigger] state.context_above(
                id,
                ty,
                target,
                fewer,
            ) is None by {
                if fewer > 0 {
                    assert(state.context_above(owner, ty, target, (fewer - 1) as nat) is None);
                }
            }
        } else {
            assert forall|steps: nat| #[trigger]
                state.context_above(id, ty, target, steps) is None by {
                if steps > 0 {
                    assert(state.context_above(owner, ty, target, (steps - 1) as nat) is None);
                }
            }
        }
    }
}

/// A node without an owner that provides nothing finds nothing.
pub proof fn lemma_no_context(
    state: RuntimeState,
    id: u64,
    ty: TypeKey,
    target: TypeKey,
    value: Option<ValueId>,
)
    requires
        state.local_context(id, ty, target) is None,
        !state.owners.contains_key(id),
    ensures
        state.finds_context(id, ty, target, value) <==> value is None,
{
    assert forall|steps: nat| #[trigger] state.context_above(id, ty, target, steps) is None by {
        if steps > 0 {
            lemma_no_ancestor(state, id, steps);
        } else {
            assert(state.ancestor(id, 0) == Some(id));
        }
    }
}

proof fn lemma_no_ancestor(state: RuntimeState, id: u64, steps: nat)
    requires
        !state.owners.contains_key(id),
        steps > 0,
    ensures
        state.ancestor(id, steps) is None,
    decreases steps,
{
    if steps > 1 {
        lemma_no_ancestor(state, id, (steps - 1) as nat);
    } else {
        assert(state.ancestor(id, 0) == Some(id));
    }
}

/// What the current owner provides, it finds, and so does every node that it
/// comes to own, until that node provides something itself.
pub proof fn lemma_provided_context(
    state: RuntimeState,
    owner: u64,
    ty: TypeKey,
    value: ContextValue,
    id: u64,
    node: ReactiveNode,
)
    requires
        state.owner == Some(owner),
        offers_sparse(state.contexts, owner),
        takes(state.owners, id),
        id != owner,
        !state.contexts.contains_key(id),
    ensures
        state.with_context(ty, value).finds_context(owner, ty, value.ty, Some(value.value)),
        state.with_context(ty, value).with_node(id, node).finds_context(
            id,
            ty,
            value.ty,
            Some(value.value),
        ),
{
    let provided = state.with_context(ty, value);
    lemma_own_context(provided, owner, ty, value.ty, Some(value.value));
    let created = provided.with_node(id, node);
    lemma_own_context(created, owner, ty, value.ty, Some(value.value));
    lemma_inherited_context(created, id, owner, ty, value.ty, Some(value.value));
}

/// Whatever a boundary holds for its children, the owner of the boundary finds,
/// and with it everything below that has no boundary of its own. An outer
/// boundary is not asked.
pub proof fn lemma_boundary_is_found(
    before: RuntimesState,
    runtime: u64,
    owner: u64,
    ty: TypeKey,
    value: ValueId,
    found: Option<ValueId>,
)
    requires
        before.has(runtime),
        before.find(runtime).unwrap().owner == Some(owner),
        offers_sparse(before.find(runtime).unwrap().contexts, owner),
    ensures
        provides(before, runtime, ty, value).find(runtime).unwrap().finds_context(
            owner,
            ty,
            ty,
            found,
        ) <==> found == Some(value),
{
    let after = provides(before, runtime, ty, value).find(runtime).unwrap();
    lemma_own_context(after, owner, ty, ty, found);
}

// What is provided, and where it is found

/// A node has a value of type `target` under `ty`.
pub open spec fn has_context(
    state: RuntimeState,
    id: u64,
    ty: TypeKey,
    target: TypeKey,
    value: ValueId,
) -> bool {
    &&& state.contexts.contains_key(id)
    &&& state.contexts[id].contains_key(ty.0)
    &&& state.contexts[id][ty.0] == (ContextValue { ty: target, value })
}

/// A node has no value of type `target` under `ty`.
pub open spec fn lacks_context(state: RuntimeState, id: u64, ty: TypeKey, target: TypeKey) -> bool {
    state.contexts.contains_key(id) && state.contexts[id].contains_key(ty.0)
        ==> state.contexts[id][ty.0].ty != target
}

/// The owner of a node is on record.
pub open spec fn belongs_to(state: RuntimeState, id: u64, owner: u64) -> bool {
    state.owners.contains_key(id) && state.owners[id] == owner
}

/// `line` goes from a node to its owner, to the owner of that, and so on.
pub open spec fn is_line(state: RuntimeState, id: u64, line: Seq<u64>) -> bool {
    &&& line.len() > 0
    &&& line[0] == id
    &&& forall|i: int, j: int|
        #![trigger line[i], line[j]]
        0 <= i && j == i + 1 && j < line.len() ==> belongs_to(state, line[i], line[j])
}

/// A line ends at an ancestor.
proof fn lemma_line_ends(state: RuntimeState, id: u64, line: Seq<u64>, i: int)
    requires
        is_line(state, id, line),
        0 <= i < line.len(),
    ensures
        state.ancestor(id, i as nat) == Some(line[i]),
    decreases i,
{
    if i > 0 {
        lemma_line_ends(state, id, line, i - 1);
        assert(belongs_to(state, line[i - 1], line[i]));
    }
}

/// There is a line to every ancestor.
proof fn lemma_line_to(state: RuntimeState, id: u64, steps: nat) -> (line: Seq<u64>)
    requires
        state.ancestor(id, steps) is Some,
    ensures
        is_line(state, id, line),
        line.len() == steps + 1,
        line.last() == state.ancestor(id, steps).unwrap(),
    decreases steps,
{
    if steps == 0 {
        seq![id]
    } else {
        let shorter = lemma_line_to(state, id, (steps - 1) as nat);
        let line = shorter.push(state.ancestor(id, steps).unwrap());
        assert forall|i: int, j: int|
            #![trigger line[i], line[j]]
            0 <= i && j == i + 1 && j < line.len() implies belongs_to(state, line[i], line[j]) by {
            if j < shorter.len() {
                assert(belongs_to(state, shorter[i], shorter[j]));
            } else {
                assert(line[i] == shorter.last());
            }
        }
        line
    }
}

/// A node finds the value of the nearest node on its line of owners that has
/// one, counting the node itself, of the type that is asked for. It finds
/// nothing if no node on the line has one.
pub proof fn lemma_finds_nearest(
    state: RuntimeState,
    id: u64,
    ty: TypeKey,
    target: TypeKey,
    value: ValueId,
)
    ensures
        state.finds_context(id, ty, target, Some(value)) <==> exists|line: Seq<u64>| #[trigger]
            is_line(state, id, line) && has_context(state, line.last(), ty, target, value) && forall|
                i: int,
            |
                0 <= i < line.len() - 1 ==> lacks_context(state, #[trigger] line[i], ty, target),
        state.finds_context(id, ty, target, None) <==> forall|line: Seq<u64>| #[trigger]
            is_line(state, id, line) ==> lacks_context(state, line.last(), ty, target),
{
    assert forall|n: u64| #[trigger]
        state.local_context(n, ty, target) is None <==> lacks_context(state, n, ty, target) by {}
    assert forall|n: u64| #[trigger]
        state.local_context(n, ty, target) == Some(value) <==> has_context(
            state,
            n,
            ty,
            target,
            value,
        ) by {}
    if state.finds_context(id, ty, target, Some(value)) {
        let steps = choose|steps: nat| #[trigger]
            state.context_above(id, ty, target, steps) == Some(value) && forall|fewer: nat|
                fewer < steps ==> #[trigger] state.context_above(id, ty, target, fewer) is None;
        let line = lemma_line_to(state, id, steps);
        assert(state.local_context(line.last(), ty, target) == Some(value));
        assert forall|i: int| 0 <= i < line.len() - 1 implies lacks_context(
            state,
            #[trigger] line[i],
            ty,
            target,
        ) by {
            lemma_line_ends(state, id, line, i);
            assert(state.context_above(id, ty, target, i as nat) is None);
            assert(state.local_context(line[i], ty, target) is None);
        }
        assert(is_line(state, id, line));
    }
    if exists|line: Seq<u64>| #[trigger]
        is_line(state, id, line) && has_context(state, line.last(), ty, target, value) && forall|
            i: int,
        | 0 <= i < line.len() - 1 ==> lacks_context(state, #[trigger] line[i], ty, target) {
        let line = choose|line: Seq<u64>| #[trigger]
            is_line(state, id, line) && has_context(state, line.last(), ty, target, value)
                && forall|i: int|
                0 <= i < line.len() - 1 ==> lacks_context(state, #[trigger] line[i], ty, target);
        let steps = (line.len() - 1) as nat;
        lemma_line_ends(state, id, line, steps as int);
        assert(state.local_context(line.last(), ty, target) == Some(value));
        assert(state.context_above(id, ty, target, steps) == Some(value));
        assert forall|fewer: nat| fewer < steps implies #[trigger] state.context_above(
            id,
            ty,
            target,
            fewer,
        ) is None by {
            lemma_line_ends(state, id, line, fewer as int);
            assert(lacks_context(state, line[fewer as int], ty, target));
            assert(state.local_context(line[fewer as int], ty, target) is None);
        }
    }
    if state.finds_context(id, ty, target, None) {
        assert forall|line: Seq<u64>| #[trigger] is_line(state, id, line) implies lacks_context(
            state,
            line.last(),
            ty,
            target,
        ) by {
            lemma_line_ends(state, id, line, line.len() - 1);
            assert(state.context_above(id, ty, target, (line.len() - 1) as nat) is None);
            assert(state.local_context(line.last(), ty, target) is None);
        }
    }
    if forall|line: Seq<u64>| #[trigger]
        is_line(state, id, line) ==> lacks_context(state, line.last(), ty, target) {
        assert forall|steps: nat| #[trigger] state.context_above(id, ty, target, steps) is None by {
            if state.ancestor(id, steps) is Some {
                let line = lemma_line_to(state, id, steps);
                assert(lacks_context(state, line.last(), ty, target));
                assert(state.local_context(line.last(), ty, target) is None);
            }
        }
    }
}

/// Providing a value puts it under its type for the current owner. The owner
/// keeps what it has under other types, nodes in other slots keep what they
/// have, and nothing else changes. Without an owner nothing changes at all.
pub proof fn lemma_providing_exactly(
    state: RuntimeState,
    ty: TypeKey,
    value: ContextValue,
    other: u64,
    n: u64,
)
    ensures
        ({
            let after = state.with_context(ty, value);
            &&& after == (RuntimeState { contexts: after.contexts, ..state })
            &&& state.owner is None ==> after == state
            &&& state.owner matches Some(owner) ==> {
                &&& !offers_sparse(state.contexts, owner) ==> after == state
                &&& slot_of(n) != slot_of(owner) ==> after.contexts.get(n) == state.contexts.get(n)
                &&& offers_sparse(state.contexts, owner) ==> {
                    &&& after.contexts.contains_key(owner)
                    &&& after.contexts[owner].get(ty.0) == Some(value)
                    &&& other != ty.0 && state.contexts.contains_key(owner)
                        ==> after.contexts[owner].get(other) == state.contexts[owner].get(other)
                    &&& other != ty.0 && !state.contexts.contains_key(owner)
                        ==> after.contexts[owner].get(other) is None
                }
            }
        }),
{
}

proof fn lemma_same_ancestors(state: RuntimeState, after: RuntimeState, id: u64, steps: nat)
    requires
        after.owners == state.owners,
    ensures
        after.ancestor(id, steps) == state.ancestor(id, steps),
    decreases steps,
{
    if steps > 0 {
        lemma_same_ancestors(state, after, id, (steps - 1) as nat);
    }
}

/// Providing a value under one type leaves what every node finds under any other
/// type as it was, as long as no earlier node of the owner's slot has values.
pub proof fn lemma_other_contexts_stay(
    state: RuntimeState,
    ty: TypeKey,
    value: ContextValue,
    other: TypeKey,
    target: TypeKey,
    n: u64,
    found: Option<ValueId>,
)
    requires
        other != ty,
        state.owner matches Some(owner) ==> forall|key: u64| #[trigger]
            state.contexts.contains_key(key) && slot_of(key) == slot_of(owner) ==> key == owner,
    ensures
        state.with_context(ty, value).finds_context(n, other, target, found)
            <==> state.finds_context(n, other, target, found),
{
    let after = state.with_context(ty, value);
    assert(other.0 != ty.0);
    assert forall|id: u64| #[trigger]
        after.local_context(id, other, target) == state.local_context(id, other, target) by {
        lemma_providing_exactly(state, ty, value, other.0, id);
        if state.owner is Some && slot_of(id) == slot_of(state.owner.unwrap())
            && state.contexts.contains_key(id) {
            assert(id == state.owner.unwrap());
        }
    }
    assert forall|steps: nat| #[trigger]
        after.context_above(n, other, target, steps) == state.context_above(
            n,
            other,
            target,
            steps,
        ) by {
        lemma_same_ancestors(state, after, n, steps);
    }
    if found is Some {
        if state.finds_context(n, other, target, found) {
            let steps = choose|steps: nat| #[trigger]
                state.context_above(n, other, target, steps) == found && forall|fewer: nat|
                    fewer < steps ==> #[trigger] state.context_above(n, other, target, fewer) is None;
            assert(after.context_above(n, other, target, steps) == found);
        }
        if after.finds_context(n, other, target, found) {
            let steps = choose|steps: nat| #[trigger]
                after.context_above(n, other, target, steps) == found && forall|fewer: nat|
                    fewer < steps ==> #[trigger] after.context_above(n, other, target, fewer) is None;
            assert(state.context_above(n, other, target, steps) == found);
            assert forall|fewer: nat| fewer < steps implies #[trigger] state.context_above(
                n,
                other,
                target,
                fewer,
            ) is None by {
                assert(after.context_above(n, other, target, fewer) is None);
            }
        }
    } else {
        if after.finds_context(n, other, target, found) {
            assert forall|steps: nat| #[trigger]
                state.context_above(n, other, target, steps) is None by {
                assert(after.context_above(n, other, target, steps) is None);
            }
        }
    }
}

} // verus!
