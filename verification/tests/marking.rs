//! Marking what is downstream of a change.
use reactive_runtime::create::ReadSignal;
use reactive_runtime::keys::NodeId;
use reactive_runtime::node::{
    ComputationId, ReactiveNode, ReactiveNodeState, ReactiveNodeType, ValueId,
};
use reactive_runtime::registry::{create_runtime, Runtimes};
use reactive_runtime::runtime::Runtime;

use reactive_runtime::keys::RuntimeId;

fn start() -> (Runtimes, RuntimeId) {
    let mut runtimes = Runtimes::browser();
    let id = create_runtime(&mut runtimes);
    (runtimes, id)
}

fn the(runtimes: &mut Runtimes) -> &mut Runtime {
    match runtimes {
        Runtimes::Browser { runtime } => runtime,
        Runtimes::Server { .. } => panic!("not a browser"),
    }
}

fn signal(runtimes: &mut Runtimes, id: RuntimeId) -> NodeId {
    let (read, _): (ReadSignal<i64>, _) = id.create_signal(runtimes, ValueId(0));
    read.id
}

/// A memo that counts as up to date.
fn clean_memo(runtimes: &mut Runtimes, id: RuntimeId) -> NodeId {
    let memo = id.create_concrete_memo(runtimes, ValueId(0), ComputationId(0));
    the(runtimes).mark_clean(memo);
    memo
}

/// An effect that counts as up to date.
fn clean_effect(runtimes: &mut Runtimes, id: RuntimeId) -> NodeId {
    let effect = id.create_effect(runtimes, ValueId(0), ComputationId(0));
    the(runtimes).mark_clean(effect);
    effect
}

fn subscribe(runtimes: &mut Runtimes, to: NodeId, from: NodeId) {
    let runtime = the(runtimes);
    runtime.observer = Some(from);
    runtime.subscribe(to);
    runtime.observer = None;
}

#[test]
fn marking_one_node() {
    let (mut runtimes, id) = start();
    let node_id = signal(&mut runtimes, id);
    let mut pending = Vec::new();
    let node = |state: ReactiveNodeState, node_type: ReactiveNodeType| ReactiveNode {
        value: Some(ValueId(0)),
        state,
        node_type,
    };
    let f = ComputationId(0);
    let cases = [
        (ReactiveNodeState::Clean, ReactiveNodeState::Check, ReactiveNodeState::Check),
        (ReactiveNodeState::Clean, ReactiveNodeState::Dirty, ReactiveNodeState::DirtyMarked),
        (ReactiveNodeState::Check, ReactiveNodeState::Check, ReactiveNodeState::Check),
        (ReactiveNodeState::Check, ReactiveNodeState::Dirty, ReactiveNodeState::DirtyMarked),
        (ReactiveNodeState::Dirty, ReactiveNodeState::Check, ReactiveNodeState::DirtyMarked),
        (ReactiveNodeState::Dirty, ReactiveNodeState::Dirty, ReactiveNodeState::DirtyMarked),
        (ReactiveNodeState::DirtyMarked, ReactiveNodeState::Check, ReactiveNodeState::DirtyMarked),
        (ReactiveNodeState::Clean, ReactiveNodeState::Clean, ReactiveNodeState::Clean),
    ];
    for (before, level, after) in cases {
        let mut memo = node(before, ReactiveNodeType::Memo { f });
        Runtime::mark(node_id, &mut memo, level, &mut pending, None);
        assert_eq!(memo.state, after);
        assert_eq!(memo.node_type, ReactiveNodeType::Memo { f });
        assert!(pending.is_empty());
    }
    let mut effect = node(ReactiveNodeState::Clean, ReactiveNodeType::Effect { f });
    Runtime::mark(node_id, &mut effect, ReactiveNodeState::Check, &mut pending, Some(node_id));
    assert!(pending.is_empty());
    Runtime::mark(node_id, &mut effect, ReactiveNodeState::Check, &mut pending, None);
    assert_eq!(pending, vec![node_id]);
}

#[test]
fn marking_a_diamond() {
    let (mut runtimes, id) = start();
    let s = signal(&mut runtimes, id);
    let left = clean_memo(&mut runtimes, id);
    let right = clean_memo(&mut runtimes, id);
    let effect = clean_effect(&mut runtimes, id);
    let elsewhere = clean_effect(&mut runtimes, id);
    subscribe(&mut runtimes, s, left);
    subscribe(&mut runtimes, s, right);
    subscribe(&mut runtimes, left, effect);
    subscribe(&mut runtimes, right, effect);
    let runtime = the(&mut runtimes);
    runtime.mark_dirty(s);
    assert_eq!(runtime.current_state(s), ReactiveNodeState::DirtyMarked);
    assert_eq!(runtime.current_state(left), ReactiveNodeState::Check);
    assert_eq!(runtime.current_state(right), ReactiveNodeState::Check);
    assert_eq!(runtime.current_state(effect), ReactiveNodeState::Check);
    assert_eq!(runtime.current_state(elsewhere), ReactiveNodeState::Clean);
    assert_eq!(runtime.pending_effects, vec![effect]);
    // Once more changes nothing.
    runtime.mark_dirty(s);
    assert_eq!(runtime.current_state(effect), ReactiveNodeState::Check);
    assert_eq!(runtime.pending_effects, vec![effect]);
}

#[test]
fn effects_are_queued_depth_first() {
    let (mut runtimes, id) = start();
    let s = signal(&mut runtimes, id);
    let memo = clean_memo(&mut runtimes, id);
    let last = clean_effect(&mut runtimes, id);
    let first = clean_effect(&mut runtimes, id);
    let second = clean_effect(&mut runtimes, id);
    subscribe(&mut runtimes, s, memo);
    subscribe(&mut runtimes, s, last);
    subscribe(&mut runtimes, memo, first);
    subscribe(&mut runtimes, memo, second);
    let runtime = the(&mut runtimes);
    runtime.mark_dirty(s);
    assert_eq!(runtime.pending_effects, vec![first, second, last]);
}

#[test]
fn marking_stops_at_marked_nodes() {
    let (mut runtimes, id) = start();
    let s = signal(&mut runtimes, id);
    let memo = clean_memo(&mut runtimes, id);
    let effect = clean_effect(&mut runtimes, id);
    subscribe(&mut runtimes, s, memo);
    let runtime = the(&mut runtimes);
    runtime.mark_dirty(memo);
    assert_eq!(runtime.current_state(memo), ReactiveNodeState::DirtyMarked);
    subscribe(&mut runtimes, memo, effect);
    let runtime = the(&mut runtimes);
    runtime.mark_dirty(s);
    assert_eq!(runtime.current_state(s), ReactiveNodeState::DirtyMarked);
    assert_eq!(runtime.current_state(memo), ReactiveNodeState::DirtyMarked);
    assert_eq!(runtime.current_state(effect), ReactiveNodeState::Clean);
    assert!(runtime.pending_effects.is_empty());
}

#[test]
fn a_dirty_node_is_gone_past() {
    let (mut runtimes, id) = start();
    let s = signal(&mut runtimes, id);
    // A new memo is dirty, without being known to be marked.
    let memo = id.create_concrete_memo(&mut runtimes, ValueId(0), ComputationId(0));
    let effect = clean_effect(&mut runtimes, id);
    subscribe(&mut runtimes, s, memo);
    subscribe(&mut runtimes, memo, effect);
    let runtime = the(&mut runtimes);
    runtime.mark_dirty(s);
    assert_eq!(runtime.current_state(memo), ReactiveNodeState::DirtyMarked);
    assert_eq!(runtime.current_state(effect), ReactiveNodeState::Check);
    assert_eq!(runtime.pending_effects, vec![effect]);
}

#[test]
fn the_running_effect_is_not_queued() {
    let (mut runtimes, id) = start();
    let s = signal(&mut runtimes, id);
    let running = clean_effect(&mut runtimes, id);
    let other = clean_effect(&mut runtimes, id);
    subscribe(&mut runtimes, s, running);
    subscribe(&mut runtimes, s, other);
    let runtime = the(&mut runtimes);
    runtime.observer = Some(running);
    runtime.mark_dirty(s);
    assert_eq!(runtime.current_state(running), ReactiveNodeState::Check);
    assert_eq!(runtime.pending_effects, vec![other]);
}

#[test]
fn marking_goes_round_a_cycle_once() {
    let (mut runtimes, id) = start();
    let a = clean_memo(&mut runtimes, id);
    let b = clean_effect(&mut runtimes, id);
    subscribe(&mut runtimes, a, b);
    subscribe(&mut runtimes, b, a);
    let runtime = the(&mut runtimes);
    runtime.mark_dirty(a);
    assert_eq!(runtime.current_state(a), ReactiveNodeState::DirtyMarked);
    assert_eq!(runtime.current_state(b), ReactiveNodeState::Check);
    assert_eq!(runtime.pending_effects, vec![b]);
}

#[test]
fn marking_a_node_that_is_gone() {
    let (mut runtimes, id) = start();
    let s = signal(&mut runtimes, id);
    let effect = clean_effect(&mut runtimes, id);
    subscribe(&mut runtimes, s, effect);
    let runtime = the(&mut runtimes);
    runtime.dispose_node(s);
    runtime.mark_dirty(s);
    assert_eq!(runtime.current_state(s), ReactiveNodeState::Clean);
    assert_eq!(runtime.current_state(effect), ReactiveNodeState::Clean);
    assert!(runtime.pending_effects.is_empty());
    assert_eq!(runtime.node_count(), 1);
}

#[test]
fn letting_go_of_sources() {
    let (mut runtimes, id) = start();
    let a = signal(&mut runtimes, id);
    let b = signal(&mut runtimes, id);
    let effect = clean_effect(&mut runtimes, id);
    let other = clean_effect(&mut runtimes, id);
    subscribe(&mut runtimes, a, effect);
    subscribe(&mut runtimes, b, effect);
    subscribe(&mut runtimes, b, other);
    let runtime = the(&mut runtimes);
    runtime.cleanup_sources(effect);
    runtime.mark_dirty(a);
    assert!(runtime.pending_effects.is_empty());
    runtime.mark_dirty(b);
    assert_eq!(runtime.pending_effects, vec![other]);
}

#[test]
fn removal_moves_the_last_subscriber_up() {
    let (mut runtimes, id) = start();
    let s = signal(&mut runtimes, id);
    let a = clean_effect(&mut runtimes, id);
    let b = clean_effect(&mut runtimes, id);
    let c = clean_effect(&mut runtimes, id);
    subscribe(&mut runtimes, s, a);
    subscribe(&mut runtimes, s, b);
    subscribe(&mut runtimes, s, c);
    // Subscribing again does not move anything.
    subscribe(&mut runtimes, s, a);
    let runtime = the(&mut runtimes);
    runtime.cleanup_sources(a);
    runtime.mark_dirty(s);
    assert_eq!(runtime.pending_effects, vec![c, b]);
}

#[test]
fn nodes_are_told_apart() {
    let (mut runtimes, id) = start();
    let a = signal(&mut runtimes, id);
    let b = signal(&mut runtimes, id);
    assert!(a.same(a));
    assert!(!a.same(b));
}
