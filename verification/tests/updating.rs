//! Bringing nodes up to date, disposing of them, and tracking.
use reactive_runtime::agenda::Call;
use reactive_runtime::create::{ReadSignal, WriteSignal};
use reactive_runtime::keys::{NodeId, RuntimeId};
use reactive_runtime::node::{
    CleanupId, ComputationId, ReactiveNodeState, ScopeProperty, ValueId,
};
use reactive_runtime::registry::{create_runtime, with_runtime, Runtimes};
use reactive_runtime::runtime::Runtime;
use reactive_runtime::tracking::{untrack, SetObserverOnDrop};
use std::cell::RefCell;
use std::rc::Rc;

type Computation = Rc<dyn Fn(&World, Runtime, usize) -> (Runtime, bool)>;

/// Values, computations, and a record of what has run.
struct World {
    values: RefCell<Vec<i64>>,
    computations: RefCell<Vec<Computation>>,
    log: RefCell<Vec<String>>,
}

/// The value of a node that has not run yet.
const UNSET: i64 = i64::MIN;

impl World {
    fn new() -> World {
        World {
            values: RefCell::new(Vec::new()),
            computations: RefCell::new(Vec::new()),
            log: RefCell::new(Vec::new()),
        }
    }

    fn value(&self, value: i64) -> ValueId {
        self.values.borrow_mut().push(value);
        ValueId(self.values.borrow().len() as u64 - 1)
    }

    fn computation(&self, f: Computation) -> ComputationId {
        self.computations.borrow_mut().push(f);
        ComputationId(self.computations.borrow().len() as u64 - 1)
    }

    /// A computation that logs its name, computes a value and stores it.
    fn compute(
        &self,
        name: &'static str,
        f: impl Fn(&World, Runtime) -> (Runtime, i64) + 'static,
    ) -> ComputationId {
        self.computation(Rc::new(move |world, runtime, slot| {
            world.log.borrow_mut().push(name.to_string());
            let (runtime, value) = f(world, runtime);
            let changed = world.values.borrow()[slot] != value;
            world.values.borrow_mut()[slot] = value;
            (runtime, changed)
        }))
    }

    fn call(&self, runtime: Runtime, call: Call) -> (Runtime, bool) {
        match call {
            Call::Cleanup(cleanup) => {
                self.log.borrow_mut().push(format!("cleanup {}", cleanup.0));
                (runtime, true)
            }
            Call::Run { f, value } => {
                let f = self.computations.borrow()[f.0 as usize].clone();
                f(self, runtime, value.unwrap().0 as usize)
            }
        }
    }

    fn answer(&self) -> impl Fn(Runtime, (), Call) -> (Runtime, (), bool) + '_ {
        move |runtime, world, call| {
            let (runtime, answer) = self.call(runtime, call);
            (runtime, world, answer)
        }
    }

    fn settle(&self, runtime: &mut Runtime, node: NodeId) {
        assert_eq!(runtime.update_if_necessary(node, (), &self.answer()), ((), true));
        assert_eq!(runtime.current_state(node), ReactiveNodeState::Clean);
    }

    fn read(&self, runtime: &mut Runtime, node: NodeId) -> i64 {
        runtime.subscribe(node);
        self.settle(runtime, node);
        self.values.borrow()[runtime.get_value(node).unwrap().0 as usize]
    }

    fn write(&self, runtime: &mut Runtime, node: NodeId, value: i64) {
        self.values.borrow_mut()[runtime.get_value(node).unwrap().0 as usize] = value;
        runtime.mark_dirty(node);
        assert_eq!(runtime.run_effects((), &self.answer()), ((), true));
    }

    fn take_log(&self) -> Vec<String> {
        self.log.take()
    }
}

fn start() -> (World, Runtimes, RuntimeId) {
    let mut runtimes = Runtimes::browser();
    let id = create_runtime(&mut runtimes);
    (World::new(), runtimes, id)
}

fn the(runtimes: &mut Runtimes) -> &mut Runtime {
    match runtimes {
        Runtimes::Browser { runtime } => runtime,
        Runtimes::Server { .. } => panic!("not a browser"),
    }
}

fn only(runtimes: Runtimes) -> Runtime {
    match runtimes {
        Runtimes::Browser { runtime } => runtime,
        Runtimes::Server { .. } => panic!("not a browser"),
    }
}

fn signal(world: &World, runtimes: &mut Runtimes, id: RuntimeId, value: i64) -> NodeId {
    let (read, write): (ReadSignal<i64>, WriteSignal<i64>) =
        id.create_signal(runtimes, world.value(value));
    assert_eq!(read.id, write.id);
    read.id
}

#[test]
fn a_memo_is_lazy() {
    let (world, mut runtimes, id) = start();
    let a = signal(&world, &mut runtimes, id, 1);
    let f = world.compute("double", move |world, mut runtime| {
        let value = world.read(&mut runtime, a);
        (runtime, value * 2)
    });
    let memo = id.create_memo::<i64>(&mut runtimes, world.value(UNSET), f);
    assert_eq!(memo.runtime, id);
    assert_eq!(the(&mut runtimes).current_state(memo.id), ReactiveNodeState::Dirty);
    assert!(world.take_log().is_empty());
    assert_eq!(world.read(the(&mut runtimes), memo.id), 2);
    assert_eq!(world.take_log(), vec!["double"]);
    // Nothing has changed, so nothing runs.
    assert_eq!(world.read(the(&mut runtimes), memo.id), 2);
    assert!(world.take_log().is_empty());
    // A write alone does not run it either.
    world.write(the(&mut runtimes), a, 5);
    assert!(world.take_log().is_empty());
    assert_eq!(the(&mut runtimes).current_state(memo.id), ReactiveNodeState::Check);
    assert_eq!(world.read(the(&mut runtimes), memo.id), 10);
    assert_eq!(world.take_log(), vec!["double"]);
}

#[test]
fn an_unchanged_memo_stops_the_change() {
    let (world, mut runtimes, id) = start();
    let a = signal(&world, &mut runtimes, id, 1);
    let f = world.compute("parity", move |world, mut runtime| {
        let value = world.read(&mut runtime, a);
        (runtime, value % 2)
    });
    let parity = id.create_concrete_memo(&mut runtimes, world.value(UNSET), f);
    let g = world.compute("effect", move |world, mut runtime| {
        let value = world.read(&mut runtime, parity);
        (runtime, value)
    });
    let effect = id.create_effect(&mut runtimes, world.value(UNSET), g);
    world.settle(the(&mut runtimes), effect);
    assert_eq!(world.take_log(), vec!["effect", "parity"]);
    world.write(the(&mut runtimes), a, 3);
    assert_eq!(world.take_log(), vec!["parity"]);
    world.write(the(&mut runtimes), a, 4);
    assert_eq!(world.take_log(), vec!["parity", "effect"]);
    assert!(the(&mut runtimes).pending_effects.is_empty());
}

#[test]
fn a_dirty_source_stops_the_checking() {
    let (world, mut runtimes, id) = start();
    let a = signal(&world, &mut runtimes, id, 0);
    let b = signal(&world, &mut runtimes, id, 0);
    let plus_one = world.compute("first", move |world, mut runtime| {
        let value = world.read(&mut runtime, a);
        (runtime, value + 1)
    });
    let first = id.create_concrete_memo(&mut runtimes, world.value(UNSET), plus_one);
    let copy = world.compute("second", move |world, mut runtime| {
        let value = world.read(&mut runtime, b);
        (runtime, value)
    });
    let second = id.create_concrete_memo(&mut runtimes, world.value(UNSET), copy);
    let either = world.compute("sum", move |world, mut runtime| {
        let x = world.read(&mut runtime, first);
        // The second memo is of no interest once the first is large.
        let y = if x < 10 { world.read(&mut runtime, second) } else { 0 };
        (runtime, x + y)
    });
    let sum = id.create_concrete_memo(&mut runtimes, world.value(UNSET), either);
    assert_eq!(world.read(the(&mut runtimes), sum), 1);
    assert_eq!(world.take_log(), vec!["sum", "first", "second"]);
    the(&mut runtimes).batching = true;
    world.write(the(&mut runtimes), a, 20);
    world.write(the(&mut runtimes), b, 7);
    the(&mut runtimes).batching = false;
    assert_eq!(world.read(the(&mut runtimes), sum), 21);
    // The second memo has not been asked for.
    assert_eq!(world.take_log(), vec!["first", "sum"]);
    assert_eq!(the(&mut runtimes).current_state(second), ReactiveNodeState::Check);
    // It is not subscribed to any more.
    world.write(the(&mut runtimes), b, 8);
    assert_eq!(the(&mut runtimes).current_state(sum), ReactiveNodeState::Clean);
}

#[test]
fn clean_sources_need_no_run() {
    let (world, mut runtimes, id) = start();
    let a = signal(&world, &mut runtimes, id, 0);
    let f = world.compute("memo", move |world, mut runtime| {
        let value = world.read(&mut runtime, a);
        (runtime, value)
    });
    let memo = id.create_concrete_memo(&mut runtimes, world.value(UNSET), f);
    assert_eq!(world.read(the(&mut runtimes), memo), 0);
    world.take_log();
    let runtime = the(&mut runtimes);
    runtime.mark_dirty(a);
    runtime.mark_clean(a);
    assert_eq!(runtime.current_state(memo), ReactiveNodeState::Check);
    world.settle(runtime, memo);
    assert!(world.take_log().is_empty());
}

#[test]
fn effects_run_in_the_order_of_the_queue() {
    let (world, mut runtimes, id) = start();
    let a = signal(&world, &mut runtimes, id, 0);
    let mut effects = Vec::new();
    for name in ["one", "two", "three"] {
        let f = world.compute(name, move |world, mut runtime| {
            let value = world.read(&mut runtime, a);
            (runtime, value)
        });
        effects.push(id.create_effect(&mut runtimes, world.value(UNSET), f));
    }
    for effect in &effects {
        world.settle(the(&mut runtimes), *effect);
    }
    world.take_log();
    world.write(the(&mut runtimes), a, 1);
    assert_eq!(world.take_log(), vec!["one", "two", "three"]);
}

#[test]
fn effects_wait_while_batching() {
    let (world, mut runtimes, id) = start();
    let a = signal(&world, &mut runtimes, id, 0);
    let f = world.compute("effect", move |world, mut runtime| {
        let value = world.read(&mut runtime, a);
        (runtime, value)
    });
    let effect = id.create_effect(&mut runtimes, world.value(UNSET), f);
    world.settle(the(&mut runtimes), effect);
    world.take_log();
    the(&mut runtimes).batching = true;
    world.write(the(&mut runtimes), a, 1);
    world.write(the(&mut runtimes), a, 2);
    assert!(world.take_log().is_empty());
    assert_eq!(the(&mut runtimes).pending_effects, vec![effect]);
    the(&mut runtimes).batching = false;
    world.write(the(&mut runtimes), a, 3);
    assert_eq!(world.take_log(), vec!["effect"]);
}

#[test]
fn an_effect_that_writes_what_it_reads_does_not_queue_itself() {
    let (world, mut runtimes, id) = start();
    let a = signal(&world, &mut runtimes, id, 0);
    let f = world.compute("effect", move |world, mut runtime| {
        let value = world.read(&mut runtime, a);
        world.write(&mut runtime, a, value + 1);
        (runtime, value)
    });
    let effect = id.create_effect(&mut runtimes, world.value(UNSET), f);
    world.settle(the(&mut runtimes), effect);
    assert_eq!(world.take_log(), vec!["effect"]);
    assert!(the(&mut runtimes).pending_effects.is_empty());
}

#[test]
fn updating_a_trigger_tells_its_subscribers() {
    let (world, mut runtimes, id) = start();
    let trigger = id.create_trigger(&mut runtimes);
    assert_eq!(trigger.runtime, id);
    let f = world.compute("effect", move |_, mut runtime| {
        runtime.subscribe(trigger.id);
        (runtime, 0)
    });
    let effect = id.create_effect(&mut runtimes, world.value(UNSET), f);
    world.settle(the(&mut runtimes), effect);
    world.take_log();
    let runtime = the(&mut runtimes);
    runtime.update(trigger.id, (), &world.answer());
    assert_eq!(runtime.current_state(effect), ReactiveNodeState::Dirty);
    assert_eq!(runtime.current_state(trigger.id), ReactiveNodeState::Clean);
    world.settle(runtime, effect);
    assert_eq!(world.take_log(), vec!["effect"]);
}

#[test]
fn settling_a_node_that_is_gone() {
    let (world, mut runtimes, id) = start();
    let a = signal(&world, &mut runtimes, id, 0);
    let runtime = the(&mut runtimes);
    runtime.dispose_node(a);
    world.settle(runtime, a);
    assert_eq!(runtime.get_value(a), None);
    assert_eq!(runtime.node_count(), 0);
}

#[test]
fn a_run_owns_and_observes() {
    let (world, mut runtimes, id) = start();
    let f = world.computation(Rc::new(|world, mut runtime, _| {
        let me = runtime.owner.unwrap();
        assert_eq!(runtime.observer, Some(me));
        world.log.borrow_mut().push("ran".to_string());
        // What is left behind does not matter.
        runtime.owner = None;
        runtime.observer = None;
        (runtime, false)
    }));
    let outer = signal(&world, &mut runtimes, id, 0);
    let effect = id.create_effect(&mut runtimes, world.value(UNSET), f);
    let runtime = the(&mut runtimes);
    runtime.owner = Some(outer);
    runtime.observer = Some(effect);
    world.settle(runtime, effect);
    assert_eq!(world.take_log(), vec!["ran"]);
    assert_eq!(runtime.owner, Some(outer));
    assert_eq!(runtime.observer, Some(effect));
}

#[test]
fn with_observer_puts_things_back() {
    let (world, mut runtimes, id) = start();
    let a = signal(&world, &mut runtimes, id, 0);
    let b = signal(&world, &mut runtimes, id, 0);
    let runtime = the(&mut runtimes);
    runtime.owner = Some(a);
    let seen = runtime.with_observer(b, |runtime| {
        let seen = (runtime.owner, runtime.observer);
        runtime.owner = None;
        runtime.batching = true;
        seen
    });
    assert_eq!(seen, (Some(b), Some(b)));
    assert_eq!(runtime.owner, Some(a));
    assert_eq!(runtime.observer, None);
    assert!(runtime.batching);
}

#[test]
fn a_rerun_cleans_up_first() {
    let (world, mut runtimes, id) = start();
    let a = signal(&world, &mut runtimes, id, 0);
    let created: Rc<RefCell<Vec<NodeId>>> = Rc::new(RefCell::new(Vec::new()));
    let inner = created.clone();
    let f = world.computation(Rc::new(move |world, mut runtime, _| {
        world.log.borrow_mut().push("run".to_string());
        world.read(&mut runtime, a);
        runtime.on_cleanup(CleanupId(1));
        runtime.on_cleanup(CleanupId(2));
        let mut runtimes = Runtimes::Browser { runtime };
        let child: ReadSignal<i64> = RuntimeId::default().create_signal(
            &mut runtimes,
            world.value(9),
        ).0;
        inner.borrow_mut().push(child.id);
        let mut runtime = only(runtimes);
        let stored = runtime.create_stored_value(ValueId(0));
        assert_eq!(runtime.stored_value(stored), Some(ValueId(0)));
        (runtime, true)
    }));
    let effect = id.create_effect(&mut runtimes, world.value(UNSET), f);
    world.settle(the(&mut runtimes), effect);
    assert_eq!(world.take_log(), vec!["run"]);
    assert_eq!(the(&mut runtimes).node_count(), 3);
    world.write(the(&mut runtimes), a, 1);
    assert_eq!(world.take_log(), vec!["cleanup 1", "cleanup 2", "run"]);
    let children = created.borrow().clone();
    assert_eq!(children.len(), 2);
    assert_eq!(the(&mut runtimes).get_value(children[0]), None);
    assert!(the(&mut runtimes).get_value(children[1]).is_some());
    assert_eq!(the(&mut runtimes).node_count(), 3);
}

#[test]
fn disposal_goes_from_the_inside_out() {
    let (world, mut runtimes, id) = start();
    let root = signal(&world, &mut runtimes, id, 0);
    the(&mut runtimes).owner = Some(root);
    let child = signal(&world, &mut runtimes, id, 1);
    let runtime = the(&mut runtimes);
    runtime.on_cleanup(CleanupId(10));
    let stored = runtime.create_stored_value(ValueId(5));
    runtime.owner = Some(child);
    runtime.on_cleanup(CleanupId(20));
    let trigger = id.create_trigger(&mut runtimes);
    let runtime = the(&mut runtimes);
    runtime.owner = Some(trigger.id);
    runtime.on_cleanup(CleanupId(30));
    runtime.owner = None;
    assert_eq!(runtime.node_count(), 3);
    let (_, done) = runtime.cleanup_property(ScopeProperty::Signal(root), (), &world.answer());
    assert!(done);
    assert_eq!(world.take_log(), vec!["cleanup 30", "cleanup 20", "cleanup 10"]);
    assert_eq!(runtime.node_count(), 0);
    assert_eq!(runtime.stored_value(stored), None);
    // There is nothing left to do.
    let (_, done) =
        runtime.cleanup_property(ScopeProperty::Trigger(trigger.id), (), &world.answer());
    assert!(done);
    assert!(world.take_log().is_empty());
}

#[test]
fn disposing_of_a_source_leaves_its_subscribers() {
    let (world, mut runtimes, id) = start();
    let a = signal(&world, &mut runtimes, id, 1);
    let b = signal(&world, &mut runtimes, id, 2);
    let f = world.compute("sum", move |world, mut runtime| {
        let x = if runtime.get_value(a).is_some() { world.read(&mut runtime, a) } else { 0 };
        let y = world.read(&mut runtime, b);
        (runtime, x + y)
    });
    let sum = id.create_concrete_memo(&mut runtimes, world.value(UNSET), f);
    assert_eq!(world.read(the(&mut runtimes), sum), 3);
    let runtime = the(&mut runtimes);
    let (_, done) = runtime.cleanup_property(ScopeProperty::Effect(a), (), &world.answer());
    assert!(done);
    assert_eq!(runtime.current_state(sum), ReactiveNodeState::Clean);
    world.write(runtime, b, 5);
    assert_eq!(world.read(runtime, sum), 5);
}

#[test]
fn a_disposed_key_does_not_find_a_new_node() {
    let (world, mut runtimes, id) = start();
    let a = signal(&world, &mut runtimes, id, 1);
    the(&mut runtimes).dispose_node(a);
    let b = signal(&world, &mut runtimes, id, 2);
    assert_ne!(a, b);
    assert!(!a.same(b));
    assert_eq!(the(&mut runtimes).get_value(a), None);
    assert_eq!(world.read(the(&mut runtimes), b), 2);
}

#[test]
fn untracked_reads_are_not_subscribed_to() {
    let (world, mut runtimes, id) = start();
    let a = signal(&world, &mut runtimes, id, 0);
    let b = signal(&world, &mut runtimes, id, 0);
    // This memo only updates when `a` changes.
    let f = world.compute("c", move |world, mut runtime| {
        let x = world.read(&mut runtime, a);
        let mut runtimes = Runtimes::Browser { runtime };
        let y = untrack(&mut runtimes, |runtimes| world.read(the(runtimes), b));
        (only(runtimes), x + y)
    });
    let c = id.create_concrete_memo(&mut runtimes, world.value(UNSET), f);
    assert_eq!(world.read(the(&mut runtimes), c), 0);
    world.write(the(&mut runtimes), a, 1);
    assert_eq!(world.read(the(&mut runtimes), c), 1);
    world.write(the(&mut runtimes), b, 1);
    // It has not updated, because `b` was read without tracking.
    assert_eq!(world.read(the(&mut runtimes), c), 1);
    world.write(the(&mut runtimes), a, 2);
    assert_eq!(world.read(the(&mut runtimes), c), 3);
}

#[test]
fn untrack_puts_the_observer_back() {
    let mut runtimes = Runtimes::server();
    let id = create_runtime(&mut runtimes);
    Runtime::set_runtime(&mut runtimes, Some(id));
    let node = id.create_concrete_signal(&mut runtimes, ValueId(0));
    let other = id.create_concrete_signal(&mut runtimes, ValueId(0));
    assert_eq!(with_runtime(&mut runtimes, id, |runtime| runtime.observer = Some(node)), Ok(()));
    let seen = untrack(&mut runtimes, |runtimes| {
        with_runtime(runtimes, id, |runtime| {
            let seen = runtime.observer;
            runtime.observer = Some(other);
            seen
        })
    });
    assert_eq!(seen, Ok(None));
    assert_eq!(with_runtime(&mut runtimes, id, |runtime| runtime.observer), Ok(Some(node)));
}

#[test]
fn untrack_survives_the_end_of_the_runtime() {
    let mut runtimes = Runtimes::server();
    let id = create_runtime(&mut runtimes);
    Runtime::set_runtime(&mut runtimes, Some(id));
    let value = untrack(&mut runtimes, |runtimes| {
        id.dispose(runtimes);
        7
    });
    assert_eq!(value, 7);
    assert!(runtimes.get(id).is_none());
    drop(SetObserverOnDrop { runtimes: Some(&mut runtimes), id, observer: None });
    assert!(runtimes.get(id).is_none());
}

#[test]
fn a_dropped_guard_puts_the_observer_back() {
    let mut runtimes = Runtimes::server();
    let id = create_runtime(&mut runtimes);
    let node = id.create_concrete_signal(&mut runtimes, ValueId(0));
    drop(SetObserverOnDrop { runtimes: Some(&mut runtimes), id, observer: Some(node) });
    assert_eq!(with_runtime(&mut runtimes, id, |runtime| runtime.observer), Ok(Some(node)));
    drop(SetObserverOnDrop { runtimes: None, id, observer: None });
    assert_eq!(with_runtime(&mut runtimes, id, |runtime| runtime.observer), Ok(Some(node)));
}

#[test]
fn a_diamond_shows_no_stale_mix() {
    let (world, mut runtimes, id) = start();
    let s = signal(&world, &mut runtimes, id, 1);
    let f = world.compute("a", move |world, mut runtime| {
        let value = world.read(&mut runtime, s);
        (runtime, value * 10)
    });
    let a = id.create_concrete_memo(&mut runtimes, world.value(UNSET), f);
    let f = world.compute("b", move |world, mut runtime| {
        let value = world.read(&mut runtime, s);
        (runtime, value * 100)
    });
    let b = id.create_concrete_memo(&mut runtimes, world.value(UNSET), f);
    let seen: Rc<RefCell<Vec<(i64, i64)>>> = Rc::new(RefCell::new(Vec::new()));
    let record = seen.clone();
    let f = world.compute("c", move |world, mut runtime| {
        let x = world.read(&mut runtime, a);
        let y = world.read(&mut runtime, b);
        record.borrow_mut().push((x, y));
        (runtime, x + y)
    });
    let c = id.create_concrete_memo(&mut runtimes, world.value(UNSET), f);
    assert_eq!(world.read(the(&mut runtimes), c), 110);
    world.take_log();
    world.write(the(&mut runtimes), s, 2);
    assert!(world.take_log().is_empty());
    assert_eq!(world.read(the(&mut runtimes), c), 220);
    let mut log = world.take_log();
    log.sort();
    assert_eq!(log, vec!["a", "b", "c"]);
    assert_eq!(*seen.borrow(), vec![(10, 100), (20, 200)]);
    for node in [s, a, b, c] {
        assert_eq!(the(&mut runtimes).current_state(node), ReactiveNodeState::Clean);
    }
}

#[test]
fn every_request_is_handed_over_once() {
    let mut runtimes = Runtimes::browser();
    let id = create_runtime(&mut runtimes);
    let effect = id.create_effect(&mut runtimes, ValueId(7), ComputationId(8));
    let runtime = the(&mut runtimes);
    runtime.owner = Some(effect);
    runtime.on_cleanup(CleanupId(9));
    runtime.owner = None;
    // The requests so far are all that the embedding program consists of.
    let call = |runtime: Runtime, mut requests: Vec<Call>, call: Call| {
        requests.push(call);
        (runtime, requests, false)
    };
    let (requests, done) = runtime.update_if_necessary(effect, Vec::new(), &call);
    assert!(done);
    let run = Call::Run { f: ComputationId(8), value: Some(ValueId(7)) };
    assert_eq!(requests, vec![Call::Cleanup(CleanupId(9)), run]);
    let (requests, done) = runtime.update_if_necessary(effect, requests, &call);
    assert!(done);
    assert_eq!(requests.len(), 2);
    let (requests, done) = runtime.run_effects(requests, &call);
    assert!(done);
    assert_eq!(requests.len(), 2);
    runtime.mark_dirty(effect);
    let (requests, done) = runtime.run_effects(requests, &call);
    assert!(done);
    assert_eq!(requests, vec![Call::Cleanup(CleanupId(9)), run, run]);
    assert_eq!(runtime.update(effect, requests, &call).len(), 4);
}
