//! The runtimes of a thread, scopes, and the error boundary.
use reactive_runtime::agenda::Call;
use reactive_runtime::create::{RwSignal, Scope};
use reactive_runtime::error_boundary::{BoundaryView, ErrorBoundary};
use reactive_runtime::keys::{RuntimeId, ScopeId};
use reactive_runtime::node::{
    ComputationId, ReactiveNodeState, ResourceError, ResourceHandle, ScopeProperty, TypeKey, ValueId,
};
use reactive_runtime::registry::{create_runtime, with_runtime, Runtimes};
use reactive_runtime::runtime::Runtime;
use slotmap::Key;

#[test]
fn runtimes_of_a_server() {
    let mut runtimes = Runtimes::server();
    assert!(runtimes.can_create());
    assert_eq!(Runtime::current(&runtimes), RuntimeId::default());
    let a = create_runtime(&mut runtimes);
    let b = create_runtime(&mut runtimes);
    assert_ne!(a, b);
    assert_ne!(a, RuntimeId::default());
    a.create_concrete_signal(&mut runtimes, ValueId(0));
    assert_eq!(with_runtime(&mut runtimes, a, |runtime| runtime.node_count()), Ok(1));
    assert_eq!(with_runtime(&mut runtimes, b, |runtime| runtime.node_count()), Ok(0));
    Runtime::set_runtime(&mut runtimes, Some(b));
    assert_eq!(Runtime::current(&runtimes), b);
    Runtime::set_runtime(&mut runtimes, None);
    assert_eq!(Runtime::current(&runtimes), RuntimeId::default());
    a.dispose(&mut runtimes);
    assert!(runtimes.get(a).is_none());
    assert!(runtimes.get(b).is_some());
    assert!(!runtimes.has_room(a));
    assert!(runtimes.has_room(b));
    assert_eq!(with_runtime(&mut runtimes, a, |_| 1), Err(()));
    assert_eq!(with_runtime(&mut runtimes, b, |_| 1), Ok(1));
    // Disposing once more does no harm.
    a.dispose(&mut runtimes);
    let c = create_runtime(&mut runtimes);
    assert_ne!(a, c);
    assert!(runtimes.get(a).is_none());
    assert!(runtimes.get(c).is_some());
}

#[test]
fn the_runtime_of_a_browser() {
    let mut runtimes = Runtimes::browser();
    assert!(runtimes.can_create());
    let a = create_runtime(&mut runtimes);
    let b = create_runtime(&mut runtimes);
    assert_eq!(a, b);
    assert_eq!(a, RuntimeId::default());
    a.create_concrete_signal(&mut runtimes, ValueId(0));
    a.dispose(&mut runtimes);
    assert_eq!(with_runtime(&mut runtimes, b, |runtime| runtime.node_count()), Ok(1));
    Runtime::set_runtime(&mut runtimes, Some(a));
    assert_eq!(Runtime::current(&runtimes), RuntimeId::default());
}

#[test]
fn scopes_of_a_runtime() {
    let mut runtimes = Runtimes::server();
    let id = create_runtime(&mut runtimes);
    let raw = Scope { runtime: id, id: ScopeId::default() };
    let (scope, disposer) = id.raw_scope_and_disposer(&runtimes);
    assert_eq!(scope, raw);
    assert_eq!(disposer.dispose(), raw);
    let (scope, _) = id.raw_scope_and_disposer_with_parent(&runtimes, Some(scope));
    assert_eq!(scope, raw);
    let (value, scope_id, disposer) = id.run_scope_undisposed(
        &mut runtimes,
        |runtimes, scope| {
            scope.runtime.create_trigger(runtimes);
            3
        },
        None,
    );
    assert_eq!(value, 3);
    assert_eq!(scope_id, ScopeId::default());
    assert_eq!(disposer.0, raw);
    let count = id.run_scope(
        &mut runtimes,
        |runtimes, scope| with_runtime(runtimes, scope.runtime, |runtime| runtime.node_count()),
        Some(raw),
    );
    assert_eq!(count, Ok(1));
}

#[test]
fn new_nodes_and_their_states() {
    let mut runtimes = Runtimes::server();
    let id = create_runtime(&mut runtimes);
    let trigger = id.create_trigger(&mut runtimes);
    let (read, write) = id.create_signal::<u8>(&mut runtimes, ValueId(1));
    let rw = id.create_rw_signal::<u8>(&mut runtimes, ValueId(2));
    let effect = id.create_concrete_effect(&mut runtimes, ValueId(3), ComputationId(0));
    let memo = id.create_memo::<u8>(&mut runtimes, ValueId(4), ComputationId(0));
    assert_eq!(read.id, write.id);
    let copy = rw;
    assert_eq!(copy.id, rw.id);
    let runtime = runtimes.get(id).unwrap();
    assert_eq!(runtime.node_count(), 5);
    assert_eq!(runtime.current_state(trigger.id), ReactiveNodeState::Clean);
    assert_eq!(runtime.current_state(read.id), ReactiveNodeState::Clean);
    assert_eq!(runtime.current_state(rw.id), ReactiveNodeState::Clean);
    assert_eq!(runtime.current_state(effect), ReactiveNodeState::Dirty);
    assert_eq!(runtime.current_state(memo.id), ReactiveNodeState::Dirty);
    assert_eq!(runtime.get_value(read.id), Some(ValueId(1)));
    assert_eq!(runtime.get_value(rw.id), Some(ValueId(2)));
    assert_eq!(runtime.get_value(effect), Some(ValueId(3)));
    assert_eq!(runtime.get_value(memo.id), Some(ValueId(4)));
}

struct Errors;

#[test]
fn a_boundary_provides_its_errors() {
    let mut runtimes = Runtimes::server();
    let id = create_runtime(&mut runtimes);
    let root = id.create_concrete_signal(&mut runtimes, ValueId(0));
    with_runtime(&mut runtimes, id, |runtime| runtime.owner = Some(root)).unwrap();
    let ty = TypeKey(77);
    let boundary = ErrorBoundary::<Errors, String>(
        &mut runtimes,
        id,
        ty,
        ValueId(1),
        |_| ValueId(2),
        |runtimes| {
            let found = with_runtime(runtimes, id, |runtime| {
                assert_eq!(runtime.node_count(), 2);
                runtime.get_context(root, ty, ty)
            });
            assert_eq!(found, Ok(Some(ValueId(2))));
            "children".to_string()
        },
        |_| (ValueId(3), ComputationId(4)),
    )
    .unwrap();
    let runtime = runtimes.get(id).unwrap();
    assert_eq!(runtime.node_count(), 3);
    assert_eq!(boundary.errors.runtime, id);
    assert_eq!(runtime.get_value(boundary.errors.id), Some(ValueId(1)));
    assert_eq!(runtime.get_value(boundary.errors_empty.id), Some(ValueId(3)));
    assert_eq!(runtime.current_state(boundary.errors_empty.id), ReactiveNodeState::Dirty);
    let asked = with_runtime(&mut runtimes, id, |runtime| {
        let call = |runtime: Runtime, mut requests: Vec<Call>, call: Call| {
            requests.push(call);
            (runtime, requests, true)
        };
        runtime.update_if_necessary(boundary.errors_empty.id, Vec::new(), &call)
    });
    let run = Call::Run { f: ComputationId(4), value: Some(ValueId(3)) };
    assert_eq!(asked, Ok((vec![run], true)));

    match boundary.render(true, |_| "fallback".to_string()) {
        BoundaryView::Children(children) => assert_eq!(children, "children"),
        BoundaryView::Fragment { .. } => panic!("there are no errors"),
    }
    let errors: RwSignal<Errors> = boundary.errors;
    match boundary.render(false, |shown| {
        assert_eq!(shown.id, errors.id);
        "fallback".to_string()
    }) {
        BoundaryView::Children(_) => panic!("there are errors"),
        BoundaryView::Fragment { fallback, boundary } => {
            assert_eq!(fallback, "fallback");
            assert_eq!(boundary.tag, "leptos-error-boundary");
            assert_eq!(boundary.style, "display: none");
            assert_eq!(boundary.child, "children");
        }
    }
}

#[test]
fn no_boundary_without_a_runtime() {
    let mut runtimes = Runtimes::server();
    let id = create_runtime(&mut runtimes);
    let boundary = ErrorBoundary::<Errors, u8>(
        &mut runtimes,
        id,
        TypeKey(1),
        ValueId(1),
        |_| ValueId(2),
        |runtimes| {
            id.dispose(runtimes);
            0
        },
        |_| (ValueId(3), ComputationId(4)),
    );
    assert!(boundary.is_none());
    assert!(runtimes.get(id).is_none());
}

/// A key as a slot and a generation.
fn parts(key: slotmap::DefaultKey) -> (u64, u64) {
    let bits = key.data().as_ffi();
    (bits % 0x1_0000_0000, bits / 0x1_0000_0000)
}

#[test]
fn slots_count_their_generations() {
    let mut runtimes = Runtimes::server();
    let a = create_runtime(&mut runtimes);
    let b = create_runtime(&mut runtimes);
    assert_eq!(parts(a.key).1, 1);
    assert_eq!(parts(b.key).1, 1);
    assert_ne!(parts(a.key).0, parts(b.key).0);
    for generation in [3, 5, 7] {
        let id = if generation == 3 { a } else { Runtime::current(&runtimes) };
        id.dispose(&mut runtimes);
        // Disposing once more does not count.
        id.dispose(&mut runtimes);
        let next = create_runtime(&mut runtimes);
        assert_eq!(parts(next.key), (parts(a.key).0, generation));
        Runtime::set_runtime(&mut runtimes, Some(next));
        assert!(runtimes.get(a).is_none());
        assert!(runtimes.get(id).is_none());
        assert!(runtimes.get(b).is_some());
    }
    let node = b.create_concrete_signal(&mut runtimes, ValueId(0));
    assert_eq!(parts(node.key).1, 1);
    with_runtime(&mut runtimes, b, |runtime| runtime.dispose_node(node)).unwrap();
    let next = b.create_concrete_signal(&mut runtimes, ValueId(0));
    assert_eq!(parts(next.key), (parts(node.key).0, 3));
    let runtime = runtimes.get(b).unwrap();
    assert!(!runtime.has_value(node));
    assert!(runtime.has_value(next));
}

#[test]
fn values_are_not_found_under_old_keys() {
    let mut runtime = Runtime::new();
    let call = |runtime: Runtime, (): (), _: Call| (runtime, (), false);
    let stored = runtime.create_stored_value(ValueId(1));
    assert_eq!(parts(stored.key).1, 1);
    runtime.cleanup_property(ScopeProperty::StoredValue(stored), (), &call);
    let next = runtime.create_stored_value(ValueId(2));
    assert_eq!(parts(next.key), (parts(stored.key).0, 3));
    assert_eq!(runtime.stored_value(stored), None);
    assert_eq!(runtime.stored_value(next), Some(ValueId(2)));
    let handle = ResourceHandle { ty: TypeKey(1), state: ValueId(1) };
    let resource = runtime.create_serializable_resource(handle);
    assert_eq!(parts(resource.key).1, 1);
    runtime.cleanup_property(ScopeProperty::Resource(resource), (), &call);
    let next = runtime.create_unserializable_resource(handle);
    assert_eq!(parts(next.key), (parts(resource.key).0, 3));
    assert_eq!(runtime.find_resource(resource, TypeKey(1)), Err(ResourceError::NotFound));
    assert_eq!(runtime.find_resource(next, TypeKey(1)), Ok(handle));
}

#[test]
fn triggers_have_no_value() {
    let mut runtimes = Runtimes::server();
    let id = create_runtime(&mut runtimes);
    let trigger = id.create_trigger(&mut runtimes);
    let signal = id.create_concrete_signal(&mut runtimes, ValueId(0));
    let runtime = runtimes.get(id).unwrap();
    assert!(!runtime.has_value(trigger.id));
    assert!(runtime.has_value(signal));
}
