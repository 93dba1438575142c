//! Context values, resources and stored values.
use reactive_runtime::agenda::Call;
use reactive_runtime::keys::{NodeId, RuntimeId};
use reactive_runtime::node::{
    ContextValue, ResourceError, ResourceHandle, ScopeProperty, TypeKey, ValueId,
};
use reactive_runtime::registry::{create_runtime, Runtimes};
use reactive_runtime::runtime::Runtime;

fn the(runtimes: &mut Runtimes) -> &mut Runtime {
    match runtimes {
        Runtimes::Browser { runtime } => runtime,
        Runtimes::Server { .. } => panic!("not a browser"),
    }
}

/// Three nodes, each of which owns the next.
fn family() -> (Runtimes, RuntimeId, NodeId, NodeId, NodeId) {
    let mut runtimes = Runtimes::browser();
    let id = create_runtime(&mut runtimes);
    let top = id.create_concrete_signal(&mut runtimes, ValueId(0));
    the(&mut runtimes).owner = Some(top);
    let middle = id.create_concrete_signal(&mut runtimes, ValueId(0));
    the(&mut runtimes).owner = Some(middle);
    let bottom = id.create_concrete_signal(&mut runtimes, ValueId(0));
    the(&mut runtimes).owner = None;
    (runtimes, id, top, middle, bottom)
}

fn provide(runtimes: &mut Runtimes, node: NodeId, ty: u64, value: u64) {
    let runtime = the(runtimes);
    runtime.owner = Some(node);
    runtime.provide_context(
        TypeKey(ty),
        ContextValue { ty: TypeKey(ty), value: ValueId(value) },
    );
    runtime.owner = None;
}

fn find(runtimes: &mut Runtimes, node: NodeId, ty: u64) -> Option<ValueId> {
    the(runtimes).get_context(node, TypeKey(ty), TypeKey(ty))
}

#[test]
fn the_nearest_context_is_found() {
    let (mut runtimes, _, top, middle, bottom) = family();
    assert_eq!(find(&mut runtimes, bottom, 1), None);
    provide(&mut runtimes, top, 1, 100);
    assert_eq!(find(&mut runtimes, top, 1), Some(ValueId(100)));
    assert_eq!(find(&mut runtimes, middle, 1), Some(ValueId(100)));
    assert_eq!(find(&mut runtimes, bottom, 1), Some(ValueId(100)));
    assert_eq!(find(&mut runtimes, bottom, 2), None);
    provide(&mut runtimes, middle, 1, 200);
    assert_eq!(find(&mut runtimes, top, 1), Some(ValueId(100)));
    assert_eq!(find(&mut runtimes, middle, 1), Some(ValueId(200)));
    assert_eq!(find(&mut runtimes, bottom, 1), Some(ValueId(200)));
    // A later value replaces an earlier one.
    provide(&mut runtimes, middle, 1, 300);
    assert_eq!(find(&mut runtimes, bottom, 1), Some(ValueId(300)));
}

#[test]
fn a_context_of_another_type_is_passed_over() {
    let (mut runtimes, _, top, middle, bottom) = family();
    provide(&mut runtimes, top, 1, 100);
    let runtime = the(&mut runtimes);
    runtime.owner = Some(middle);
    runtime.provide_context(TypeKey(1), ContextValue { ty: TypeKey(9), value: ValueId(200) });
    runtime.owner = None;
    assert_eq!(runtime.get_context(bottom, TypeKey(1), TypeKey(1)), Some(ValueId(100)));
    assert_eq!(runtime.get_context(bottom, TypeKey(1), TypeKey(9)), Some(ValueId(200)));
}

#[test]
fn without_an_owner_nothing_is_provided() {
    let (mut runtimes, _, top, _, _) = family();
    the(&mut runtimes).provide_context(
        TypeKey(1),
        ContextValue { ty: TypeKey(1), value: ValueId(1) },
    );
    assert_eq!(find(&mut runtimes, top, 1), None);
}

#[test]
fn a_circle_of_owners_ends_the_search() {
    let (mut runtimes, _, top, _, bottom) = family();
    let runtime = the(&mut runtimes);
    runtime.owner = Some(bottom);
    runtime.register_property(ScopeProperty::Signal(top));
    runtime.owner = None;
    assert_eq!(find(&mut runtimes, bottom, 1), None);
    provide(&mut runtimes, top, 1, 5);
    assert_eq!(find(&mut runtimes, bottom, 1), Some(ValueId(5)));
}

fn handle(ty: u64, state: u64) -> ResourceHandle {
    ResourceHandle { ty: TypeKey(ty), state: ValueId(state) }
}

#[test]
fn resources_are_found_by_id_and_type() {
    let mut runtime = Runtime::new();
    let a = runtime.create_unserializable_resource(handle(1, 10));
    let b = runtime.create_serializable_resource(handle(2, 20));
    assert_eq!(runtime.resource_count(), 2);
    assert_eq!(runtime.find_resource(a, TypeKey(1)), Ok(handle(1, 10)));
    assert_eq!(runtime.find_resource(b, TypeKey(2)), Ok(handle(2, 20)));
    assert_eq!(runtime.find_resource(a, TypeKey(2)), Err(ResourceError::WrongType));
    assert_eq!(runtime.resource(b, TypeKey(2), |handle| handle.state), ValueId(20));
    let call = |runtime: Runtime, (): (), _: Call| (runtime, (), false);
    assert!(runtime.cleanup_property(ScopeProperty::Resource(a), (), &call).1);
    assert_eq!(runtime.find_resource(a, TypeKey(1)), Err(ResourceError::NotFound));
    assert_eq!(runtime.find_resource(b, TypeKey(2)), Ok(handle(2, 20)));
}

#[test]
fn resources_are_listed_by_slot() {
    let mut runtime = Runtime::new();
    assert!(runtime.all_resources().is_empty());
    let a = runtime.create_serializable_resource(handle(1, 10));
    let b = runtime.create_unserializable_resource(handle(1, 20));
    let c = runtime.create_serializable_resource(handle(2, 30));
    assert_eq!(runtime.all_resources(), vec![a, b, c]);
    assert_eq!(runtime.pending_resources(), vec![a, c]);
    assert_eq!(
        runtime.serialization_resolvers(),
        vec![(a, handle(1, 10)), (c, handle(2, 30))]
    );
    let call = |runtime: Runtime, (): (), _: Call| (runtime, (), false);
    assert!(runtime.cleanup_property(ScopeProperty::Resource(a), (), &call).1);
    // A new resource takes over the slot.
    let d = runtime.create_serializable_resource(handle(3, 40));
    assert_ne!(a, d);
    assert_eq!(runtime.all_resources(), vec![d, b, c]);
    assert_eq!(runtime.pending_resources(), vec![d, c]);
}

#[test]
fn stored_values_go_with_their_owner() {
    let (mut runtimes, _, top, _, _) = family();
    let runtime = the(&mut runtimes);
    let free = runtime.create_stored_value(ValueId(1));
    runtime.owner = Some(top);
    let owned = runtime.create_stored_value(ValueId(2));
    runtime.owner = None;
    assert_eq!(runtime.stored_value_count(), 2);
    assert_eq!(runtime.stored_value(free), Some(ValueId(1)));
    assert_eq!(runtime.stored_value(owned), Some(ValueId(2)));
    let call = |runtime: Runtime, (): (), _: Call| (runtime, (), false);
    assert!(runtime.cleanup_property(ScopeProperty::Signal(top), (), &call).1);
    assert_eq!(runtime.stored_value(free), Some(ValueId(1)));
    assert_eq!(runtime.stored_value(owned), None);
    assert_eq!(runtime.node_count(), 0);
}

#[test]
fn properties_that_are_nodes() {
    let (mut runtimes, _, top, _, _) = family();
    let resource = the(&mut runtimes).create_serializable_resource(handle(1, 1));
    assert_eq!(ScopeProperty::Trigger(top).to_node_id(), Some(top));
    assert_eq!(ScopeProperty::Signal(top).to_node_id(), Some(top));
    assert_eq!(ScopeProperty::Effect(top).to_node_id(), Some(top));
    assert_eq!(ScopeProperty::Resource(resource).to_node_id(), None);
}
