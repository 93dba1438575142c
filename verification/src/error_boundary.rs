//! A boundary around a part of the interface, with something to show in place
//! of that part while it has errors.
use crate::create::{creates, memo_node, signal_node, Memo, RwSignal};
use crate::keys::RuntimeId;
use crate::node::{ComputationId, ContextValue, TypeKey, ValueId};
use crate::registry::{with_runtime, Runtimes, RuntimesState};
use crate::runtime::Runtime;
use vstd::prelude::*;

verus! {

/// An element with a style and one child.
pub struct Element<V> {
    pub tag: &'static str,
    pub style: &'static str,
    pub child: V,
}

/// What a boundary shows.
pub enum BoundaryView<V> {
    /// The children alone.
    Children(V),
    /// The fallback, and the children in an element that is not displayed.
    Fragment { fallback: V, boundary: Element<V> },
}

/// A boundary. `errors` holds the errors, of type `E`, of whatever is inside;
/// `errors_empty` says whether there are none.
pub struct Boundary<E, V> {
    pub errors: RwSignal<E>,
    pub errors_empty: Memo<bool>,
    pub children: V,
}

/// What the current owner of a runtime provides as a context value.
pub open spec fn provides(
    before: RuntimesState,
    runtime: u64,
    ty: TypeKey,
    value: ValueId,
) -> RuntimesState {
    before.with(
        runtime,
        before.find(runtime).unwrap().with_context(ty, ContextValue { ty, value }),
    )
}

/// Sets up a boundary in a runtime.
///
/// The errors start out as `no_errors`. They are provided to the children as a
/// context value of type `ty`, which `hold` turns into a number. The children
/// then render. After that comes the memo, which `is_empty` describes: its
/// value, and the function that tells whether there are no errors.
///
/// There is no boundary if the children leave no room for the memo.
#[allow(non_snake_case)]
pub fn ErrorBoundary<E, V>(
    runtimes: &mut Runtimes,
    runtime: RuntimeId,
    ty: TypeKey,
    no_errors: ValueId,
    hold: impl FnOnce(RwSignal<E>) -> ValueId,
    children: impl FnOnce(&mut Runtimes) -> V,
    is_empty: impl FnOnce(RwSignal<E>) -> (ValueId, ComputationId),
) -> (boundary: Option<Boundary<E, V>>)
    requires
        old(runtimes)@.has_room(runtime@),
        forall|errors: RwSignal<E>| #[trigger] hold.requires((errors,)),
        forall|inner: &mut Runtimes| #[trigger] children.requires((inner,)),
        forall|errors: RwSignal<E>| #[trigger] is_empty.requires((errors,)),
    ensures
        exists|
            errors: RwSignal<E>,
            created: RuntimesState,
            context: ValueId,
            inner: &mut Runtimes,
            view: V,
        | #[trigger]
            hold.ensures((errors,), context) && #[trigger] children.ensures((inner,), view)
                && errors.runtime == runtime && #[trigger] creates(
                old(runtimes)@,
                runtime@,
                errors.id@,
                signal_node(no_errors),
                created,
            ) && inner@ == provides(created, runtime@, ty, context) && match boundary {
                Some(boundary) => boundary.errors == errors && boundary.children == view
                    && boundary.errors_empty.runtime == runtime && exists|
                    value: ValueId,
                    f: ComputationId,
                | #[trigger]
                    is_empty.ensures((errors,), (value, f)) && creates(
                        final(inner)@,
                        runtime@,
                        boundary.errors_empty.id@,
                        memo_node(value, f),
                        final(runtimes)@,
                    ),
                None => !final(inner)@.has_room(runtime@) && final(runtimes)@ == final(inner)@,
            },
{
    let errors: RwSignal<E> = runtime.create_rw_signal(runtimes, no_errors);
    let ghost created = runtimes@;
    let context = hold(errors);
    let provide = |runtime: &mut Runtime| -> (unit: ())
        ensures
            final(runtime)@ == old(runtime)@.with_context(
                ty,
                (ContextValue { ty, value: context }),
            ),
        {
            runtime.provide_context(ty, ContextValue { ty, value: context });
        };
    let _ = with_runtime(runtimes, runtime, provide);
    assert(runtimes@ == provides(created, runtime@, ty, context));
    // Run the children so that they render and execute resources.
    let children = children(runtimes);
    if !runtimes.has_room(runtime) {
        return None;
    }
    let (value, f) = is_empty(errors);
    let errors_empty = runtime.create_memo(runtimes, value, f);
    let boundary = Boundary { errors, errors_empty, children };
    assert(boundary.children == children);
    Some(boundary)
}

impl<E, V: Clone> Boundary<E, V> {
    /// What to show: the children while there are no errors. Otherwise the
    /// fallback, next to the children, which are kept in the document without
    /// being displayed.
    pub fn render(&self, errors_empty: bool, fallback: impl FnOnce(RwSignal<E>) -> V) -> (view:
        BoundaryView<V>)
        requires
            !errors_empty ==> fallback.requires((self.errors,)),
        ensures
            match view {
                BoundaryView::Children(view) => errors_empty && cloned(self.children, view),
                BoundaryView::Fragment { fallback: shown, boundary } => !errors_empty
                    && fallback.ensures((self.errors,), shown) && boundary.tag@
                    == "leptos-error-boundary"@ && boundary.style@ == "display: none"@ && cloned(
                    self.children,
                    boundary.child,
                ),
            },
    {
        if errors_empty {
            BoundaryView::Children(self.children.clone())
        } else {
            BoundaryView::Fragment {
                fallback: fallback(self.errors),
                boundary: Element {
                    tag: "leptos-error-boundary",
                    style: "display: none",
                    child: self.children.clone(),
                },
            }
        }
    }
}

} // verus!
