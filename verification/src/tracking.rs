//! Reading without tracking.
use crate::keys::{NodeId, RuntimeId};
use crate::node::node_view;
use crate::registry::{with_runtime, Runtimes};
use crate::runtime::Runtime;
use crate::state::RuntimeState;
use vstd::prelude::*;

verus! {

/// Puts the observer of a runtime back. Nothing happens if the runtime is gone.
fn set_observer(runtimes: &mut Runtimes, id: RuntimeId, observer: Option<NodeId>)
    ensures
        final(runtimes)@ == old(runtimes)@.with_observer(id@, node_view(observer)),
    opens_invariants none
    no_unwind
{
    if let Some(runtime) = runtimes.get_mut(id) {
        runtime.observer = observer;
    }
}

/// The runtimes while one of them does not track, and its observer, which is put
/// back when this goes out of scope, also where that is because code unwinds.
pub struct SetObserverOnDrop<'a> {
    pub runtimes: Option<&'a mut Runtimes>,
    pub id: RuntimeId,
    pub observer: Option<NodeId>,
}

impl<'a> Drop for SetObserverOnDrop<'a> {
    fn drop(&mut self)
        ensures
            final(self).runtimes is Some <==> old(self).runtimes is Some,
            old(self).runtimes matches Some(before) ==> final(self).runtimes->0@
                == before@.with_observer(old(self).id@, node_view(old(self).observer)),
        opens_invariants none
        no_unwind
    {
        if let Some(runtimes) = &mut self.runtimes {
            set_observer(runtimes, self.id, self.observer);
        }
    }
}

/// Suspends reactive tracking in the current runtime while `f` runs.
///
/// This isolates parts of the reactive graph from one another: what `f` reads,
/// nothing subscribes to. Whoever was observing goes on observing afterwards,
/// also where `f` unwinds.
pub fn untrack<T>(runtimes: &mut Runtimes, f: impl FnOnce(&mut Runtimes) -> T) -> (value: T)
    requires
        old(runtimes)@.has(old(runtimes)@.current()),
        forall|inner: &mut Runtimes|
            inner@ == old(runtimes)@.with_observer(old(runtimes)@.current(), None)
                ==> #[trigger] f.requires((inner,)),
    ensures
        exists|inner: &mut Runtimes| #[trigger]
            f.ensures((inner,), value) && inner@ == old(runtimes)@.with_observer(
                old(runtimes)@.current(),
                None,
            ) && final(runtimes)@ == final(inner)@.with_observer(
                old(runtimes)@.current(),
                old(runtimes)@.find(old(runtimes)@.current()).unwrap().observer,
            ),
{
    let runtime_id = Runtime::current(runtimes);
    let take = |runtime: &mut Runtime| -> (observer: Option<NodeId>)
        ensures
            node_view(observer) == old(runtime)@.observer,
            final(runtime)@ == (RuntimeState { observer: None, ..old(runtime)@ }),
        {
            runtime.observer.take()
        };
    let observer = match with_runtime(runtimes, runtime_id, take) {
        Ok(observer) => observer,
        Err(_) => vstd::pervasive::unreached(),
    };
    let mut prev_observer = SetObserverOnDrop {
        runtimes: Some(runtimes),
        id: runtime_id,
        observer,
    };
    let untracked_result = match &mut prev_observer.runtimes {
        Some(inner) => f(inner),
        None => vstd::pervasive::unreached(),
    };
    // Where `f` has not unwound, the observer is put back here and not on drop.
    if let Some(runtimes) = prev_observer.runtimes.take() {
        set_observer(runtimes, prev_observer.id, prev_observer.observer);
    }
    untracked_result
}

} // verus!
