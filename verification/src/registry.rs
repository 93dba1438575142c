//! The runtimes of a thread.
use crate::keys::{RuntimeId, NULL_KEY};
use crate::runtime::Runtime;
use crate::slots::{counts, is_new_key, occupied, vacated, CAPACITY};
use crate::state::RuntimeState;
use slotmap::{DefaultKey, SlotMap};
use vstd::prelude::*;

verus! {

/// The runtimes of a server: a `slotmap::SlotMap`.
#[verifier::external_body]
pub struct RuntimeSlots {
    map: SlotMap<DefaultKey, Runtime>,
}

/// The runtimes that are in the map.
pub uninterp spec fn runtimes_in(map: RuntimeSlots) -> Map<u64, RuntimeState>;

/// The generation that each slot of the map has come to. It is odd while the
/// slot is occupied and even while it is vacant.
pub uninterp spec fn runtime_generations(map: RuntimeSlots) -> Map<u64, u64>;

impl RuntimeSlots {
    /// Calls `SlotMap::new`, which makes an empty map.
    #[verifier::external_body]
    pub(crate) fn new() -> (map: Self)
        ensures
            runtimes_in(map) =~= Map::empty(),
            runtime_generations(map) =~= Map::empty(),
    {
        RuntimeSlots { map: SlotMap::new() }
    }

    /// Calls `SlotMap::len`, which counts the values. There are finitely many.
    #[verifier::external_body]
    pub(crate) fn len(&self) -> (len: usize)
        ensures
            counts(len, runtimes_in(*self)),
    {
        self.map.len()
    }

    /// Calls `SlotMap::insert`, which stores a value under a key that it picks: a
    /// vacant slot with its next generation, or a new slot with the first. It
    /// panics on a full map.
    #[verifier::external_body]
    pub(crate) fn insert(&mut self, runtime: Runtime) -> (id: RuntimeId)
        requires
            runtimes_in(*old(self)).len() < CAPACITY,
        ensures
            is_new_key(runtimes_in(*old(self)), runtime_generations(*old(self)), id@),
            runtime_generations(*final(self)) == occupied(runtime_generations(*old(self)), id@),
            runtimes_in(*final(self)) == runtimes_in(*old(self)).insert(id@, runtime@),
    {
        RuntimeId { key: self.map.insert(runtime) }
    }

    /// Calls `SlotMap::get`, which finds the value under a key.
    #[verifier::external_body]
    pub(crate) fn get(&self, id: RuntimeId) -> (runtime: Option<&Runtime>)
        ensures
            runtime is Some <==> runtimes_in(*self).contains_key(id@),
            runtime matches Some(runtime) ==> runtime@ == runtimes_in(*self)[id@],
    {
        self.map.get(id.key)
    }

    /// Calls `SlotMap::get_mut`, which lends out the value under a key. It does
    /// not panic.
    #[verifier::external_body]
    pub(crate) fn get_mut(&mut self, id: RuntimeId) -> (runtime: Option<&mut Runtime>)
        ensures
            runtime is Some <==> runtimes_in(*old(self)).contains_key(id@),
            runtime is None ==> runtimes_in(*final(self)) == runtimes_in(*old(self)),
            runtime_generations(*final(self)) == runtime_generations(*old(self)),
            runtime matches Some(runtime) ==> runtime@ == runtimes_in(*old(self))[id@]
                && runtimes_in(*final(self)) == runtimes_in(*old(self)).insert(
                id@,
                final(runtime)@,
            ),
        opens_invariants none
        no_unwind
    {
        self.map.get_mut(id.key)
    }

    /// Calls `SlotMap::remove`, which takes out the value under a key, if any, and
    /// then counts the generation of the slot up.
    #[verifier::external_body]
    pub(crate) fn remove(&mut self, id: RuntimeId)
        ensures
            runtimes_in(*final(self)) == runtimes_in(*old(self)).remove(id@),
            runtime_generations(*final(self)) == vacated(
                runtimes_in(*old(self)),
                runtime_generations(*old(self)),
                id@,
            ),
    {
        self.map.remove(id.key);
    }
}

/// The runtimes of a thread. A server has one for each request. In the browser
/// everything lives in a single one, whatever its id.
pub enum Runtimes {
    Server { runtimes: RuntimeSlots, current: Option<RuntimeId> },
    Browser { runtime: Runtime },
}

/// What the runtimes of a thread hold.
#[verifier::ext_equal]
pub enum RuntimesState {
    Server {
        runtimes: Map<u64, RuntimeState>,
        /// The generation that each slot has come to.
        generations: Map<u64, u64>,
        current: Option<u64>,
    },
    Browser { runtime: RuntimeState },
}

/// The number of an optional runtime.
pub open spec fn runtime_view(id: Option<RuntimeId>) -> Option<u64> {
    match id {
        Some(id) => Some(id@),
        None => None,
    }
}

impl View for Runtimes {
    type V = RuntimesState;

    open spec fn view(&self) -> RuntimesState {
        match *self {
            Runtimes::Server { runtimes, current } => RuntimesState::Server {
                runtimes: runtimes_in(runtimes),
                generations: runtime_generations(runtimes),
                current: runtime_view(current),
            },
            Runtimes::Browser { runtime } => RuntimesState::Browser { runtime: runtime@ },
        }
    }
}

impl RuntimesState {
    /// The runtime with this id.
    pub open spec fn find(self, id: u64) -> Option<RuntimeState> {
        match self {
            RuntimesState::Server { runtimes, .. } => runtimes.get(id),
            RuntimesState::Browser { runtime } => Some(runtime),
        }
    }

    /// There is a runtime with this id.
    pub open spec fn has(self, id: u64) -> bool {
        self.find(id) is Some
    }

    /// The runtime with this id holds something else.
    pub open spec fn with(self, id: u64, state: RuntimeState) -> RuntimesState {
        match self {
            RuntimesState::Server { runtimes, generations, current } => RuntimesState::Server {
                runtimes: runtimes.insert(id, state),
                generations,
                current,
            },
            RuntimesState::Browser { .. } => RuntimesState::Browser { runtime: state },
        }
    }

    /// The runtime with this id is gone from a server. The one of the browser
    /// stays.
    pub open spec fn without(self, id: u64) -> RuntimesState {
        match self {
            RuntimesState::Server { runtimes, generations, current } => RuntimesState::Server {
                runtimes: runtimes.remove(id),
                generations: vacated(runtimes, generations, id),
                current,
            },
            RuntimesState::Browser { .. } => self,
        }
    }

    /// Another runtime of a server is the current one, or none. The one of the
    /// browser always is.
    pub open spec fn with_current(self, current: Option<u64>) -> RuntimesState {
        match self {
            RuntimesState::Server { runtimes, generations, .. } => RuntimesState::Server {
                runtimes,
                generations,
                current,
            },
            RuntimesState::Browser { .. } => self,
        }
    }

    /// The id of the current runtime.
    pub open spec fn current(self) -> u64 {
        match self {
            RuntimesState::Server { current: Some(id), .. } => id,
            _ => NULL_KEY,
        }
    }

    /// The runtime with this id, if there is one, is observed by `observer`.
    pub open spec fn with_observer(self, id: u64, observer: Option<u64>) -> RuntimesState {
        match self.find(id) {
            Some(state) => self.with(id, RuntimeState { observer, ..state }),
            None => self,
        }
    }

    /// There is room for one more runtime.
    pub open spec fn can_create(self) -> bool {
        match self {
            RuntimesState::Server { runtimes, .. } => runtimes.len() < CAPACITY,
            RuntimesState::Browser { .. } => true,
        }
    }

    /// There is a runtime with this id, and room for one more node in it.
    pub open spec fn has_room(self, id: u64) -> bool {
        self.has(id) && self.find(id).unwrap().nodes.len() < CAPACITY
    }
}

impl Runtimes {
    /// The runtimes of a server, of which there are none yet.
    pub fn server() -> (runtimes: Self)
        ensures
            runtimes@ == (RuntimesState::Server {
                runtimes: Map::empty(),
                generations: Map::empty(),
                current: None,
            }),
    {
        Runtimes::Server { runtimes: RuntimeSlots::new(), current: None }
    }

    /// The one runtime of a browser.
    pub fn browser() -> (runtimes: Self)
        ensures
            runtimes@ == (RuntimesState::Browser { runtime: RuntimeState::empty() }),
    {
        Runtimes::Browser { runtime: Runtime::new() }
    }

    /// The runtime with this id.
    pub fn get(&self, id: RuntimeId) -> (runtime: Option<&Runtime>)
        ensures
            runtime is Some <==> self@.has(id@),
            runtime matches Some(runtime) ==> self@.find(id@) == Some(runtime@),
    {
        match self {
            Runtimes::Server { runtimes, .. } => runtimes.get(id),
            Runtimes::Browser { runtime } => Some(runtime),
        }
    }

    /// Lends out the runtime with this id.
    pub(crate) fn get_mut(&mut self, id: RuntimeId) -> (runtime: Option<&mut Runtime>)
        ensures
            runtime is Some <==> old(self)@.has(id@),
            runtime is None ==> final(self)@ == old(self)@,
            runtime matches Some(runtime) ==> old(self)@.find(id@) == Some(runtime@) && final(
                self)@ == old(self)@.with(id@, final(runtime)@),
        opens_invariants none
        no_unwind
    {
        match self {
            Runtimes::Server { runtimes, .. } => runtimes.get_mut(id),
            Runtimes::Browser { runtime } => Some(runtime),
        }
    }

    /// Is there a runtime with this id, and room for one more node in it?
    pub fn has_room(&self, id: RuntimeId) -> (r: bool)
        ensures
            r == self@.has_room(id@),
    {
        match self.get(id) {
            Some(runtime) => (runtime.node_count() as u64) < CAPACITY,
            None => false,
        }
    }

    /// Is there room for one more runtime?
    pub fn can_create(&self) -> (r: bool)
        ensures
            r == self@.can_create(),
    {
        match self {
            Runtimes::Server { runtimes, .. } => (runtimes.len() as u64) < CAPACITY,
            Runtimes::Browser { .. } => true,
        }
    }
}

impl Runtime {
    /// The id of the current runtime.
    pub fn current(runtimes: &Runtimes) -> (id: RuntimeId)
        ensures
            id@ == runtimes@.current(),
    {
        match runtimes {
            Runtimes::Server { current: Some(id), .. } => *id,
            _ => RuntimeId::default(),
        }
    }

    /// Makes a runtime of the server the current one, or none.
    pub fn set_runtime(runtimes: &mut Runtimes, id: Option<RuntimeId>)
        ensures
            final(runtimes)@ == old(runtimes)@.with_current(runtime_view(id)),
    {
        if let Runtimes::Server { current, .. } = runtimes {
            *current = id;
        }
    }
}

/// Lets `f` work on the runtime with this id. There is an error if there is no
/// such runtime.
pub fn with_runtime<T>(
    runtimes: &mut Runtimes,
    id: RuntimeId,
    f: impl FnOnce(&mut Runtime) -> T,
) -> (result: Result<T, ()>)
    requires
        forall|runtime: &mut Runtime|
            old(runtimes)@.find(id@) == Some(runtime@) ==> #[trigger] f.requires((runtime,)),
    ensures
        result is Ok <==> old(runtimes)@.has(id@),
        result is Err ==> final(runtimes)@ == old(runtimes)@,
        result is Ok ==> exists|runtime: &mut Runtime| #[trigger]
            f.ensures((runtime,), result->Ok_0) && old(runtimes)@.find(id@) == Some(runtime@) && final(
                runtimes)@ == old(runtimes)@.with(id@, final(runtime)@),
{
    match runtimes.get_mut(id) {
        None => Err(()),
        Some(runtime) => {
            let value = f(runtime);
            let result: Result<T, ()> = Ok(value);
            assert(result->Ok_0 == value);
            result
        },
    }
}

/// A runtime has been created on a server: under a new key, and without
/// anything in it. In the browser there is one already.
pub open spec fn creates_runtime(before: RuntimesState, id: u64, after: RuntimesState) -> bool {
    match before {
        RuntimesState::Server { runtimes, generations, current } => is_new_key(
            runtimes,
            generations,
            id,
        ) && after == (RuntimesState::Server {
            runtimes: runtimes.insert(id, RuntimeState::empty()),
            generations: occupied(generations, id),
            current,
        }),
        RuntimesState::Browser { .. } => id == NULL_KEY && after == before,
    }
}

/// Creates a runtime on a server. In the browser there is one already.
#[must_use]
pub fn create_runtime(runtimes: &mut Runtimes) -> (id: RuntimeId)
    requires
        old(runtimes)@.can_create(),
    ensures
        creates_runtime(old(runtimes)@, id@, final(runtimes)@),
{
    match runtimes {
        Runtimes::Server { runtimes, .. } => runtimes.insert(Runtime::new()),
        Runtimes::Browser { .. } => RuntimeId::default(),
    }
}

impl RuntimeId {
    /// Removes the runtime from a server. The one of the browser stays.
    pub fn dispose(self, runtimes: &mut Runtimes)
        ensures
            final(runtimes)@ == old(runtimes)@.without(self@),
    {
        if let Runtimes::Server { runtimes, .. } = runtimes {
            runtimes.remove(self);
        }
    }
}

} // verus!
