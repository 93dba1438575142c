//! The runtime of a fine-grained reactive system.
//!
//! A [`Runtime`] owns a graph of signals, triggers, memos and effects. Writing
//! to a signal marks everything that depends on it ([`Runtime::mark_dirty`]),
//! and reading a memo or flushing the queued effects brings the marked part of
//! the graph up to date again ([`Runtime::update_if_necessary`],
//! [`Runtime::run_effects`]). [`Runtimes`] holds every runtime of a thread.
//!
//! The graph is stored in the collections of `slotmap`, `indexmap` and
//! `rustc-hash`. What each call into them does is stated in [`keys`],
//! [`slots`], [`secondary`], [`sets`] and [`registry`]; everything else is
//! proved. [`state`] says what each operation makes of a graph, and [`laws`]
//! what holds of the operations together.
//!
//! Values, computations and cleanup functions live in the embedding program.
//! The runtime knows them by number ([`ValueId`], [`ComputationId`],
//! [`CleanupId`]) and asks for them to be run through one function
//! ([`Call`]), to which it hands the embedding program each time.

pub mod agenda;
pub mod create;
pub mod error_boundary;
mod graph;
pub mod keys;
pub mod laws;
mod marking;
pub mod node;
pub mod registry;
pub mod runtime;
pub mod secondary;
pub mod sets;
pub mod slots;
pub mod state;
pub mod tracking;
mod update;

pub use agenda::Call;
pub use create::{Memo, ReadSignal, RwSignal, Scope, ScopeDisposer, Trigger, WriteSignal};
pub use error_boundary::ErrorBoundary;
pub use keys::{NodeId, ResourceId, RuntimeId, ScopeId, StoredValueId};
pub use node::{CleanupId, ComputationId, TypeKey, ValueId};
pub use registry::{create_runtime, with_runtime, Runtimes};
pub use runtime::Runtime;
pub use tracking::untrack;
