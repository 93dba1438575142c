# reactive_runtime

The runtime of a fine-grained reactive system, verified with Verus.

A runtime owns a graph of signals, triggers, memos and effects. A change of one
node marks everything downstream, depth first. Reading a memo, or flushing the
queue of effects, then brings the marked part of the graph up to date: a node
whose sources turn out to be unchanged does not run again. Nodes own what is
created while they run, and dispose of it before they run once more.

- `src/state.rs` is the model: what a runtime holds, as plain maps and
  sequences, and what each operation makes of it.
- `src/marking.rs`, `src/graph.rs`, `src/update.rs` and `src/runtime.rs` are the
  operations on one runtime, `src/registry.rs` holds the runtimes of a thread,
  `src/create.rs` and `src/tracking.rs` what is done through their ids, and
  `src/error_boundary.rs` a component on top of them.
- `src/agenda.rs` says how updating and disposing proceed while they run code of
  the embedding program, which is handed over with each request and back with
  the answer.
- `src/laws/` holds what is proved of the operations together.
- `src/keys.rs`, `src/slots.rs`, `src/secondary.rs`, `src/sets.rs` and
  `src/registry.rs` state what is relied on of `slotmap`, `indexmap` and
  `rustc-hash`.
- `app/` keeps the runtimes of a thread in a thread-local, together with values
  and computations of any type.
