# event_system

An event system: event systems register handlers for event types and declare which other
systems they read or write; events are dispatched to their handlers in an order where each
handler runs after the handlers it depends on, grouped into levels whose systems may run at
the same time.

Layout:

- `src/` — the verified library (Verus): the registry of systems and handlers
  (`event_manager.rs`, `maps.rs`, `keyed.rs`), the compatibility rule between systems, the
  ordering of handlers and its cutting into levels and per-system packages (`schedule.rs`,
  `event_manager.rs`), which received events are handled now and which are delayed, the
  order in which commands run, the flush state machine, and small utilities (`util.rs`).
  Types are known by integer keys; tables keyed by them are std `HashMap`s.
- `app/` — the runtime around it: type identities, type-erased systems and handlers, event
  queues, commands, and the sequential and thread-pool execution managers.
- `tests/` — tests of the library on concrete values.
