# fuchsia_support

Verified building blocks from a few Fuchsia components, written in Verus.

- `src/shared_buffer.rs`: `SharedBuffer`, a bounds-checked view into memory
  shared with an untrusted process (each byte an `AtomicU8`), with `overlap`,
  the arithmetic that decides how many bytes a read or write copies. Reads
  and writes state which memory cell each byte is loaded from or stored to;
  what a cell holds afterwards is up to the other process.
- `src/repr.rs`: parsing and validation of `#[repr(...)]` hints for the
  zerocopy derives: canonical ordering, allowed and disallowed combinations,
  and how representations are written.
- `src/events.rs`: the event registry's map from event names to dispatchers,
  pruning of dead dispatchers, and the choice of responders to wait on.
- `src/power.rs`: what the power controller does for each command.

`app/` holds the unverified edges: conversion from `syn` values and back to
`syn::Error`, building a buffer from a raw pointer, the locked and awaited
event dispatch, and the power controller's command loop.
