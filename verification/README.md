# cove_runtime

The core of the Cove runtime, verified with Verus: a lowered program runs on a
stack of eight-byte words over a heap of handles, and everything it asks of the
world outside goes through a registry that holds each call to a declared schema,
to what was granted and to a budget.

- `src/` is the library. `src/frame/machine.rs` says what a run does, one
  instruction at a time, as though nothing were ever freed; `src/frame/vm.rs` is
  proved to do exactly that on a heap that is collected. `src/frame/laws.rs`,
  `src/heap.rs`, `src/host.rs`, `src/files.rs`, `src/paths.rs` and `src/find.rs`
  hold the laws.
- That an admitted run ends on the frame is proved in steps. `src/frame/balance.rs`
  says where the operands of a function stand, and `src/frame/truth.rs` that the
  kinds the simulation gives them are true of every run. `src/frame/typing.rs` and
  `src/frame/rules.rs` say what the words of a program are; `typed.rs`,
  `progress.rs`, `onward.rs` and `flow.rs` beside them take the instructions one
  by one; and `admitted.rs` and `answers.rs` state what follows: a run that begins
  in good order is never at a loss, and goes on with any answer of the type that
  is said of it.
- `src/frame/hosted.rs` runs a program together with its hosts. The two spend one
  budget, which the registry keeps between turns: cancelling it there stops the
  run at its next safepoint.
- `app/` is what touches the machine: a disk, streams, the process's environment,
  floats, and the loop that hands a paused run what it waits for.
- `tests/` runs the library. `tests/frame.rs` reads and lowers a small subset of
  the language and holds every run against an evaluation that walks the tree.

What is taken on trust is std's: that `String::from_utf8` answers exactly the
texts that bytes encode, and that an `Instant` measures something.
