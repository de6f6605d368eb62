# ire_core

The decisions behind an IRE workspace, verified with Verus: how experiments are
numbered, named and recorded, and how a checkpoint pass finds what changed in
`.ire/` outside the app.

- `src/` is the verified library. It does no I/O.
  - `experiments`: folder numbers, slugs, fences, the text of `EXPERIMENT.md`.
  - `ire`: what `ire.json` holds, the snapshot of the last pass, the pass itself.
  - `workspace`: the open workspace.
  - `text`: shared text operations.
- `app/` answers the library's requests from the disk and emits its events.
- `tests/` runs the library against a pretended `.ire/`.

A pass is a conversation: `Pass::request` says what is needed next, the caller
answers with `Pass::resume`, and `reconcile` turns a finished pass into the next
snapshot and the events to emit. `ire/laws.rs` and `experiments/laws.rs` hold what
is proved of passes and records as a whole.
