# pce

A predicate calculation engine, verified with Verus.

Everything is a write to a cell, a field of an instance. The writes of a frame are matched
against registered predicates; the calculations that they hit run against the data as it was
before the frame, and what they write is merged, committed, and matched in the next frame.

- `src/` is the library. Every function carries a contract, and the laws of the engine stand
  as proof functions beside the functions they speak of: `runtime/laws.rs` (who is delivered
  to), `runtime/deliveries.rs` (how often), `runtime/shares.rs` (what arrives),
  `runtime/store.rs` (rows and their numbers), `runtime/frame_laws.rs` (what holds of a frame),
  `runtime/replay.rs` (snapshots replay), `render/laws.rs` (the render side follows the
  simulation).
- Numbers are IEEE 754 numbers held as bits: `float64.rs`, `float32.rs` and their companions
  define rounding, comparison and arithmetic and prove the code against the definitions.
- `runtime/exec.rs` runs a frame's calculations one after the other, or in parallel through
  rayon. That call is the only thing that is taken on trust.
- The render side takes sine, arc cosine and hypotenuse from its host.
- `tests/` runs the library; `app/` is a small program around it.
