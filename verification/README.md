# nonomaker_core

A nonogram library whose behaviour is stated in Verus contracts and proved.

- `src/types.rs`: cells, grids, clues and puzzles, and the runs of a line.
- `src/solver/line_solver/`: the bit-parallel line solver (segment, earliest/latest
  and DP phases) with the proofs that it keeps every placement a line allows
  (`soundness.rs`) and that the DP phase decides exactly the forced cells.
- `src/solver/propagation.rs`, `fully_probing.rs`, `backtracking.rs`, `sat.rs`:
  constraint propagation, probing, depth-first search and the SAT encoding, each
  proved to keep every solution of the puzzle.
- `src/codec.rs`, `src/format.rs`: the compressed grid ids and the JSON texts.
- `src/convert.rs`: the integer part of image conversion (noise removal).
- `app/`: the command-line program and the WebAssembly bindings, which do the
  I/O, the floating-point image work and the serde parsing around the library.
