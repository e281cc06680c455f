# api_graph

A dependency graph over the public functions of a Rust crate, and the
search through it for call sequences that fuzz targets are written from.
A function is a node; an edge runs from a function whose result can be
handed to a parameter of another. Sequences are grown breadth first, by
random walk, backwards from functions not reached yet, or by replaying a
corpus of sequences seen in real code; a covering subset of them is then
chosen as fuzz targets.

Layout:

- `src/` is the library, verified with Verus. `model` holds the functions,
  types and dependencies; `sequence` the call sequences and their merging;
  `deps` finds the dependencies; `satisfy` extends a sequence by one call
  under the rules on moves and borrows; `traverse`, `cover`, `realworld`
  and `reverse` grow sequences; `select` chooses fuzz targets; `corpus`
  reads corpus lines; `generate` dispatches on the generation algorithm;
  `rng` is the only place randomness comes from.
- `tests/` exercises the library on small graphs.
- `app/` reads the corpus from disk and prints what a generation found.
