# Ecology simulator

A planet simulator: a near-uniform spherical grid, tectonic plates, crust and sea level, and a
climate of surface, atmosphere layers and winds, drawn as a globe and as a map.

- `src/` is the library. Everything discrete stands there with its contract, proved by Verus: the
  grid and its connectivity, the random fill that grows plates, the classification of plate
  boundaries, the shortest-path sweep that spreads their effects, the flood and its bisection, the
  order of the climate's passes, the mesh and arrow lists, and the state of views and controls.
- The library does no floating-point arithmetic. Formulas come in as functions, and contracts say
  exactly which results of theirs end up where. Where the library has to compare reals, it is handed
  their 32-bit patterns (`src/order.rs` proves that the patterns compare as the reals do). Laws on
  whole runs, such as that a long advance is its sub-steps, hold for formulas that are functions
  (`src/kernel.rs`).
- `app/` holds those formulas, the triangulation, the GPU and the surface that a web worker calls.
- `tests/` runs the library, on small exact inputs and on whole planets in single precision.

One item is trusted rather than proved: `par::par_map`, which runs a function over a range of
indices on rayon's threads.
