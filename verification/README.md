# ennx

The verified core of ENNX, a toolkit for Bayesian optimisation with epistemic
nearest-neighbour models.

- `src/` is the library, written in Verus. Every function's contract is
  proved by Verus except those of two thin trusted wrappers, whose contracts
  Verus takes on trust: `shuffle_indices` (rand's slice shuffle, said only to
  keep the elements) and `quoted` (the `Debug` rendering of a name). It holds the backend capability matrix, the fused
  forward-program and kernel-plan rules, the BPANN configuration rules, the
  work-directory metadata reader and writer, index request checks and driver
  dispatch, arm selection (top-k ranking, random arms, Pareto fronts), the
  schedule race of the GPU kernels and the cache of its choices, the OpenCL
  search plan, the padding and trimming of search results, the geometry of the memory-mapped row
  store, the integer kernels of the dense perturbation path (tensor keys,
  seed mixing, BF16 steps and rounding, leaf layouts and tiles), the ledger
  of trials of the resident BF16 search, the checks and parameter layout of a
  packed model package, and the dispatch plans of the GPU search and decoder
  kernels.
- `tests/` exercises the library on concrete values.
- `app/` is plain Rust around the library: configuration, observation and
  model package files, the memory-mapped store, serde forms of the enums, and the
  floating-point score and distance computations, which hand the library
  order-preserving integer keys of their floats.

Floating-point values that the library has to check are passed as IEEE-754
bit patterns.
