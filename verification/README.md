# shipyard (verified core)

The storage and scheduling core of an entity component system, written in Verus: each
function states what it does in its contract and Verus proves it.

- `src/sparse_set/`: the sparse set storage (entities to components in constant time,
  groups, change tracking, memory usage, windows over packed storages and their update
  sections, sorting, retaining, applying a function to two components, rebuilding from
  serialized parts, removing from an update-packed storage).
- `src/sparse_array/`: a packed sparse array, with the checks that decide when a pack
  applies and an insertion sort by a comparison.
- `src/scheduler/`: workloads, their ordering constraints, and how systems are split in
  batches that can run in parallel; `builder.rs` holds the batch-by-batch builder.
- `src/serde_setup.rs`: (de)serialization settings and the decisions taken while reading a
  serialized structure back.
- `app/`: the plumbing around the library: `serde` visitors that call its decisions, and a
  runner that executes batches on a `rayon` thread pool, and a storage wrapper that tells
  user callbacks of insertions and removals.
- `tests/`: the test suite, run against the compiled library.
