# sefirot

The bookkeeping core of a GPU simulation framework, written in Verus: the
functions in `src/` carry contracts that Verus proves, and the calls into
`petgraph`, `dashmap`, `generational-arena` and `pretty-type-name` stand behind
small trusted wrappers whose contracts state what those crates do.

- `graph`: the compute graph. Nodes, tags and containers, ordering
  constraints, and the execution order (a topological order of the
  dependency graph, built on `petgraph`).
- `field`, `emanation`: the registry of fields (named, typed properties of the
  elements of a domain), their mappings, field sets, array and Morton indices,
  and partitions of an array into sub-domains.
- `element`: the recording context of a kernel: scoped caches of field
  values, local bindings, access levels, and the saves owed when a block ends.
- `domain`, `mapping`: domains of one to three dimensions and the kernel
  dispatches over them; buffer and texture mappings, bindless slots.
- `bindless`: the slot counters of a shared bindless array.
- `kernel_attrs`: the decisions of the kernel attribute macros (options,
  names, return types).
- `mirror`: the schedule mirror graph, and the nodes that systems add to it.
- `profile`: sections of a timing report.

GPU resources are held by id; the calls into the GPU runtime, the timing
arithmetic on floats and the engine plugins live outside the library.
`app/` holds the timing profiler and the angle helpers, which work on floats.
