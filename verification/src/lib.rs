//! Host-side bookkeeping of a compute-graph and field library for GPU kernels:
//! command graphs ordered by dependency and containment, field registries,
//! per-kernel contexts with scoped caches, and array indices and domains.

pub mod assoc;
pub mod bindless;
pub mod domain;
pub mod element;
pub mod emanation;
pub mod field;
pub mod graph;
pub mod kernel_attrs;
pub mod mapping;
pub mod mirror;
pub mod profile;
pub mod utils;
