//! Primal side of a minimum-weight perfect-matching decoder.
//!
//! The crate models the shared dual-node forest (syndrome vertices and
//! contracted blossoms), the blossom expansion engine that turns a matching
//! over possibly-contracted nodes into a matching over leaf nodes only, the
//! interface contract every primal module implementation satisfies, and a
//! parallel orchestrator that partitions a decoding problem into units and
//! fuses their boundaries.

pub mod dual_module;
pub mod primal_module;
pub mod primal_module_parallel;
pub mod util;
