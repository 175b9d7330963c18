//! Shared index and weight types of the decoding graph.

use vstd::prelude::*;

verus! {

/// Index of a vertex of the decoding graph.
pub type VertexIndex = usize;

/// Index of a dual node in the node forest.
pub type NodeIndex = usize;

/// Weight of an edge, and the unit in which dual variables grow.
pub type Weight = i64;

} // verus!
