pub mod face;
pub mod merge;
pub mod name;
pub mod order;
pub mod palette;
pub mod primitives;
pub mod shape;
pub mod transaction;

use vstd::prelude::*;

verus! {

/// Index of a vertex in the distance matrix.
pub type VertexId = usize;

/// Stable identity of a face across operations.
pub type FaceId = usize;

} // verus!
