//! The ways in which an operation on the occlusion buffer fails.

use vstd::prelude::*;
use crate::box_cutting::Rect;
use crate::cutter::CutError;

verus! {

/// Why an operation was refused. A refused operation changes nothing in the
/// free space.
#[derive(Clone, Copy, Debug, PartialEq, Eq, Structural)]
pub enum OcclusionError {
    /// The candidate box is not a well-formed box strictly inside the
    /// overall bound.
    OutOfBounds,
    /// There is no checked box waiting to be added.
    NothingPending,
    /// The free box `free`, stored under `free_id`, overlaps the candidate in
    /// a pattern that the cutting table has no entry for.
    InvariantViolation { kind: CutError, free: Rect, free_id: usize },
    /// The identifier counter cannot supply four new identifiers for every
    /// free box that the candidate overlaps.
    IdsExhausted,
}

} // verus!
