//! Incremental occlusion culling for axis-aligned boxes: the visible part of
//! the plane is kept as a set of disjoint boxes, and each occluder that is
//! added is cut out of it.
//!
//! Coordinates are integers. Only their order matters to the buffer, so
//! coordinates of another kind can be handed in through any map to the
//! integers that keeps their order.
//!
//! A box is first checked against the free space ([`OcclusionBuffer::check_a_box`])
//! and then, if some of it is visible, cut out of it
//! ([`OcclusionBuffer::add_last_box`]). The free boxes never overlap, never
//! lose their area and never leave the overall bound; [`laws`] states this
//! and what a cut does to the free cells.

pub mod box_cutting;
pub mod buffer;
pub mod cut_space;
pub mod cutter;
pub mod error;
pub mod laws;
pub mod partition;
pub mod store;

pub use box_cutting::{
    one_vertex_intersection, two_vertex_intersection_subdivision, BoxExtensions, Rect, BOX,
    SAFE_LIMIT,
};
pub use buffer::{OcclusionBuffer, OcclusionStatus};
pub use cutter::{cut_box, CutError};
pub use error::OcclusionError;
pub use partition::{FreeSpace, NEW_BOX_ID};
