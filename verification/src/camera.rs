//! Camera settings that hold no geometry.
use vstd::prelude::*;

verus! {

/// How a camera projects the world.
#[derive(Debug, Clone, Copy, PartialEq, Eq, Structural)]
pub enum ProjectionType {
    /// For 2D.
    Orthographic,
    /// For 3D.
    Perspective,
}

} // verus!
