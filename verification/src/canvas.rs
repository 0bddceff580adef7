//! The spaces a canvas can be drawn in.
use vstd::prelude::*;

verus! {

/// The space a canvas is drawn in.
#[derive(Copy, Clone, Eq, PartialEq, Structural, Debug)]
pub enum CanvasSpace {
    Screen,
    Camera,
}

} // verus!
