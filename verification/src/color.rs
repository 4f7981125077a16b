//! Colours of the example image and of the generated grid.

use vstd::prelude::*;

verus! {

/// An opaque RGB colour; two colours are equal when all three channels are.
#[derive(Clone, Copy, Debug, PartialEq, Eq, Hash, Structural)]
pub struct Color {
    pub r: u8,
    pub g: u8,
    pub b: u8,
}

/// The colour shown for a cell that has no tile left.
pub open spec fn sentinel_color() -> Color {
    Color { r: 255, g: 0, b: 255 }
}

} // verus!
