//! What one colour code drives onto the six data lines of the panel.

use vstd::prelude::*;
use crate::maze::bit_of;

verus! {

/// The levels of the three colour lines of one half of the panel.
#[derive(Clone, Copy, Debug, PartialEq, Eq, Structural)]
pub struct HalfLevels {
    pub r: bool,
    pub g: bool,
    pub b: bool,
}

/// The levels of the colour lines of both halves for one pixel clock.
#[derive(Clone, Copy, Debug, PartialEq, Eq, Structural)]
pub struct PixelLevels {
    pub upper: HalfLevels,
    pub lower: HalfLevels,
}

/// The levels that a colour code stands for: bits 5, 4 and 3 are red,
/// green and blue of the upper half, bits 2, 1 and 0 those of the lower
/// half. Higher bits are not looked at.
pub open spec fn levels_of(pixel: u8) -> PixelLevels {
    PixelLevels {
        upper: HalfLevels { r: bit_of(pixel, 5), g: bit_of(pixel, 4), b: bit_of(pixel, 3) },
        lower: HalfLevels { r: bit_of(pixel, 2), g: bit_of(pixel, 1), b: bit_of(pixel, 0) },
    }
}

/// The levels to put on the data lines for one colour code.
pub fn pixel_levels(pixel: u8) -> (r: PixelLevels)
    ensures
        r == levels_of(pixel),
{
    PixelLevels {
        upper: HalfLevels {
            r: ((pixel >> 5) & 0b001) == 1,
            g: ((pixel >> 4) & 0b001) == 1,
            b: ((pixel >> 3) & 0b001) == 1,
        },
        lower: HalfLevels {
            r: ((pixel >> 2) & 0b001) == 1,
            g: ((pixel >> 1) & 0b001) == 1,
            b: ((pixel >> 0) & 0b001) == 1,
        },
    }
}

} // verus!
