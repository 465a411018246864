//! RGB color triple of the HDR image buffer.
//!
//! Radiance arithmetic is floating point and happens in the host; the
//! buffer and the codec only store and move channels. Each channel is
//! therefore held as the bit pattern of an IEEE 754 single-precision
//! float, which the codec reads and writes exactly.

use vstd::prelude::*;

verus! {

/// One HDR pixel: red, green and blue channels, each the bit pattern of
/// an IEEE 754 single-precision float.
#[derive(Clone, Copy, Debug, PartialEq, Eq, Structural)]
pub struct Color {
    pub r: u32,
    pub g: u32,
    pub b: u32,
}

/// The all-zero color: every channel is the bit pattern of positive zero.
pub open spec fn black() -> Color {
    Color { r: 0, g: 0, b: 0 }
}

impl Default for Color {
    /// A default pixel is black.
    fn default() -> (c: Color)
        ensures
            c == black(),
    {
        Color { r: 0, g: 0, b: 0 }
    }
}

/// Checker pattern selection: the two tile indexes along the surface
/// parametrization pick `color1` where their parities agree and `color2`
/// where they differ.
pub fn checkered_select(color1: Color, color2: Color, int_u: u32, int_v: u32) -> (c: Color)
    ensures
        c == (if int_u % 2 == int_v % 2 {
            color1
        } else {
            color2
        }),
{
    if int_u % 2 == int_v % 2 {
        color1
    } else {
        color2
    }
}

} // verus!
