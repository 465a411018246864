//! High dynamic range image buffer.
//!
//! A row-major grid of [`Color`] pixels with bounds-checked access. The
//! pixel at the top-left corner has coordinates `(0, 0)`; the offset of
//! `(x, y)` inside the backing vector is `y * width + x`.

use vstd::prelude::*;

use crate::color::{black, Color};
use crate::error::HdrImageErr;

verus! {

/// High dynamic range image: a `width` by `height` matrix of [`Color`],
/// kept as one row-major vector.
#[derive(Clone, Debug, PartialEq)]
pub struct HdrImage {
    /// Number of columns in the 2D matrix of colors.
    width: u32,
    /// Number of rows in the 2D matrix of colors.
    height: u32,
    /// The 2D matrix, represented as a 1D vector of [`Color`].
    pixels: Vec<Color>,
}

impl HdrImage {
    /// Number of columns, for specifications.
    pub closed spec fn spec_width(self) -> u32 {
        self.width
    }

    /// Number of rows, for specifications.
    pub closed spec fn spec_height(self) -> u32 {
        self.height
    }

    /// The pixel matrix in row-major order, for specifications.
    pub closed spec fn spec_pixels(self) -> Seq<Color> {
        self.pixels@
    }

    /// Well-formedness: the backing vector holds exactly one pixel per
    /// matrix cell, and the pixel count fits the 32-bit arithmetic the
    /// public interface uses.
    pub open spec fn wf(self) -> bool {
        &&& self.spec_pixels().len() == self.spec_width() * self.spec_height()
        &&& self.spec_width() * self.spec_height() <= u32::MAX
    }

    /// Whether `(x, y)` lies inside the matrix.
    pub open spec fn spec_valid_coordinates(self, x: u32, y: u32) -> bool {
        x < self.spec_width() && y < self.spec_height()
    }

    /// Row-major position of `(x, y)` inside the backing vector.
    pub open spec fn spec_pixel_offset(self, x: u32, y: u32) -> int {
        y * self.spec_width() + x
    }

    /// Create a black image with the given resolution.
    ///
    /// The resolution must be one the 32-bit interface can address.
    pub fn new(width: u32, height: u32) -> (img: HdrImage)
        requires
            width * height <= u32::MAX,
        ensures
            img.wf(),
            img.spec_width() == width,
            img.spec_height() == height,
            img.spec_pixels() == Seq::new((width * height) as nat, |i: int| black()),
    {
        let n = (width * height) as usize;
        let mut pixels: Vec<Color> = Vec::new();
        let mut i: usize = 0;
        while i < n
            invariant
                i <= n,
                pixels@.len() == i,
                forall|j: int| 0 <= j < i ==> pixels@[j] == black(),
            decreases n - i,
        {
            pixels.push(Color { r: 0, g: 0, b: 0 });
            i = i + 1;
        }
        proof {
            assert(pixels@ =~= Seq::new((width * height) as nat, |i: int| black()));
        }
        HdrImage { width, height, pixels }
    }

    /// The matrix shape `(width, height)`.
    pub fn shape(&self) -> (s: (u32, u32))
        ensures
            s == (self.spec_width(), self.spec_height()),
    {
        (self.width, self.height)
    }

    /// Return `true` if `(x, y)` are coordinates within the 2D matrix.
    pub fn valid_coordinates(&self, x: u32, y: u32) -> (b: bool)
        ensures
            b == self.spec_valid_coordinates(x, y),
    {
        x < self.width && y < self.height
    }

    /// Return the position in the 1D vector of the specified pixel.
    pub fn pixel_offset(&self, x: u32, y: u32) -> (offset: usize)
        requires
            self.wf(),
            self.spec_valid_coordinates(x, y),
        ensures
            offset == self.spec_pixel_offset(x, y),
            offset < self.spec_pixels().len(),
    {
        proof {
            lemma_offset_in_range(x, y, self.spec_width(), self.spec_height());
        }
        (y * self.width + x) as usize
    }

    /// The color of the pixel at `(x, y)`, or an out-of-bounds error for
    /// coordinates outside the matrix.
    pub fn get_pixel(&self, x: u32, y: u32) -> (r: Result<Color, HdrImageErr>)
        requires
            self.wf(),
        ensures
            self.spec_valid_coordinates(x, y) ==> r == Ok::<Color, HdrImageErr>(
                self.spec_pixels()[self.spec_pixel_offset(x, y)],
            ),
            !self.spec_valid_coordinates(x, y) ==> r == Err::<Color, HdrImageErr>(
                HdrImageErr::OutOfBounds((x, y), (self.spec_width(), self.spec_height())),
            ),
    {
        if self.valid_coordinates(x, y) {
            let offset = self.pixel_offset(x, y);
            Ok(self.pixels[offset])
        } else {
            Err(HdrImageErr::OutOfBounds((x, y), (self.width, self.height)))
        }
    }

    /// Store `new_color` at `(x, y)`, or report an out-of-bounds error,
    /// leaving the image unchanged, for coordinates outside the matrix.
    pub fn set_pixel(&mut self, x: u32, y: u32, new_color: Color) -> (r: Result<(), HdrImageErr>)
        requires
            old(self).wf(),
        ensures
            final(self).wf(),
            final(self).spec_width() == old(self).spec_width(),
            final(self).spec_height() == old(self).spec_height(),
            old(self).spec_valid_coordinates(x, y) ==> {
                &&& r == Ok::<(), HdrImageErr>(())
                &&& final(self).spec_pixels() == old(self).spec_pixels().update(
                    old(self).spec_pixel_offset(x, y),
                    new_color,
                )
            },
            !old(self).spec_valid_coordinates(x, y) ==> {
                &&& r == Err::<(), HdrImageErr>(
                    HdrImageErr::OutOfBounds(
                        (x, y),
                        (old(self).spec_width(), old(self).spec_height()),
                    ),
                )
                &&& *final(self) == *old(self)
            },
    {
        if self.valid_coordinates(x, y) {
            let offset = self.pixel_offset(x, y);
            self.pixels[offset] = new_color;
            Ok(())
        } else {
            Err(HdrImageErr::OutOfBounds((x, y), (self.width, self.height)))
        }
    }

    /// Replace the whole pixel matrix with a vector of the same length,
    /// or report the two lengths when they differ.
    pub fn set_pixels(&mut self, pixels: Vec<Color>) -> (r: Result<(), HdrImageErr>)
        requires
            old(self).wf(),
        ensures
            final(self).wf(),
            final(self).spec_width() == old(self).spec_width(),
            final(self).spec_height() == old(self).spec_height(),
            pixels@.len() == old(self).spec_pixels().len() ==> {
                &&& r == Ok::<(), HdrImageErr>(())
                &&& final(self).spec_pixels() == pixels@
            },
            pixels@.len() != old(self).spec_pixels().len() ==> {
                &&& r == Err::<(), HdrImageErr>(
                    HdrImageErr::InvalidPixelsSize(
                        pixels@.len() as u32,
                        old(self).spec_pixels().len() as u32,
                    ),
                )
                &&& *final(self) == *old(self)
            },
    {
        if self.pixels.len() == pixels.len() {
            self.pixels = pixels;
            Ok(())
        } else {
            let got = #[verifier::truncate] (pixels.len() as u32);
            let expected = self.pixels.len() as u32;
            Err(HdrImageErr::InvalidPixelsSize(got, expected))
        }
    }

    /// The texture lookup of the image pigment: nearest-neighbour pixel
    /// for already-scaled surface coordinates, clamped to the last column
    /// and row.
    pub fn texel(&self, col: u32, row: u32) -> (c: Color)
        requires
            self.wf(),
            self.spec_width() > 0,
            self.spec_height() > 0,
        ensures
            c == self.spec_texel(col, row),
    {
        let x = if col < self.width {
            col
        } else {
            self.width - 1
        };
        let y = if row < self.height {
            row
        } else {
            self.height - 1
        };
        let offset = self.pixel_offset(x, y);
        self.pixels[offset]
    }

    /// The pixel `texel` picks: `(col, row)` clamped into the matrix.
    pub open spec fn spec_texel(self, col: u32, row: u32) -> Color
        recommends
            self.wf(),
            self.spec_width() > 0,
            self.spec_height() > 0,
    {
        let x = if col < self.spec_width() {
            col
        } else {
            (self.spec_width() - 1) as u32
        };
        let y = if row < self.spec_height() {
            row
        } else {
            (self.spec_height() - 1) as u32
        };
        self.spec_pixels()[self.spec_pixel_offset(x, y)]
    }
}

/// Inside a matrix of shape `(width, height)`, the row-major offset of
/// any valid coordinate pair lies below `width * height`.
pub proof fn lemma_offset_in_range(x: u32, y: u32, width: u32, height: u32)
    requires
        x < width,
        y < height,
    ensures
        y * width + x < width * height,
{
    assert(y * width + x < width * height) by (nonlinear_arith)
        requires
            x < width,
            y < height,
    ;
}

} // verus!
