//! Errors of the HDR image buffer and of the PFM codec.

use vstd::prelude::*;

verus! {

/// Everything that can go wrong with the image buffer or with reading
/// and writing its PFM byte form.
#[derive(Debug)]
pub enum HdrImageErr {
    /// Pixel coordinates outside the image: the offending `(x, y)` pair
    /// and the image shape `(width, height)`.
    OutOfBounds((u32, u32), (u32, u32)),
    /// Bulk pixel replacement of the wrong length: the length handed in
    /// and the length the image holds.
    InvalidPixelsSize(u32, u32),
    /// Malformed PFM content, with a short description of the first
    /// offence.
    InvalidPfmFileFormat(String),
    /// The PFM bytes end too early, or a header line is not text.
    PfmFileReadFailure(String),
    /// A header field that must be a decimal integer is not one; the
    /// second word names the field.
    PfmIntParseFailure(String),
    /// The endianness field is not a floating-point literal; the second
    /// word names the field.
    PfmFloatParseFailure(String),
}

impl HdrImageErr {
    /// A short human-readable account of the error.
    pub fn describe(&self) -> String {
        match self {
            HdrImageErr::OutOfBounds(_, _) => "invalid pixel indexes for the image shape".to_owned(),
            HdrImageErr::InvalidPixelsSize(_, _) => "invalid pixels vector size".to_owned(),
            HdrImageErr::InvalidPfmFileFormat(_) => "invalid pfm file format".to_owned(),
            HdrImageErr::PfmFileReadFailure(_) => "impossible to read from pfm file".to_owned(),
            HdrImageErr::PfmIntParseFailure(_) => "impossible to parse integer from pfm file".to_owned(),
            HdrImageErr::PfmFloatParseFailure(_) => "impossible to parse float from pfm file".to_owned(),
        }
    }
}

} // verus!
