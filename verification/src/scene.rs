//! Items shared with the scene-text parser of the host.
//!
//! The scene grammar itself is read by the host around this library; the
//! library only fixes the location type its diagnostics carry.

use vstd::prelude::*;

verus! {

/// Position of a token inside a scene text: one-based line and column.
#[derive(Clone, Copy, Debug, Default, PartialEq, Eq, Structural)]
pub struct SourceLocation {
    /// Number of the line.
    pub line_num: u32,
    /// Number of the column.
    pub col_num: u32,
}

} // verus!
