//! Small shared items.

use vstd::prelude::*;

verus! {

/// Byte endianness of the binary pixel payload of a PFM file.
#[derive(Clone, Copy, Debug, PartialEq, Eq, Structural)]
pub enum ByteOrder {
    BigEndian,
    LittleEndian,
}

} // verus!
