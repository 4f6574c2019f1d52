//! Plain data types shared across the crate, and the record types of the
//! oldest, fixed-width serialization format.

use vstd::prelude::*;

verus! {

/// One source-map token: a destination (generated) position, the original
/// source position, and the source and name ids.  The id fields use the
/// all-ones value `!0` as the "absent" sentinel.
#[derive(Debug, Copy, Clone, PartialEq, Eq, Structural)]
pub struct RawToken {
    pub dst_line: u32,
    pub dst_col: u32,
    pub src_line: u32,
    pub src_col: u32,
    pub src_id: u32,
    pub name_id: u32,
}

/// A record of the oldest serialization format: the four fields stored as
/// plain little-endian words.
#[derive(Debug, Copy, Clone, PartialEq, Eq, Structural)]
pub struct IndexItem {
    pub line: u32,
    pub col: u32,
    pub name_id: u32,
    pub src_id: u32,
}

/// A string of the oldest serialization format: position and length of the
/// raw bytes in the buffer.
#[derive(Debug, Copy, Clone, PartialEq, Eq, Structural)]
pub struct StringMarker {
    pub pos: u32,
    pub len: u32,
}

/// The header of the oldest serialization format.
#[derive(Debug, Copy, Clone, PartialEq, Eq, Structural)]
pub struct MapHead {
    pub index_size: u32,
    pub names_start: u32,
    pub names_count: u32,
    pub sources_start: u32,
    pub sources_count: u32,
}

} // verus!
