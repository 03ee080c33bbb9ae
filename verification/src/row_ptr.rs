//! Compact locators for rows inside the chunked, immutable build-side storage.

use vstd::prelude::*;

verus! {

/// A per-row tag used by semi/anti/mark joins and by unmatched-row emission.
///
/// `MatchedNull` stands for a match whose outcome is unknown because a null
/// key prevented a definitive answer.
#[derive(Clone, Copy, Debug, PartialEq, Eq, Structural)]
pub enum MarkerKind {
    Unmatched,
    Matched,
    MatchedNull,
}

/// Identifies one row in the build side's chunk sequence without owning or
/// copying data: the row `row_index` of chunk `chunk_index`.
///
/// Immutable once the build phase completes. The `marker` tag is attached
/// lazily for join types that need it; the hash index itself always stores
/// pointers with no marker.
#[derive(Clone, Copy, Debug, PartialEq, Eq)]
pub struct RowPtr {
    pub chunk_index: usize,
    pub row_index: usize,
    pub marker: Option<MarkerKind>,
}

/// The pointer the hash index records for row `r` of chunk `c`.
pub open spec fn mk_ptr(c: int, r: int) -> RowPtr {
    RowPtr { chunk_index: c as usize, row_index: r as usize, marker: None }
}

impl RowPtr {
    /// The pointer for row `r` of chunk `c`, with no marker attached.
    pub fn new(c: usize, r: usize) -> (p: RowPtr)
        ensures
            p == mk_ptr(c as int, r as int),
    {
        RowPtr { chunk_index: c, row_index: r, marker: None }
    }
}

} // verus!
