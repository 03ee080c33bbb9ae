//! Columnar record batches, the unit in which both join sides arrive.

use vstd::prelude::*;

verus! {

/// One batch of rows with an agreed schema: per row, the evaluated join key
/// (`None` for a null key) and a fixed number of payload cells.
///
/// On the build side, chunks are appended during the build phase and never
/// mutated afterwards; their rows are addressed solely through row pointers.
#[derive(Debug)]
pub struct Chunk {
    /// The join key of each row; `None` is a null key, which never matches.
    pub keys: Vec<Option<u64>>,
    /// The payload cells of each row, `width` cells per row.
    pub cells: Vec<Vec<u64>>,
}

impl Chunk {
    /// Well-formed for a schema of `width` payload columns.
    pub open spec fn wf(self, width: int) -> bool {
        &&& self.cells@.len() == self.keys@.len()
        &&& forall|i: int|
            0 <= i < self.cells@.len() ==> (#[trigger] self.cells@[i])@.len() == width
    }

    pub open spec fn spec_num_rows(self) -> int {
        self.keys@.len() as int
    }

    /// Builds a chunk from parallel key and payload columns.
    pub fn new(keys: Vec<Option<u64>>, cells: Vec<Vec<u64>>) -> (c: Chunk)
        ensures
            c.keys == keys,
            c.cells == cells,
    {
        Chunk { keys, cells }
    }

    pub fn num_rows(&self) -> (n: usize)
        ensures
            n == self.spec_num_rows(),
    {
        self.keys.len()
    }
}

/// The key column of every chunk: the part of the build side that matching
/// depends on.
pub open spec fn keys_of(chunks: Seq<Chunk>) -> Seq<Seq<Option<u64>>> {
    chunks.map_values(|c: Chunk| c.keys@)
}

} // verus!
