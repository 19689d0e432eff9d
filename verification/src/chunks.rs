//! A chunk: a 16-by-16 grid of blocks plus a last-access timestamp.

use vstd::prelude::*;

use crate::blocks::Block;

verus! {

/// A 16x16 grid of blocks, row-major by local `(x, y)` (index `x + 16 * y`),
/// plus the timestamp of its last access, in milliseconds.
#[derive(Clone, Debug)]
pub struct Chunk {
    pub blocks: Vec<Block>,
    pub last_used: i64,
}

impl Chunk {
    /// A chunk holds exactly 256 blocks.
    pub open spec fn wf(self) -> bool {
        self.blocks.len() == 256
    }

    /// Creates a chunk from a grid of 256 blocks, stamped with the given time.
    pub fn new(blocks: Vec<Block>, now: i64) -> (c: Chunk)
        requires
            blocks.len() == 256,
        ensures
            c.wf(),
            c.blocks@ == blocks@,
            c.last_used == now,
    {
        Chunk { blocks, last_used: now }
    }
}

} // verus!
