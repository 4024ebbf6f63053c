//! A chunk: a square sub-grid of blocks at a fixed position in chunk-grid
//! space, stored as one flat row-major sequence.

use vstd::prelude::*;
use crate::block::Block;

verus! {

/// A square sub-grid of `size * size` blocks located at chunk-grid
/// coordinates (`chunk_x`, `chunk_y`). Its blocks are stored row-major:
/// the block at local cell (x, y) sits at index `y * size + x`.
#[derive(Debug, Clone)]
pub struct Chunk {
    pub size: u32,
    pub chunk_x: u32,
    pub chunk_y: u32,
    pub blocks: Vec<Block>,
}

impl Chunk {
    /// A chunk is well formed when its flat block storage covers exactly its
    /// `size * size` cells.
    pub open spec fn wf(self) -> bool {
        self.blocks@.len() == self.size * self.size
    }

    /// The block at local cell (x, y), by row-major index.
    pub open spec fn spec_block_at(self, local_x: int, local_y: int) -> Block {
        self.blocks@[local_y * self.size + local_x]
    }

    /// Well formed, of side `size`, and placed at (chunk_x, chunk_y).
    pub open spec fn is_at(self, size: u32, chunk_x: int, chunk_y: int) -> bool {
        &&& self.size == size
        &&& self.chunk_x == chunk_x
        &&& self.chunk_y == chunk_y
        &&& self.wf()
    }

    /// `is_at`, and every cell holds `Air`.
    pub open spec fn is_empty_at(self, size: u32, chunk_x: int, chunk_y: int) -> bool {
        &&& self.is_at(size, chunk_x, chunk_y)
        &&& forall|k: int| 0 <= k < self.blocks@.len() ==> self.blocks@[k] == Block::Air
    }

    /// A fresh all-`Air` chunk of side `size` at (chunk_x, chunk_y).
    pub fn empty(size: u32, chunk_x: u32, chunk_y: u32) -> (chunk: Chunk)
        requires
            size * size <= u32::MAX,
        ensures
            chunk.is_empty_at(size, chunk_x as int, chunk_y as int),
    {
        let count = size * size;
        let mut blocks: Vec<Block> = Vec::new();
        let mut i: u32 = 0;
        while i < count
            invariant
                i <= count,
                blocks@.len() == i,
                forall|k: int| 0 <= k < blocks@.len() ==> blocks@[k] == Block::Air,
            decreases count - i,
        {
            blocks.push(Block::Air);
            i = i + 1;
        }
        Chunk { size, chunk_x, chunk_y, blocks }
    }

    /// Overwrite the single block at local cell (local_x, local_y).
    pub fn set_block(&mut self, local_x: u32, local_y: u32, block: Block)
        requires
            old(self).wf(),
            local_x < old(self).size,
            local_y < old(self).size,
        ensures
            final(self).size == old(self).size,
            final(self).chunk_x == old(self).chunk_x,
            final(self).chunk_y == old(self).chunk_y,
            final(self).blocks@ == old(self).blocks@.update(
                local_y * old(self).size + local_x,
                block,
            ),
            final(self).wf(),
    {
        let n: usize = self.blocks.len();
        proof {
            assert((local_y as int) * (self.size as int) + (local_x as int)
                < (self.size as int) * (self.size as int)) by (nonlinear_arith)
                requires
                    local_x < self.size,
                    local_y < self.size,
            ;
            assert(n == self.size * self.size);
        }
        let idx: usize = (local_y as usize) * (self.size as usize) + (local_x as usize);
        self.blocks[idx] = block;
    }
}

} // verus!
