//! The block kinds a world cell can hold, with their stable integer encoding.

use vstd::prelude::*;

verus! {

/// The content of a single world cell. The set of variants is closed and each
/// has a stable integer code used when a chunk is transmitted.
#[derive(Debug, Copy, Clone, PartialEq, Eq, Structural)]
pub enum Block {
    Air,
    Grass,
    Stone,
    Log,
    Leaves,
    Water,
    Wood,
}

impl Block {
    /// The stable integer code of this block kind.
    pub open spec fn spec_code(self) -> u8 {
        match self {
            Block::Air => 0,
            Block::Grass => 1,
            Block::Stone => 2,
            Block::Log => 3,
            Block::Leaves => 4,
            Block::Water => 5,
            Block::Wood => 6,
        }
    }

    /// The block kind a code decodes to: known codes map to their variant,
    /// every other code falls back to `Air` (lenient decoding, not an error).
    pub open spec fn spec_from_code(code: u8) -> Block {
        if code == 1 {
            Block::Grass
        } else if code == 2 {
            Block::Stone
        } else if code == 3 {
            Block::Log
        } else if code == 4 {
            Block::Leaves
        } else if code == 5 {
            Block::Water
        } else if code == 6 {
            Block::Wood
        } else {
            Block::Air
        }
    }

    /// Encode this block kind as its stable integer code.
    pub fn code(self) -> (code: u8)
        ensures
            code == self.spec_code(),
    {
        match self {
            Block::Air => 0,
            Block::Grass => 1,
            Block::Stone => 2,
            Block::Log => 3,
            Block::Leaves => 4,
            Block::Water => 5,
            Block::Wood => 6,
        }
    }

    /// Decode an arbitrary integer code; codes outside the known set decode to
    /// `Air` rather than raising an error.
    pub fn from_code(code: u8) -> (block: Block)
        ensures
            block == Block::spec_from_code(code),
    {
        match code {
            1 => Block::Grass,
            2 => Block::Stone,
            3 => Block::Log,
            4 => Block::Leaves,
            5 => Block::Water,
            6 => Block::Wood,
            _ => Block::Air,
        }
    }
}

/// Law: decoding the code of any block kind yields that kind back, decoding a
/// known code and re-encoding yields the original code, and any code outside
/// the known set decodes to `Air`.
pub proof fn lemma_block_code_round_trip(block: Block, code: u8)
    ensures
        Block::spec_from_code(block.spec_code()) == block,
        block.spec_code() <= 6,
        code <= 6 ==> Block::spec_from_code(code).spec_code() == code,
        code > 6 ==> Block::spec_from_code(code) == Block::Air,
{
}

} // verus!
