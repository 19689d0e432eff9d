//! Block types of the world, with their display colors and solidity.

use vstd::prelude::*;

verus! {

/// The tile types the world is made of.
#[derive(Clone, Copy, PartialEq, Eq, Structural, Debug)]
pub enum Block {
    Air,
    GrassBlock,
    Dirt,
    Stone,
    Water,
    WaterEdge,
    Sand,
    SandStone,
    OakWood,
    OakLeave,
    Fire,
}

impl Block {
    /// Display color of the block, as RGBA bytes.
    pub open spec fn color_spec(self) -> (u8, u8, u8, u8) {
        match self {
            Block::Air => (0, 0, 0, 0),
            Block::GrassBlock => (0x30, 0x7a, 0x2a, 0xff),
            Block::Dirt => (0xba, 0x79, 0x38, 0xff),
            Block::Stone => (0x51, 0x53, 0x57, 0xff),
            Block::Water | Block::WaterEdge => (0x4b, 0x53, 0xeb, 0xff),
            Block::Sand => (0xbb, 0xc2, 0x6d, 0xff),
            Block::SandStone => (0xe1, 0xe8, 0x97, 0xff),
            _ => (0xc8, 0x7a, 0xff, 0xff),
        }
    }

    /// Returns the block's display color as RGBA bytes; fully transparent for air.
    pub fn color(&self) -> (c: (u8, u8, u8, u8))
        ensures
            c == self.color_spec(),
    {
        match self {
            Block::Air => (0, 0, 0, 0),
            Block::GrassBlock => (0x30, 0x7a, 0x2a, 0xff),
            Block::Dirt => (0xba, 0x79, 0x38, 0xff),
            Block::Stone => (0x51, 0x53, 0x57, 0xff),
            Block::Water | Block::WaterEdge => (0x4b, 0x53, 0xeb, 0xff),
            Block::Sand => (0xbb, 0xc2, 0x6d, 0xff),
            Block::SandStone => (0xe1, 0xe8, 0x97, 0xff),
            _ => (0xc8, 0x7a, 0xff, 0xff),
        }
    }

    /// Air and the two water blocks are non-solid; everything else is solid.
    pub open spec fn is_solid_spec(self) -> bool {
        match self {
            Block::Water | Block::Air | Block::WaterEdge => false,
            _ => true,
        }
    }

    /// Determines whether a block takes part in collisions.
    pub fn is_solid(&self) -> (r: bool)
        ensures
            r == self.is_solid_spec(),
    {
        match self {
            Block::Water | Block::Air | Block::WaterEdge => false,
            _ => true,
        }
    }
}

} // verus!
