//! Block identities and the one trait of a block that the world core reads:
//! whether it is opaque.

use vstd::prelude::*;

verus! {

/// The kinds of block.
#[derive(Copy, Clone, PartialEq, Debug, Eq, Hash, Structural)]
pub enum BlockId {
    Air,
    Dirt,
    Grass,
    Cobble,
    Stair,
}

impl BlockId {
    /// Whether a block of this kind fills its cell and stops light. Air is
    /// empty and a stair is a mesh that leaves part of its cell open; the
    /// full cubes are opaque.
    pub open spec fn is_visible(self) -> bool {
        match self {
            BlockId::Air => false,
            BlockId::Dirt => true,
            BlockId::Grass => true,
            BlockId::Cobble => true,
            BlockId::Stair => false,
        }
    }

    /// Whether a block of this kind is opaque.
    pub fn visible(&self) -> (v: bool)
        ensures
            v == self.is_visible(),
    {
        match self {
            BlockId::Air => false,
            BlockId::Dirt => true,
            BlockId::Grass => true,
            BlockId::Cobble => true,
            BlockId::Stair => false,
        }
    }
}

/// The value stored in one cell of a chunk. A cell changes by being
/// overwritten with another block.
#[derive(Copy, Clone, PartialEq, Debug, Eq, Hash, Structural)]
pub struct Block {
    pub block: BlockId,
}

impl Block {
    /// A block of the given kind.
    pub fn new(block: BlockId) -> (b: Block)
        ensures
            b == (Block { block }),
    {
        Block { block }
    }

    /// Whether this block is opaque.
    pub open spec fn is_visible(self) -> bool {
        self.block.is_visible()
    }

    /// Whether this block is opaque: light is not defined where it stands.
    pub fn visible(&self) -> (v: bool)
        ensures
            v == self.is_visible(),
    {
        self.block.visible()
    }
}

} // verus!
