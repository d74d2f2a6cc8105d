//! A chunk: the block grid and the light grid of one 16 x 256 x 16 column of
//! the world.

use crate::block::Block;
use crate::coords::{in_y_range, local_index, local_offset, CHUNK_VOLUME, DDD, MAX_Y};
use crate::light::LightLevel;
use vstd::prelude::*;

verus! {

/// One chunk of the world. Both grids hold `CHUNK_VOLUME` cells, addressed by
/// the local index of a block coordinate.
pub struct Chunk {
    grid: Vec<Block>,
    light_map: Vec<LightLevel>,
}

impl Chunk {
    /// Both grids are complete.
    #[verifier::type_invariant]
    pub open spec fn inv(&self) -> bool {
        &&& self.blocks().len() == CHUNK_VOLUME
        &&& self.lights().len() == CHUNK_VOLUME
    }

    /// The blocks of the chunk by local index.
    pub closed spec fn blocks(&self) -> Seq<Block> {
        self.grid@
    }

    /// The stored lights of the chunk by local index.
    pub closed spec fn lights(&self) -> Seq<LightLevel> {
        self.light_map@
    }

    /// A chunk that holds `block` in every cell and no light.
    pub fn filled(block: Block) -> (chunk: Chunk)
        ensures
            chunk.inv(),
            chunk.blocks() == Seq::new(CHUNK_VOLUME as nat, |i: int| block),
            chunk.lights() == Seq::new(CHUNK_VOLUME as nat, |i: int| LightLevel::dark()),
    {
        let mut grid: Vec<Block> = Vec::new();
        let mut light_map: Vec<LightLevel> = Vec::new();
        let dark = LightLevel::dark();
        let mut i: usize = 0;
        while i < CHUNK_VOLUME
            invariant
                i <= CHUNK_VOLUME,
                grid@ == Seq::new(i as nat, |k: int| block),
                light_map@ == Seq::new(i as nat, |k: int| dark),
                dark == LightLevel::dark(),
            decreases CHUNK_VOLUME - i,
        {
            grid.push(block);
            light_map.push(dark);
            i += 1;
        }
        Chunk { grid, light_map }
    }

    /// The two grids of the chunk, blocks first.
    pub fn into_grids(self) -> (grids: (Vec<Block>, Vec<LightLevel>))
        ensures
            grids.0@ == self.blocks(),
            grids.1@ == self.lights(),
            grids.0@.len() == CHUNK_VOLUME,
            grids.1@.len() == CHUNK_VOLUME,
    {
        proof {
            use_type_invariant(&self);
        }
        let Chunk { grid, light_map } = self;
        (grid, light_map)
    }

    /// The block at `c`, taken by its position inside the chunk; `None` where
    /// the height of `c` lies outside the world.
    pub fn block(&self, c: DDD) -> (r: Option<Block>)
        ensures
            r == (if in_y_range(c) { Some(self.blocks()[local_index(c)]) } else { None }),
    {
        proof {
            use_type_invariant(self);
        }
        if c.1 < 0 || c.1 > MAX_Y {
            return None;
        }
        Some(self.grid[local_offset(c)])
    }

    /// The light stored at `c`, taken by its position inside the chunk;
    /// `None` where the height of `c` lies outside the world.
    pub fn light(&self, c: DDD) -> (r: Option<LightLevel>)
        ensures
            r == (if in_y_range(c) { Some(self.lights()[local_index(c)]) } else { None }),
    {
        proof {
            use_type_invariant(self);
        }
        if c.1 < 0 || c.1 > MAX_Y {
            return None;
        }
        Some(self.light_map[local_offset(c)])
    }

    /// Puts `block` at `c`; does nothing, and says so, where the height of
    /// `c` lies outside the world.
    pub fn set_block(&mut self, c: DDD, block: Block) -> (done: bool)
        ensures
            done == in_y_range(c),
            final(self).lights() == old(self).lights(),
            final(self).blocks() == (if in_y_range(c) {
                old(self).blocks().update(local_index(c), block)
            } else {
                old(self).blocks()
            }),
    {
        proof {
            use_type_invariant(&*self);
        }
        if c.1 < 0 || c.1 > MAX_Y {
            return false;
        }
        let i: usize = local_offset(c);
        self.grid[i] = block;
        true
    }

    /// Stores `light` at `c`; does nothing, and says so, where the height of
    /// `c` lies outside the world.
    pub fn set_light(&mut self, c: DDD, light: LightLevel) -> (done: bool)
        ensures
            done == in_y_range(c),
            final(self).blocks() == old(self).blocks(),
            final(self).lights() == (if in_y_range(c) {
                old(self).lights().update(local_index(c), light)
            } else {
                old(self).lights()
            }),
    {
        proof {
            use_type_invariant(&*self);
        }
        if c.1 < 0 || c.1 > MAX_Y {
            return false;
        }
        let i: usize = local_offset(c);
        self.light_map[i] = light;
        true
    }
}

} // verus!
