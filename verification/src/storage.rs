//! The chunk storage: the cells of all resident chunks, one chunk after
//! another, with every access by slot and block coordinate.

use crate::block::Block;
use crate::chunk::Chunk;
use crate::chunk_map::Entity;
use crate::coords::{in_y_range, local_offset, CHUNK_VOLUME, DDD};
use crate::light::LightLevel;
use crate::world::slot_index;
use vstd::prelude::*;

verus! {

/// Cells of the resident chunks. The chunk in slot `e` owns the cells from
/// `e * CHUNK_VOLUME` on.
pub struct ChunkStorage {
    pub(crate) blocks: Vec<Block>,
    pub(crate) lights: Vec<LightLevel>,
}

/// Whether `idx` names cells of a grid of `len` cells, and no cell twice.
pub open spec fn disjoint_in_range(idx: Seq<usize>, len: nat) -> bool {
    &&& forall|i: int| 0 <= i < idx.len() ==> (#[trigger] idx[i]) < len
    &&& forall|i: int, j: int| 0 <= i < j < idx.len() ==> idx[i] != idx[j]
}

/// Whether `idx` does not name the cell `k`.
pub open spec fn untouched(idx: Seq<usize>, k: int) -> bool {
    forall|i: int| 0 <= i < idx.len() ==> idx[i] != k
}

/// `get_disjoint_mut` of std's slices, on a vector: where every index lies
/// in the vector and no two are equal, one exclusive reference for each
/// index, in the order of the indices; else `None`. Each reference starts at
/// the element that its index names. When the references are given up, each
/// of those elements holds what its reference held last, and every other
/// element what it held before; the length does not change.
#[verifier::external_body]
pub(crate) fn disjoint_mut<T, const N: usize>(v: &mut Vec<T>, idx: [usize; N]) -> (r: Option<
    [&mut T; N],
>)
    ensures
        r is Some <==> disjoint_in_range(idx@, old(v)@.len()),
        r is None ==> final(v)@ == old(v)@,
        r is Some ==> final(v)@.len() == old(v)@.len(),
        (forall|i: int|
            r is Some && 0 <= i < N ==> *(#[trigger] r.unwrap()@[i]) == old(v)@[idx@[i] as int]),
        (forall|i: int|
            r is Some && 0 <= i < N ==> final(v)@[idx@[i] as int] == *final(#[trigger] r.unwrap()@[i])),
        (forall|k: int|
            r is Some && 0 <= k < old(v)@.len() && untouched(idx@, k) ==> #[trigger] final(v)@[k]
                == old(v)@[k]),
{
    v.get_disjoint_mut(idx).ok()
}

impl ChunkStorage {
    /// The blocks of all chunks.
    pub closed spec fn blocks(&self) -> Seq<Block> {
        self.blocks@
    }

    /// The stored lights of all chunks.
    pub closed spec fn lights(&self) -> Seq<LightLevel> {
        self.lights@
    }

    /// Both grids hold the same whole number of chunks.
    pub open spec fn wf(&self) -> bool {
        &&& self.blocks().len() == self.lights().len()
        &&& self.blocks().len() % CHUNK_VOLUME as nat == 0
    }

    /// Number of chunks held.
    pub open spec fn chunks(&self) -> int {
        self.blocks().len() as int / CHUNK_VOLUME as int
    }

    /// A storage without chunks.
    pub fn new() -> (s: ChunkStorage)
        ensures
            s.wf(),
            s.blocks() == Seq::<Block>::empty(),
            s.lights() == Seq::<LightLevel>::empty(),
    {
        ChunkStorage { blocks: Vec::new(), lights: Vec::new() }
    }

    /// Number of chunks held.
    pub fn chunk_count(&self) -> (n: usize)
        requires
            self.wf(),
        ensures
            n == self.chunks(),
    {
        self.blocks.len() / CHUNK_VOLUME
    }

    /// Position in the storage of the block `c` of slot `e`.
    pub fn slot(&self, e: Entity, c: DDD) -> (i: usize)
        requires
            self.wf(),
            e < self.chunks(),
            in_y_range(c),
        ensures
            i == slot_index(e, c),
            i < self.blocks().len(),
    {
        let len: usize = self.blocks.len();
        assert(e * CHUNK_VOLUME + CHUNK_VOLUME <= len);
        e * CHUNK_VOLUME + local_offset(c)
    }

    /// The block `c` of slot `e`.
    pub fn block(&self, e: Entity, c: DDD) -> (b: Block)
        requires
            self.wf(),
            e < self.chunks(),
            in_y_range(c),
        ensures
            b == self.blocks()[slot_index(e, c)],
    {
        self.blocks[self.slot(e, c)]
    }

    /// The light stored for the block `c` of slot `e`.
    pub fn light(&self, e: Entity, c: DDD) -> (l: LightLevel)
        requires
            self.wf(),
            e < self.chunks(),
            in_y_range(c),
        ensures
            l == self.lights()[slot_index(e, c)],
    {
        self.lights[self.slot(e, c)]
    }

    /// Exclusive access to the block `c` of slot `e`: what the reference
    /// holds at last is what the storage holds there afterwards.
    pub fn block_mut(&mut self, e: Entity, c: DDD) -> (b: &mut Block)
        requires
            old(self).wf(),
            e < old(self).chunks(),
            in_y_range(c),
        ensures
            *b == old(self).blocks()[slot_index(e, c)],
            final(self).blocks() == old(self).blocks().update(slot_index(e, c), *final(b)),
            final(self).lights() == old(self).lights(),
            final(self).wf(),
    {
        let i: usize = self.slot(e, c);
        &mut self.blocks[i]
    }

    /// Exclusive access to the blocks at the positions `idx` at once, where
    /// every position lies in the storage and none occurs twice.
    pub fn blocks_mut<const N: usize>(&mut self, idx: [usize; N]) -> (r: Option<[&mut Block; N]>)
        requires
            old(self).wf(),
        ensures
            r is Some <==> disjoint_in_range(idx@, old(self).blocks().len()),
            r is None ==> final(self).blocks() == old(self).blocks(),
            final(self).blocks().len() == old(self).blocks().len(),
            final(self).lights() == old(self).lights(),
            final(self).wf(),
            (forall|i: int|
                r is Some && 0 <= i < N ==> *(#[trigger] r.unwrap()@[i]) == old(self).blocks()[idx@[i] as int]),
            (forall|i: int|
                r is Some && 0 <= i < N ==> final(self).blocks()[idx@[i] as int] == *final(#[trigger] r.unwrap()@[i])),
            (forall|k: int|
                r is Some && 0 <= k < old(self).blocks().len() && untouched(idx@, k)
                    ==> #[trigger] final(self).blocks()[k] == old(self).blocks()[k]),
    {
        disjoint_mut(&mut self.blocks, idx)
    }

    /// Stores `light` for the block `c` of slot `e`.
    pub fn set_light(&mut self, e: Entity, c: DDD, light: LightLevel)
        requires
            old(self).wf(),
            e < old(self).chunks(),
            in_y_range(c),
        ensures
            final(self).lights() == old(self).lights().update(slot_index(e, c), light),
            final(self).blocks() == old(self).blocks(),
            final(self).wf(),
    {
        let i: usize = self.slot(e, c);
        self.lights[i] = light;
    }

    /// Takes the cells of `chunk` into the next free slot and returns that
    /// slot.
    pub fn push_chunk(&mut self, chunk: Chunk) -> (e: Entity)
        requires
            old(self).wf(),
        ensures
            final(self).wf(),
            e == old(self).chunks(),
            final(self).chunks() == old(self).chunks() + 1,
            final(self).blocks() == old(self).blocks() + chunk.blocks(),
            final(self).lights() == old(self).lights() + chunk.lights(),
    {
        let e: usize = self.blocks.len() / CHUNK_VOLUME;
        let (mut grid, mut light_map) = chunk.into_grids();
        self.blocks.append(&mut grid);
        self.lights.append(&mut light_map);
        e
    }
}

} // verus!
