//! The three kinds of block accessor: one that starts the generation of
//! missing chunks, one that works on resident chunks only, and one that only
//! reads.

use crate::accessor::{BlockAccessor, BlockAccessorInternal};
use crate::block::Block;
use crate::chunk::Chunk;
use crate::chunk_map::{chunk_state, ChunkMap, ChunkMeta, ChunkTask, Entity};
use crate::coords::{chunk_coord, in_y_range, DD, DDD, MAX_Y};
use crate::light::LightLevel;
use crate::storage::ChunkStorage;
use crate::world::{lemma_cell_in_storage, lemma_touched, lemma_with_chunk, WorldView};
use vstd::prelude::*;

verus! {

/// The accessor that works on resident chunks only: a chunk that is not
/// resident is not to be had, and asking for it changes nothing. Chunks
/// become resident through a `BlockAccessorSpawner`, which `into_static`
/// turns into an accessor of this kind on the same world.
pub struct BlockAccessorStatic {
    chunk_map: ChunkMap,
    chunks: ChunkStorage,
}

/// The accessor that starts the generation of missing chunks: a chunk that
/// the index does not know is marked as generating when it is asked for, and
/// a job for it is listed in `commands`.
pub struct BlockAccessorSpawner {
    chunk_map: ChunkMap,
    chunks: ChunkStorage,
    commands: Vec<ChunkTask>,
}

/// The accessor that only reads, on borrowed parts of a world.
pub struct BlockAccessorReadOnly<'w> {
    chunk_map: &'w ChunkMap,
    chunks: &'w ChunkStorage,
}

impl BlockAccessorInternal for BlockAccessorStatic {
    closed spec fn world(&self) -> WorldView {
        WorldView {
            index: self.chunk_map@,
            pending: Seq::empty(),
            blocks: self.chunks.blocks(),
            lights: self.chunks.lights(),
        }
    }

    open spec fn spawns() -> bool {
        false
    }

    fn get_chunk_entity_or_queue(&mut self, c: DDD) -> (r: Option<Entity>) {
        let chunk_coord = ChunkMap::get_chunk_coord(c);
        self.chunk_map.entity(chunk_coord)
    }

    fn chunks(&self) -> (s: &ChunkStorage) {
        &self.chunks
    }

    fn chunks_mut(&mut self) -> (s: &mut ChunkStorage) {
        &mut self.chunks
    }
}

impl BlockAccessor for BlockAccessorStatic {

}

impl BlockAccessorInternal for BlockAccessorSpawner {
    closed spec fn world(&self) -> WorldView {
        WorldView {
            index: self.chunk_map@,
            pending: self.commands@,
            blocks: self.chunks.blocks(),
            lights: self.chunks.lights(),
        }
    }

    open spec fn spawns() -> bool {
        true
    }

    fn get_chunk_entity_or_queue(&mut self, c: DDD) -> (r: Option<Entity>) {
        let chunk_coord = ChunkMap::get_chunk_coord(c);
        proof {
            lemma_touched(self.world(), true, chunk_coord);
        }
        match self.chunk_map.get(chunk_coord) {
            None => {
                self.chunk_map.store(chunk_coord, ChunkMeta::generating());
                self.commands.push(ChunkTask { coord: chunk_coord });
                None
            },
            Some(ChunkMeta { entity: None }) => None,
            Some(ChunkMeta { entity: Some(entity) }) => Some(entity),
        }
    }

    fn chunks(&self) -> (s: &ChunkStorage) {
        &self.chunks
    }

    fn chunks_mut(&mut self) -> (s: &mut ChunkStorage) {
        &mut self.chunks
    }
}

impl BlockAccessor for BlockAccessorSpawner {

}

impl BlockAccessorStatic {
    /// An accessor on a world without chunks.
    pub fn new() -> (a: BlockAccessorStatic)
        ensures
            a.world().wf(),
            a.world().index == Map::<DD, ChunkMeta>::empty(),
            a.world().pending == Seq::<ChunkTask>::empty(),
            a.world().blocks == Seq::<Block>::empty(),
            a.world().lights == Seq::<LightLevel>::empty(),
    {
        BlockAccessorStatic { chunk_map: ChunkMap::new(), chunks: ChunkStorage::new() }
    }

    /// State of the chunk at `cc` in the index.
    pub fn chunk_meta(&self, cc: DD) -> (r: Option<ChunkMeta>)
        ensures
            r == chunk_state(self.world().index, cc),
    {
        self.chunk_map.get(cc)
    }

    /// A reader on this world.
    pub fn read_only(&self) -> (r: BlockAccessorReadOnly<'_>)
        ensures
            r.world() == (WorldView { pending: Seq::<ChunkTask>::empty(), ..self.world() }),
            self.world().wf() ==> r.world().wf(),
    {
        BlockAccessorReadOnly { chunk_map: &self.chunk_map, chunks: &self.chunks }
    }

    /// The same world behind an accessor that spawns; no job is listed yet.
    pub fn into_spawner(self) -> (s: BlockAccessorSpawner)
        ensures
            s.world() == self.world(),
    {
        BlockAccessorSpawner { chunk_map: self.chunk_map, chunks: self.chunks, commands: Vec::new() }
    }
}

impl BlockAccessorSpawner {
    /// An accessor on a world without chunks.
    pub fn new() -> (a: BlockAccessorSpawner)
        ensures
            a.world().wf(),
            a.world().index == Map::<DD, ChunkMeta>::empty(),
            a.world().pending == Seq::<ChunkTask>::empty(),
            a.world().blocks == Seq::<Block>::empty(),
            a.world().lights == Seq::<LightLevel>::empty(),
    {
        BlockAccessorSpawner {
            chunk_map: ChunkMap::new(),
            chunks: ChunkStorage::new(),
            commands: Vec::new(),
        }
    }

    /// State of the chunk at `cc` in the index.
    pub fn chunk_meta(&self, cc: DD) -> (r: Option<ChunkMeta>)
        ensures
            r == chunk_state(self.world().index, cc),
    {
        self.chunk_map.get(cc)
    }

    /// Hands out the generation jobs that were listed since the last call, in
    /// the order in which they were decided on, and clears the list. The
    /// chunks stay marked as generating, so that none is asked for again.
    pub fn take_commands(&mut self) -> (jobs: Vec<ChunkTask>)
        requires
            old(self).world().wf(),
        ensures
            jobs@ == old(self).world().pending,
            final(self).world() == (WorldView {
                pending: Seq::<ChunkTask>::empty(),
                ..old(self).world()
            }),
            final(self).world().wf(),
    {
        let mut jobs: Vec<ChunkTask> = Vec::new();
        jobs.append(&mut self.commands);
        jobs
    }

    /// The step from generating to resident: makes `chunk` the resident chunk
    /// at `cc`, in the next free slot, and returns that slot. Only a chunk
    /// that is marked as generating can become resident: for any other
    /// coordinate nothing changes and the result is `None`.
    pub fn insert_chunk(&mut self, cc: DD, chunk: Chunk) -> (r: Option<Entity>)
        requires
            old(self).world().wf(),
        ensures
            final(self).world().wf(),
            r is Some <==> chunk_state(old(self).world().index, cc) == Some(
                ChunkMeta { entity: None },
            ),
            r is None ==> final(self).world() == old(self).world(),
            r matches Some(e) ==> e == old(self).world().chunks() && final(self).world() == old(
                self,
            ).world().with_chunk(cc, chunk.blocks(), chunk.lights()),
    {
        let ghost before = self.world();
        let count: usize = self.chunks.chunk_count();
        proof {
            use_type_invariant(&chunk);
            assert(before.chunks() == count);
            if before.resident(cc) is None {
                lemma_with_chunk(before, cc, chunk.blocks(), chunk.lights());
            }
        }
        match self.chunk_map.get(cc) {
            Some(ChunkMeta { entity: None }) => {
                let entity: Entity = self.chunks.push_chunk(chunk);
                self.chunk_map.store(cc, ChunkMeta::resident(entity));
                proof {
                    assert(self.world().index =~= before.with_chunk(
                        cc,
                        chunk.blocks(),
                        chunk.lights(),
                    ).index);
                }
                Some(entity)
            },
            _ => None,
        }
    }

    /// A reader on this world.
    pub fn read_only(&self) -> (r: BlockAccessorReadOnly<'_>)
        ensures
            r.world() == (WorldView { pending: Seq::<ChunkTask>::empty(), ..self.world() }),
            self.world().wf() ==> r.world().wf(),
    {
        BlockAccessorReadOnly { chunk_map: &self.chunk_map, chunks: &self.chunks }
    }

    /// The same world behind an accessor that does not spawn. The jobs that
    /// are still listed are handed out with it.
    pub fn into_static(self) -> (r: (BlockAccessorStatic, Vec<ChunkTask>))
        ensures
            r.1@ == self.world().pending,
            r.0.world() == (WorldView { pending: Seq::<ChunkTask>::empty(), ..self.world() }),
            self.world().wf() ==> r.0.world().wf(),
    {
        (BlockAccessorStatic { chunk_map: self.chunk_map, chunks: self.chunks }, self.commands)
    }
}

impl<'w> BlockAccessorReadOnly<'w> {
    /// The world as this accessor sees it. It lists no generation job.
    pub closed spec fn world(&self) -> WorldView {
        WorldView {
            index: self.chunk_map@,
            pending: Seq::empty(),
            blocks: self.chunks.blocks(),
            lights: self.chunks.lights(),
        }
    }

    /// Slot of the chunk that owns the block at `c`, if it is resident.
    /// Nothing is queued: a chunk that is not resident is not to be had.
    pub fn get_chunk_entity_or_queue(&self, c: DDD) -> (r: Option<Entity>)
        ensures
            r == self.world().resident(chunk_coord(c)),
    {
        let chunk_coord = ChunkMap::get_chunk_coord(c);
        self.chunk_map.entity(chunk_coord)
    }

    /// The block at `c`: `None` where the height of `c` lies outside the
    /// world or its chunk is not resident.
    pub fn get_single(&self, c: DDD) -> (r: Option<Block>)
        requires
            self.world().wf(),
        ensures
            r == self.world().block_at(c),
            !in_y_range(c) ==> r is None,
    {
        if c.1 < 0 || c.1 > MAX_Y {
            return None;
        }
        match self.get_chunk_entity_or_queue(c) {
            None => None,
            Some(entity) => {
                proof {
                    lemma_cell_in_storage(self.world(), c);
                }
                Some(self.chunks.block(entity, c))
            },
        }
    }

    /// The light at `c`: `None` where the height of `c` lies outside the
    /// world, its chunk is not resident or the block at `c` is opaque.
    pub fn get_light_level(&self, c: DDD) -> (r: Option<LightLevel>)
        requires
            self.world().wf(),
        ensures
            r == self.world().light_level(c),
            !in_y_range(c) ==> r is None,
            self.world().is_opaque(c) ==> r is None,
    {
        if c.1 < 0 || c.1 > MAX_Y {
            return None;
        }
        match self.get_chunk_entity_or_queue(c) {
            None => None,
            Some(entity) => {
                proof {
                    lemma_cell_in_storage(self.world(), c);
                }
                if self.chunks.block(entity, c).visible() {
                    None
                } else {
                    Some(self.chunks.light(entity, c))
                }
            },
        }
    }
}

} // verus!
