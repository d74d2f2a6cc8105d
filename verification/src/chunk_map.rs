//! The chunk index: which chunk coordinates are being generated and which
//! are resident, and in which slot of the chunk storage.

use crate::coords::{axis_chunk, chunk_coord, DD, DDD};
use vstd::prelude::*;

verus! {

/// Handle of a resident chunk: its slot in the chunk storage.
pub type Entity = usize;

/// State of one chunk coordinate in the index. Without an entity the chunk is
/// being generated; with one it is resident. A coordinate that the index does
/// not hold has not been asked for yet.
#[derive(Copy, Clone, PartialEq, Debug, Eq)]
pub struct ChunkMeta {
    pub entity: Option<Entity>,
}

impl ChunkMeta {
    /// The state of a chunk whose generation is under way.
    pub fn generating() -> (m: Self)
        ensures
            m == (ChunkMeta { entity: None }),
    {
        Self { entity: None }
    }

    /// The state of a chunk that lives in slot `entity`.
    pub fn resident(entity: Entity) -> (m: Self)
        ensures
            m == (ChunkMeta { entity: Some(entity) }),
    {
        Self { entity: Some(entity) }
    }
}

/// A generation job that has been decided on and is to be started for the
/// chunk at `coord`.
#[derive(Copy, Clone, PartialEq, Debug, Eq)]
pub struct ChunkTask {
    pub coord: DD,
}

/// Index from chunk coordinate to chunk state, kept in a hash map of
/// `bevy::utils`. Verus sees the map only through `chunk_map_entries`.
#[verifier::external_body]
pub struct ChunkMap {
    map: bevy::utils::HashMap<DD, ChunkMeta>,
}

/// The entries of a chunk index.
pub uninterp spec fn chunk_map_entries(m: ChunkMap) -> Map<DD, ChunkMeta>;

impl View for ChunkMap {
    type V = Map<DD, ChunkMeta>;

    open spec fn view(&self) -> Map<DD, ChunkMeta> {
        chunk_map_entries(*self)
    }
}

/// State of `cc` in the index `entries`, if it has one.
pub open spec fn chunk_state(entries: Map<DD, ChunkMeta>, cc: DD) -> Option<ChunkMeta> {
    if entries.contains_key(cc) {
        Some(entries[cc])
    } else {
        None
    }
}

/// Slot of the chunk at `cc`, if the index `entries` has it resident.
pub open spec fn resident_entity(entries: Map<DD, ChunkMeta>, cc: DD) -> Option<Entity> {
    if entries.contains_key(cc) {
        entries[cc].entity
    } else {
        None
    }
}

impl ChunkMap {
    /// `HashMap::default` of hashbrown, through `bevy::utils`: a map without
    /// entries.
    #[verifier::external_body]
    fn empty() -> (m: ChunkMap)
        ensures
            (chunk_map_entries(m) == Map::<DD, ChunkMeta>::empty()),
    {
        ChunkMap { map: bevy::utils::HashMap::default() }
    }

    /// `HashMap::get` of hashbrown: the value stored under the key, or `None`
    /// where the map has no such key. The map is not changed.
    #[verifier::external_body]
    fn lookup(&self, cc: DD) -> (r: Option<ChunkMeta>)
        ensures
            r == chunk_state(chunk_map_entries(*self), cc),
    {
        self.map.get(&cc).copied()
    }

    /// `HashMap::insert` of hashbrown: afterwards the key holds the new
    /// value and every other key what it held before; the value that the key
    /// held before is returned, `None` where it held none.
    #[verifier::external_body]
    pub(crate) fn store(&mut self, cc: DD, meta: ChunkMeta) -> (r: Option<ChunkMeta>)
        ensures
            chunk_map_entries(*final(self)) == chunk_map_entries(*old(self)).insert(cc, meta),
            r == chunk_state(chunk_map_entries(*old(self)), cc),
    {
        self.map.insert(cc, meta)
    }

    /// An index that holds no chunk.
    pub fn new() -> (m: ChunkMap)
        ensures
            m@ == Map::<DD, ChunkMeta>::empty(),
    {
        ChunkMap::empty()
    }

    /// State of the chunk at `cc`: `None` where it has not been asked for.
    pub fn get(&self, cc: DD) -> (r: Option<ChunkMeta>)
        ensures
            r == chunk_state(self@, cc),
    {
        self.lookup(cc)
    }

    /// Slot of the chunk at `cc` if it is resident.
    pub fn entity(&self, cc: DD) -> (r: Option<Entity>)
        ensures
            r == resident_entity(self@, cc),
    {
        match self.lookup(cc) {
            None => None,
            Some(ChunkMeta { entity: None }) => None,
            Some(ChunkMeta { entity: Some(entity) }) => Some(entity),
        }
    }

    /// Chunk that owns the block at `coord`: both horizontal coordinates
    /// divided by 16 and rounded down, so that negative coordinates fall into
    /// chunks with negative indices.
    pub fn get_chunk_coord(coord: DDD) -> (cc: DD)
        ensures
            cc == chunk_coord(coord),
    {
        (axis_chunk(coord.0), axis_chunk(coord.2))
    }
}

} // verus!
