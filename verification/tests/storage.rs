use voxel_world::accessor::same_coord;
use voxel_world::{
    Block, BlockAccessor, BlockAccessorInternal, BlockAccessorSpawner, BlockId, Chunk, ChunkStorage,
    LightLevel,
};

fn air() -> Block {
    Block::new(BlockId::Air)
}

fn dirt() -> Block {
    Block::new(BlockId::Dirt)
}

#[test]
fn storage_starts_without_chunks() {
    let storage = ChunkStorage::new();
    assert_eq!(storage.chunk_count(), 0);
}

#[test]
fn storage_gives_slots_in_order() {
    let mut storage = ChunkStorage::new();
    assert_eq!(storage.push_chunk(Chunk::filled(air())), 0);
    assert_eq!(storage.push_chunk(Chunk::filled(dirt())), 1);
    assert_eq!(storage.push_chunk(Chunk::filled(air())), 2);
    assert_eq!(storage.chunk_count(), 3);
    assert_eq!(storage.block(0, (1, 2, 3)), air());
    assert_eq!(storage.block(1, (1, 2, 3)), dirt());
    assert_eq!(storage.block(2, (15, 255, 15)), air());
    assert_eq!(storage.light(1, (0, 0, 0)), LightLevel::dark());
}

#[test]
fn storage_slot_is_chunk_base_plus_local_index() {
    let mut storage = ChunkStorage::new();
    storage.push_chunk(Chunk::filled(air()));
    storage.push_chunk(Chunk::filled(air()));
    assert_eq!(storage.slot(0, (0, 0, 0)), 0);
    assert_eq!(storage.slot(0, (3, 2, 1)), 3 + 16 + 512);
    assert_eq!(storage.slot(1, (0, 0, 0)), 65536);
    assert_eq!(storage.slot(1, (-1, 255, -1)), 2 * 65536 - 1);
}

#[test]
fn storage_keeps_the_cells_of_a_chunk() {
    let mut chunk = Chunk::filled(air());
    chunk.set_block((9, 8, 7), dirt());
    chunk.set_light((1, 2, 3), LightLevel::new(4, 5));
    let mut storage = ChunkStorage::new();
    storage.push_chunk(Chunk::filled(dirt()));
    let e = storage.push_chunk(chunk);
    assert_eq!(storage.block(e, (9, 8, 7)), dirt());
    assert_eq!(storage.block(e, (9, 8, 8)), air());
    assert_eq!(storage.light(e, (1, 2, 3)), LightLevel::new(4, 5));
    assert_eq!(storage.light(e, (1, 2, 4)), LightLevel::dark());
    assert_eq!(storage.block(0, (9, 8, 8)), dirt());
}

#[test]
fn storage_writes_one_cell() {
    let mut storage = ChunkStorage::new();
    storage.push_chunk(Chunk::filled(air()));
    storage.push_chunk(Chunk::filled(air()));
    *storage.block_mut(1, (4, 5, 6)) = dirt();
    storage.set_light(1, (4, 5, 6), LightLevel::new(1, 2));
    assert_eq!(storage.block(1, (4, 5, 6)), dirt());
    assert_eq!(storage.light(1, (4, 5, 6)), LightLevel::new(1, 2));
    assert_eq!(storage.block(0, (4, 5, 6)), air());
    assert_eq!(storage.light(0, (4, 5, 6)), LightLevel::dark());
    assert_eq!(storage.block(1, (5, 5, 6)), air());
    assert_eq!(storage.light(1, (4, 6, 6)), LightLevel::dark());
}

#[test]
fn storage_hands_out_disjoint_cells() {
    let mut storage = ChunkStorage::new();
    storage.push_chunk(Chunk::filled(air()));
    {
        let [a, b] = storage.blocks_mut([7, 65535]).unwrap();
        *a = dirt();
        *b = Block::new(BlockId::Grass);
    }
    assert_eq!(storage.block(0, (7, 0, 0)), dirt());
    assert_eq!(storage.block(0, (15, 255, 15)), Block::new(BlockId::Grass));
    assert_eq!(storage.block(0, (8, 0, 0)), air());
    assert!(storage.blocks_mut([7, 7]).is_none());
    assert!(storage.blocks_mut([7, 65536]).is_none());
    assert!(storage.blocks_mut([0, 1, 2, 1]).is_none());
    assert_eq!(storage.block(0, (7, 0, 0)), dirt());
}

#[test]
fn accessor_shows_its_storage() {
    let mut acc = BlockAccessorSpawner::new();
    acc.get_single((48, 0, 48));
    acc.insert_chunk((3, 3), Chunk::filled(dirt()));
    assert_eq!(acc.chunks().chunk_count(), 1);
    assert_eq!(acc.chunks().block(0, (48, 1, 48)), dirt());
    acc.chunks_mut().set_light(0, (48, 1, 48), LightLevel::new(6, 6));
    *acc.chunks_mut().block_mut(0, (49, 1, 48)) = air();
    assert_eq!(acc.get_light_level((48, 1, 48)), None);
    assert_eq!(acc.get_single((49, 1, 48)), Some(air()));
    *acc.get_mut((48, 1, 48)).unwrap() = air();
    assert_eq!(acc.get_light_level((48, 1, 48)), Some(LightLevel::new(6, 6)));
}

#[test]
fn same_coord_compares_all_three_axes() {
    assert!(same_coord((1, 2, 3), (1, 2, 3)));
    assert!(!same_coord((1, 2, 3), (0, 2, 3)));
    assert!(!same_coord((1, 2, 3), (1, 0, 3)));
    assert!(!same_coord((1, 2, 3), (1, 2, 0)));
}
