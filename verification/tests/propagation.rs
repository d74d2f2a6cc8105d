use voxel_world::{
    Block, BlockAccessor, BlockAccessorInternal, BlockAccessorSpawner, BlockAccessorStatic, BlockId,
    Chunk, ChunkMeta, ChunkTask, LightLevel, RemeshSet,
};

fn air() -> Block {
    Block::new(BlockId::Air)
}

fn dirt() -> Block {
    Block::new(BlockId::Dirt)
}

/// A chunk of dirt with a vertical shaft of air at `x = 8, z = 8` from
/// height 100 to height 120.
fn shaft_chunk() -> Chunk {
    let mut chunk = Chunk::filled(dirt());
    for y in 100..=120 {
        chunk.set_block((8, y, 8), air());
    }
    chunk
}

/// A chunk of dirt with a corridor of air along `x` at `y = 50, z = 8`.
fn corridor_chunk() -> Chunk {
    let mut chunk = Chunk::filled(dirt());
    for x in 0..16 {
        chunk.set_block((x, 50, 8), air());
    }
    chunk
}

/// Asks for the chunk at `cc`, takes the job and delivers `chunk` for it.
fn load(acc: &mut BlockAccessorSpawner, cc: (i32, i32), chunk: Chunk) -> Option<usize> {
    acc.get_chunk_entity_or_queue((cc.0 * 16, 0, cc.1 * 16));
    acc.take_commands();
    acc.insert_chunk(cc, chunk)
}

/// A world of the given chunks behind an accessor that does not spawn.
fn static_world(chunks: Vec<((i32, i32), Chunk)>) -> BlockAccessorStatic {
    let mut spawner = BlockAccessorSpawner::new();
    for (n, (cc, chunk)) in chunks.into_iter().enumerate() {
        assert_eq!(load(&mut spawner, cc, chunk), Some(n));
    }
    spawner.into_static().0
}

fn sorted(remesh: &RemeshSet) -> Vec<(i32, i32)> {
    let mut all = remesh.to_vec();
    all.sort();
    all
}

#[test]
fn opaque_block_loses_its_light() {
    let mut acc = static_world(vec![((2, -3), Chunk::filled(air()))]);
    let c = (2 * 16 + 5, 70, -3 * 16 + 5);
    acc.set_light_level(c, LightLevel::new(7, 9));
    *acc.get_mut(c).unwrap() = dirt();
    assert_eq!(acc.get_light_level(c), None);
    let mut remesh = RemeshSet::new();
    acc.propagate_light(c, &mut remesh);
    assert_eq!(sorted(&remesh), vec![(2, -3)]);
    assert_eq!(acc.get_light_level(c), None);
    assert_eq!(acc.get_single(c), Some(dirt()));
    *acc.get_mut(c).unwrap() = air();
    assert_eq!(acc.get_light_level(c), Some(LightLevel::dark()));
}

#[test]
fn opaque_start_touches_no_other_light() {
    let mut acc = static_world(vec![((0, 0), Chunk::filled(air()))]);
    let c = (5, 70, 5);
    acc.set_light_level((5, 71, 5), LightLevel::new(15, 15));
    acc.set_light_level((6, 70, 5), LightLevel::new(0, 3));
    *acc.get_mut(c).unwrap() = Block::new(BlockId::Cobble);
    let mut remesh = RemeshSet::new();
    acc.propagate_light(c, &mut remesh);
    assert_eq!(acc.get_light_level((5, 71, 5)), Some(LightLevel::new(15, 15)));
    assert_eq!(acc.get_light_level((6, 70, 5)), Some(LightLevel::new(0, 3)));
    assert_eq!(acc.get_light_level((4, 70, 5)), Some(LightLevel::dark()));
    assert_eq!(remesh.len(), 1);
}

#[test]
fn propagation_from_a_missing_chunk_does_nothing() {
    let mut acc = BlockAccessorStatic::new();
    let mut remesh = RemeshSet::new();
    acc.propagate_light((0, 10, 0), &mut remesh);
    assert_eq!(remesh.len(), 0);
    let mut spawner = BlockAccessorSpawner::new();
    spawner.propagate_light((0, 10, 0), &mut remesh);
    assert_eq!(remesh.len(), 0);
    assert_eq!(spawner.take_commands(), vec![ChunkTask { coord: (0, 0) }]);
}

#[test]
fn lamp_light_decays_down_a_shaft() {
    let mut acc = static_world(vec![((0, 0), shaft_chunk())]);
    acc.set_light_level((8, 120, 8), LightLevel::new(0, 15));
    let mut remesh = RemeshSet::new();
    acc.propagate_light((8, 119, 8), &mut remesh);
    for depth in 0..=20 {
        let expected = if depth <= 15 { 15 - depth } else { 0 };
        assert_eq!(
            acc.get_light_level((8, 120 - depth, 8)),
            Some(LightLevel::new(0, expected as u8)),
            "depth {}",
            depth
        );
    }
    assert_eq!(acc.get_light_level((8, 99, 8)), None);
    assert_eq!(acc.get_light_level((9, 119, 8)), None);
    assert_eq!(sorted(&remesh), vec![(0, 0)]);
}

#[test]
fn full_daylight_falls_undiminished_down_a_shaft() {
    let mut acc = static_world(vec![((0, 0), shaft_chunk())]);
    acc.set_light_level((8, 120, 8), LightLevel::new(15, 0));
    let mut remesh = RemeshSet::new();
    acc.propagate_light((8, 119, 8), &mut remesh);
    for y in 100..=120 {
        assert_eq!(acc.get_light_level((8, y, 8)), Some(LightLevel::new(15, 0)), "height {}", y);
    }
    assert_eq!(sorted(&remesh), vec![(0, 0)]);
}

#[test]
fn dimmed_daylight_decays_down_a_shaft() {
    let mut acc = static_world(vec![((0, 0), shaft_chunk())]);
    acc.set_light_level((8, 120, 8), LightLevel::new(14, 0));
    let mut remesh = RemeshSet::new();
    acc.propagate_light((8, 119, 8), &mut remesh);
    for depth in 0..=20 {
        let expected = if depth <= 14 { 14 - depth } else { 0 };
        assert_eq!(
            acc.get_light_level((8, 120 - depth, 8)),
            Some(LightLevel::new(expected as u8, 0))
        );
    }
}

#[test]
fn daylight_decays_upward() {
    let mut acc = static_world(vec![((0, 0), shaft_chunk())]);
    acc.set_light_level((8, 100, 8), LightLevel::new(15, 0));
    let mut remesh = RemeshSet::new();
    acc.propagate_light((8, 101, 8), &mut remesh);
    for height in 0..=20 {
        let expected = if height <= 15 { 15 - height } else { 0 };
        assert_eq!(
            acc.get_light_level((8, 100 + height, 8)),
            Some(LightLevel::new(expected as u8, 0))
        );
    }
}

#[test]
fn daylight_decays_along_a_corridor_and_across_chunks() {
    let mut acc = static_world(vec![((0, 0), corridor_chunk()), ((1, 0), corridor_chunk())]);
    acc.set_light_level((2, 50, 8), LightLevel::new(15, 6));
    let mut remesh = RemeshSet::new();
    acc.propagate_light((3, 50, 8), &mut remesh);
    for n in 0..=29 {
        let heaven = if n <= 15 { 15 - n } else { 0 };
        let hearth = if n <= 6 { 6 - n } else { 0 };
        assert_eq!(
            acc.get_light_level((2 + n, 50, 8)),
            Some(LightLevel::new(heaven as u8, hearth as u8)),
            "distance {}",
            n
        );
    }
    assert_eq!(acc.get_light_level((1, 50, 8)), Some(LightLevel::dark()));
    assert_eq!(sorted(&remesh), vec![(0, 0), (1, 0)]);
}

#[test]
fn flood_stops_at_a_chunk_that_is_not_resident() {
    let mut acc = static_world(vec![((0, 0), corridor_chunk())]);
    acc.set_light_level((12, 50, 8), LightLevel::new(0, 15));
    let mut remesh = RemeshSet::new();
    acc.propagate_light((13, 50, 8), &mut remesh);
    assert_eq!(acc.get_light_level((13, 50, 8)), Some(LightLevel::new(0, 14)));
    assert_eq!(acc.get_light_level((15, 50, 8)), Some(LightLevel::new(0, 12)));
    assert_eq!(acc.get_light_level((16, 50, 8)), None);
    assert_eq!(sorted(&remesh), vec![(0, 0), (1, 0)]);
    assert_eq!(acc.chunk_meta((1, 0)), None);
}

#[test]
fn flood_resumes_when_the_chunk_has_come() {
    let mut acc = BlockAccessorSpawner::new();
    load(&mut acc, (0, 0), corridor_chunk());
    acc.set_light_level((12, 50, 8), LightLevel::new(0, 15));
    let mut remesh = RemeshSet::new();
    acc.propagate_light((13, 50, 8), &mut remesh);
    assert_eq!(acc.chunk_meta((1, 0)), Some(ChunkMeta::generating()));
    assert_eq!(acc.take_commands(), vec![ChunkTask { coord: (1, 0) }]);
    assert_eq!(acc.insert_chunk((1, 0), corridor_chunk()), Some(1));
    let mut remesh = RemeshSet::new();
    acc.propagate_light((16, 50, 8), &mut remesh);
    assert_eq!(acc.get_light_level((16, 50, 8)), Some(LightLevel::new(0, 11)));
    assert_eq!(acc.get_light_level((26, 50, 8)), Some(LightLevel::new(0, 1)));
    assert_eq!(acc.get_light_level((27, 50, 8)), Some(LightLevel::dark()));
    assert_eq!(sorted(&remesh), vec![(1, 0)]);
    assert!(acc.take_commands().is_empty());
}

#[test]
fn second_propagation_marks_nothing() {
    let mut acc = static_world(vec![((0, 0), shaft_chunk())]);
    acc.set_light_level((8, 120, 8), LightLevel::new(15, 15));
    let mut remesh = RemeshSet::new();
    acc.propagate_light((8, 119, 8), &mut remesh);
    assert_eq!(remesh.len(), 1);
    let before: Vec<_> = (100..=120).map(|y| acc.get_light_level((8, y, 8))).collect();
    for y in 100..=120 {
        let mut again = RemeshSet::new();
        acc.propagate_light((8, y, 8), &mut again);
        assert_eq!(again.len(), 0, "height {}", y);
    }
    let after: Vec<_> = (100..=120).map(|y| acc.get_light_level((8, y, 8))).collect();
    assert_eq!(before, after);
}

#[test]
fn propagation_from_a_lit_block_without_brighter_neighbours_does_nothing() {
    let mut acc = static_world(vec![((0, 0), shaft_chunk())]);
    acc.set_light_level((8, 120, 8), LightLevel::new(0, 15));
    let mut remesh = RemeshSet::new();
    acc.propagate_light((8, 120, 8), &mut remesh);
    assert_eq!(remesh.len(), 0);
    assert_eq!(acc.get_light_level((8, 119, 8)), Some(LightLevel::dark()));
}

#[test]
fn propagation_keeps_what_was_marked_before() {
    let mut acc = static_world(vec![((0, 0), shaft_chunk())]);
    acc.set_light_level((8, 120, 8), LightLevel::new(0, 15));
    let mut remesh = RemeshSet::new();
    remesh.insert((9, 9));
    acc.propagate_light((8, 119, 8), &mut remesh);
    assert_eq!(sorted(&remesh), vec![(0, 0), (9, 9)]);
}

#[test]
fn light_at_the_lowest_levels() {
    for source in [0u8, 1, 2] {
        let mut acc = static_world(vec![((0, 0), corridor_chunk())]);
        acc.set_light_level((4, 50, 8), LightLevel::new(source, source));
        let mut remesh = RemeshSet::new();
        acc.propagate_light((5, 50, 8), &mut remesh);
        let expected = if source == 2 { 1 } else { 0 };
        assert_eq!(acc.get_light_level((5, 50, 8)), Some(LightLevel::new(expected, expected)));
        assert_eq!(acc.get_light_level((6, 50, 8)), Some(LightLevel::dark()));
        assert_eq!(remesh.len(), if source == 2 { 1 } else { 0 });
    }
}

#[test]
fn channels_are_relaxed_independently() {
    let mut acc = static_world(vec![((0, 0), corridor_chunk())]);
    acc.set_light_level((4, 50, 8), LightLevel::new(10, 2));
    acc.set_light_level((6, 50, 8), LightLevel::new(3, 12));
    acc.set_light_level((5, 50, 8), LightLevel::new(9, 0));
    let mut remesh = RemeshSet::new();
    acc.propagate_light((5, 50, 8), &mut remesh);
    assert_eq!(acc.get_light_level((5, 50, 8)), Some(LightLevel::new(9, 11)));
    assert_eq!(acc.get_light_level((4, 50, 8)), Some(LightLevel::new(10, 10)));
    assert_eq!(acc.get_light_level((6, 50, 8)), Some(LightLevel::new(8, 12)));
}

#[test]
fn light_spreads_at_the_top_and_bottom_of_the_world() {
    let mut acc = static_world(vec![((0, 0), Chunk::filled(air()))]);
    acc.set_light_level((0, 255, 0), LightLevel::new(0, 3));
    acc.set_light_level((0, 0, 0), LightLevel::new(0, 3));
    let mut remesh = RemeshSet::new();
    acc.propagate_light((0, 254, 0), &mut remesh);
    acc.propagate_light((1, 0, 0), &mut remesh);
    assert_eq!(acc.get_light_level((0, 254, 0)), Some(LightLevel::new(0, 2)));
    assert_eq!(acc.get_light_level((0, 253, 0)), Some(LightLevel::new(0, 1)));
    assert_eq!(acc.get_light_level((1, 254, 0)), Some(LightLevel::new(0, 1)));
    assert_eq!(acc.get_light_level((1, 0, 0)), Some(LightLevel::new(0, 2)));
    assert_eq!(acc.get_light_level((1, 1, 0)), Some(LightLevel::new(0, 1)));
    assert_eq!(acc.get_light_level((2, 0, 0)), Some(LightLevel::new(0, 1)));
    assert_eq!(sorted(&remesh), vec![(-1, 0), (0, -1), (0, 0)]);
}

#[test]
fn propagation_changes_no_block() {
    let mut acc = static_world(vec![((0, 0), shaft_chunk())]);
    acc.set_light_level((8, 120, 8), LightLevel::new(15, 15));
    let mut remesh = RemeshSet::new();
    acc.propagate_light((8, 119, 8), &mut remesh);
    for y in 98..=122 {
        let expected = if (100..=120).contains(&y) { air() } else { dirt() };
        assert_eq!(acc.get_single((8, y, 8)), Some(expected));
        assert_eq!(acc.get_single((9, y, 8)), Some(dirt()));
    }
}
