use voxel_world::{Block, BlockId, Chunk, LightLevel};

#[test]
fn light_level_keeps_channels_in_range() {
    let l = LightLevel::new(7, 15);
    assert_eq!((l.heaven(), l.hearth()), (7, 15));
    let l = LightLevel::new(0, 0);
    assert_eq!((l.heaven(), l.hearth()), (0, 0));
}

#[test]
fn light_level_above_fifteen_is_cut_down() {
    let l = LightLevel::new(16, 255);
    assert_eq!((l.heaven(), l.hearth()), (15, 15));
    let l = LightLevel::new(17, 3);
    assert_eq!((l.heaven(), l.hearth()), (15, 3));
}

#[test]
fn dark_has_no_light() {
    assert_eq!(LightLevel::dark(), LightLevel::new(0, 0));
}

#[test]
fn raise_decays_by_one_level() {
    let cur = LightLevel::new(2, 2);
    assert_eq!(cur.raise(LightLevel::new(9, 5), false), LightLevel::new(8, 4));
    assert_eq!(cur.raise(LightLevel::new(15, 15), false), LightLevel::new(14, 14));
    assert_eq!(cur.raise(LightLevel::new(3, 3), false), LightLevel::new(2, 2));
    assert_eq!(cur.raise(LightLevel::new(4, 1), false), LightLevel::new(3, 2));
}

#[test]
fn raise_takes_nothing_from_a_dark_donor() {
    let cur = LightLevel::dark();
    assert_eq!(cur.raise(LightLevel::dark(), false), LightLevel::dark());
    assert_eq!(cur.raise(LightLevel::dark(), true), LightLevel::dark());
    assert_eq!(cur.raise(LightLevel::new(1, 1), false), LightLevel::dark());
    assert_eq!(cur.raise(LightLevel::new(1, 1), true), LightLevel::dark());
}

#[test]
fn full_daylight_from_above_does_not_decay() {
    let cur = LightLevel::dark();
    assert_eq!(cur.raise(LightLevel::new(15, 15), true), LightLevel::new(15, 14));
    assert_eq!(cur.raise(LightLevel::new(14, 15), true), LightLevel::new(13, 14));
    assert_eq!(cur.raise(LightLevel::new(15, 0), false), LightLevel::new(14, 0));
}

#[test]
fn raise_never_lowers_a_channel() {
    for h in 0..=15u8 {
        for d in 0..=15u8 {
            let r = LightLevel::new(h, h).raise(LightLevel::new(d, d), false);
            assert!(r.heaven() >= h && r.hearth() >= h);
            assert!(r.heaven() as i32 >= d as i32 - 1);
            assert!(r.heaven() == h || r.heaven() == d - 1);
        }
    }
}

#[test]
fn satisfies_within_one_level() {
    let target = LightLevel::new(10, 4);
    assert!(LightLevel::new(9, 3).satisfies(target));
    assert!(LightLevel::new(15, 15).satisfies(target));
    assert!(!LightLevel::new(8, 3).satisfies(target));
    assert!(!LightLevel::new(9, 2).satisfies(target));
}

#[test]
fn any_light_satisfies_a_dark_or_dim_target() {
    assert!(LightLevel::dark().satisfies(LightLevel::dark()));
    assert!(LightLevel::dark().satisfies(LightLevel::new(1, 1)));
    assert!(!LightLevel::dark().satisfies(LightLevel::new(2, 0)));
    assert!(!LightLevel::dark().satisfies(LightLevel::new(0, 2)));
}

#[test]
fn same_compares_both_channels() {
    assert!(LightLevel::new(3, 4).same(LightLevel::new(3, 4)));
    assert!(!LightLevel::new(3, 4).same(LightLevel::new(4, 3)));
    assert!(!LightLevel::new(3, 4).same(LightLevel::new(3, 5)));
}

#[test]
fn full_cubes_are_opaque() {
    assert!(!BlockId::Air.visible());
    assert!(BlockId::Dirt.visible());
    assert!(BlockId::Grass.visible());
    assert!(BlockId::Cobble.visible());
    assert!(!BlockId::Stair.visible());
    assert!(Block::new(BlockId::Cobble).visible());
    assert!(!Block::new(BlockId::Air).visible());
    assert_eq!(Block::new(BlockId::Grass).block, BlockId::Grass);
}

#[test]
fn filled_chunk_holds_one_block_and_no_light() {
    let chunk = Chunk::filled(Block::new(BlockId::Dirt));
    for c in [(0, 0, 0), (15, 255, 15), (7, 100, 3), (-1, 5, 16)] {
        assert_eq!(chunk.block(c), Some(Block::new(BlockId::Dirt)));
        assert_eq!(chunk.light(c), Some(LightLevel::dark()));
    }
    let (grid, light_map) = chunk.into_grids();
    assert_eq!(grid.len(), 65536);
    assert_eq!(light_map.len(), 65536);
}

#[test]
fn chunk_cells_are_set_one_by_one() {
    let mut chunk = Chunk::filled(Block::new(BlockId::Air));
    assert!(chunk.set_block((3, 4, 5), Block::new(BlockId::Stair)));
    assert!(chunk.set_light((3, 4, 5), LightLevel::new(2, 9)));
    assert_eq!(chunk.block((3, 4, 5)), Some(Block::new(BlockId::Stair)));
    assert_eq!(chunk.light((3, 4, 5)), Some(LightLevel::new(2, 9)));
    assert_eq!(chunk.block((19, 4, -11)), Some(Block::new(BlockId::Stair)));
    assert_eq!(chunk.block((4, 4, 5)), Some(Block::new(BlockId::Air)));
    assert_eq!(chunk.block((3, 5, 5)), Some(Block::new(BlockId::Air)));
    assert_eq!(chunk.light((3, 4, 6)), Some(LightLevel::dark()));
}

#[test]
fn chunk_has_no_cell_outside_the_height_range() {
    let mut chunk = Chunk::filled(Block::new(BlockId::Air));
    assert!(!chunk.set_block((0, -1, 0), Block::new(BlockId::Dirt)));
    assert!(!chunk.set_block((0, 256, 0), Block::new(BlockId::Dirt)));
    assert!(!chunk.set_light((0, 256, 0), LightLevel::new(1, 1)));
    assert_eq!(chunk.block((0, -1, 0)), None);
    assert_eq!(chunk.block((0, 256, 0)), None);
    assert_eq!(chunk.light((0, i32::MIN, 0)), None);
    assert_eq!(chunk.block((0, 255, 0)), Some(Block::new(BlockId::Air)));
    assert_eq!(chunk.block((0, 0, 0)), Some(Block::new(BlockId::Air)));
}
