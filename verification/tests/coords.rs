use voxel_world::coords::{axis_chunk, immediate_neighbour, local_offset, CHUNK_VOLUME, SIDE_UP};
use voxel_world::ChunkMap;

#[test]
fn chunk_coord_of_negative_blocks_rounds_down() {
    assert_eq!(ChunkMap::get_chunk_coord((-1, 7, 0)), (-1, 0));
    assert_eq!(ChunkMap::get_chunk_coord((-16, 200, 0)), (-1, 0));
    assert_eq!(ChunkMap::get_chunk_coord((-17, 0, -1)), (-2, -1));
    assert_eq!(ChunkMap::get_chunk_coord((-32, 0, -33)), (-2, -3));
}

#[test]
fn chunk_coord_of_positive_blocks() {
    assert_eq!(ChunkMap::get_chunk_coord((0, 3, 0)), (0, 0));
    assert_eq!(ChunkMap::get_chunk_coord((15, 255, 0)), (0, 0));
    assert_eq!(ChunkMap::get_chunk_coord((16, 0, 15)), (1, 0));
    assert_eq!(ChunkMap::get_chunk_coord((31, 0, 32)), (1, 2));
}

#[test]
fn chunk_coord_ignores_height() {
    for y in [i32::MIN, -1, 0, 128, 255, 256, i32::MAX] {
        assert_eq!(ChunkMap::get_chunk_coord((-5, y, 40)), (-1, 2));
    }
}

#[test]
fn chunk_coord_of_a_chunk_origin_is_that_chunk() {
    for c in [(-1, 0, 0), (-16, 0, 5), (0, 9, 0), (15, 1, 31), (1000, 2, -1000)] {
        let cc = ChunkMap::get_chunk_coord(c);
        assert_eq!(ChunkMap::get_chunk_coord((16 * cc.0, c.1, 16 * cc.1)), cc);
    }
}

#[test]
fn chunk_coord_at_the_ends_of_the_axis() {
    assert_eq!(ChunkMap::get_chunk_coord((i32::MIN, 0, i32::MAX)), (-134217728, 134217727));
    assert_eq!(axis_chunk(i32::MIN + 15), -134217728);
    assert_eq!(axis_chunk(i32::MIN + 16), -134217727);
}

#[test]
fn axis_chunk_agrees_with_biased_division() {
    for v in -100..100 {
        let biased = if v < 0 { (v - 15) / 16 } else { v / 16 };
        assert_eq!(axis_chunk(v), biased);
    }
}

#[test]
fn local_offset_lays_cells_out_by_x_then_z_then_y() {
    assert_eq!(local_offset((0, 0, 0)), 0);
    assert_eq!(local_offset((1, 0, 0)), 1);
    assert_eq!(local_offset((0, 0, 1)), 16);
    assert_eq!(local_offset((0, 1, 0)), 256);
    assert_eq!(local_offset((15, 255, 15)), CHUNK_VOLUME - 1);
    assert_eq!(local_offset((-1, 0, -16)), 15);
    assert_eq!(local_offset((16, 2, 33)), 512 + 16);
}

#[test]
fn immediate_neighbours_in_side_order() {
    let c = (3, 10, -4);
    assert_eq!(immediate_neighbour(c, 0), Some((4, 10, -4)));
    assert_eq!(immediate_neighbour(c, 1), Some((2, 10, -4)));
    assert_eq!(immediate_neighbour(c, SIDE_UP), Some((3, 11, -4)));
    assert_eq!(immediate_neighbour(c, 3), Some((3, 9, -4)));
    assert_eq!(immediate_neighbour(c, 4), Some((3, 10, -3)));
    assert_eq!(immediate_neighbour(c, 5), Some((3, 10, -5)));
    assert_eq!(immediate_neighbour(c, 6), None);
    assert_eq!(immediate_neighbour(c, 255), None);
}

#[test]
fn no_neighbour_beyond_the_representable_coordinates() {
    assert_eq!(immediate_neighbour((i32::MAX, 0, 0), 0), None);
    assert_eq!(immediate_neighbour((i32::MIN, 0, 0), 1), None);
    assert_eq!(immediate_neighbour((0, i32::MAX, 0), 2), None);
    assert_eq!(immediate_neighbour((0, i32::MIN, 0), 3), None);
    assert_eq!(immediate_neighbour((0, 0, i32::MAX), 4), None);
    assert_eq!(immediate_neighbour((0, 0, i32::MIN), 5), None);
    assert_eq!(immediate_neighbour((i32::MAX, 0, 0), 1), Some((i32::MAX - 1, 0, 0)));
}
