//! Block and chunk coordinates, the layout of a chunk's cells, and the six
//! axis-aligned neighbours of a block.

use vstd::prelude::*;

verus! {

/// Chunk coordinate `(cx, cz)`.
pub type DD = (i32, i32);

/// Block coordinate `(x, y, z)`; `y` is the vertical axis.
pub type DDD = (i32, i32, i32);

/// Number of cells in one chunk: 16 x 256 x 16.
pub const CHUNK_VOLUME: usize = 65536;

/// Highest vertical coordinate that holds a block.
pub const MAX_Y: i32 = 255;

/// Chunk index of one horizontal axis value: the floor of `v / 16`.
pub open spec fn chunk_axis(v: int) -> int {
    v / 16
}

/// The same index computed the machine way: a negative value is first biased
/// by -15 and the quotient then truncates toward zero.
pub open spec fn biased_axis(v: int) -> int {
    let w = if v < 0 { v - 15 } else { v };
    if w < 0 { -((-w) / 16) } else { w / 16 }
}

/// Chunk that owns the block coordinate `c`. The height plays no part.
pub open spec fn chunk_coord(c: DDD) -> DD {
    (chunk_axis(c.0 as int) as i32, chunk_axis(c.2 as int) as i32)
}

/// The block of chunk `cc` with the lowest `x` and `z`, at height `y`.
pub open spec fn chunk_origin(cc: DD, y: i32) -> (int, int, int) {
    (16 * cc.0, y as int, 16 * cc.1)
}

/// Whether the height of `c` lies in the world, `0..=255`.
pub open spec fn in_y_range(c: DDD) -> bool {
    0 <= c.1 <= MAX_Y
}

/// Position of `c` inside its chunk's grids.
pub open spec fn local_index(c: DDD) -> int {
    (c.0 as int % 16) + 16 * (c.2 as int % 16) + 256 * (c.1 as int)
}

/// Offset of the neighbour on side `k`: east, west, up, down, south, north.
pub open spec fn side_offset(k: int) -> (int, int, int) {
    if k == 0 {
        (1, 0, 0)
    } else if k == 1 {
        (-1, 0, 0)
    } else if k == 2 {
        (0, 1, 0)
    } else if k == 3 {
        (0, -1, 0)
    } else if k == 4 {
        (0, 0, 1)
    } else {
        (0, 0, -1)
    }
}

/// Side on which the neighbour lies directly above.
pub const SIDE_UP: u8 = 2;

/// Neighbour of `c` on side `k`, where there is one: `k` names a side and the
/// neighbour's coordinates are representable.
pub open spec fn neighbour(c: DDD, k: int) -> Option<DDD> {
    let o = side_offset(k);
    let x = c.0 + o.0;
    let y = c.1 + o.1;
    let z = c.2 + o.2;
    if 0 <= k < 6 && i32::MIN <= x <= i32::MAX && i32::MIN <= y <= i32::MAX && i32::MIN <= z
        <= i32::MAX {
        Some((x as i32, y as i32, z as i32))
    } else {
        None
    }
}

/// Chunk index of one horizontal axis value.
pub fn axis_chunk(v: i32) -> (r: i32)
    ensures
        r == chunk_axis(v as int),
{
    if v < 0 {
        (v + 1) / 16 - 1
    } else {
        v / 16
    }
}

/// Position of `c` inside its chunk's grids.
pub fn local_offset(c: DDD) -> (r: usize)
    requires
        in_y_range(c),
    ensures
        r == local_index(c),
        r < CHUNK_VOLUME,
{
    let lx: i32 = c.0 - 16 * axis_chunk(c.0);
    let lz: i32 = c.2 - 16 * axis_chunk(c.2);
    (lx + 16 * lz + 256 * c.1) as usize
}

/// Neighbour of `c` on side `side`; `None` for a side above 5 and for a
/// neighbour beyond the representable coordinates.
pub fn immediate_neighbour(c: DDD, side: u8) -> (r: Option<DDD>)
    ensures
        r == neighbour(c, side as int),
{
    if side == 0 {
        if c.0 == i32::MAX { None } else { Some((c.0 + 1, c.1, c.2)) }
    } else if side == 1 {
        if c.0 == i32::MIN { None } else { Some((c.0 - 1, c.1, c.2)) }
    } else if side == 2 {
        if c.1 == i32::MAX { None } else { Some((c.0, c.1 + 1, c.2)) }
    } else if side == 3 {
        if c.1 == i32::MIN { None } else { Some((c.0, c.1 - 1, c.2)) }
    } else if side == 4 {
        if c.2 == i32::MAX { None } else { Some((c.0, c.1, c.2 + 1)) }
    } else if side == 5 {
        if c.2 == i32::MIN { None } else { Some((c.0, c.1, c.2 - 1)) }
    } else {
        None
    }
}

/// Floor division and the biased truncating division agree on every value.
pub proof fn lemma_bias_rule(v: int)
    ensures
        biased_axis(v) == chunk_axis(v),
{
}

/// Two block coordinates whose `x` and `z` have the same floor-divided
/// sixteenths lie in the same chunk, whatever their heights.
pub proof fn lemma_same_chunk(a: DDD, b: DDD)
    requires
        chunk_axis(a.0 as int) == chunk_axis(b.0 as int),
        chunk_axis(a.2 as int) == chunk_axis(b.2 as int),
    ensures
        chunk_coord(a) == chunk_coord(b),
{
}

/// Mapping a block to its chunk is idempotent: the chunk of a chunk's own
/// origin block is that chunk again.
pub proof fn lemma_chunk_coord_idempotent(c: DDD, y: i32)
    ensures
        ({
            let o = chunk_origin(chunk_coord(c), y);
            &&& i32::MIN <= o.0 <= i32::MAX
            &&& i32::MIN <= o.2 <= i32::MAX
            &&& chunk_coord((o.0 as i32, y, o.2 as i32)) == chunk_coord(c)
        }),
{
}

/// A block and its position in the chunk determine each other: two blocks of
/// one chunk with the same local index are the same block.
pub proof fn lemma_local_index_injective(a: DDD, b: DDD)
    requires
        in_y_range(a),
        in_y_range(b),
        chunk_coord(a) == chunk_coord(b),
        local_index(a) == local_index(b),
    ensures
        a == b,
{
    let (ax, ay, az) = (a.0 as int, a.1 as int, a.2 as int);
    let (bx, by, bz) = (b.0 as int, b.1 as int, b.2 as int);
    let (rax, raz) = (ax % 16, az % 16);
    let (rbx, rbz) = (bx % 16, bz % 16);
    assert(ax == 16 * (ax / 16) + rax && 0 <= rax < 16);
    assert(az == 16 * (az / 16) + raz && 0 <= raz < 16);
    assert(bx == 16 * (bx / 16) + rbx && 0 <= rbx < 16);
    assert(bz == 16 * (bz / 16) + rbz && 0 <= rbz < 16);
    assert(rax + 16 * raz + 256 * ay == rbx + 16 * rbz + 256 * by);
    assert(rax == rbx);
    assert(raz == rbz);
    assert(ay == by);
}

/// The local index of a block in the world's height range is below the chunk
/// volume.
pub proof fn lemma_local_index_bounds(c: DDD)
    requires
        in_y_range(c),
    ensures
        0 <= local_index(c) < CHUNK_VOLUME,
{
}

} // verus!
