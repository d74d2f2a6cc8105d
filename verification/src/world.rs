//! The mathematical model of the world that the accessors work on: the chunk
//! index, the generation jobs decided on, and the cells of the resident
//! chunks.

use crate::block::Block;
use crate::chunk_map::{resident_entity, ChunkMeta, ChunkTask, Entity};
use crate::coords::{chunk_coord, in_y_range, local_index, CHUNK_VOLUME, DD, DDD};
use crate::light::LightLevel;
use vstd::prelude::*;

verus! {

/// The world as an accessor sees it.
///
/// The resident chunks lie one after another in `blocks` and `lights`: the
/// chunk in slot `e` owns the cells from `e * CHUNK_VOLUME` on, each block
/// at its local index. `pending` lists the generation jobs that have been
/// decided on and not yet handed out.
pub struct WorldView {
    pub index: Map<DD, ChunkMeta>,
    pub pending: Seq<ChunkTask>,
    pub blocks: Seq<Block>,
    pub lights: Seq<LightLevel>,
}

/// Position in the storage of the block `c` of the chunk in slot `e`.
pub open spec fn slot_index(e: Entity, c: DDD) -> int {
    e * CHUNK_VOLUME + local_index(c)
}

/// Whether no block coordinate occurs twice in `cs`.
pub open spec fn all_distinct(cs: Seq<DDD>) -> bool {
    forall|i: int, j: int| 0 <= i < j < cs.len() ==> cs[i] != cs[j]
}

/// A sequence in which one block coordinate stands at two places is not
/// distinct.
pub proof fn lemma_repeated_not_distinct(cs: Seq<DDD>, i: int, j: int)
    requires
        0 <= i < cs.len(),
        0 <= j < cs.len(),
        i != j,
        cs[i] == cs[j],
    ensures
        !all_distinct(cs),
{
    if i < j {
        assert(cs[i] == cs[j]);
    } else {
        assert(cs[j] == cs[i]);
    }
}

/// What one cell adds to the darkness of the world: nothing where the block
/// is opaque, else the darkness of its light.
pub open spec fn cell_darkness(block: Block, light: LightLevel) -> nat {
    if block.is_visible() {
        0
    } else {
        light.darkness()
    }
}

/// Darkness of the first `n` cells.
pub open spec fn darkness_upto(blocks: Seq<Block>, lights: Seq<LightLevel>, n: int) -> nat
    decreases n,
{
    if n <= 0 {
        0
    } else {
        darkness_upto(blocks, lights, n - 1) + cell_darkness(blocks[n - 1], lights[n - 1])
    }
}

impl WorldView {
    /// Number of chunks in the storage.
    pub open spec fn chunks(self) -> int {
        self.blocks.len() as int / CHUNK_VOLUME as int
    }

    /// The index and the storage fit together: the two grids are as long as
    /// each other and hold whole chunks, every resident chunk has its slot in
    /// the storage and no two share one, and no generation job is listed
    /// twice or for a coordinate that the index does not know.
    pub open spec fn wf(self) -> bool {
        &&& self.blocks.len() == self.lights.len()
        &&& self.blocks.len() % CHUNK_VOLUME as nat == 0
        &&& forall|cc: DD| #[trigger]
            self.index.contains_key(cc) ==> (self.index[cc].entity matches Some(e) ==> 0 <= e
                < self.chunks())
        &&& forall|a: DD, b: DD|
            #![trigger self.index[a], self.index[b]]
            self.index.contains_key(a) && self.index.contains_key(b) && self.index[a].entity
                is Some && self.index[a].entity == self.index[b].entity ==> a == b
        &&& self.pending.no_duplicates()
        &&& forall|i: int|
            0 <= i < self.pending.len() ==> self.index.contains_key(
                (#[trigger] self.pending[i]).coord,
            )
    }

    /// Slot of the chunk at `cc` if it is resident.
    pub open spec fn resident(self, cc: DD) -> Option<Entity> {
        resident_entity(self.index, cc)
    }

    /// Position in the storage of the block at `c`: `None` where the height
    /// of `c` lies outside the world or its chunk is not resident.
    pub open spec fn cell(self, c: DDD) -> Option<int> {
        if in_y_range(c) {
            match self.resident(chunk_coord(c)) {
                Some(e) => Some(slot_index(e, c)),
                None => None,
            }
        } else {
            None
        }
    }

    /// The block at `c`, where there is one to be had.
    pub open spec fn block_at(self, c: DDD) -> Option<Block> {
        match self.cell(c) {
            Some(i) => Some(self.blocks[i]),
            None => None,
        }
    }

    /// Whether an opaque block is known to stand at `c`.
    pub open spec fn is_opaque(self, c: DDD) -> bool {
        self.block_at(c) matches Some(b) && b.is_visible()
    }

    /// The light that the storage holds for `c`, whatever block stands there.
    pub open spec fn stored_light(self, c: DDD) -> Option<LightLevel> {
        match self.cell(c) {
            Some(i) => Some(self.lights[i]),
            None => None,
        }
    }

    /// The light at `c`: defined where the block at `c` is to be had and is
    /// not opaque.
    pub open spec fn light_level(self, c: DDD) -> Option<LightLevel> {
        match self.cell(c) {
            Some(i) => if self.blocks[i].is_visible() {
                None
            } else {
                Some(self.lights[i])
            },
            None => None,
        }
    }

    /// The world after the chunk at `cc` was asked for. An accessor that
    /// spawns marks a chunk that the index does not know as generating and
    /// lists a job for it; any other request leaves the world as it is.
    pub open spec fn touched(self, spawns: bool, cc: DD) -> WorldView {
        if spawns && !self.index.contains_key(cc) {
            WorldView {
                index: self.index.insert(cc, ChunkMeta { entity: None }),
                pending: self.pending.push(ChunkTask { coord: cc }),
                ..self
            }
        } else {
            self
        }
    }

    /// The world after the block at `c` was asked for: a coordinate outside
    /// the world's height is turned away before its chunk is looked up.
    pub open spec fn probed(self, spawns: bool, c: DDD) -> WorldView {
        if in_y_range(c) {
            self.touched(spawns, chunk_coord(c))
        } else {
            self
        }
    }

    /// Whether each of the first `n` coordinates of `cs` has a cell.
    pub open spec fn resolved_upto(self, cs: Seq<DDD>, n: int) -> bool {
        forall|j: int| 0 <= j < n ==> (#[trigger] self.cell(cs[j])) is Some
    }

    /// Whether none of the blocks `cs` has the position `k` of the storage.
    pub open spec fn apart_from(self, cs: Seq<DDD>, k: int) -> bool {
        forall|i: int| 0 <= i < cs.len() ==> (#[trigger] self.cell(cs[i])) != Some(k)
    }

    /// The world after the first `n` blocks of `cs` were asked for one after
    /// another, up to and including the first that has no cell.
    pub open spec fn probed_upto(self, spawns: bool, cs: Seq<DDD>, n: int) -> WorldView
        decreases n,
    {
        if n <= 0 {
            self
        } else {
            let w = self.probed_upto(spawns, cs, n - 1);
            if self.resolved_upto(cs, n - 1) {
                w.probed(spawns, cs[n - 1])
            } else {
                w
            }
        }
    }

    /// The world with `block` at `c`; unchanged where `c` has no cell.
    pub open spec fn with_block(self, c: DDD, block: Block) -> WorldView {
        match self.cell(c) {
            Some(i) => WorldView { blocks: self.blocks.update(i, block), ..self },
            None => self,
        }
    }

    /// The world with `light` stored at `c`; unchanged where `c` has no cell.
    pub open spec fn with_stored_light(self, c: DDD, light: LightLevel) -> WorldView {
        match self.cell(c) {
            Some(i) => WorldView { lights: self.lights.update(i, light), ..self },
            None => self,
        }
    }

    /// The world after `light` was set at `c` through an accessor: the chunk
    /// is asked for, and the light is stored where light is defined.
    pub open spec fn with_light(self, spawns: bool, c: DDD, light: LightLevel) -> WorldView {
        let w = self.probed(spawns, c);
        if w.light_level(c) is Some {
            w.with_stored_light(c, light)
        } else {
            w
        }
    }

    /// The world after the chunk at `cc` became resident with the cells of
    /// `blocks` and `lights`: it takes the next free slot.
    pub open spec fn with_chunk(self, cc: DD, blocks: Seq<Block>, lights: Seq<LightLevel>) -> WorldView {
        WorldView {
            index: self.index.insert(cc, ChunkMeta { entity: Some(self.chunks() as usize) }),
            pending: self.pending,
            blocks: self.blocks + blocks,
            lights: self.lights + lights,
        }
    }

    /// Total darkness of the cells that can hold light. It falls whenever
    /// the light of a cell rises.
    pub open spec fn darkness(self) -> nat {
        darkness_upto(self.blocks, self.lights, self.lights.len() as int)
    }

    /// How often a generation job for `cc` is listed.
    pub open spec fn jobs_for(self, cc: DD) -> nat {
        self.pending.filter(|t: ChunkTask| t.coord == cc).len()
    }
}

/// In a well-formed world the cell of a block lies inside the storage.
pub proof fn lemma_cell_in_storage(w: WorldView, c: DDD)
    requires
        w.wf(),
        w.cell(c) is Some,
    ensures
        0 <= w.cell(c)->0 < w.blocks.len(),
        w.cell(c)->0 < w.lights.len(),
        w.resident(chunk_coord(c)) matches Some(e) && 0 <= e < w.chunks() && w.cell(c)->0
            == slot_index(e, c),
{
    crate::coords::lemma_local_index_bounds(c);
    let e = w.resident(chunk_coord(c))->0;
    assert(w.index.contains_key(chunk_coord(c)));
}

/// In a well-formed world two different blocks have different cells.
pub proof fn lemma_cells_distinct(w: WorldView, a: DDD, b: DDD)
    requires
        w.wf(),
        w.cell(a) is Some,
        w.cell(b) is Some,
        a != b,
    ensures
        w.cell(a) != w.cell(b),
{
    crate::coords::lemma_local_index_bounds(a);
    crate::coords::lemma_local_index_bounds(b);
    let ca = chunk_coord(a);
    let cb = chunk_coord(b);
    assert(w.index.contains_key(ca));
    assert(w.index.contains_key(cb));
    let ea = w.index[ca].entity->0;
    let eb = w.index[cb].entity->0;
    if w.cell(a) == w.cell(b) {
        assert(ea == eb && local_index(a) == local_index(b)) by (nonlinear_arith)
            requires
                ea * 65536 + local_index(a) == eb * 65536 + local_index(b),
                0 <= local_index(a) < 65536,
                0 <= local_index(b) < 65536,
        ;
        assert(ca == cb);
        crate::coords::lemma_local_index_injective(a, b);
    }
}

/// Asking for a chunk keeps the world well formed, moves no chunk in or out
/// of residency and touches no cell.
pub proof fn lemma_touched(w: WorldView, spawns: bool, cc: DD)
    requires
        w.wf(),
    ensures
        w.touched(spawns, cc).wf(),
        w.touched(spawns, cc).blocks == w.blocks,
        w.touched(spawns, cc).lights == w.lights,
        forall|other: DD| #[trigger] w.touched(spawns, cc).resident(other) == w.resident(other),
        forall|c: DDD| #[trigger] w.touched(spawns, cc).cell(c) == w.cell(c),
        w.touched(spawns, cc).touched(spawns, cc) == w.touched(spawns, cc),
        !spawns ==> w.touched(spawns, cc) == w,
        w.index.contains_key(cc) ==> w.touched(spawns, cc) == w,
{
    let t = w.touched(spawns, cc);
    if spawns && !w.index.contains_key(cc) {
        let job = ChunkTask { coord: cc };
        assert forall|i: int, j: int|
            0 <= i < t.pending.len() && 0 <= j < t.pending.len() && i != j implies t.pending[i]
            != t.pending[j] by {
            if i < w.pending.len() {
                assert(w.index.contains_key(w.pending[i].coord));
            }
            if j < w.pending.len() {
                assert(w.index.contains_key(w.pending[j].coord));
            }
        }
        assert forall|i: int| 0 <= i < t.pending.len() implies t.index.contains_key(
            (#[trigger] t.pending[i]).coord,
        ) by {
            if i < w.pending.len() {
                assert(w.index.contains_key(w.pending[i].coord));
            }
        }
        assert forall|a: DD, b: DD|
            t.index.contains_key(a) && t.index.contains_key(b) && t.index[a].entity is Some
                && t.index[a].entity == t.index[b].entity implies a == b by {
            assert(w.index.contains_key(a) && w.index.contains_key(b));
            assert(w.index[a].entity == w.index[b].entity);
        }
        assert forall|k: DD| #[trigger] t.index.contains_key(k) implies (t.index[k].entity matches Some(
            e,
        ) ==> 0 <= e < t.chunks()) by {
            if k != cc {
                assert(w.index.contains_key(k));
            }
        }
    }
}

/// Asking for a block keeps the world well formed and touches no cell; a
/// second request for the same block changes nothing more.
pub proof fn lemma_probed(w: WorldView, spawns: bool, c: DDD)
    requires
        w.wf(),
    ensures
        w.probed(spawns, c).wf(),
        w.probed(spawns, c).blocks == w.blocks,
        w.probed(spawns, c).lights == w.lights,
        forall|other: DD| #[trigger] w.probed(spawns, c).resident(other) == w.resident(other),
        forall|d: DDD| #[trigger] w.probed(spawns, c).cell(d) == w.cell(d),
        forall|d: DDD| #[trigger] w.probed(spawns, c).block_at(d) == w.block_at(d),
        forall|d: DDD| #[trigger] w.probed(spawns, c).light_level(d) == w.light_level(d),
        forall|d: DDD| #[trigger] w.probed(spawns, c).is_opaque(d) == w.is_opaque(d),
        w.probed(spawns, c).probed(spawns, c) == w.probed(spawns, c),
        w.probed(spawns, c).darkness() == w.darkness(),
        !spawns ==> w.probed(spawns, c) == w,
        w.cell(c) is Some ==> w.probed(spawns, c) == w,
{
    lemma_touched(w, spawns, chunk_coord(c));
}

/// Asking for several blocks keeps the world well formed and touches no
/// cell; where every block asked for has a cell, nothing changes at all.
pub proof fn lemma_probed_upto(w: WorldView, spawns: bool, cs: Seq<DDD>, n: int)
    requires
        w.wf(),
        0 <= n <= cs.len(),
    ensures
        w.probed_upto(spawns, cs, n).wf(),
        w.probed_upto(spawns, cs, n).blocks == w.blocks,
        w.probed_upto(spawns, cs, n).lights == w.lights,
        forall|d: DDD| #[trigger] w.probed_upto(spawns, cs, n).cell(d) == w.cell(d),
        w.resolved_upto(cs, n) ==> w.probed_upto(spawns, cs, n) == w,
        !spawns ==> w.probed_upto(spawns, cs, n) == w,
    decreases n,
{
    if n > 0 {
        lemma_probed_upto(w, spawns, cs, n - 1);
        let v = w.probed_upto(spawns, cs, n - 1);
        lemma_probed(v, spawns, cs[n - 1]);
        if w.resolved_upto(cs, n) {
            assert(w.cell(cs[n - 1]) is Some);
            assert(w.resolved_upto(cs, n - 1));
        }
    }
}

/// Once a block without a cell has been met, asking goes no further.
pub proof fn lemma_probed_upto_stops(w: WorldView, spawns: bool, cs: Seq<DDD>, k: int, n: int)
    requires
        0 <= k <= n,
        !w.resolved_upto(cs, k),
    ensures
        w.probed_upto(spawns, cs, n) == w.probed_upto(spawns, cs, k),
    decreases n,
{
    if n > k {
        lemma_probed_upto_stops(w, spawns, cs, k, n - 1);
        if w.resolved_upto(cs, n - 1) {
            assert forall|j: int| 0 <= j < k implies (#[trigger] w.cell(cs[j])) is Some by {}
        }
    }
}

/// Changing the light of one cell changes the darkness of the first `n`
/// cells by what that cell adds.
pub proof fn lemma_darkness_update(
    blocks: Seq<Block>,
    lights: Seq<LightLevel>,
    i: int,
    light: LightLevel,
    n: int,
)
    requires
        0 <= i < lights.len(),
        0 <= n <= lights.len(),
    ensures
        darkness_upto(blocks, lights.update(i, light), n) + (if i < n {
            cell_darkness(blocks[i], lights[i])
        } else {
            0
        }) == darkness_upto(blocks, lights, n) + (if i < n {
            cell_darkness(blocks[i], light)
        } else {
            0
        }),
    decreases n,
{
    if n > 0 {
        lemma_darkness_update(blocks, lights, i, light, n - 1);
    }
}

/// Storing a light keeps the world well formed and changes the darkness by
/// what the cell adds.
pub proof fn lemma_with_stored_light(w: WorldView, c: DDD, light: LightLevel)
    requires
        w.wf(),
    ensures
        w.with_stored_light(c, light).wf(),
        w.with_stored_light(c, light).index == w.index,
        w.with_stored_light(c, light).pending == w.pending,
        w.with_stored_light(c, light).blocks == w.blocks,
        forall|d: DDD| #[trigger] w.with_stored_light(c, light).cell(d) == w.cell(d),
        forall|d: DDD| #[trigger] w.with_stored_light(c, light).block_at(d) == w.block_at(d),
        forall|d: DDD| #[trigger] w.with_stored_light(c, light).is_opaque(d) == w.is_opaque(d),
        forall|d: DDD|
            d != c ==> #[trigger] w.with_stored_light(c, light).light_level(d) == w.light_level(d),
        forall|d: DDD|
            d != c ==> #[trigger] w.with_stored_light(c, light).stored_light(d) == w.stored_light(
                d,
            ),
        w.cell(c) is Some ==> w.with_stored_light(c, light).stored_light(c) == Some(light),
        w.light_level(c) is Some ==> w.with_stored_light(c, light).light_level(c) == Some(light),
        w.is_opaque(c) ==> w.with_stored_light(c, light).darkness() == w.darkness(),
        w.light_level(c) matches Some(cur) ==> w.with_stored_light(c, light).darkness()
            + cur.darkness() == w.darkness() + light.darkness(),
{
    let v = w.with_stored_light(c, light);
    if w.cell(c) is Some {
        lemma_cell_in_storage(w, c);
        let i = w.cell(c)->0;
        lemma_darkness_update(w.blocks, w.lights, i, light, w.lights.len() as int);
        assert forall|d: DDD| d != c implies #[trigger] v.light_level(d) == w.light_level(d) by {
            if w.cell(d) is Some {
                lemma_cells_distinct(w, c, d);
                lemma_cell_in_storage(w, d);
            }
        }
        assert forall|d: DDD| d != c implies #[trigger] v.stored_light(d) == w.stored_light(d) by {
            if w.cell(d) is Some {
                lemma_cells_distinct(w, c, d);
                lemma_cell_in_storage(w, d);
            }
        }
    }
}

/// Replacing a block keeps the world well formed and changes the block at
/// that coordinate alone; the stored light stays, but it is the light at the
/// coordinate only while the block there is not opaque.
pub proof fn lemma_with_block(w: WorldView, c: DDD, block: Block)
    requires
        w.wf(),
    ensures
        w.with_block(c, block).wf(),
        w.with_block(c, block).index == w.index,
        w.with_block(c, block).pending == w.pending,
        w.with_block(c, block).lights == w.lights,
        forall|d: DDD| #[trigger] w.with_block(c, block).cell(d) == w.cell(d),
        forall|d: DDD| d != c ==> #[trigger] w.with_block(c, block).block_at(d) == w.block_at(d),
        forall|d: DDD|
            d != c ==> #[trigger] w.with_block(c, block).light_level(d) == w.light_level(d),
        w.cell(c) is Some ==> w.with_block(c, block).block_at(c) == Some(block),
        w.cell(c) is Some ==> w.with_block(c, block).is_opaque(c) == block.is_visible(),
        w.cell(c) is Some && block.is_visible() ==> w.with_block(c, block).light_level(c) is None,
        w.cell(c) is Some && !block.is_visible() ==> w.with_block(c, block).light_level(c)
            == w.stored_light(c),
{
    let v = w.with_block(c, block);
    if w.cell(c) is Some {
        lemma_cell_in_storage(w, c);
        assert forall|k: DD| #[trigger] v.index.contains_key(k) implies (v.index[k].entity matches Some(
            e,
        ) ==> 0 <= e < v.chunks()) by {
            assert(w.index.contains_key(k));
        }
        assert forall|d: DDD| d != c implies #[trigger] v.block_at(d) == w.block_at(d) by {
            if w.cell(d) is Some {
                lemma_cells_distinct(w, c, d);
                lemma_cell_in_storage(w, d);
            }
        }
        assert forall|d: DDD| d != c implies #[trigger] v.light_level(d) == w.light_level(d) by {
            if w.cell(d) is Some {
                lemma_cells_distinct(w, c, d);
                lemma_cell_in_storage(w, d);
            }
        }
    }
}

/// A chunk that takes the next free slot keeps the world well formed, and
/// leaves every block and light of the chunks that were resident before as
/// it was.
pub proof fn lemma_with_chunk(w: WorldView, cc: DD, blocks: Seq<Block>, lights: Seq<LightLevel>)
    requires
        w.wf(),
        w.resident(cc) is None,
        blocks.len() == CHUNK_VOLUME,
        lights.len() == CHUNK_VOLUME,
        w.chunks() <= usize::MAX,
    ensures
        w.with_chunk(cc, blocks, lights).wf(),
        w.with_chunk(cc, blocks, lights).chunks() == w.chunks() + 1,
        w.with_chunk(cc, blocks, lights).resident(cc) == Some(w.chunks() as usize),
        forall|c: DDD|
            w.cell(c) is Some ==> #[trigger] w.with_chunk(cc, blocks, lights).block_at(c)
                == w.block_at(c) && w.with_chunk(cc, blocks, lights).stored_light(c)
                == w.stored_light(c),
        forall|c: DDD|
            in_y_range(c) && chunk_coord(c) == cc ==> #[trigger] w.with_chunk(
                cc,
                blocks,
                lights,
            ).block_at(c) == Some(blocks[local_index(c)]) && w.with_chunk(
                cc,
                blocks,
                lights,
            ).stored_light(c) == Some(lights[local_index(c)]),
{
    let v = w.with_chunk(cc, blocks, lights);
    let e = w.chunks() as usize;
    assert(v.chunks() == w.chunks() + 1);
    assert forall|k: DD| #[trigger] v.index.contains_key(k) implies (v.index[k].entity matches Some(
        x,
    ) ==> 0 <= x < v.chunks()) by {
        if k != cc {
            assert(w.index.contains_key(k));
        }
    }
    assert forall|a: DD, b: DD|
        v.index.contains_key(a) && v.index.contains_key(b) && v.index[a].entity is Some
            && v.index[a].entity == v.index[b].entity implies a == b by {
        if a != cc {
            assert(w.index.contains_key(a));
        }
        if b != cc {
            assert(w.index.contains_key(b));
        }
    }
    assert forall|i: int| 0 <= i < v.pending.len() implies v.index.contains_key(
        (#[trigger] v.pending[i]).coord,
    ) by {
        assert(w.index.contains_key(w.pending[i].coord));
    }
    assert forall|c: DDD| w.cell(c) is Some implies #[trigger] v.block_at(c) == w.block_at(c)
        && v.stored_light(c) == w.stored_light(c) by {
        lemma_cell_in_storage(w, c);
        assert(chunk_coord(c) != cc);
    }
    assert forall|c: DDD| in_y_range(c) && chunk_coord(c) == cc implies #[trigger] v.block_at(c)
        == Some(blocks[local_index(c)]) && v.stored_light(c) == Some(
        lights[local_index(c)],
    ) by {
        crate::coords::lemma_local_index_bounds(c);
    }
}

/// A request for a chunk that the index does not know, made through an
/// accessor that spawns, lists exactly one job for it, and a second request
/// lists no other: the world after both is the world after the first.
pub proof fn lemma_single_dispatch(w: WorldView, cc: DD)
    requires
        w.wf(),
        !w.index.contains_key(cc),
    ensures
        w.jobs_for(cc) == 0,
        w.touched(true, cc).jobs_for(cc) == 1,
        w.touched(true, cc).touched(true, cc) == w.touched(true, cc),
        w.touched(true, cc).index == w.index.insert(cc, ChunkMeta { entity: None }),
        w.touched(true, cc).pending == w.pending.push(ChunkTask { coord: cc }),
{
    let p = |t: ChunkTask| t.coord == cc;
    lemma_no_jobs(w.pending, cc, w.index);
    let t = w.touched(true, cc);
    assert(t.pending.drop_last() == w.pending);
    reveal(Seq::filter);
    assert(t.pending.filter(p) == w.pending.filter(p).push(ChunkTask { coord: cc }));
}

/// Jobs are listed only for coordinates that the index knows.
proof fn lemma_no_jobs(pending: Seq<ChunkTask>, cc: DD, index: Map<DD, ChunkMeta>)
    requires
        forall|i: int| 0 <= i < pending.len() ==> index.contains_key((#[trigger] pending[i]).coord),
        !index.contains_key(cc),
    ensures
        pending.filter(|t: ChunkTask| t.coord == cc).len() == 0,
    decreases pending.len(),
{
    reveal(Seq::filter);
    if pending.len() > 0 {
        assert(index.contains_key(pending.last().coord));
        lemma_no_jobs(pending.drop_last(), cc, index);
    }
}

} // verus!
