//! The block accessors: the only way to read and edit the blocks and the
//! light of the world. Three kinds share one contract and differ in what a
//! request for a chunk does that is not resident.

use crate::block::Block;
use crate::chunk_map::{ChunkMap, Entity};
use crate::coords::{chunk_coord, immediate_neighbour, in_y_range, DDD, MAX_Y, SIDE_UP};
use crate::light::LightLevel;
use crate::propagation::{
    flood, lemma_flood_opaque, lemma_flood_out_of_range, lemma_probed_sides, lemma_relax_step,
    relax_step, spread_upto, Flood,
};
use crate::remesh::RemeshSet;
use crate::storage::{untouched, ChunkStorage};
use crate::world::{
    all_distinct, lemma_cell_in_storage, lemma_cells_distinct, lemma_probed, lemma_probed_upto,
    lemma_probed_upto_stops, lemma_touched, lemma_with_stored_light, WorldView,
};
use vstd::prelude::*;

verus! {

/// Whether two block coordinates are the same.
pub fn same_coord(a: DDD, b: DDD) -> (r: bool)
    ensures
        r == (a == b),
{
    a.0 == b.0 && a.1 == b.1 && a.2 == b.2
}

/// What an accessor is built on: the lookup of a chunk, which may start its
/// generation, and the chunk storage.
pub trait BlockAccessorInternal {
    /// The world as this accessor sees it.
    spec fn world(&self) -> WorldView;

    /// Whether this kind of accessor starts the generation of a chunk that
    /// is asked for and that the index does not know.
    spec fn spawns() -> bool;

    /// Slot of the chunk that owns the block at `c`, if it is resident. An
    /// accessor that spawns marks a chunk that the index does not know as
    /// generating and lists a job for it. The height of `c` plays no part.
    fn get_chunk_entity_or_queue(&mut self, c: DDD) -> (r: Option<Entity>)
        requires
            old(self).world().wf(),
        ensures
            r == old(self).world().resident(chunk_coord(c)),
            final(self).world() == old(self).world().touched(Self::spawns(), chunk_coord(c)),
            final(self).world().wf(),
    ;

    /// The cells of the resident chunks.
    fn chunks(&self) -> (s: &ChunkStorage)
        ensures
            s.blocks() == self.world().blocks,
            s.lights() == self.world().lights,
    ;

    /// The cells of the resident chunks, for editing: what the storage holds
    /// when the reference is given up is what the world holds.
    fn chunks_mut(&mut self) -> (s: &mut ChunkStorage)
        ensures
            s.blocks() == old(self).world().blocks,
            s.lights() == old(self).world().lights,
            final(self).world() == (WorldView {
                blocks: final(s).blocks(),
                lights: final(s).lights(),
                ..old(self).world()
            }),
    ;
}

/// Reading and editing blocks and light by block coordinate. No operation
/// fails: a height outside the world, a chunk that is not resident and light
/// asked of an opaque block all give `None` or leave the cells as they are.
pub trait BlockAccessor: BlockAccessorInternal {
    /// The block at `c`.
    fn get_single(&mut self, c: DDD) -> (r: Option<Block>)
        requires
            old(self).world().wf(),
        ensures
            r == old(self).world().block_at(c),
            final(self).world() == old(self).world().probed(Self::spawns(), c),
            !in_y_range(c) ==> r is None && final(self).world() == old(self).world(),
            final(self).world().wf(),
    {
        if c.1 < 0 || c.1 > MAX_Y {
            return None;
        }
        proof {
            lemma_probed(old(self).world(), Self::spawns(), c);
        }
        match self.get_chunk_entity_or_queue(c) {
            None => None,
            Some(entity) => {
                proof {
                    lemma_cell_in_storage(old(self).world(), c);
                }
                Some(self.chunks().block(entity, c))
            },
        }
    }

    /// Exclusive access to the block at `c`: what the reference holds at
    /// last is the block at `c` afterwards, and no other cell changes.
    fn get_mut(&mut self, c: DDD) -> (r: Option<&mut Block>)
        requires
            old(self).world().wf(),
        ensures
            r is Some <==> old(self).world().block_at(c) is Some,
            r matches Some(b) ==> old(self).world().block_at(c) == Some(*b),
            r matches Some(b) ==> final(self).world() == old(self).world().probed(
                Self::spawns(),
                c,
            ).with_block(c, *final(b)),
            r is None ==> final(self).world() == old(self).world().probed(Self::spawns(), c),
            !in_y_range(c) ==> r is None && final(self).world() == old(self).world(),
            final(self).world().wf(),
    {
        if c.1 < 0 || c.1 > MAX_Y {
            return None;
        }
        proof {
            lemma_probed(old(self).world(), Self::spawns(), c);
        }
        match self.get_chunk_entity_or_queue(c) {
            None => None,
            Some(entity) => {
                proof {
                    lemma_cell_in_storage(old(self).world(), c);
                }
                Some(self.chunks_mut().block_mut(entity, c))
            },
        }
    }

    /// Exclusive access to the blocks at all of `cs` at once. Refused, before
    /// any chunk is looked up, where a coordinate occurs twice; refused where
    /// one of the blocks is not to be had, the chunks having been asked for
    /// in order up to that block. Otherwise the references stand for the
    /// blocks in the order of `cs`, each independent of the others: what a
    /// reference holds at last is the block at its coordinate afterwards, and
    /// no other cell changes.
    fn get_many_mut<const N: usize>(&mut self, cs: [DDD; N]) -> (r: Option<[&mut Block; N]>)
        requires
            old(self).world().wf(),
        ensures
            r is Some <==> all_distinct(cs@) && old(self).world().resolved_upto(cs@, N as int),
            !all_distinct(cs@) ==> r is None && final(self).world() == old(self).world(),
            (forall|i: int| 0 <= i < N && !in_y_range(#[trigger] cs@[i]) ==> r is None),
            r is None && all_distinct(cs@) ==> final(self).world() == old(self).world().probed_upto(
                Self::spawns(),
                cs@,
                N as int,
            ),
            r is Some ==> final(self).world().index == old(self).world().index
                && final(self).world().pending == old(self).world().pending
                && final(self).world().lights == old(self).world().lights
                && final(self).world().blocks.len() == old(self).world().blocks.len(),
            (forall|i: int|
                r is Some && 0 <= i < N ==> Some(*(#[trigger] r.unwrap()@[i])) == old(
                    self,
                ).world().block_at(cs@[i])),
            (forall|i: int|
                r is Some && 0 <= i < N ==> final(self).world().block_at(cs@[i]) == Some(
                    *final(#[trigger] r.unwrap()@[i]),
                )),
            (forall|d: DDD|
                r is Some && !cs@.contains(d) ==> #[trigger] final(self).world().block_at(d) == old(
                    self,
                ).world().block_at(d)),
            (forall|k: int|
                r is Some && 0 <= k < old(self).world().blocks.len() && old(
                    self,
                ).world().apart_from(cs@, k) ==> #[trigger] final(self).world().blocks[k] == old(
                    self,
                ).world().blocks[k]),
            final(self).world().wf(),
    {
        let ghost start = self.world();
        let mut i: usize = 0;
        while i < N
            invariant
                i <= N,
                forall|a: int, b: int| 0 <= a < b < i ==> cs@[a] != cs@[b],
                start.wf(),
                start == old(self).world(),
                self.world() == start,
            decreases N - i,
        {
            let mut j: usize = 0;
            while j < i
                invariant
                    j <= i < N,
                    forall|b: int| 0 <= b < j ==> cs@[b] != cs@[i as int],
                    start.wf(),
                    start == old(self).world(),
                    self.world() == start,
                decreases i - j,
            {
                if same_coord(cs[i], cs[j]) {
                    return None;
                }
                j += 1;
            }
            i += 1;
        }
        assert(all_distinct(cs@));
        let mut idx: [usize; N] = [0usize; N];
        let mut i: usize = 0;
        while i < N
            invariant
                i <= N,
                start.wf(),
                start == old(self).world(),
                all_distinct(cs@),
                self.world().wf(),
                self.world() == start.probed_upto(Self::spawns(), cs@, i as int),
                start.resolved_upto(cs@, i as int),
                forall|k: int| 0 <= k < i ==> Some(idx@[k] as int) == start.cell(cs@[k]),
            decreases N - i,
        {
            let c = cs[i];
            proof {
                lemma_probed_upto(start, Self::spawns(), cs@, i as int);
            }
            if c.1 < 0 || c.1 > MAX_Y {
                proof {
                    assert(start.cell(cs@[i as int]) is None);
                    assert(!start.resolved_upto(cs@, i + 1));
                    assert(!start.resolved_upto(cs@, N as int));
                    lemma_probed_upto_stops(start, Self::spawns(), cs@, i + 1, N as int);
                    assert(start.probed_upto(Self::spawns(), cs@, i + 1) == start.probed_upto(
                        Self::spawns(),
                        cs@,
                        i as int,
                    ).probed(Self::spawns(), c));
                }
                return None;
            }
            match self.get_chunk_entity_or_queue(c) {
                None => {
                    proof {
                        assert(start.cell(cs@[i as int]) is None);
                        assert(!start.resolved_upto(cs@, i + 1));
                        assert(!start.resolved_upto(cs@, N as int));
                        lemma_probed_upto_stops(start, Self::spawns(), cs@, i + 1, N as int);
                        assert(start.probed_upto(Self::spawns(), cs@, i + 1) == start.probed_upto(
                            Self::spawns(),
                            cs@,
                            i as int,
                        ).probed(Self::spawns(), c));
                    }
                    return None;
                },
                Some(entity) => {
                    proof {
                        lemma_cell_in_storage(start, c);
                    }
                    let at: usize = self.chunks().slot(entity, c);
                    idx[i] = at;
                },
            }
            i += 1;
        }
        proof {
            lemma_probed_upto(start, Self::spawns(), cs@, N as int);
            assert forall|a: int, b: int| 0 <= a < b < N implies idx@[a] != idx@[b] by {
                lemma_cells_distinct(start, cs@[a], cs@[b]);
            }
            assert forall|a: int| 0 <= a < N implies (#[trigger] idx@[a]) < start.blocks.len() by {
                lemma_cell_in_storage(start, cs@[a]);
            }
            assert forall|d: DDD| !cs@.contains(d) && start.cell(d) is Some implies untouched(
                idx@,
                #[trigger] start.cell(d)->0,
            ) by {
                let k = start.cell(d)->0;
                assert forall|i: int| 0 <= i < idx@.len() implies idx@[i] != k by {
                    assert(cs@[i] != d);
                    lemma_cells_distinct(start, cs@[i], d);
                }
            }
            assert forall|d: DDD| start.cell(d) is Some implies 0 <= (#[trigger] start.cell(d))->0
                < start.blocks.len() by {
                lemma_cell_in_storage(start, d);
            }
            assert forall|k: int| #[trigger] start.apart_from(cs@, k) implies untouched(idx@, k) by {
                assert forall|i: int| 0 <= i < idx@.len() implies idx@[i] != k by {
                    assert(start.cell(cs@[i]) != Some(k));
                }
            }
        }
        self.chunks_mut().blocks_mut(idx)
    }

    /// The light at `c`: `None` where the height of `c` lies outside the
    /// world, its chunk is not resident or the block at `c` is opaque.
    fn get_light_level(&mut self, c: DDD) -> (r: Option<LightLevel>)
        requires
            old(self).world().wf(),
        ensures
            r == old(self).world().light_level(c),
            final(self).world() == old(self).world().probed(Self::spawns(), c),
            !in_y_range(c) ==> r is None && final(self).world() == old(self).world(),
            old(self).world().is_opaque(c) ==> r is None,
            final(self).world().wf(),
    {
        if c.1 < 0 || c.1 > MAX_Y {
            return None;
        }
        proof {
            lemma_probed(old(self).world(), Self::spawns(), c);
        }
        match self.get_chunk_entity_or_queue(c) {
            None => None,
            Some(entity) => {
                proof {
                    lemma_cell_in_storage(old(self).world(), c);
                }
                let chunks = self.chunks();
                if chunks.block(entity, c).visible() {
                    None
                } else {
                    Some(chunks.light(entity, c))
                }
            },
        }
    }

    /// Sets the light at `c`. Nothing is stored where the height of `c` lies
    /// outside the world, its chunk is not resident or the block at `c` is
    /// opaque.
    fn set_light_level(&mut self, c: DDD, light: LightLevel)
        requires
            old(self).world().wf(),
        ensures
            final(self).world() == old(self).world().with_light(Self::spawns(), c, light),
            !in_y_range(c) ==> final(self).world() == old(self).world(),
            final(self).world().wf(),
    {
        if c.1 < 0 || c.1 > MAX_Y {
            return ;
        }
        proof {
            lemma_probed(old(self).world(), Self::spawns(), c);
            lemma_with_stored_light(old(self).world().probed(Self::spawns(), c), c, light);
        }
        match self.get_chunk_entity_or_queue(c) {
            None => {},
            Some(entity) => {
                proof {
                    lemma_cell_in_storage(old(self).world(), c);
                }
                if !self.chunks().block(entity, c).visible() {
                    self.chunks_mut().set_light(entity, c, light);
                }
            },
        }
    }

    /// Repairs the light after the block at `c` changed, and marks in
    /// `remesh` every chunk whose light was written or queued for repair.
    ///
    /// The flood starts with `c` alone on its worklist and takes steps until
    /// the worklist is empty; `flood` says what it leaves behind. No block
    /// changes.
    fn propagate_light(&mut self, c: DDD, remesh: &mut RemeshSet)
        requires
            old(self).world().wf(),
        ensures
            final(self).world() == flood(
                Flood { world: old(self).world(), queue: seq![c], dirty: old(remesh)@ },
                Self::spawns(),
            ).world,
            final(remesh)@ == flood(
                Flood { world: old(self).world(), queue: seq![c], dirty: old(remesh)@ },
                Self::spawns(),
            ).dirty,
            final(self).world().blocks == old(self).world().blocks,
            old(remesh)@.subset_of(final(remesh)@),
            !in_y_range(c) ==> final(self).world() == old(self).world() && final(remesh)@ == old(
                remesh,
            )@,
            old(self).world().is_opaque(c) ==> final(self).world() == old(
                self,
            ).world().with_stored_light(c, LightLevel::dark()) && final(remesh)@ == old(
                remesh,
            )@.insert(chunk_coord(c)),
            final(self).world().wf(),
    {
        let ghost start = Flood { world: self.world(), queue: seq![c], dirty: remesh@ };
        proof {
            if !in_y_range(c) {
                lemma_flood_out_of_range(start.world, Self::spawns(), c, start.dirty);
            }
            if start.world.is_opaque(c) {
                lemma_flood_opaque(start.world, Self::spawns(), c, start.dirty);
            }
        }
        let mut queue: Vec<DDD> = Vec::new();
        queue.push(c);
        assert(queue@ == seq![c]);
        while queue.len() > 0
            invariant
                self.world().wf(),
                flood(
                    Flood { world: self.world(), queue: queue@, dirty: remesh@ },
                    Self::spawns(),
                ) == flood(start, Self::spawns()),
                self.world().blocks == start.world.blocks,
                start.dirty.subset_of(remesh@),
            decreases self.world().darkness(), queue.len(),
        {
            let ghost before = Flood { world: self.world(), queue: queue@, dirty: remesh@ };
            proof {
                lemma_relax_step(before, Self::spawns());
            }
            let c = queue.pop().unwrap();
            assert(queue@.push(c) == before.queue);
            self.relax_block(c, &mut queue, remesh);
            assert(flood(before, Self::spawns()) == flood(
                relax_step(before, Self::spawns()),
                Self::spawns(),
            ));
        }
    }

    /// One step of the flood: relaxes the block `c`, which was taken off the
    /// worklist `queue`.
    fn relax_block(&mut self, c: DDD, queue: &mut Vec<DDD>, remesh: &mut RemeshSet)
        requires
            old(self).world().wf(),
        ensures
            (Flood { world: final(self).world(), queue: final(queue)@, dirty: final(remesh)@ })
                == relax_step(
                Flood { world: old(self).world(), queue: old(queue)@.push(c), dirty: old(remesh)@ },
                Self::spawns(),
            ),
            final(self).world().wf(),
    {
        let ghost before = Flood { world: self.world(), queue: queue@.push(c), dirty: remesh@ };
        proof {
            assert(before.queue.last() == c);
            assert(before.queue.drop_last() == queue@);
            lemma_relax_step(before, Self::spawns());
            lemma_probed(before.world, Self::spawns(), c);
        }
        let opaque = match self.get_single(c) {
            Some(block) => block.visible(),
            None => false,
        };
        let ghost w1 = self.world();
        if opaque {
            // `set_light_level` leaves an opaque block alone, so the light that
            // is stored for it is cleared in the storage itself.
            match self.get_chunk_entity_or_queue(c) {
                Some(entity) => {
                    proof {
                        lemma_cell_in_storage(w1, c);
                        lemma_touched(w1, Self::spawns(), chunk_coord(c));
                    }
                    self.chunks_mut().set_light(entity, c, LightLevel::dark());
                },
                None => {},
            }
            remesh.insert(ChunkMap::get_chunk_coord(c));
        } else {
            proof {
                lemma_probed(w1, Self::spawns(), c);
            }
            match self.get_light_level(c) {
                None => {},
                Some(current_light) => {
                    let new_light = self.gather_light(current_light, c);
                    if !new_light.same(current_light) {
                        proof {
                            lemma_probed_sides(w1, Self::spawns(), c, 6);
                        }
                        self.set_light_level(c, new_light);
                        remesh.insert(ChunkMap::get_chunk_coord(c));
                        self.offer_light(c, new_light, queue, remesh);
                    }
                },
            }
        }
    }

    /// The strongest light that the six neighbours of `c` hand on, channel by
    /// channel, and at least `cur`.
    fn gather_light(&mut self, cur: LightLevel, c: DDD) -> (best: LightLevel)
        requires
            old(self).world().wf(),
        ensures
            best == old(self).world().relaxed(cur, c),
            final(self).world() == old(self).world().probed_sides(Self::spawns(), c, 6),
            final(self).world().wf(),
    {
        let ghost w = self.world();
        let mut best = cur;
        let mut side: u8 = 0;
        while side < 6
            invariant
                side <= 6,
                w.wf(),
                self.world().wf(),
                self.world() == w.probed_sides(Self::spawns(), c, side as int),
                best == w.relaxed_upto(cur, c, side as int),
            decreases 6 - side,
        {
            proof {
                lemma_probed_sides(w, Self::spawns(), c, side as int);
            }
            match immediate_neighbour(c, side) {
                Some(n) => {
                    match self.get_light_level(n) {
                        Some(donor) => {
                            best = best.raise(donor, side == SIDE_UP);
                        },
                        None => {},
                    }
                },
                None => {},
            }
            side += 1;
        }
        best
    }

    /// Offers the light `target`, just written at `c`, to the six neighbours:
    /// each whose light is more than one level weaker in a channel, or is not to
    /// be had, is marked and queued.
    fn offer_light(
        &mut self,
        c: DDD,
        target: LightLevel,
        queue: &mut Vec<DDD>,
        remesh: &mut RemeshSet,
    )
        requires
            old(self).world().wf(),
        ensures
            (Flood { world: final(self).world(), queue: final(queue)@, dirty: final(remesh)@ })
                == spread_upto(
                Flood { world: old(self).world(), queue: old(queue)@, dirty: old(remesh)@ },
                Self::spawns(),
                c,
                target,
                6,
            ),
            final(self).world().wf(),
    {
        let ghost base = Flood { world: self.world(), queue: queue@, dirty: remesh@ };
        let mut side: u8 = 0;
        while side < 6
            invariant
                side <= 6,
                base.world.wf(),
                self.world().wf(),
                (Flood { world: self.world(), queue: queue@, dirty: remesh@ }) == spread_upto(
                    base,
                    Self::spawns(),
                    c,
                    target,
                    side as int,
                ),
            decreases 6 - side,
        {
            match immediate_neighbour(c, side) {
                Some(n) => {
                    let satisfied = match self.get_light_level(n) {
                        Some(light) => light.satisfies(target),
                        None => false,
                    };
                    if !satisfied {
                        remesh.insert(ChunkMap::get_chunk_coord(n));
                        queue.push(n);
                    }
                },
                None => {},
            }
            side += 1;
        }
    }
}

} // verus!
