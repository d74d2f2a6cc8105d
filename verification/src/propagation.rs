//! The light flood fill as a state machine over a worklist: what one step
//! does to the world, the worklist and the set of chunks to remesh, and why
//! the steps come to an end.

use crate::coords::{chunk_coord, in_y_range, neighbour, DD, DDD, SIDE_UP};
use crate::light::{lemma_light_ext, lemma_raise_channels, LightLevel};
use crate::world::{lemma_cell_in_storage, lemma_probed, lemma_with_stored_light, WorldView};
use vstd::prelude::*;

verus! {

/// State of a flood fill: the world, the blocks that wait to be relaxed (the
/// last one is next) and the chunks marked for remeshing.
pub struct Flood {
    pub world: WorldView,
    pub queue: Seq<DDD>,
    pub dirty: Set<DD>,
}

impl WorldView {
    /// The light that the block at `c` reaches from `cur` by taking, channel
    /// by channel, the strongest of what its neighbours on the sides below
    /// `k` hand on. A neighbour without light hands on nothing.
    pub open spec fn relaxed_upto(self, cur: LightLevel, c: DDD, k: int) -> LightLevel
        decreases k,
    {
        if k <= 0 {
            cur
        } else {
            let prev = self.relaxed_upto(cur, c, k - 1);
            match neighbour(c, k - 1) {
                Some(n) => match self.light_level(n) {
                    Some(donor) => prev.raised_by(donor, k - 1 == SIDE_UP),
                    None => prev,
                },
                None => prev,
            }
        }
    }

    /// The light that the block at `c` reaches from `cur` with all six
    /// neighbours.
    pub open spec fn relaxed(self, cur: LightLevel, c: DDD) -> LightLevel {
        self.relaxed_upto(cur, c, 6)
    }

    /// The world after the neighbours of `c` on the sides below `k` were
    /// asked for.
    pub open spec fn probed_sides(self, spawns: bool, c: DDD, k: int) -> WorldView
        decreases k,
    {
        if k <= 0 {
            self
        } else {
            let w = self.probed_sides(spawns, c, k - 1);
            match neighbour(c, k - 1) {
                Some(n) => w.probed(spawns, n),
                None => w,
            }
        }
    }

    /// No neighbour can raise the light at `c`: it has none, or it is what
    /// relaxing gives.
    pub open spec fn settled(self, c: DDD) -> bool {
        self.light_level(c) matches Some(cur) ==> self.relaxed(cur, c) == cur
    }

    /// The light has reached its fixpoint: it is settled at every block.
    pub open spec fn converged(self) -> bool {
        forall|c: DDD| #[trigger] self.settled(c)
    }
}

/// The flood after the light `target`, just written at `c`, was offered to
/// the neighbours on the sides below `k`. A neighbour is asked for its light;
/// one whose light is at most one level weaker than `target` in both
/// channels is left alone, any other is marked and queued.
pub open spec fn spread_upto(f: Flood, spawns: bool, c: DDD, target: LightLevel, k: int) -> Flood
    decreases k,
{
    if k <= 0 {
        f
    } else {
        let g = spread_upto(f, spawns, c, target, k - 1);
        match neighbour(c, k - 1) {
            None => g,
            Some(n) => {
                let w = g.world.probed(spawns, n);
                if g.world.light_level(n) matches Some(l) && l.satisfied_by(target) {
                    Flood { world: w, ..g }
                } else {
                    Flood { world: w, queue: g.queue.push(n), dirty: g.dirty.insert(chunk_coord(n)) }
                }
            },
        }
    }
}

/// One step of the flood: the last block of the worklist is taken off and
/// relaxed.
///
/// Where an opaque block stands there, the light stored for it is cleared and
/// its chunk is marked. Where the block has no light to be had, nothing
/// happens. Otherwise the block takes the strongest light that its
/// neighbours hand on; if that raises a channel, the light is written, the
/// chunk is marked, and the light is offered to the six neighbours.
pub open spec fn relax_step(f: Flood, spawns: bool) -> Flood
    recommends
        f.queue.len() > 0,
{
    let c = f.queue.last();
    let rest = f.queue.drop_last();
    let w1 = f.world.probed(spawns, c);
    if w1.is_opaque(c) {
        Flood {
            world: w1.with_stored_light(c, LightLevel::dark()),
            queue: rest,
            dirty: f.dirty.insert(chunk_coord(c)),
        }
    } else {
        match w1.light_level(c) {
            None => Flood { world: w1, queue: rest, dirty: f.dirty },
            Some(cur) => {
                let w2 = w1.probed_sides(spawns, c, 6);
                let target = w1.relaxed(cur, c);
                if target == cur {
                    Flood { world: w2, queue: rest, dirty: f.dirty }
                } else {
                    spread_upto(
                        Flood {
                            world: w2.with_light(spawns, c, target),
                            queue: rest,
                            dirty: f.dirty.insert(chunk_coord(c)),
                        },
                        spawns,
                        c,
                        target,
                        6,
                    )
                }
            },
        }
    }
}

/// The flood run to its end: steps are taken until the worklist is empty.
pub open spec fn flood(f: Flood, spawns: bool) -> Flood
    decreases f.world.darkness(), f.queue.len(),
{
    if f.queue.len() == 0 || !f.world.wf() {
        f
    } else {
        proof {
            lemma_relax_step(f, spawns);
        }
        flood(relax_step(f, spawns), spawns)
    }
}

/// Asking for neighbours keeps the world well formed and touches no cell.
pub proof fn lemma_probed_sides(w: WorldView, spawns: bool, c: DDD, k: int)
    requires
        w.wf(),
        0 <= k <= 6,
    ensures
        w.probed_sides(spawns, c, k).wf(),
        w.probed_sides(spawns, c, k).blocks == w.blocks,
        w.probed_sides(spawns, c, k).lights == w.lights,
        forall|d: DDD| #[trigger] w.probed_sides(spawns, c, k).cell(d) == w.cell(d),
        forall|d: DDD| #[trigger] w.probed_sides(spawns, c, k).light_level(d) == w.light_level(d),
        forall|d: DDD| #[trigger] w.probed_sides(spawns, c, k).is_opaque(d) == w.is_opaque(d),
        w.probed_sides(spawns, c, k).darkness() == w.darkness(),
        !spawns ==> w.probed_sides(spawns, c, k) == w,
    decreases k,
{
    if k > 0 {
        lemma_probed_sides(w, spawns, c, k - 1);
        let v = w.probed_sides(spawns, c, k - 1);
        if let Some(n) = neighbour(c, k - 1) {
            lemma_probed(v, spawns, n);
        }
    }
}

/// Relaxing never lowers a channel.
pub proof fn lemma_relaxed_upto(w: WorldView, cur: LightLevel, c: DDD, k: int)
    requires
        0 <= k <= 6,
    ensures
        w.relaxed_upto(cur, c, k).heaven() >= cur.heaven(),
        w.relaxed_upto(cur, c, k).hearth() >= cur.hearth(),
    decreases k,
{
    if k > 0 {
        lemma_relaxed_upto(w, cur, c, k - 1);
        let prev = w.relaxed_upto(cur, c, k - 1);
        if let Some(n) = neighbour(c, k - 1) {
            if let Some(donor) = w.light_level(n) {
                lemma_raise_channels(prev, donor, k - 1 == SIDE_UP);
            }
        }
    }
}

/// Offering light to the neighbours keeps the world well formed, touches no
/// cell, only adds to the worklist and only adds marks.
pub proof fn lemma_spread_upto(f: Flood, spawns: bool, c: DDD, target: LightLevel, k: int)
    requires
        f.world.wf(),
        0 <= k <= 6,
    ensures
        spread_upto(f, spawns, c, target, k).world.wf(),
        spread_upto(f, spawns, c, target, k).world.blocks == f.world.blocks,
        spread_upto(f, spawns, c, target, k).world.lights == f.world.lights,
        spread_upto(f, spawns, c, target, k).world.darkness() == f.world.darkness(),
        forall|d: DDD| #[trigger]
            spread_upto(f, spawns, c, target, k).world.cell(d) == f.world.cell(d),
        forall|d: DDD| #[trigger]
            spread_upto(f, spawns, c, target, k).world.light_level(d) == f.world.light_level(d),
        f.dirty.subset_of(spread_upto(f, spawns, c, target, k).dirty),
        !spawns ==> spread_upto(f, spawns, c, target, k).world == f.world,
    decreases k,
{
    if k > 0 {
        lemma_spread_upto(f, spawns, c, target, k - 1);
        let g = spread_upto(f, spawns, c, target, k - 1);
        if let Some(n) = neighbour(c, k - 1) {
            lemma_probed(g.world, spawns, n);
        }
    }
}

/// A step of the flood keeps the world well formed and every block in its
/// place, and brings the flood nearer its end: it raises the light of a
/// block, or leaves all light as it is and shortens the worklist.
pub proof fn lemma_relax_step(f: Flood, spawns: bool)
    requires
        f.world.wf(),
        f.queue.len() > 0,
    ensures
        relax_step(f, spawns).world.wf(),
        relax_step(f, spawns).world.blocks == f.world.blocks,
        forall|d: DDD| #[trigger] relax_step(f, spawns).world.cell(d) == f.world.cell(d),
        f.dirty.subset_of(relax_step(f, spawns).dirty),
        relax_step(f, spawns).world.darkness() < f.world.darkness() || (relax_step(
            f,
            spawns,
        ).world.darkness() == f.world.darkness() && relax_step(f, spawns).queue.len()
            < f.queue.len()),
{
    let c = f.queue.last();
    let rest = f.queue.drop_last();
    let w1 = f.world.probed(spawns, c);
    lemma_probed(f.world, spawns, c);
    if w1.is_opaque(c) {
        lemma_with_stored_light(w1, c, LightLevel::dark());
    } else {
        match w1.light_level(c) {
            None => {},
            Some(cur) => {
                let w2 = w1.probed_sides(spawns, c, 6);
                lemma_probed_sides(w1, spawns, c, 6);
                let target = w1.relaxed(cur, c);
                if target != cur {
                    lemma_relaxed_upto(w1, cur, c, 6);
                    if target.heaven() == cur.heaven() && target.hearth() == cur.hearth() {
                        lemma_light_ext(target, cur);
                    }
                    lemma_probed(w2, spawns, c);
                    let w3 = w2.probed(spawns, c);
                    assert(w3.light_level(c) == Some(cur));
                    lemma_with_stored_light(w3, c, target);
                    let base = Flood {
                        world: w2.with_light(spawns, c, target),
                        queue: rest,
                        dirty: f.dirty.insert(chunk_coord(c)),
                    };
                    lemma_spread_upto(base, spawns, c, target, 6);
                }
            },
        }
    }
}

/// The light that relaxing gives is, in each channel, at least what every
/// neighbour with light hands on.
pub proof fn lemma_relaxed_dominates(w: WorldView, cur: LightLevel, c: DDD, k: int, side: int)
    requires
        0 <= side < k <= 6,
        neighbour(c, side) is Some,
        w.light_level(neighbour(c, side)->0) is Some,
    ensures
        w.relaxed_upto(cur, c, k).heaven() >= crate::light::heaven_donation(
            w.light_level(neighbour(c, side)->0)->0,
            side == SIDE_UP,
        ),
        w.relaxed_upto(cur, c, k).hearth() >= crate::light::hearth_donation(
            w.light_level(neighbour(c, side)->0)->0,
        ),
    decreases k,
{
    let prev = w.relaxed_upto(cur, c, k - 1);
    if let Some(n) = neighbour(c, k - 1) {
        if let Some(donor) = w.light_level(n) {
            lemma_raise_channels(prev, donor, k - 1 == SIDE_UP);
        }
    }
    if side < k - 1 {
        lemma_relaxed_dominates(w, cur, c, k - 1, side);
    }
}

/// The light that relaxing gives is attained: each channel is the block's
/// own or what one of its neighbours hands on.
pub proof fn lemma_relaxed_attained(w: WorldView, cur: LightLevel, c: DDD, k: int)
    requires
        0 <= k <= 6,
    ensures
        w.relaxed_upto(cur, c, k).heaven() == cur.heaven() || exists|side: int|
            0 <= side < k && neighbour(c, side) is Some && (#[trigger] w.light_level(
                neighbour(c, side)->0,
            )) is Some && w.relaxed_upto(cur, c, k).heaven() == crate::light::heaven_donation(
                w.light_level(neighbour(c, side)->0)->0,
                side == SIDE_UP,
            ),
        w.relaxed_upto(cur, c, k).hearth() == cur.hearth() || exists|side: int|
            0 <= side < k && neighbour(c, side) is Some && (#[trigger] w.light_level(
                neighbour(c, side)->0,
            )) is Some && w.relaxed_upto(cur, c, k).hearth() == crate::light::hearth_donation(
                w.light_level(neighbour(c, side)->0)->0,
            ),
    decreases k,
{
    if k > 0 {
        lemma_relaxed_attained(w, cur, c, k - 1);
        let prev = w.relaxed_upto(cur, c, k - 1);
        if let Some(n) = neighbour(c, k - 1) {
            if let Some(donor) = w.light_level(n) {
                lemma_raise_channels(prev, donor, k - 1 == SIDE_UP);
                assert(w.light_level(neighbour(c, k - 1)->0) is Some);
            }
        }
    }
}

/// In a world whose light has converged, light falls by one level at most
/// from a block to its neighbour, and full daylight does not fall at all on
/// the way down.
pub proof fn lemma_converged_gradient(w: WorldView, c: DDD, side: int)
    requires
        w.converged(),
        0 <= side < 6,
        w.light_level(c) is Some,
        neighbour(c, side) is Some,
        w.light_level(neighbour(c, side)->0) is Some,
    ensures
        w.light_level(c)->0.hearth() >= w.light_level(neighbour(c, side)->0)->0.hearth() - 1,
        w.light_level(c)->0.heaven() >= w.light_level(neighbour(c, side)->0)->0.heaven() - 1,
        side == SIDE_UP && w.light_level(neighbour(c, side)->0)->0.heaven()
            == crate::light::MAX_LIGHT ==> w.light_level(c)->0.heaven() >= crate::light::MAX_LIGHT,
{
    assert(w.settled(c));
    lemma_relaxed_dominates(w, w.light_level(c)->0, c, 6, side);
}

/// A flood that starts at a height outside the world does nothing.
pub proof fn lemma_flood_out_of_range(w: WorldView, spawns: bool, c: DDD, dirty: Set<DD>)
    requires
        w.wf(),
        !in_y_range(c),
    ensures
        flood(Flood { world: w, queue: seq![c], dirty }, spawns) == (Flood {
            world: w,
            queue: Seq::<DDD>::empty(),
            dirty,
        }),
{
    let f = Flood { world: w, queue: seq![c], dirty };
    reveal_with_fuel(flood, 3);
    assert(f.queue.drop_last() == Seq::<DDD>::empty());
}

/// A flood that starts at an opaque block clears the light stored for it,
/// marks its chunk and does nothing else. Light is not defined at the block
/// before or after.
pub proof fn lemma_flood_opaque(w: WorldView, spawns: bool, c: DDD, dirty: Set<DD>)
    requires
        w.wf(),
        w.is_opaque(c),
    ensures
        flood(Flood { world: w, queue: seq![c], dirty }, spawns) == (Flood {
            world: w.with_stored_light(c, LightLevel::dark()),
            queue: Seq::<DDD>::empty(),
            dirty: dirty.insert(chunk_coord(c)),
        }),
        w.light_level(c) is None,
        w.with_stored_light(c, LightLevel::dark()).stored_light(c) == Some(LightLevel::dark()),
        w.with_stored_light(c, LightLevel::dark()).light_level(c) is None,
{
    let f = Flood { world: w, queue: seq![c], dirty };
    reveal_with_fuel(flood, 3);
    assert(f.queue.drop_last() == Seq::<DDD>::empty());
    lemma_probed(w, spawns, c);
    lemma_with_stored_light(w, c, LightLevel::dark());
}

/// When the block at `c` has been replaced by an opaque block, light is no
/// longer defined at `c`; a flood from `c` then clears the light stored for
/// `c`, marks the chunk of `c` and writes no other light.
pub proof fn lemma_opaque_edit(w: WorldView, spawns: bool, c: DDD, block: crate::block::Block, dirty: Set<DD>)
    requires
        w.wf(),
        w.block_at(c) is Some,
        block.is_visible(),
    ensures
        ({
            let edited = w.probed(spawns, c).with_block(c, block);
            let end = flood(Flood { world: edited, queue: seq![c], dirty }, spawns);
            &&& edited.wf()
            &&& edited.block_at(c) == Some(block)
            &&& edited.light_level(c) is None
            &&& end.world == edited.with_stored_light(c, LightLevel::dark())
            &&& end.world.stored_light(c) == Some(LightLevel::dark())
            &&& end.world.light_level(c) is None
            &&& end.dirty == dirty.insert(chunk_coord(c))
            &&& forall|d: DDD| d != c ==> #[trigger] end.world.light_level(d) == w.light_level(d)
        }),
{
    lemma_probed(w, spawns, c);
    let probed = w.probed(spawns, c);
    crate::world::lemma_with_block(probed, c, block);
    let edited = probed.with_block(c, block);
    lemma_flood_opaque(edited, spawns, c, dirty);
    lemma_with_stored_light(edited, c, LightLevel::dark());
}

/// Once the neighbours of `c` have been asked for, asking again changes
/// nothing.
pub proof fn lemma_probed_sides_again(w: WorldView, spawns: bool, c: DDD, k: int, n: int)
    requires
        w.wf(),
        0 <= k <= n <= 6,
    ensures
        w.probed_sides(spawns, c, n).probed_sides(spawns, c, k) == w.probed_sides(spawns, c, n),
    decreases k,
{
    let v = w.probed_sides(spawns, c, n);
    lemma_probed_sides(w, spawns, c, n);
    if k > 0 {
        lemma_probed_sides_again(w, spawns, c, k - 1, n);
        if let Some(m) = neighbour(c, k - 1) {
            lemma_probed_sides_known(w, spawns, c, n, k - 1);
            lemma_probed(v, spawns, m);
        }
    }
}

/// After the neighbours of `c` on the sides below `n` were asked for, asking
/// for one of them changes nothing.
pub proof fn lemma_probed_sides_known(w: WorldView, spawns: bool, c: DDD, n: int, side: int)
    requires
        w.wf(),
        0 <= side < n <= 6,
        neighbour(c, side) is Some,
    ensures
        w.probed_sides(spawns, c, n).probed(spawns, neighbour(c, side)->0) == w.probed_sides(
            spawns,
            c,
            n,
        ),
    decreases n,
{
    let m = neighbour(c, side)->0;
    let u = w.probed_sides(spawns, c, n - 1);
    lemma_probed_sides(w, spawns, c, n - 1);
    if side < n - 1 {
        lemma_probed_sides_known(w, spawns, c, n - 1, side);
        if let Some(last) = neighbour(c, n - 1) {
            lemma_probed(u, spawns, last);
            lemma_probed_commute(u, spawns, last, m);
        }
    } else {
        lemma_probed(u, spawns, m);
    }
}

/// A chunk that has been asked for stays known when another is asked for.
pub proof fn lemma_probed_commute(w: WorldView, spawns: bool, a: DDD, b: DDD)
    requires
        w.wf(),
        w.probed(spawns, b) == w,
    ensures
        w.probed(spawns, a).probed(spawns, b) == w.probed(spawns, a),
{
}

/// A flood that starts at a block whose light is settled, or that has no
/// light, writes no light and marks no chunk.
pub proof fn lemma_flood_settled(w: WorldView, spawns: bool, c: DDD, dirty: Set<DD>)
    requires
        w.wf(),
        !w.is_opaque(c),
        w.settled(c),
    ensures
        flood(Flood { world: w, queue: seq![c], dirty }, spawns).dirty == dirty,
        flood(Flood { world: w, queue: seq![c], dirty }, spawns).queue == Seq::<DDD>::empty(),
        flood(Flood { world: w, queue: seq![c], dirty }, spawns).world.lights == w.lights,
        flood(Flood { world: w, queue: seq![c], dirty }, spawns).world.blocks == w.blocks,
        flood(Flood { world: w, queue: seq![c], dirty }, spawns).world == (if w.light_level(c)
            is Some {
            w.probed(spawns, c).probed_sides(spawns, c, 6)
        } else {
            w.probed(spawns, c)
        }),
{
    let f = Flood { world: w, queue: seq![c], dirty };
    reveal_with_fuel(flood, 3);
    assert(f.queue.drop_last() == Seq::<DDD>::empty());
    lemma_probed(w, spawns, c);
    let w1 = w.probed(spawns, c);
    if let Some(cur) = w1.light_level(c) {
        lemma_probed_sides(w1, spawns, c, 6);
        lemma_relaxed_same(w, w1, cur, c, 6);
    }
}

/// Relaxing reads the light of the neighbours only: two worlds that agree
/// on all light give the same result.
pub proof fn lemma_relaxed_same(a: WorldView, b: WorldView, cur: LightLevel, c: DDD, k: int)
    requires
        0 <= k <= 6,
        forall|d: DDD| #[trigger] a.light_level(d) == b.light_level(d),
    ensures
        a.relaxed_upto(cur, c, k) == b.relaxed_upto(cur, c, k),
    decreases k,
{
    if k > 0 {
        lemma_relaxed_same(a, b, cur, c, k - 1);
    }
}

/// At the fixpoint the flood is idempotent: in a world whose light has
/// converged, a second flood from the same block right after the first
/// leaves the world as the first left it and marks no further chunk.
pub proof fn lemma_flood_twice_converged(w: WorldView, spawns: bool, c: DDD, dirty: Set<DD>)
    requires
        w.wf(),
        w.converged(),
    ensures
        ({
            let once = flood(Flood { world: w, queue: seq![c], dirty }, spawns);
            let twice = flood(Flood { world: once.world, queue: seq![c], dirty: once.dirty }, spawns);
            &&& twice.world == once.world
            &&& twice.dirty == once.dirty
            &&& once.world.converged()
            &&& !w.is_opaque(c) ==> once.dirty == dirty && once.world.lights == w.lights
        }),
{
    let once = flood(Flood { world: w, queue: seq![c], dirty }, spawns);
    assert(w.settled(c));
    lemma_probed(w, spawns, c);
    let w1 = w.probed(spawns, c);
    if w.is_opaque(c) {
        lemma_flood_opaque(w, spawns, c, dirty);
        let v = w.with_stored_light(c, LightLevel::dark());
        lemma_with_stored_light(w, c, LightLevel::dark());
        lemma_flood_opaque(v, spawns, c, once.dirty);
        lemma_cell_in_storage(w, c);
        assert(v.with_stored_light(c, LightLevel::dark()).lights == v.lights);
        assert(once.dirty.insert(chunk_coord(c)) == once.dirty);
        assert forall|d: DDD| #[trigger] v.settled(d) by {
            assert(w.settled(d));
            if let Some(cur) = w.light_level(d) {
                lemma_relaxed_same(w, v, cur, d, 6);
            }
        }
    } else {
        lemma_flood_settled(w, spawns, c, dirty);
        let v = once.world;
        if w.light_level(c) is Some {
            lemma_probed_sides(w1, spawns, c, 6);
            lemma_probed(v, spawns, c);
            lemma_probed_sides_again(w1, spawns, c, 6, 6);
        }
        assert forall|d: DDD| #[trigger] v.settled(d) by {
            assert(w.settled(d));
            if let Some(cur) = w.light_level(d) {
                lemma_relaxed_same(w, v, cur, d, 6);
            }
        }
        assert(v.settled(c));
        lemma_flood_settled(v, spawns, c, dirty);
    }
}

/// A step of the flood lowers no light: where a block had light before, it
/// has light afterwards that is at least as strong in both channels.
pub proof fn lemma_relax_step_raises(f: Flood, spawns: bool, d: DDD)
    requires
        f.world.wf(),
        f.queue.len() > 0,
        f.world.light_level(d) is Some,
    ensures
        relax_step(f, spawns).world.light_level(d) is Some,
        relax_step(f, spawns).world.light_level(d)->0.heaven() >= f.world.light_level(
            d,
        )->0.heaven(),
        relax_step(f, spawns).world.light_level(d)->0.hearth() >= f.world.light_level(
            d,
        )->0.hearth(),
{
    let c = f.queue.last();
    let rest = f.queue.drop_last();
    let w1 = f.world.probed(spawns, c);
    lemma_probed(f.world, spawns, c);
    if w1.is_opaque(c) {
        lemma_with_stored_light(w1, c, LightLevel::dark());
    } else {
        match w1.light_level(c) {
            None => {},
            Some(cur) => {
                let w2 = w1.probed_sides(spawns, c, 6);
                lemma_probed_sides(w1, spawns, c, 6);
                let target = w1.relaxed(cur, c);
                if target != cur {
                    lemma_relaxed_upto(w1, cur, c, 6);
                    lemma_probed(w2, spawns, c);
                    let w3 = w2.probed(spawns, c);
                    lemma_with_stored_light(w3, c, target);
                    let base = Flood {
                        world: w2.with_light(spawns, c, target),
                        queue: rest,
                        dirty: f.dirty.insert(chunk_coord(c)),
                    };
                    lemma_spread_upto(base, spawns, c, target, 6);
                }
            },
        }
    }
}

/// The flood comes to an end with an empty worklist and a well-formed
/// world. It moves no block, takes back no mark, and lowers no light: where
/// a block had light before, it has light afterwards that is at least as
/// strong in both channels.
pub proof fn lemma_flood_raises(f: Flood, spawns: bool)
    requires
        f.world.wf(),
    ensures
        flood(f, spawns).queue.len() == 0,
        flood(f, spawns).world.wf(),
        flood(f, spawns).world.blocks == f.world.blocks,
        f.dirty.subset_of(flood(f, spawns).dirty),
        forall|d: DDD| #[trigger] flood(f, spawns).world.cell(d) == f.world.cell(d),
        forall|d: DDD|
            f.world.light_level(d) is Some ==> (#[trigger] flood(f, spawns).world.light_level(d))
                is Some && flood(f, spawns).world.light_level(d)->0.heaven()
                >= f.world.light_level(d)->0.heaven() && flood(f, spawns).world.light_level(
                d,
            )->0.hearth() >= f.world.light_level(d)->0.hearth(),
    decreases f.world.darkness(), f.queue.len(),
{
    if f.queue.len() > 0 {
        let g = relax_step(f, spawns);
        lemma_relax_step(f, spawns);
        lemma_flood_raises(g, spawns);
        assert forall|d: DDD| f.world.light_level(d) is Some implies (#[trigger] flood(
            f,
            spawns,
        ).world.light_level(d)) is Some && flood(f, spawns).world.light_level(d)->0.heaven()
            >= f.world.light_level(d)->0.heaven() && flood(f, spawns).world.light_level(
            d,
        )->0.hearth() >= f.world.light_level(d)->0.hearth() by {
            lemma_relax_step_raises(f, spawns, d);
            assert(g.world.light_level(d) is Some);
        }
    }
}

} // verus!
