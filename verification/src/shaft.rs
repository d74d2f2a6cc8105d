//! Convergence of the flood in a shaft: a vertical run of open blocks, lit
//! from its top block and closed on all sides.

use crate::coords::{chunk_coord, in_y_range, neighbour, DD, DDD};
use crate::light::{
    lemma_light_channels, lemma_light_ext, lemma_raise_channels, max_level, LightLevel, MAX_LIGHT,
};
use crate::propagation::{
    flood, lemma_probed_sides, lemma_relax_step, lemma_spread_upto, relax_step, spread_upto, Flood,
};
use crate::world::{lemma_probed, lemma_with_stored_light, WorldView};
use vstd::prelude::*;

verus! {

/// The block `i` blocks below `top`.
pub open spec fn below(top: DDD, i: int) -> DDD {
    (top.0, (top.1 - i) as i32, top.2)
}

/// Whether `k` is one of the four horizontal sides.
pub open spec fn is_horizontal(k: int) -> bool {
    k == 0 || k == 1 || k == 4 || k == 5
}

/// The light that the flood leaves `i` blocks below a top block with the
/// light `top`: full daylight stays full all the way down; any other light
/// falls by one level with every block until it is gone.
pub open spec fn shaft_light(top: LightLevel, i: int) -> LightLevel {
    LightLevel::of(
        (if top.heaven() == MAX_LIGHT {
            MAX_LIGHT as int
        } else {
            max_level(top.heaven() - i, 0)
        }) as u8,
        max_level(top.hearth() - i, 0) as u8,
    )
}

/// Whether the blocks of `q` have no light.
pub open spec fn inert(w: WorldView, q: Seq<DDD>) -> bool {
    forall|k: int| 0 <= k < q.len() ==> (#[trigger] w.light_level(q[k])) is None
}

/// A shaft of depth `n` under `top` whose first `i` blocks below the top, the
/// top included, hold their final light and whose other blocks are dark.
/// Every block of the shaft has light; none of the blocks beside the shaft
/// below its top has, nor has the block under its last.
pub open spec fn shaft_lit_to(w: WorldView, top: DDD, n: int, top_light: LightLevel, i: int) -> bool {
    &&& w.wf()
    &&& top_light.valid()
    &&& 1 <= i <= n + 1
    &&& in_y_range(top)
    &&& top.1 - n >= 0
    &&& forall|j: int|
        0 <= j < i ==> #[trigger] w.light_level(below(top, j)) == Some(shaft_light(top_light, j))
    &&& forall|j: int|
        i <= j <= n ==> #[trigger] w.light_level(below(top, j)) == Some(LightLevel::dark())
    &&& forall|j: int, k: int|
        1 <= j <= n && is_horizontal(k) && neighbour(below(top, j), k) is Some
            ==> (#[trigger] w.light_level(neighbour(below(top, j), k)->0)) is None
    &&& w.light_level(below(top, n + 1)) is None
}

/// Whether two worlds are well formed alike and have the same light at every
/// block.
pub open spec fn same_light(a: WorldView, b: WorldView) -> bool {
    &&& a.wf() == b.wf()
    &&& forall|d: DDD| #[trigger] a.light_level(d) == b.light_level(d)
}

/// A step at a block without light writes no light and puts nothing on the
/// worklist.
pub proof fn lemma_inert_step(f: Flood, spawns: bool)
    requires
        f.world.wf(),
        f.queue.len() > 0,
        f.world.light_level(f.queue.last()) is None,
    ensures
        relax_step(f, spawns).queue == f.queue.drop_last(),
        relax_step(f, spawns).world.wf(),
        same_light(relax_step(f, spawns).world, f.world),
{
    let c = f.queue.last();
    let w1 = f.world.probed(spawns, c);
    lemma_probed(f.world, spawns, c);
    if w1.is_opaque(c) {
        lemma_with_stored_light(w1, c, LightLevel::dark());
        let v = w1.with_stored_light(c, LightLevel::dark());
        assert forall|d: DDD| #[trigger] v.light_level(d) == f.world.light_level(d) by {
            if d == c {
                assert(v.is_opaque(c));
            }
        }
    }
}

/// A flood whose worklist holds only blocks without light writes no light.
pub proof fn lemma_inert_flood(f: Flood, spawns: bool)
    requires
        f.world.wf(),
        inert(f.world, f.queue),
    ensures
        same_light(flood(f, spawns).world, f.world),
    decreases f.queue.len(),
{
    if f.queue.len() > 0 {
        let g = relax_step(f, spawns);
        assert(f.world.light_level(f.queue[f.queue.len() - 1]) is None);
        lemma_inert_step(f, spawns);
        lemma_relax_step(f, spawns);
        assert forall|k: int| 0 <= k < g.queue.len() implies (#[trigger] g.world.light_level(
            g.queue[k],
        )) is None by {
            assert(g.queue[k] == f.queue[k]);
            assert(f.world.light_level(f.queue[k]) is None);
        }
        lemma_inert_flood(g, spawns);
    }
}

/// The light of the shaft one block further down follows from the light of
/// the block above it.
pub proof fn lemma_shaft_light_step(top: LightLevel, i: int)
    requires
        top.valid(),
        1 <= i,
    ensures
        shaft_light(top, i) == LightLevel::dark().raised_by(shaft_light(top, i - 1), true),
        shaft_light(top, i - 1).satisfied_by(shaft_light(top, i)),
        shaft_light(top, i) == LightLevel::dark() ==> shaft_light(top, i + 1) == LightLevel::dark(),
        LightLevel::dark().satisfied_by(shaft_light(top, i)) ==> shaft_light(top, i + 1)
            == LightLevel::dark(),
        LightLevel::dark().raised_by(LightLevel::dark(), false) == LightLevel::dark(),
{
    let up = shaft_light(top, i - 1);
    let here = shaft_light(top, i);
    let next = shaft_light(top, i + 1);
    let dark = LightLevel::dark();
    lemma_light_channels(0, 0);
    lemma_light_channels(
        (if top.heaven() == MAX_LIGHT {
            MAX_LIGHT as int
        } else {
            max_level(top.heaven() - (i - 1), 0)
        }) as u8,
        max_level(top.hearth() - (i - 1), 0) as u8,
    );
    lemma_light_channels(
        (if top.heaven() == MAX_LIGHT {
            MAX_LIGHT as int
        } else {
            max_level(top.heaven() - i, 0)
        }) as u8,
        max_level(top.hearth() - i, 0) as u8,
    );
    lemma_light_channels(
        (if top.heaven() == MAX_LIGHT {
            MAX_LIGHT as int
        } else {
            max_level(top.heaven() - (i + 1), 0)
        }) as u8,
        max_level(top.hearth() - (i + 1), 0) as u8,
    );
    lemma_raise_channels(dark, up, true);
    lemma_light_ext(here, dark.raised_by(up, true));
    lemma_raise_channels(dark, dark, false);
    lemma_light_ext(dark, dark.raised_by(dark, false));
    if here == dark {
        lemma_light_ext(next, dark);
    }
    if dark.satisfied_by(here) {
        lemma_light_ext(next, dark);
    }
}

/// Relaxing the first dark block of a shaft gives it the light that the
/// block above hands down.
pub proof fn lemma_shaft_relaxed(w: WorldView, top: DDD, n: int, top_light: LightLevel, i: int)
    requires
        shaft_lit_to(w, top, n, top_light, i),
        i <= n,
    ensures
        w.relaxed(LightLevel::dark(), below(top, i)) == shaft_light(top_light, i),
{
    let c = below(top, i);
    let dark = LightLevel::dark();
    lemma_shaft_light_step(top_light, i);
    reveal_with_fuel(WorldView::relaxed_upto, 7);
    assert(neighbour(c, 2) == Some(below(top, i - 1)));
    assert(neighbour(c, 3) == Some(below(top, i + 1)));
    assert(w.light_level(below(top, i - 1)) == Some(shaft_light(top_light, i - 1)));
    if i < n {
        assert(w.light_level(below(top, i + 1)) == Some(dark));
    }
    assert(is_horizontal(0) && is_horizontal(1) && is_horizontal(4) && is_horizontal(5));
    assert(neighbour(c, 0) is Some ==> w.light_level(neighbour(c, 0)->0) is None);
    assert(neighbour(c, 1) is Some ==> w.light_level(neighbour(c, 1)->0) is None);
    assert(neighbour(c, 4) is Some ==> w.light_level(neighbour(c, 4)->0) is None);
    assert(neighbour(c, 5) is Some ==> w.light_level(neighbour(c, 5)->0) is None);
    assert(w.relaxed_upto(dark, c, 2) == dark);
    assert(w.relaxed_upto(dark, c, 3) == shaft_light(top_light, i));
    assert(w.relaxed_upto(dark, c, 4) == shaft_light(top_light, i)) by {
        lemma_raise_channels(shaft_light(top_light, i), dark, false);
        lemma_light_channels(0, 0);
        lemma_light_ext(
            shaft_light(top_light, i),
            shaft_light(top_light, i).raised_by(dark, false),
        );
    }
}

/// Once the light of the shaft has gone out, it stays out below.
pub proof fn lemma_shaft_dark_below(top: LightLevel, i: int, j: int)
    requires
        top.valid(),
        1 <= i <= j,
        shaft_light(top, i) == LightLevel::dark(),
    ensures
        shaft_light(top, j) == LightLevel::dark(),
    decreases j - i,
{
    if i < j {
        lemma_shaft_light_step(top, i);
        lemma_shaft_dark_below(top, i + 1, j);
    }
}

/// Whether every block of the shaft holds its final light.
pub open spec fn shaft_done(w: WorldView, top: DDD, n: int, top_light: LightLevel) -> bool {
    forall|j: int|
        0 <= j <= n ==> #[trigger] w.light_level(below(top, j)) == Some(shaft_light(top_light, j))
}

/// A flood that finds the shaft lit down to its block `i - 1`, with block
/// `i` on the worklist among blocks without light, lights the rest of the
/// shaft.
pub proof fn lemma_shaft_flood(
    w: WorldView,
    spawns: bool,
    top: DDD,
    n: int,
    top_light: LightLevel,
    i: int,
    q: Seq<DDD>,
    tail: Seq<DDD>,
    dirty: Set<DD>,
)
    requires
        shaft_lit_to(w, top, n, top_light, i),
        i <= n,
        inert(w, q),
        inert(w, tail),
    ensures
        shaft_done(
            flood(Flood { world: w, queue: q.push(below(top, i)) + tail, dirty }, spawns).world,
            top,
            n,
            top_light,
        ),
    decreases n - i, tail.len(),
{
    let c = below(top, i);
    let dark = LightLevel::dark();
    let f = Flood { world: w, queue: q.push(c) + tail, dirty };
    let g = relax_step(f, spawns);
    lemma_relax_step(f, spawns);
    assert(flood(f, spawns) == flood(g, spawns));
    if tail.len() > 0 {
        assert(f.queue.last() == tail.last());
        assert(w.light_level(tail[tail.len() - 1]) is None);
        lemma_inert_step(f, spawns);
        assert(g.queue == q.push(c) + tail.drop_last());
        assert(inert(g.world, q)) by {
            assert forall|k: int| 0 <= k < q.len() implies (#[trigger] g.world.light_level(q[k]))
                is None by {
                assert(w.light_level(q[k]) is None);
            }
        }
        assert(inert(g.world, tail.drop_last())) by {
            assert forall|k: int| 0 <= k < tail.drop_last().len() implies (
            #[trigger] g.world.light_level(tail.drop_last()[k])) is None by {
                assert(w.light_level(tail[k]) is None);
            }
        }
        lemma_shaft_same_light(w, g.world, top, n, top_light, i);
        lemma_shaft_flood(g.world, spawns, top, n, top_light, i, q, tail.drop_last(), g.dirty);
    } else {
        assert(f.queue == q.push(c));
        assert(f.queue.last() == c);
        assert(f.queue.drop_last() == q);
        let w1 = w.probed(spawns, c);
        lemma_probed(w, spawns, c);
        assert(w.light_level(c) == Some(dark));
        let w2 = w1.probed_sides(spawns, c, 6);
        lemma_probed_sides(w1, spawns, c, 6);
        lemma_shaft_relaxed(w, top, n, top_light, i);
        crate::propagation::lemma_relaxed_same(w, w1, dark, c, 6);
        let target = shaft_light(top_light, i);
        assert(w1.relaxed(dark, c) == target);
        lemma_shaft_light_step(top_light, i);
        if target == dark {
            assert(g == Flood { world: w2, queue: q, dirty });
            assert(inert(w2, q)) by {
                assert forall|k: int| 0 <= k < q.len() implies (#[trigger] w2.light_level(q[k]))
                    is None by {
                    assert(w.light_level(q[k]) is None);
                }
            }
            lemma_inert_flood(g, spawns);
            let end = flood(g, spawns).world;
            assert forall|j: int| 0 <= j <= n implies #[trigger] end.light_level(below(top, j))
                == Some(shaft_light(top_light, j)) by {
                assert(end.light_level(below(top, j)) == w.light_level(below(top, j)));
                if j >= i {
                    lemma_shaft_dark_below(top_light, i, j);
                }
            }
        } else {
            lemma_probed(w2, spawns, c);
            let w3 = w2.with_light(spawns, c, target);
            lemma_with_stored_light(w2.probed(spawns, c), c, target);
            let base = Flood { world: w3, queue: q, dirty: dirty.insert(chunk_coord(c)) };
            assert(g == spread_upto(base, spawns, c, target, 6));
            lemma_shaft_lit_further(w, w3, top, n, top_light, i);
            assert(inert(w3, q)) by {
                assert forall|k: int| 0 <= k < q.len() implies (#[trigger] w3.light_level(q[k]))
                    is None by {
                    assert(w.light_level(q[k]) is None);
                }
            }
            lemma_shaft_spread(w3, spawns, top, n, top_light, i, q, base.dirty);
            lemma_spread_upto(base, spawns, c, target, 6);
            assert(same_light(w3, g.world));
            lemma_shaft_same_light(w3, g.world, top, n, top_light, i + 1);
            let g3 = spread_upto(base, spawns, c, target, 3);
            let g4 = spread_upto(base, spawns, c, target, 4);
            let nd = below(top, i + 1);
            if i < n && !dark.satisfied_by(target) {
                let later = g.queue.subrange(g4.queue.len() as int, g.queue.len() as int);
                assert(g.queue == g3.queue.push(nd) + later) by {
                    assert(g.queue.subrange(0, g4.queue.len() as int) == g4.queue);
                }
                lemma_inert_same_light(w3, g.world, g3.queue);
                lemma_inert_same_light(w3, g.world, later);
                lemma_shaft_flood(g.world, spawns, top, n, top_light, i + 1, g3.queue, later, g.dirty);
            } else {
                lemma_inert_same_light(w3, g.world, g.queue);
                lemma_inert_flood(g, spawns);
                let end = flood(g, spawns).world;
                assert forall|j: int| 0 <= j <= n implies #[trigger] end.light_level(below(top, j))
                    == Some(shaft_light(top_light, j)) by {
                    assert(end.light_level(below(top, j)) == g.world.light_level(below(top, j)));
                    if j > i {
                        lemma_shaft_dark_below(top_light, i + 1, j);
                        assert(g.world.light_level(below(top, j)) == Some(dark));
                    } else {
                        assert(g.world.light_level(below(top, j)) == Some(
                            shaft_light(top_light, j),
                        ));
                    }
                }
            }
        }
    }
}

/// Writing its final light to block `i` of a shaft lit down to block `i - 1`
/// makes it a shaft lit down to block `i`.
pub proof fn lemma_shaft_lit_further(
    w: WorldView,
    w3: WorldView,
    top: DDD,
    n: int,
    top_light: LightLevel,
    i: int,
)
    requires
        shaft_lit_to(w, top, n, top_light, i),
        i <= n,
        w3.wf(),
        w3.light_level(below(top, i)) == Some(shaft_light(top_light, i)),
        forall|d: DDD| d != below(top, i) ==> #[trigger] w3.light_level(d) == w.light_level(d),
    ensures
        shaft_lit_to(w3, top, n, top_light, i + 1),
{
    let c = below(top, i);
    let dark = LightLevel::dark();
    assert(w.light_level(c) == Some(dark));
    assert forall|j: int| 0 <= j < i + 1 implies #[trigger] w3.light_level(below(top, j)) == Some(
        shaft_light(top_light, j),
    ) by {
        if j < i {
            assert(w.light_level(below(top, j)) == Some(shaft_light(top_light, j)));
            assert(below(top, j) != c);
        }
    }
    assert forall|j: int| i + 1 <= j <= n implies #[trigger] w3.light_level(below(top, j)) == Some(
        dark,
    ) by {
        assert(w.light_level(below(top, j)) == Some(dark));
        assert(below(top, j) != c);
    }
    assert forall|j: int, k: int|
        1 <= j <= n && is_horizontal(k) && neighbour(below(top, j), k) is Some implies (
        #[trigger] w3.light_level(neighbour(below(top, j), k)->0)) is None by {
        assert(w.light_level(neighbour(below(top, j), k)->0) is None);
    }
    assert(w3.light_level(below(top, n + 1)) is None) by {
        assert(below(top, n + 1) != c);
    }
}

/// A world with the same light as a shaft lit to `i` is one.
pub proof fn lemma_shaft_same_light(
    w: WorldView,
    v: WorldView,
    top: DDD,
    n: int,
    top_light: LightLevel,
    i: int,
)
    requires
        shaft_lit_to(w, top, n, top_light, i),
        same_light(v, w),
    ensures
        shaft_lit_to(v, top, n, top_light, i),
{
    assert forall|j: int| 0 <= j < i implies #[trigger] v.light_level(below(top, j)) == Some(
        shaft_light(top_light, j),
    ) by {
        assert(w.light_level(below(top, j)) == Some(shaft_light(top_light, j)));
    }
    assert forall|j: int| i <= j <= n implies #[trigger] v.light_level(below(top, j)) == Some(
        LightLevel::dark(),
    ) by {
        assert(w.light_level(below(top, j)) == Some(LightLevel::dark()));
    }
    assert forall|j: int, k: int|
        1 <= j <= n && is_horizontal(k) && neighbour(below(top, j), k) is Some implies (
        #[trigger] v.light_level(neighbour(below(top, j), k)->0)) is None by {
        assert(w.light_level(neighbour(below(top, j), k)->0) is None);
    }
}

/// Whether the worklist `b` is the worklist `a` with blocks without light
/// put on top.
pub open spec fn grows_inert(v: WorldView, a: Seq<DDD>, b: Seq<DDD>) -> bool {
    &&& a.len() <= b.len()
    &&& b.subrange(0, a.len() as int) == a
    &&& inert(v, b.subrange(a.len() as int, b.len() as int))
}

/// Putting blocks without light on top twice is putting them on top once.
pub proof fn lemma_grows_inert_trans(v: WorldView, a: Seq<DDD>, b: Seq<DDD>, c: Seq<DDD>)
    requires
        grows_inert(v, a, b),
        grows_inert(v, b, c),
    ensures
        grows_inert(v, a, c),
{
    assert(c.subrange(0, a.len() as int) == a) by {
        assert(c.subrange(0, b.len() as int).subrange(0, a.len() as int) == c.subrange(
            0,
            a.len() as int,
        ));
    }
    let rest = c.subrange(a.len() as int, c.len() as int);
    assert forall|k: int| 0 <= k < rest.len() implies (#[trigger] v.light_level(rest[k]))
        is None by {
        if k < b.len() - a.len() {
            assert(rest[k] == c.subrange(0, b.len() as int)[a.len() + k]);
            assert(rest[k] == b.subrange(a.len() as int, b.len() as int)[k]);
            assert(v.light_level(b.subrange(a.len() as int, b.len() as int)[k]) is None);
        } else {
            let at = k - (b.len() - a.len());
            assert(rest[k] == c.subrange(b.len() as int, c.len() as int)[at]);
            assert(v.light_level(c.subrange(b.len() as int, c.len() as int)[at]) is None);
        }
    }
}

/// A worklist of blocks without light stays one when such blocks are put on
/// top.
pub proof fn lemma_grows_inert_whole(v: WorldView, a: Seq<DDD>, b: Seq<DDD>)
    requires
        grows_inert(v, a, b),
        inert(v, a),
    ensures
        inert(v, b),
{
    assert forall|k: int| 0 <= k < b.len() implies (#[trigger] v.light_level(b[k])) is None by {
        if k < a.len() {
            assert(b[k] == b.subrange(0, a.len() as int)[k]);
            assert(v.light_level(a[k]) is None);
        } else {
            assert(b[k] == b.subrange(a.len() as int, b.len() as int)[k - a.len()]);
            assert(v.light_level(b.subrange(a.len() as int, b.len() as int)[k - a.len()])
                is None);
        }
    }
}

/// Offering light to a side where no block has light puts at most that
/// block on the worklist.
pub proof fn lemma_spread_inert_side(f: Flood, spawns: bool, c: DDD, target: LightLevel, k: int)
    requires
        f.world.wf(),
        0 <= k < 6,
        neighbour(c, k) is Some ==> f.world.light_level(neighbour(c, k)->0) is None,
    ensures
        grows_inert(
            f.world,
            spread_upto(f, spawns, c, target, k).queue,
            spread_upto(f, spawns, c, target, k + 1).queue,
        ),
{
    let g = spread_upto(f, spawns, c, target, k);
    let h = spread_upto(f, spawns, c, target, k + 1);
    lemma_spread_upto(f, spawns, c, target, k);
    match neighbour(c, k) {
        None => {
            assert(h.queue == g.queue);
            assert(h.queue.subrange(0, g.queue.len() as int) == g.queue);
        },
        Some(m) => {
            assert(g.world.light_level(m) is None);
            assert(h.queue == g.queue.push(m));
            assert(h.queue.subrange(0, g.queue.len() as int) == g.queue);
            assert(h.queue.subrange(g.queue.len() as int, h.queue.len() as int) == seq![m]);
        },
    }
}

/// Offering light to a side whose block has light puts that block on the
/// worklist unless its light is at most one level weaker.
pub proof fn lemma_spread_lit_side(f: Flood, spawns: bool, c: DDD, target: LightLevel, k: int)
    requires
        f.world.wf(),
        0 <= k < 6,
        neighbour(c, k) is Some,
        f.world.light_level(neighbour(c, k)->0) is Some,
    ensures
        spread_upto(f, spawns, c, target, k + 1).queue == (if f.world.light_level(
            neighbour(c, k)->0,
        )->0.satisfied_by(target) {
            spread_upto(f, spawns, c, target, k).queue
        } else {
            spread_upto(f, spawns, c, target, k).queue.push(neighbour(c, k)->0)
        }),
{
    lemma_spread_upto(f, spawns, c, target, k);
}

/// What offering the new light of block `i` of a shaft to its neighbours
/// leaves on the worklist: blocks without light and, between them, the next
/// block of the shaft if that needs more light.
pub proof fn lemma_shaft_spread(
    w3: WorldView,
    spawns: bool,
    top: DDD,
    n: int,
    top_light: LightLevel,
    i: int,
    q: Seq<DDD>,
    dirty: Set<DD>,
)
    requires
        shaft_lit_to(w3, top, n, top_light, i + 1),
        1 <= i <= n,
        inert(w3, q),
    ensures
        ({
            let c = below(top, i);
            let target = shaft_light(top_light, i);
            let base = Flood { world: w3, queue: q, dirty };
            let g3 = spread_upto(base, spawns, c, target, 3);
            let g4 = spread_upto(base, spawns, c, target, 4);
            let g = spread_upto(base, spawns, c, target, 6);
            let pushed = i < n && !LightLevel::dark().satisfied_by(target);
            &&& inert(w3, g3.queue)
            &&& pushed ==> g4.queue == g3.queue.push(below(top, i + 1)) && grows_inert(
                w3,
                g4.queue,
                g.queue,
            )
            &&& !pushed ==> inert(w3, g.queue)
        }),
{
    let c = below(top, i);
    let dark = LightLevel::dark();
    let target = shaft_light(top_light, i);
    let base = Flood { world: w3, queue: q, dirty };
    lemma_shaft_light_step(top_light, i);
    let g0 = spread_upto(base, spawns, c, target, 0);
    let g1 = spread_upto(base, spawns, c, target, 1);
    let g2 = spread_upto(base, spawns, c, target, 2);
    let g3 = spread_upto(base, spawns, c, target, 3);
    let g4 = spread_upto(base, spawns, c, target, 4);
    let g5 = spread_upto(base, spawns, c, target, 5);
    let g = spread_upto(base, spawns, c, target, 6);
    assert(neighbour(c, 2) == Some(below(top, i - 1)));
    assert(neighbour(c, 3) == Some(below(top, i + 1)));
    assert(is_horizontal(0) && is_horizontal(1) && is_horizontal(4) && is_horizontal(5));
    assert(neighbour(c, 0) is Some ==> w3.light_level(neighbour(c, 0)->0) is None);
    assert(neighbour(c, 1) is Some ==> w3.light_level(neighbour(c, 1)->0) is None);
    assert(neighbour(c, 4) is Some ==> w3.light_level(neighbour(c, 4)->0) is None);
    assert(neighbour(c, 5) is Some ==> w3.light_level(neighbour(c, 5)->0) is None);
    assert(w3.light_level(below(top, i - 1)) == Some(shaft_light(top_light, i - 1)));
    assert(g0.queue == q);
    lemma_spread_inert_side(base, spawns, c, target, 0);
    lemma_spread_inert_side(base, spawns, c, target, 1);
    lemma_grows_inert_trans(w3, g0.queue, g1.queue, g2.queue);
    lemma_grows_inert_whole(w3, q, g2.queue);
    lemma_spread_lit_side(base, spawns, c, target, 2);
    assert(g3.queue == g2.queue);
    if i < n {
        assert(w3.light_level(below(top, i + 1)) == Some(dark));
        lemma_spread_lit_side(base, spawns, c, target, 3);
    } else {
        assert(w3.light_level(below(top, i + 1)) is None);
        lemma_spread_inert_side(base, spawns, c, target, 3);
        lemma_grows_inert_whole(w3, g3.queue, g4.queue);
    }
    lemma_spread_inert_side(base, spawns, c, target, 4);
    lemma_spread_inert_side(base, spawns, c, target, 5);
    lemma_grows_inert_trans(w3, g4.queue, g5.queue, g.queue);
    if !(i < n && !dark.satisfied_by(target)) {
        lemma_grows_inert_whole(w3, g4.queue, g.queue);
    }
}

/// Blocks without light in one world have none in a world with the same
/// light.
pub proof fn lemma_inert_same_light(a: WorldView, b: WorldView, q: Seq<DDD>)
    requires
        inert(a, q),
        same_light(a, b),
    ensures
        inert(b, q),
{
    assert forall|k: int| 0 <= k < q.len() implies (#[trigger] b.light_level(q[k])) is None by {
        assert(a.light_level(q[k]) is None);
    }
}

/// Convergence of the flood in a shaft. The shaft reaches `n` blocks down
/// from the block `top`; all its blocks have light, the top block any and the
/// others none yet; the blocks beside it and the block under it have no
/// light to give or take. A flood from the block below the top then leaves
/// `i` blocks below the top the light of the top less `i` levels in each
/// channel, and no less than none, with one exception: full daylight at the
/// top reaches every block of the shaft undiminished.
pub proof fn lemma_shaft_converges(
    w: WorldView,
    spawns: bool,
    top: DDD,
    n: int,
    top_light: LightLevel,
    dirty: Set<DD>,
)
    requires
        shaft_lit_to(w, top, n, top_light, 1),
        n >= 1,
    ensures
        shaft_done(
            flood(Flood { world: w, queue: seq![below(top, 1)], dirty }, spawns).world,
            top,
            n,
            top_light,
        ),
{
    let q = Seq::<DDD>::empty();
    assert(q.push(below(top, 1)) + q == seq![below(top, 1)]);
    lemma_shaft_flood(w, spawns, top, n, top_light, 1, q, q, dirty);
}

} // verus!
