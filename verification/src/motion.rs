//! How an entity moves in one frame: acceleration, the way, and the
//! passes that stop it at what stands in the way.
use crate::collision::{
    blocks, edge_could_cross, edge_time, lemma_sweep_below, span_x, span_y, sweep, Edge, Hit,
};
use crate::entity::{Facing, MoveSpec, SimEntityView};
use crate::fixed::{
    lemma_div_sign, lemma_mul_zero, lemma_stays_above, lemma_stays_below, spec_abs, spec_div,
    spec_sqrt, HALF, UNIT,
};
use crate::math::V2;
use vstd::prelude::*;

verus! {

/// How many times one move looks for a collision.
pub const COLLISION_PASSES: usize = 4;

/// The acceleration that moves an entity: `ddp`, cut down to length one
/// where it is longer and `spec` asks for that, times the speed of `spec`,
/// less the drag of `spec` times the velocity `dp`.
pub open spec fn accel(ddp: V2, spec: MoveSpec, dp: V2) -> V2 {
    let unit = if spec.unit_max_accel_vector && ddp.spec_len_sq() > UNIT {
        ddp.spec_scaled(spec_div(UNIT as int, spec_sqrt(ddp.spec_len_sq())) as i64)
    } else {
        ddp
    };
    unit.spec_scaled(spec.speed).spec_minus(dp.spec_scaled(spec.drag))
}

/// The facing that the velocity `dp` gives: along the axis on which `dp` is
/// larger, to the side to which it goes there; `prev` where `dp` is as
/// large on one axis as on the other, as it is where it is zero.
pub open spec fn facing(dp: V2, prev: Facing) -> Facing {
    if spec_abs(dp.x as int) == spec_abs(dp.y as int) {
        prev
    } else if spec_abs(dp.x as int) > spec_abs(dp.y as int) {
        if dp.x > 0 {
            Facing::Right
        } else {
            Facing::Left
        }
    } else {
        if dp.y > 0 {
            Facing::Up
        } else {
            Facing::Down
        }
    }
}

/// An entity in the middle of a move: where it is, how fast, and the way it
/// still wants to go.
pub struct Moving {
    pub entity: SimEntityView,
    pub delta: V2,
    /// Whether the last pass hit something.
    pub hit: bool,
}

/// One pass of a move: the entity goes along `delta` up to the first impact
/// with an entity of `m`. After an impact the velocity and the rest of the
/// way lose their part along the normal of the edge that was hit.
pub open spec fn pass(m: Map<usize, SimEntityView>, e: SimEntityView, delta: V2) -> Moving {
    let desired = e.p.spec_plus(delta);
    let h = if e.collides && e.spatial {
        sweep(m, e, delta)
    } else {
        Hit::none()
    };
    let p = e.p.spec_plus(delta.spec_scaled(h.t_min));
    if h.found {
        let dp = e.dp.spec_minus(h.normal.spec_scaled(e.dp.spec_inner(h.normal) as i64));
        let rest = desired.spec_minus(p);
        let slide = rest.spec_minus(h.normal.spec_scaled(rest.spec_inner(h.normal) as i64));
        Moving { entity: SimEntityView { p, dp, ..e }, delta: slide, hit: true }
    } else {
        Moving { entity: SimEntityView { p, ..e }, delta, hit: false }
    }
}

/// Up to `n` passes: a pass that hits nothing ends the move.
pub open spec fn passes(m: Map<usize, SimEntityView>, e: SimEntityView, delta: V2, n: nat)
    -> SimEntityView
    decreases n,
{
    if n == 0 {
        e
    } else {
        let after = pass(m, e, delta);
        if after.hit {
            passes(m, after.entity, after.delta, (n - 1) as nat)
        } else {
            after.entity
        }
    }
}

/// The entity `old` after a frame of `dt` seconds under the acceleration
/// `ddp`, among the entities of `m`. An entity without a place does not move.
pub open spec fn moved(
    m: Map<usize, SimEntityView>,
    old: SimEntityView,
    dt: i64,
    ddp: V2,
    spec: MoveSpec,
) -> SimEntityView {
    if !old.spatial {
        old
    } else {
        let gain = accel(ddp, spec, old.dp).spec_scaled(dt);
        let delta = gain.spec_scaled(dt).spec_scaled(HALF).spec_plus(old.dp.spec_scaled(dt));
        let start = SimEntityView { dp: gain.spec_plus(old.dp), ..old };
        let end = passes(m, start, delta, COLLISION_PASSES as nat);
        SimEntityView { facing_direction: facing(end.dp, end.facing_direction), ..end }
    }
}

/// Whether `e` is on the outer side of the edge `edge` of the box of
/// `other`, grown by the size of `e`: on its line or beyond.
pub open spec fn beyond(e: SimEntityView, other: SimEntityView, edge: Edge) -> bool {
    let rel = e.p.spec_minus(other.p);
    match edge {
        Edge::Left => rel.x <= span_x(e, other).x,
        Edge::Right => rel.x >= span_x(e, other).y,
        Edge::Bottom => rel.y <= span_y(e, other).x,
        Edge::Top => rel.y >= span_y(e, other).y,
    }
}

/// Whether the boxes of `e` and `other` do not reach into each other: `e`
/// is on the outer side of an edge of the grown box of `other`.
pub open spec fn apart(e: SimEntityView, other: SimEntityView) -> bool {
    beyond(e, other, Edge::Left) || beyond(e, other, Edge::Right) || beyond(
        e,
        other,
        Edge::Bottom,
    ) || beyond(e, other, Edge::Top)
}

/// Whether a pass has left alone all of `e` but position and velocity.
pub open spec fn same_body(e: SimEntityView, after: SimEntityView) -> bool {
    after == (SimEntityView { p: after.p, dp: after.dp, ..e })
}

/// One pass along the `x` axis keeps a colliding entity apart from an
/// entity that stands in its way.
proof fn lemma_pass_keeps_apart_x(
    m: Map<usize, SimEntityView>,
    e: SimEntityView,
    delta: V2,
    o: usize,
)
    requires
        m.contains_key(o),
        blocks(e, m[o]),
        e.collides,
        e.spatial,
        delta.y == 0,
        apart(e, m[o]),
    ensures
        apart(pass(m, e, delta).entity, m[o]),
        pass(m, e, delta).delta.y == 0,
        same_body(e, pass(m, e, delta).entity),
{
    let other = m[o];
    let h = sweep(m, e, delta);
    let t = h.t_min as int;
    let after = pass(m, e, delta);
    let rel = e.p.spec_minus(other.p);
    lemma_sweep_below(m, (usize::MAX + 1) as nat, e, delta, o, Edge::Left);
    lemma_sweep_below(m, (usize::MAX + 1) as nat, e, delta, o, Edge::Right);
    lemma_mul_zero(t);
    assert(after.entity.p.y == e.p.y);
    assert(span_x(after.entity, other) == span_x(e, other));
    assert(span_y(after.entity, other) == span_y(e, other));
    if h.found {
        let k = e.dp.spec_inner(h.normal);
        let rest = e.p.spec_plus(delta).spec_minus(after.entity.p);
        lemma_mul_zero(rest.spec_inner(h.normal));
        assert(rest.y == 0);
        assert(h.normal.y == 0);
    }
    if beyond(e, other, Edge::Bottom) || beyond(e, other, Edge::Top) {
    } else {
        if beyond(e, other, Edge::Left) {
            let w = span_x(e, other).x as int;
            if delta.x > 0 {
                lemma_div_sign(crate::fixed::spec_sub(w, rel.x as int), delta.x as int);
                lemma_mul_zero(edge_time(e, other, delta, Edge::Left));
                assert(edge_could_cross(e, other, delta, Edge::Left));
            }
            lemma_stays_below(e.p.x as int, other.p.x as int, w, delta.x as int, t);
            assert(beyond(after.entity, other, Edge::Left));
        } else {
            let w = span_x(e, other).y as int;
            if delta.x < 0 {
                lemma_div_sign(crate::fixed::spec_sub(w, rel.x as int), delta.x as int);
                lemma_mul_zero(edge_time(e, other, delta, Edge::Right));
                assert(edge_could_cross(e, other, delta, Edge::Right));
            }
            lemma_stays_above(e.p.x as int, other.p.x as int, w, delta.x as int, t);
            assert(beyond(after.entity, other, Edge::Right));
        }
    }
}

/// One pass along the `y` axis keeps a colliding entity apart from an
/// entity that stands in its way.
proof fn lemma_pass_keeps_apart_y(
    m: Map<usize, SimEntityView>,
    e: SimEntityView,
    delta: V2,
    o: usize,
)
    requires
        m.contains_key(o),
        blocks(e, m[o]),
        e.collides,
        e.spatial,
        delta.x == 0,
        apart(e, m[o]),
    ensures
        apart(pass(m, e, delta).entity, m[o]),
        pass(m, e, delta).delta.x == 0,
        same_body(e, pass(m, e, delta).entity),
{
    let other = m[o];
    let h = sweep(m, e, delta);
    let t = h.t_min as int;
    let after = pass(m, e, delta);
    let rel = e.p.spec_minus(other.p);
    lemma_sweep_below(m, (usize::MAX + 1) as nat, e, delta, o, Edge::Bottom);
    lemma_sweep_below(m, (usize::MAX + 1) as nat, e, delta, o, Edge::Top);
    lemma_mul_zero(t);
    assert(after.entity.p.x == e.p.x);
    assert(span_x(after.entity, other) == span_x(e, other));
    assert(span_y(after.entity, other) == span_y(e, other));
    if h.found {
        let rest = e.p.spec_plus(delta).spec_minus(after.entity.p);
        lemma_mul_zero(rest.spec_inner(h.normal));
        assert(rest.x == 0);
        assert(h.normal.x == 0);
    }
    if beyond(e, other, Edge::Left) || beyond(e, other, Edge::Right) {
    } else {
        if beyond(e, other, Edge::Bottom) {
            let w = span_y(e, other).x as int;
            if delta.y > 0 {
                lemma_div_sign(crate::fixed::spec_sub(w, rel.y as int), delta.y as int);
                lemma_mul_zero(edge_time(e, other, delta, Edge::Bottom));
                assert(edge_could_cross(e, other, delta, Edge::Bottom));
            }
            lemma_stays_below(e.p.y as int, other.p.y as int, w, delta.y as int, t);
            assert(beyond(after.entity, other, Edge::Bottom));
        } else {
            let w = span_y(e, other).y as int;
            if delta.y < 0 {
                lemma_div_sign(crate::fixed::spec_sub(w, rel.y as int), delta.y as int);
                lemma_mul_zero(edge_time(e, other, delta, Edge::Top));
                assert(edge_could_cross(e, other, delta, Edge::Top));
            }
            lemma_stays_above(e.p.y as int, other.p.y as int, w, delta.y as int, t);
            assert(beyond(after.entity, other, Edge::Top));
        }
    }
}

/// The passes of a move along one axis keep a colliding entity apart from
/// an entity that stands in its way.
pub proof fn lemma_passes_keep_apart(
    m: Map<usize, SimEntityView>,
    e: SimEntityView,
    delta: V2,
    n: nat,
    o: usize,
)
    requires
        m.contains_key(o),
        blocks(e, m[o]),
        e.collides,
        e.spatial,
        delta.x == 0 || delta.y == 0,
        apart(e, m[o]),
    ensures
        apart(passes(m, e, delta, n), m[o]),
        same_body(e, passes(m, e, delta, n)),
    decreases n,
{
    if n > 0 {
        let after = pass(m, e, delta);
        if delta.y == 0 {
            lemma_pass_keeps_apart_x(m, e, delta, o);
        } else {
            lemma_pass_keeps_apart_y(m, e, delta, o);
        }
        if after.hit {
            lemma_passes_keep_apart(m, after.entity, after.delta, (n - 1) as nat, o);
        }
    }
}

/// No move along one axis takes a colliding entity into another: an entity
/// that is apart from an entity that stands in its way, and that neither
/// moves nor is pushed across the axis, is apart from it after the move,
/// however fast it goes.
pub proof fn lemma_move_keeps_apart(
    m: Map<usize, SimEntityView>,
    old: SimEntityView,
    dt: i64,
    ddp: V2,
    spec: MoveSpec,
    o: usize,
)
    requires
        m.contains_key(o),
        blocks(old, m[o]),
        old.collides,
        (ddp.x == 0 && old.dp.x == 0) || (ddp.y == 0 && old.dp.y == 0),
        apart(old, m[o]),
    ensures
        apart(moved(m, old, dt, ddp, spec), m[o]),
{
    if old.spatial {
        let a = accel(ddp, spec, old.dp);
        let gain = a.spec_scaled(dt);
        let delta = gain.spec_scaled(dt).spec_scaled(HALF).spec_plus(old.dp.spec_scaled(dt));
        let start = SimEntityView { dp: gain.spec_plus(old.dp), ..old };
        let scale = spec_div(UNIT as int, spec_sqrt(ddp.spec_len_sq()));
        lemma_mul_zero(scale);
        lemma_mul_zero(spec.speed as int);
        lemma_mul_zero(spec.drag as int);
        lemma_mul_zero(dt as int);
        lemma_mul_zero(HALF as int);
        if ddp.x == 0 && old.dp.x == 0 {
            assert(a.x == 0);
            assert(delta.x == 0);
        } else {
            assert(a.y == 0);
            assert(delta.y == 0);
        }
        assert(apart(start, m[o]));
        lemma_passes_keep_apart(m, start, delta, COLLISION_PASSES as nat, o);
    }
}

/// The passes of a move change nothing of an entity but its position and
/// its velocity.
pub proof fn lemma_passes_keep_body(
    m: Map<usize, SimEntityView>,
    e: SimEntityView,
    delta: V2,
    n: nat,
)
    ensures
        same_body(e, passes(m, e, delta, n)),
    decreases n,
{
    if n > 0 {
        let after = pass(m, e, delta);
        if after.hit {
            lemma_passes_keep_body(m, after.entity, after.delta, (n - 1) as nat);
        }
    }
}

/// A move changes nothing of an entity but its position, its velocity and
/// its facing.
pub proof fn lemma_moved_keeps_body(
    m: Map<usize, SimEntityView>,
    old: SimEntityView,
    dt: i64,
    ddp: V2,
    spec: MoveSpec,
)
    ensures
        ({
            let new = moved(m, old, dt, ddp, spec);
            new == (SimEntityView {
                p: new.p,
                dp: new.dp,
                facing_direction: new.facing_direction,
                ..old
            })
        }),
{
    if old.spatial {
        let gain = accel(ddp, spec, old.dp).spec_scaled(dt);
        let delta = gain.spec_scaled(dt).spec_scaled(HALF).spec_plus(old.dp.spec_scaled(dt));
        let start = SimEntityView { dp: gain.spec_plus(old.dp), ..old };
        lemma_passes_keep_body(m, start, delta, COLLISION_PASSES as nat);
    }
}

} // verus!
