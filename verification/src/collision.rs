//! Swept collision: when a moving box first touches the boxes in its way.
use crate::entity::{SimEntity, SimEntityView};
use crate::fixed::{
    fx_add, fx_div, fx_mul, fx_neg, fx_sub, spec_add, spec_div, spec_mul, spec_neg, spec_sub,
    HALF, UNIT,
};
use crate::math::V2;
use vstd::prelude::*;

verus! {

/// What is taken off a time of impact, so that the mover stops short of
/// the wall.
pub const WALL_EPSILON: i64 = 1_000;

/// The raw value that stands for minus one.
pub const NEG_UNIT: i64 = -1_000_000;

/// What a sweep has found so far: the earliest time of impact, as a part of
/// the way (`UNIT` is the whole way), the outward normal of the edge that
/// was hit, and whether any edge was hit.
#[derive(Copy, Clone, Debug, PartialEq, Eq, Structural)]
pub struct Hit {
    pub t_min: i64,
    pub normal: V2,
    pub found: bool,
}

impl Hit {
    /// Nothing hit: the whole way is free.
    pub open spec fn none() -> Hit {
        Hit { t_min: UNIT, normal: V2::zero(), found: false }
    }
}

/// The time at which a point that starts at `rel` and goes by `delta`
/// crosses the line `x = wall_x`, as a part of the way (`delta.x` is not
/// zero).
pub open spec fn crossing_time(wall_x: i64, rel: V2, delta: V2) -> int {
    spec_div(spec_sub(wall_x as int, rel.x as int), delta.x as int)
}

/// Whether the way `delta` from `rel` crosses the line `x = wall_x` earlier
/// than `t_min` and not before its start, at a height within `y_range`.
/// A way with no `x` part crosses nothing.
pub open spec fn crosses(t_min: i64, wall_x: i64, rel: V2, delta: V2, y_range: V2) -> bool {
    &&& delta.x != 0
    &&& 0 <= crossing_time(wall_x, rel, delta) < t_min
    &&& y_range.x <= spec_add(
        rel.y as int,
        spec_mul(crossing_time(wall_x, rel, delta), delta.y as int),
    ) <= y_range.y
}

/// The time of impact to keep after a crossing: the crossing time less
/// `WALL_EPSILON`, and not below zero.
pub open spec fn impact_time(wall_x: i64, rel: V2, delta: V2) -> int {
    let t = crossing_time(wall_x, rel, delta) - WALL_EPSILON;
    if t < 0 {
        0
    } else {
        t
    }
}

/// Tests the way `player_delta` from `rel` against the wall `x = wall_x`
/// that spans `y_range`. On a crossing earlier than `t_min` it lowers `t_min`
/// to the time of impact and returns `true`; else it leaves `t_min` and
/// returns `false`.
pub fn test_wall(t_min: &mut i64, wall_x: i64, rel: V2, player_delta: V2, y_range: V2) -> (hit:
    bool)
    ensures
        hit == crosses(*old(t_min), wall_x, rel, player_delta, y_range),
        hit ==> *final(t_min) == impact_time(wall_x, rel, player_delta),
        !hit ==> *final(t_min) == *old(t_min),
{
    if player_delta.x() != 0 {
        let t_result = fx_div(fx_sub(wall_x, rel.x()), player_delta.x());
        let y = fx_add(rel.y(), fx_mul(t_result, player_delta.y()));
        if t_result >= 0 && *t_min > t_result {
            if y >= y_range.min() && y <= y_range.max() {
                let new = t_result - WALL_EPSILON;
                *t_min = if new < 0 {
                    0
                } else {
                    new
                };
                return true;
            }
        }
    }
    false
}

/// `h` after one more wall was tested: the new time and `normal` on a
/// crossing, `h` itself otherwise.
pub open spec fn after_wall(h: Hit, wall_x: i64, rel: V2, delta: V2, y_range: V2, normal: V2)
    -> Hit {
    if crosses(h.t_min, wall_x, rel, delta, y_range) {
        Hit { t_min: impact_time(wall_x, rel, delta) as i64, normal, found: true }
    } else {
        h
    }
}

/// Half of the sum of two sides: how far the centre of one box must stay
/// from the centre of the other.
pub open spec fn reach(a: i64, b: i64) -> int {
    spec_mul(HALF as int, spec_add(a as int, b as int))
}

/// Whether `other` can stand in the way of `mover`.
pub open spec fn blocks(mover: SimEntityView, other: SimEntityView) -> bool {
    other.idx != mover.idx && other.collides && other.spatial
}

/// An edge of the box of an entity, grown by the size of the mover.
#[derive(Copy, Clone, Debug, PartialEq, Eq, Structural)]
pub enum Edge {
    Left,
    Right,
    Bottom,
    Top,
}

/// The two upright edges of the grown box of `other`, as the `x` of the
/// left one and the `x` of the right one, from the centre of `other`.
pub open spec fn span_x(mover: SimEntityView, other: SimEntityView) -> V2 {
    V2 {
        x: spec_neg(reach(other.width, mover.width)) as i64,
        y: reach(other.width, mover.width) as i64,
    }
}

/// The two level edges of the grown box of `other`, as the `y` of the
/// bottom one and the `y` of the top one, from the centre of `other`.
pub open spec fn span_y(mover: SimEntityView, other: SimEntityView) -> V2 {
    V2 {
        x: spec_neg(reach(other.height, mover.height)) as i64,
        y: reach(other.height, mover.height) as i64,
    }
}

impl Edge {
    /// The outward normal of the edge.
    pub open spec fn normal(self) -> V2 {
        match self {
            Edge::Left => V2 { x: NEG_UNIT, y: 0 },
            Edge::Right => V2 { x: UNIT, y: 0 },
            Edge::Bottom => V2 { x: 0, y: NEG_UNIT },
            Edge::Top => V2 { x: 0, y: UNIT },
        }
    }

    /// Whether the edge is upright: `Left` or `Right`.
    pub open spec fn upright(self) -> bool {
        self == Edge::Left || self == Edge::Right
    }

    /// The coordinate of the edge along the axis that it faces.
    pub open spec fn wall(self, mover: SimEntityView, other: SimEntityView) -> i64 {
        match self {
            Edge::Left => span_x(mover, other).x,
            Edge::Right => span_x(mover, other).y,
            Edge::Bottom => span_y(mover, other).x,
            Edge::Top => span_y(mover, other).y,
        }
    }

    /// A vector as the edge sees it: the axis that the edge faces first.
    pub open spec fn turned(self, v: V2) -> V2 {
        if self.upright() {
            v
        } else {
            v.spec_rev()
        }
    }

    /// From where to where the edge runs.
    pub open spec fn range(self, mover: SimEntityView, other: SimEntityView) -> V2 {
        if self.upright() {
            span_y(mover, other)
        } else {
            span_x(mover, other)
        }
    }
}

/// `h` after one edge of `other` was tested against the way `delta` of
/// `mover`.
pub open spec fn after_edge(
    h: Hit,
    mover: SimEntityView,
    other: SimEntityView,
    delta: V2,
    edge: Edge,
) -> Hit {
    after_wall(
        h,
        edge.wall(mover, other),
        edge.turned(mover.p.spec_minus(other.p)),
        edge.turned(delta),
        edge.range(mover, other),
        edge.normal(),
    )
}

/// `h` after the four edges of `other`, grown by the size of `mover`, were
/// tested against the way `delta` of `mover`: left, right, bottom, top. An
/// entity that cannot stand in the way leaves `h` as it is.
pub open spec fn after_entity(h: Hit, mover: SimEntityView, other: SimEntityView, delta: V2)
    -> Hit {
    if !blocks(mover, other) {
        h
    } else {
        let h1 = after_edge(h, mover, other, delta, Edge::Left);
        let h2 = after_edge(h1, mover, other, delta, Edge::Right);
        let h3 = after_edge(h2, mover, other, delta, Edge::Bottom);
        after_edge(h3, mover, other, delta, Edge::Top)
    }
}

/// Tests the four edges of `other` against the way `delta` of `mover`.
pub fn hit_entity(h: Hit, mover: &SimEntity, other: &SimEntity, delta: V2) -> (r: Hit)
    ensures
        r == after_entity(h, mover@, other@, delta),
{
    if other.idx.0 == mover.idx.0 {
        return h;
    }
    if !other.collides || !other.spatial {
        return h;
    }
    let mut t_min = h.t_min;
    let mut normal = h.normal;
    let mut found = h.found;
    let half_w = fx_mul(HALF, fx_add(other.width, mover.width));
    let half_h = fx_mul(HALF, fx_add(other.height, mover.height));
    let corner_x = V2::new(fx_neg(half_w), half_w);
    let corner_y = V2::new(fx_neg(half_h), half_h);
    let rel = mover.p.minus(other.p);
    if test_wall(&mut t_min, corner_x.min(), rel, delta, corner_y) {
        normal = V2::new(NEG_UNIT, 0);
        found = true;
    }
    if test_wall(&mut t_min, corner_x.max(), rel, delta, corner_y) {
        normal = V2::new(UNIT, 0);
        found = true;
    }
    if test_wall(&mut t_min, corner_y.min(), rel.rev(), delta.rev(), corner_x) {
        normal = V2::new(0, NEG_UNIT);
        found = true;
    }
    if test_wall(&mut t_min, corner_y.max(), rel.rev(), delta.rev(), corner_x) {
        normal = V2::new(0, UNIT);
        found = true;
    }
    Hit { t_min, normal, found }
}

/// The sweep over the entities of `m` whose place in the store is below `n`,
/// in rising order of that place.
pub open spec fn sweep_below(m: Map<usize, SimEntityView>, n: nat, mover: SimEntityView, delta: V2)
    -> Hit
    decreases n,
{
    if n == 0 {
        Hit::none()
    } else {
        let before = sweep_below(m, (n - 1) as nat, mover, delta);
        let k = (n - 1) as usize;
        if m.contains_key(k) {
            after_entity(before, mover, m[k], delta)
        } else {
            before
        }
    }
}

/// The sweep over all entities of `m`, in rising order of their place in
/// the store.
pub open spec fn sweep(m: Map<usize, SimEntityView>, mover: SimEntityView, delta: V2) -> Hit {
    sweep_below(m, (usize::MAX + 1) as nat, mover, delta)
}

/// Where `m` has no entity from `a` up to `b`, the sweep below `b` is the
/// sweep below `a`.
pub proof fn lemma_sweep_skips(
    m: Map<usize, SimEntityView>,
    a: nat,
    b: nat,
    mover: SimEntityView,
    delta: V2,
)
    requires
        a <= b <= usize::MAX + 1,
        forall|k: usize| a <= k < b ==> !m.contains_key(k),
    ensures
        sweep_below(m, b, mover, delta) == sweep_below(m, a, mover, delta),
    decreases b - a,
{
    if a < b {
        lemma_sweep_skips(m, a, (b - 1) as nat, mover, delta);
        let k = (b - 1) as usize;
        assert(!m.contains_key(k));
    }
}

/// Whether the way `delta` from `rel` comes to the line `x = wall_x` at all,
/// at a height within `y_range`: a crossing but for the time that is still
/// free.
pub open spec fn could_cross(wall_x: i64, rel: V2, delta: V2, y_range: V2) -> bool {
    &&& delta.x != 0
    &&& 0 <= crossing_time(wall_x, rel, delta)
    &&& y_range.x <= spec_add(
        rel.y as int,
        spec_mul(crossing_time(wall_x, rel, delta), delta.y as int),
    ) <= y_range.y
}

/// Whether the way `delta` of `mover` comes to the edge `edge` of `other`.
pub open spec fn edge_could_cross(
    mover: SimEntityView,
    other: SimEntityView,
    delta: V2,
    edge: Edge,
) -> bool {
    could_cross(
        edge.wall(mover, other),
        edge.turned(mover.p.spec_minus(other.p)),
        edge.turned(delta),
        edge.range(mover, other),
    )
}

/// When the way `delta` of `mover` comes to the line of the edge `edge` of
/// `other`.
pub open spec fn edge_time(mover: SimEntityView, other: SimEntityView, delta: V2, edge: Edge)
    -> int {
    crossing_time(
        edge.wall(mover, other),
        edge.turned(mover.p.spec_minus(other.p)),
        edge.turned(delta),
    )
}

/// What holds of every result of a sweep along `delta`: the time is between
/// zero and the whole way, and an edge was only hit by a way that goes
/// toward it.
pub open spec fn sound_hit(h: Hit, delta: V2) -> bool {
    &&& 0 <= h.t_min <= UNIT
    &&& h.found ==> (h.normal.x == 0 || delta.x != 0) && (h.normal.y == 0 || delta.y != 0)
}

/// A test of one edge keeps a result sound, never raises the time, and
/// brings it down to the time of that edge at least, where the way comes to
/// the edge.
pub proof fn lemma_after_edge(
    h: Hit,
    mover: SimEntityView,
    other: SimEntityView,
    delta: V2,
    edge: Edge,
)
    requires
        sound_hit(h, delta),
    ensures
        sound_hit(after_edge(h, mover, other, delta, edge), delta),
        after_edge(h, mover, other, delta, edge).t_min <= h.t_min,
        edge_could_cross(mover, other, delta, edge) ==> after_edge(
            h,
            mover,
            other,
            delta,
            edge,
        ).t_min <= edge_time(mover, other, delta, edge),
{
}

/// The same for the four edges of one entity.
pub proof fn lemma_after_entity(
    h: Hit,
    mover: SimEntityView,
    other: SimEntityView,
    delta: V2,
    edge: Edge,
)
    requires
        sound_hit(h, delta),
    ensures
        sound_hit(after_entity(h, mover, other, delta), delta),
        after_entity(h, mover, other, delta).t_min <= h.t_min,
        blocks(mover, other) && edge_could_cross(mover, other, delta, edge) ==> after_entity(
            h,
            mover,
            other,
            delta,
        ).t_min <= edge_time(mover, other, delta, edge),
{
    if blocks(mover, other) {
        let h1 = after_edge(h, mover, other, delta, Edge::Left);
        let h2 = after_edge(h1, mover, other, delta, Edge::Right);
        let h3 = after_edge(h2, mover, other, delta, Edge::Bottom);
        lemma_after_edge(h, mover, other, delta, Edge::Left);
        lemma_after_edge(h1, mover, other, delta, Edge::Right);
        lemma_after_edge(h2, mover, other, delta, Edge::Bottom);
        lemma_after_edge(h3, mover, other, delta, Edge::Top);
    }
}

/// The result of a sweep is sound, and its time is no later than the time
/// at which the way comes to any edge of any entity that stands in the way.
pub proof fn lemma_sweep_below(
    m: Map<usize, SimEntityView>,
    n: nat,
    mover: SimEntityView,
    delta: V2,
    o: usize,
    edge: Edge,
)
    requires
        n <= usize::MAX + 1,
    ensures
        sound_hit(sweep_below(m, n, mover, delta), delta),
        o < n && m.contains_key(o) && blocks(mover, m[o]) && edge_could_cross(
            mover,
            m[o],
            delta,
            edge,
        ) ==> sweep_below(m, n, mover, delta).t_min <= edge_time(mover, m[o], delta, edge),
    decreases n,
{
    if n > 0 {
        lemma_sweep_below(m, (n - 1) as nat, mover, delta, o, edge);
        let before = sweep_below(m, (n - 1) as nat, mover, delta);
        let k = (n - 1) as usize;
        if m.contains_key(k) {
            lemma_after_entity(before, mover, m[k], delta, edge);
        }
    }
}

} // verus!
