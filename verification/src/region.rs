//! The simulation region: the entities near the camera, taken out of the
//! store for one frame, moved, and put back.
use crate::collision::{hit_entity, lemma_sweep_skips, sweep, sweep_below, Hit};
use crate::motion::{accel, moved, passes, COLLISION_PASSES};
use crate::ordered::{keys_in_order, lemma_gap, lists, reached};
use crate::entity::{
    Facing, LowEntity, LowEntityView, MoveSpec, SimEntity, SimEntityView, Storage, StorageIdx,
};
use crate::fixed::{
    fx_abs, fx_div, fx_sqrt, lemma_round_div_nearest, lemma_sqrt_positive, spec_abs, HALF, UNIT,
};
use crate::math::rectangle::Rect2;
use crate::math::V2;
use crate::world::{moved_members, ChunkIdx, World, WorldPosition};
use std::collections::BTreeMap;
use vstd::prelude::*;

verus! {

/// How far beyond the bounds that are updated an entity is still loaded.
pub const UPDATE_RANGE: i64 = 1_000_000;

/// The entities of one frame. `storage` and `world` are held for as long as
/// the region lives.
pub struct SimRegion<'a> {
    pub storage: &'a mut Storage,
    pub world: &'a mut World,
    /// The place that the positions of the entities are relative to.
    pub origin: WorldPosition,
    /// Entities within these bounds are loaded.
    pub bounds: Rect2,
    /// Entities within these bounds are updated.
    pub updatable_bounds: Rect2,
    /// The working set, each entity under its place in the store.
    pub entities: BTreeMap<usize, SimEntity>,
}

/// Whether the store and the world agree: the chunks hold each stored
/// entity where its position says and hold nothing else; a set position is
/// in canonical form; no stored entity is marked as loaded; an entity has a
/// place exactly when its position is set, and holds the unset position
/// otherwise; a sword is an entity of the store.
pub open spec fn stored_well(world: &World, store: Seq<LowEntityView>) -> bool {
    &&& forall|i: usize| i < store.len() ==> #[trigger] world.tracks(i, store[i as int].p)
    &&& forall|c: ChunkIdx, e: usize| #[trigger] world.holds(c, e) ==> e < store.len()
    &&& forall|i: int|
        0 <= i < store.len() && (#[trigger] store[i]).p.spec_is_valid() ==> world.canonical(
            store[i].p,
        )
    &&& forall|i: int| 0 <= i < store.len() ==> !(#[trigger] store[i]).entity.simming
    &&& forall|i: int|
        0 <= i < store.len() ==> (#[trigger] store[i]).entity.spatial
            == store[i].p.spec_is_valid()
    &&& forall|i: int|
        0 <= i < store.len() && !(#[trigger] store[i]).p.spec_is_valid() ==> store[i].p
            == WorldPosition::unset()
    &&& forall|i: int|
        0 <= i < store.len() ==> ((#[trigger] store[i]).entity.sword matches Some(s) ==> s.0
            < store.len())
}

/// `m` after the entities of `s` were put in one by one, each under its own
/// `idx`: a later one replaces an earlier one.
pub open spec fn inserted(m: Map<usize, SimEntityView>, s: Seq<SimEntityView>) -> Map<
    usize,
    SimEntityView,
>
    decreases s.len(),
{
    if s.len() == 0 {
        m
    } else {
        inserted(m, s.drop_last()).insert(s.last().idx.0, s.last())
    }
}

/// The entities of `s` as mathematical values.
pub open spec fn views(s: Seq<SimEntity>) -> Seq<SimEntityView> {
    s.map_values(|e: SimEntity| e@)
}

/// Whether `s` holds an entity whose `idx` is `k`.
pub open spec fn present(s: Seq<SimEntityView>, k: usize) -> bool {
    exists|n: int| 0 <= n < s.len() && (#[trigger] s[n]).idx.0 == k
}

/// What `inserted` holds under `k`: where `s` has an entity with the `idx`
/// `k` and every such entity is `v`, it is `v`; where `s` has none, it is
/// what `m` held.
pub proof fn lemma_inserted(
    m: Map<usize, SimEntityView>,
    s: Seq<SimEntityView>,
    k: usize,
    v: SimEntityView,
)
    ensures
        inserted(m, s).contains_key(k) <==> m.contains_key(k) || present(s, k),
        !present(s, k) && m.contains_key(k) ==> inserted(m, s)[k] == m[k],
        present(s, k) && (forall|n: int|
            0 <= n < s.len() && (#[trigger] s[n]).idx.0 == k ==> s[n] == v) ==> inserted(m, s)[k]
            == v,
    decreases s.len(),
{
    if s.len() > 0 {
        let t = s.drop_last();
        lemma_inserted(m, t, k, v);
        assert(present(s, k) <==> present(t, k) || s.last().idx.0 == k) by {
            if present(t, k) {
                let n = choose|n: int| 0 <= n < t.len() && (#[trigger] t[n]).idx.0 == k;
                assert(s[n].idx.0 == k);
            }
            if present(s, k) {
                let n = choose|n: int| 0 <= n < s.len() && (#[trigger] s[n]).idx.0 == k;
                if n < t.len() {
                    assert(t[n].idx.0 == k);
                }
            }
            if s.last().idx.0 == k {
                assert(s[s.len() - 1].idx.0 == k);
            }
        }
        if present(s, k) && (forall|n: int|
            0 <= n < s.len() && (#[trigger] s[n]).idx.0 == k ==> s[n] == v) {
            if s.last().idx.0 == k {
                assert(s[s.len() - 1] == v);
            } else {
                assert(present(t, k));
                assert forall|n: int| 0 <= n < t.len() && (#[trigger] t[n]).idx.0 == k implies t[n]
                    == v by {
                    assert(s[n] == v);
                }
            }
        }
    }
}

/// What a [`SimRegion`] holds, as a mathematical value: the world and the
/// store as they are, the origin and the bounds, and the working set.
pub struct RegionView {
    pub world: World,
    pub store: Seq<LowEntityView>,
    pub origin: WorldPosition,
    pub bounds: Rect2,
    pub updatable_bounds: Rect2,
    pub working: Map<usize, SimEntityView>,
}

impl RegionView {
    /// The invariant of the region: the world is well formed, store and
    /// world agree, and each entity of the working set stands under its own
    /// `idx`, which is a place of the store.
    pub open spec fn wf(&self) -> bool {
        &&& self.world.wf()
        &&& stored_well(&self.world, self.store)
        &&& forall|k: usize| #[trigger]
            self.working.contains_key(k) ==> k < self.store.len() && self.working[k].idx.0 == k
    }

    /// Whether the place at `p` from the origin is within reach.
    pub open spec fn can_reach(&self, p: V2) -> bool {
        self.world.reachable(self.origin, p)
    }

    /// The position of a stored entity relative to the origin of the
    /// region; the offset that stands for "nowhere" for an entity without a
    /// place.
    pub open spec fn sim_space_p(&self, low: LowEntityView) -> V2 {
        if low.entity.spatial {
            self.world.spec_substract(low.p, self.origin).xy
        } else {
            V2 { x: 100_000_000_000, y: 100_000_000_000 }
        }
    }

    /// The stored entity `idx` as it enters the working set: marked as
    /// loaded, at its position relative to the origin, and updatable where
    /// that position is within the bounds that are updated.
    pub open spec fn built(&self, idx: usize) -> SimEntityView {
        let low = self.store[idx as int];
        let p = self.sim_space_p(low);
        SimEntityView {
            idx: StorageIdx(idx),
            simming: true,
            p,
            updatable: self.updatable_bounds.spec_contains(p),
            ..low.entity
        }
    }

    /// Whether `begin` looks into chunk `c`: a chunk of the layer of the
    /// origin, between the chunks of the two corners of the bounds.
    pub open spec fn scanned(&self, c: ChunkIdx) -> bool {
        let lo = self.world.spec_map(self.origin, self.bounds.min).abs;
        let hi = self.world.spec_map(self.origin, self.bounds.max).abs;
        c.z == self.origin.abs.z && lo.x <= c.x <= hi.x && lo.y <= c.y <= hi.y
    }

    /// Whether `begin` finds the stored entity `i`: it has a place, in a
    /// chunk that `begin` looks into, and within the bounds of the region.
    pub open spec fn found(&self, i: usize) -> bool {
        &&& i < self.store.len()
        &&& self.store[i as int].entity.spatial
        &&& self.store[i as int].p.spec_is_valid()
        &&& self.scanned(self.store[i as int].p.abs)
        &&& self.bounds.spec_contains(self.sim_space_p(self.store[i as int]))
    }

    /// Whether `begin` loads the stored entity `i`: it finds `i`, or it
    /// finds an entity whose sword is `i`.
    pub open spec fn loaded(&self, i: usize) -> bool {
        self.found(i) || exists|j: usize| #[trigger]
            self.found(j) && self.store[j as int].entity.sword == Some(StorageIdx(i))
    }

    /// Whether chunk `c` comes before the chunk (`cx`, `cy`) in the order in
    /// which `begin` looks into the chunks: row by row.
    pub open spec fn scanned_before(&self, c: ChunkIdx, cy: int, cx: int) -> bool {
        self.scanned(c) && (c.y < cy || (c.y == cy && c.x < cx))
    }

    /// Whether `s` holds all that `begin` loads on account of the stored
    /// entity `i`.
    pub open spec fn taken(&self, s: Seq<SimEntityView>, i: usize) -> bool {
        present(s, i) && (self.store[i as int].entity.sword matches Some(sw) ==> present(
            s,
            sw.0,
        ))
    }

    /// Where the entity `k` of the working set is in the world at the end of
    /// the frame: its position taken from the origin of the region, in
    /// canonical form; the unset position for an entity without a place.
    pub open spec fn new_position(&self, k: usize) -> WorldPosition {
        if self.working[k].spatial {
            self.world.spec_map(self.origin, self.working[k].p)
        } else {
            WorldPosition::unset()
        }
    }

    /// What `end` stores for the entity `k` of the working set: the entity,
    /// no longer marked as loaded, at its new position; without a place where
    /// that position is unset.
    pub open spec fn committed(&self, k: usize) -> LowEntityView {
        let p = self.new_position(k);
        LowEntityView {
            p: if p.spec_is_valid() {
                p
            } else {
                WorldPosition::unset()
            },
            entity: SimEntityView {
                simming: false,
                spatial: p.spec_is_valid(),
                ..self.working[k]
            },
        }
    }

    /// Whether the working set can be stored: every entity is marked as
    /// loaded, its place is within reach of the origin, and its sword is an
    /// entity of the store.
    pub open spec fn ready_to_end(&self) -> bool {
        forall|k: usize| #[trigger]
            self.working.contains_key(k) ==> {
                &&& self.working[k].simming
                &&& self.working[k].spatial ==> self.world.reachable(
                    self.origin,
                    self.working[k].p,
                )
                &&& self.working[k].sword matches Some(s) ==> s.0 < self.store.len()
            }
    }

    /// The members of chunk `c` once the entities of the working set whose
    /// place in the store is below `n` have gone to their new positions, in
    /// rising order of that place.
    pub open spec fn members_upto(&self, n: nat, c: ChunkIdx) -> Seq<usize>
        decreases n,
    {
        if n == 0 {
            self.world.members(c)
        } else {
            let before = self.members_upto((n - 1) as nat, c);
            let k = (n - 1) as usize;
            if self.working.contains_key(k) {
                moved_members(before, k, self.store[k as int].p, self.new_position(k), c)
            } else {
                before
            }
        }
    }
}

impl RegionView {
    /// The working set once `begin` has run: what it held, and every stored
    /// entity that `begin` loads, as it is built.
    pub open spec fn begun(self) -> Map<usize, SimEntityView> {
        Map::new(
            |k: usize| self.working.contains_key(k) || self.loaded(k),
            |k: usize|
                if self.loaded(k) {
                    self.built(k)
                } else {
                    self.working[k]
                },
        )
    }

    /// The store once `end` has run: every entity of the working set as it
    /// is stored, every other entity as it was.
    pub open spec fn stored_after(self) -> Seq<LowEntityView> {
        Seq::new(
            self.store.len(),
            |i: int|
                if self.working.contains_key(i as usize) {
                    self.committed(i as usize)
                } else {
                    self.store[i]
                },
        )
    }

    /// Where the camera is once `end` has run: at the new position of the
    /// entity `focus` that it follows, if that is in the working set.
    pub open spec fn camera_after(self, focus: Option<StorageIdx>) -> Option<WorldPosition> {
        match focus {
            Some(f) => if self.working.contains_key(f.0) {
                Some(self.new_position(f.0))
            } else {
                None
            },
            None => None,
        }
    }
}

impl<'a> View for SimRegion<'a> {
    type V = RegionView;

    open spec fn view(&self) -> RegionView {
        RegionView {
            world: *self.world,
            store: self.storage@,
            origin: self.origin,
            bounds: self.bounds,
            updatable_bounds: self.updatable_bounds,
            working: Map::new(
                |k: usize| self.entities@.contains_key(k),
                |k: usize| self.entities@[k]@,
            ),
        }
    }
}

impl<'a> SimRegion<'a> {
    /// A region around `origin` that updates the entities within
    /// `updatable_bounds` and loads those up to `UPDATE_RANGE` beyond. Its
    /// working set is empty.
    pub fn new(
        storage: &'a mut Storage,
        world: &'a mut World,
        origin: WorldPosition,
        updatable_bounds: Rect2,
    ) -> (r: Self)
        requires
            updatable_bounds.wf(),
        ensures
            *r.storage == *old(storage),
            *final(r.storage) == *final(storage),
            *r.world == *old(world),
            *final(r.world) == *final(world),
            r.origin == origin,
            r.updatable_bounds == updatable_bounds,
            r.bounds == updatable_bounds.spec_add_radius(V2 { x: UPDATE_RANGE, y: UPDATE_RANGE }),
            r.entities@ == Map::<usize, SimEntity>::empty(),
    {
        let bounds = updatable_bounds.add_radius(V2::new(UPDATE_RANGE, UPDATE_RANGE));
        SimRegion { storage, world, origin, bounds, updatable_bounds, entities: BTreeMap::new() }
    }

    /// The position of a stored entity relative to the origin of the region.
    pub fn get_sim_space_p(&self, low_entity: &LowEntity) -> (r: V2)
        ensures
            r == self@.sim_space_p(low_entity@),
    {
        if low_entity.entity.spatial {
            self.world.substract(low_entity.p, self.origin).xy
        } else {
            WorldPosition::invalid_offset()
        }
    }

    /// The entity of `low_entity` as it enters the working set under `idx`
    /// at `p`.
    pub fn build_entity(&self, low_entity: &LowEntity, idx: StorageIdx, p: V2) -> (r: SimEntity)
        requires
            !low_entity.entity.simming,
            !self.entities@.contains_key(idx.0),
        ensures
            r@ == (SimEntityView {
                idx,
                simming: true,
                p,
                updatable: self.updatable_bounds.spec_contains(p),
                ..low_entity.entity@
            }),
    {
        let mut entity = low_entity.entity.clone();
        entity.idx = idx;
        entity.simming = true;
        entity.p = p;
        entity.updatable = self.updatable_bounds.contains(p);
        entity
    }

    /// The stored entity `idx`, made ready for the working set. The entity
    /// must not be in the working set already.
    pub fn load_entity(&self, idx: StorageIdx) -> (r: SimEntity)
        requires
            idx.0 < self.storage@.len(),
            !self.entities@.contains_key(idx.0),
            !self.storage@[idx.0 as int].entity.simming,
        ensures
            r@ == self@.built(idx.0),
    {
        let entity = self.storage.get(idx);
        let p = self.get_sim_space_p(entity);
        self.build_entity(entity, idx, p)
    }

    /// Puts each entity of `new_entities` into the working set under its
    /// own `idx`, in place of the entity that was there.
    pub fn update_entities(&mut self, new_entities: Vec<SimEntity>)
        ensures
            final(self)@.working == inserted(
                old(self)@.working,
                views(new_entities@),
            ),
            *final(self).storage == *old(self).storage,
            *final(final(self).storage) == *final(old(self).storage),
            *final(self).world == *old(self).world,
            *final(final(self).world) == *final(old(self).world),
            final(self).origin == old(self).origin,
            final(self).bounds == old(self).bounds,
            final(self).updatable_bounds == old(self).updatable_bounds,
            old(self)@.wf() && (forall|n: int|
                0 <= n < new_entities@.len() ==> (#[trigger] new_entities@[n]).idx.0
                    < old(self).storage@.len()) ==> final(self)@.wf(),
    {
        let ghost incoming = views(new_entities@);
        let mut i: usize = 0;
        assert(incoming.take(0) =~= Seq::<SimEntityView>::empty());
        while i < new_entities.len()
            invariant
                i <= new_entities.len(),
                incoming == views(new_entities@),
                old(self)@.wf() && (forall|n: int|
                    0 <= n < new_entities@.len() ==> (#[trigger] new_entities@[n]).idx.0
                        < old(self).storage@.len()) ==> self@.wf(),
                self@.working == inserted(old(self)@.working, incoming.take(i as int)),
                *self.storage == *old(self).storage,
                *final(self.storage) == *final(old(self).storage),
                *self.world == *old(self).world,
                *final(self.world) == *final(old(self).world),
                self.origin == old(self).origin,
                self.bounds == old(self).bounds,
                self.updatable_bounds == old(self).updatable_bounds,
            decreases new_entities.len() - i,
        {
            let entity = new_entities[i].clone();
            let ghost before = self@.working;
            self.entities.insert(entity.idx.0, entity);
            proof {
                assert(incoming.take(i as int + 1).drop_last() =~= incoming.take(i as int));
                assert(incoming.take(i as int + 1).last() == incoming[i as int]);
                assert(self@.working =~= before.insert(incoming[i as int].idx.0, incoming[i as int]));
            }
            i += 1;
        }
        assert(incoming.take(i as int) =~= incoming);
    }

    /// The sweep of the way `delta` of `mover` over the working set.
    pub fn sweep_all(&self, mover: &SimEntity, delta: V2) -> (r: Hit)
        ensures
            r == sweep(self@.working, mover@, delta),
    {
        let keys = keys_in_order(&self.entities);
        let mut h = Hit { t_min: UNIT, normal: V2::new(0, 0), found: false };
        let mut i: usize = 0;
        while i < keys.len()
            invariant
                i <= keys@.len(),
                lists(keys@, self.entities@.dom()),
                h == sweep_below(self@.working, reached(keys@, i as int), mover@, delta),
            decreases keys@.len() - i,
        {
            let k = keys[i];
            proof {
                lemma_gap(keys@, self.entities@.dom(), i as int);
                lemma_sweep_skips(
                    self@.working,
                    reached(keys@, i as int),
                    k as nat,
                    mover@,
                    delta,
                );
            }
            match self.entities.get(&k) {
                Some(other) => {
                    h = hit_entity(h, mover, other, delta);
                },
                None => {},
            }
            i += 1;
        }
        proof {
            lemma_gap(keys@, self.entities@.dom(), keys@.len() as int);
            lemma_sweep_skips(
                self@.working,
                reached(keys@, keys@.len() as int),
                (usize::MAX + 1) as nat,
                mover@,
                delta,
            );
        }
        h
    }

    /// Moves `old` for a frame of `dt` seconds under the acceleration `ddp`
    /// and returns the moved entity; the working set is left as it is. An
    /// entity without a place comes back unchanged. The velocity gains the
    /// acceleration times `dt`; the way is half the gain times `dt` plus the
    /// old velocity times `dt`. The entity then goes along that way in up to
    /// four passes, each up to the first impact with a colliding entity of
    /// the working set, and slides along what it hit. At the end it faces
    /// the way it moves, or as before where it moves along no axis more than
    /// along the other.
    pub fn move_entity(&self, old: &SimEntity, dt: i64, ddp: V2, spec: MoveSpec) -> (r: SimEntity)
        ensures
            r@ == moved(self@.working, old@, dt, ddp, spec),
    {
        if !old.spatial {
            return old.clone();
        }
        let mut entity = old.clone();
        let ghost raw = ddp;
        let mut ddp = ddp;
        if spec.unit_max_accel_vector {
            let len_sq = ddp.len_sq();
            if len_sq > UNIT {
                let root = fx_sqrt(len_sq);
                proof {
                    lemma_sqrt_positive(len_sq as int, root as int);
                }
                ddp = ddp.scaled(fx_div(UNIT, root));
            }
        }
        ddp = ddp.scaled(spec.speed);
        ddp = ddp.minus(entity.dp.scaled(spec.drag));
        assert(ddp == accel(raw, spec, old.dp));
        let gain = ddp.scaled(dt);
        let mut player_delta = gain.scaled(dt).scaled(HALF).plus(entity.dp.scaled(dt));
        entity.dp = gain.plus(entity.dp);
        let ghost target = passes(self@.working, entity@, player_delta, COLLISION_PASSES as nat);
        let mut i: usize = 0;
        let mut done = false;
        while i < COLLISION_PASSES && !done
            invariant
                i <= COLLISION_PASSES,
                target == if done {
                    entity@
                } else {
                    passes(self@.working, entity@, player_delta, (COLLISION_PASSES - i) as nat)
                },
            decreases COLLISION_PASSES - i,
        {
            let desired = entity.p.plus(player_delta);
            let h = if entity.collides && entity.spatial {
                self.sweep_all(&entity, player_delta)
            } else {
                Hit { t_min: UNIT, normal: V2::new(0, 0), found: false }
            };
            entity.p = entity.p.plus(player_delta.scaled(h.t_min));
            if h.found {
                entity.dp = entity.dp.minus(h.normal.scaled(entity.dp.inner(h.normal)));
                let rest = desired.minus(entity.p);
                player_delta = rest.minus(h.normal.scaled(rest.inner(h.normal)));
            } else {
                done = true;
            }
            i += 1;
        }
        if fx_abs(entity.dp.x()) == fx_abs(entity.dp.y()) {
        } else if fx_abs(entity.dp.x()) > fx_abs(entity.dp.y()) {
            if entity.dp.x() > 0 {
                entity.facing_direction = Facing::Right;
            } else {
                entity.facing_direction = Facing::Left;
            }
        } else {
            if entity.dp.y() > 0 {
                entity.facing_direction = Facing::Up;
            } else {
                entity.facing_direction = Facing::Down;
            }
        }
        entity
    }

    /// Fills the working set: every stored entity that has a place within
    /// the bounds of the region is loaded, and with it its sword, if it has
    /// one. No entity that is loaded may be in the working set already.
    pub fn begin(&mut self)
        requires
            old(self)@.wf(),
            old(self).world.reachable(old(self).origin, old(self).bounds.min),
            old(self).world.reachable(old(self).origin, old(self).bounds.max),
            forall|k: usize| #[trigger]
                old(self)@.loaded(k) ==> !old(self).entities@.contains_key(k),
        ensures
            final(self)@.wf(),
            final(self)@ == (RegionView { working: old(self)@.begun(), ..old(self)@ }),
            forall|k: usize| #[trigger]
                final(self)@.working.contains_key(k) <==> old(self)@.working.contains_key(k)
                    || old(self)@.loaded(k),
            forall|k: usize| #[trigger]
                old(self)@.loaded(k) ==> final(self)@.working[k] == old(self)@.built(k),
            forall|k: usize|
                old(self)@.working.contains_key(k) ==> #[trigger] final(self)@.working[k]
                    == old(self)@.working[k],
            *final(self).storage == *old(self).storage,
            *final(final(self).storage) == *final(old(self).storage),
            *final(self).world == *old(self).world,
            *final(final(self).world) == *final(old(self).world),
            final(self).origin == old(self).origin,
            final(self).bounds == old(self).bounds,
            final(self).updatable_bounds == old(self).updatable_bounds,
    {
        let min_chunk = self.world.map_into_chunk_space(self.origin, self.bounds.min());
        let max_chunk = self.world.map_into_chunk_space(self.origin, self.bounds.max());
        let mut new_entities: Vec<SimEntity> = Vec::new();
        let mut chunk_y: i64 = min_chunk.abs.y as i64;
        while chunk_y <= max_chunk.abs.y as i64
            invariant
                *self == *old(self),
                self@.wf(),
                min_chunk == self.world.spec_map(self.origin, self.bounds.min),
                max_chunk == self.world.spec_map(self.origin, self.bounds.max),
                min_chunk.abs.y <= chunk_y,
                chunk_y <= max_chunk.abs.y + 1 || chunk_y == min_chunk.abs.y,
                forall|k: usize| #[trigger] self@.loaded(k) ==> !self.entities@.contains_key(k),
                forall|n: int|
                    0 <= n < new_entities.len() ==> self@.loaded((#[trigger] new_entities@[n]).idx.0)
                        && new_entities@[n]@ == self@.built(new_entities@[n].idx.0),
                forall|i: usize|
                    self@.found(i) && self@.scanned_before(
                        self.storage@[i as int].p.abs,
                        chunk_y as int,
                        min_chunk.abs.x as int,
                    ) ==> #[trigger] self@.taken(views(new_entities@), i),
            decreases max_chunk.abs.y + 1 - chunk_y,
        {
            let mut chunk_x: i64 = min_chunk.abs.x as i64;
            while chunk_x <= max_chunk.abs.x as i64
                invariant
                    *self == *old(self),
                    self@.wf(),
                    min_chunk == self.world.spec_map(self.origin, self.bounds.min),
                    max_chunk == self.world.spec_map(self.origin, self.bounds.max),
                    min_chunk.abs.y <= chunk_y <= max_chunk.abs.y,
                    min_chunk.abs.x <= chunk_x,
                    chunk_x <= max_chunk.abs.x + 1 || chunk_x == min_chunk.abs.x,
                    forall|k: usize| #[trigger] self@.loaded(k) ==> !self.entities@.contains_key(k),
                    forall|n: int|
                        0 <= n < new_entities.len() ==> self@.loaded(
                            (#[trigger] new_entities@[n]).idx.0,
                        ) && new_entities@[n]@ == self@.built(new_entities@[n].idx.0),
                    forall|i: usize|
                        self@.found(i) && self@.scanned_before(
                            self.storage@[i as int].p.abs,
                            chunk_y as int,
                            chunk_x as int,
                        ) ==> #[trigger] self@.taken(
                            views(new_entities@),
                            i,
                        ),
                decreases max_chunk.abs.x + 1 - chunk_x,
            {
                let chunk_idx = ChunkIdx::new(chunk_x as i32, chunk_y as i32, self.origin.abs.z);
                assert(self@.scanned(chunk_idx));
                match self.world.chunk(chunk_idx) {
                    Some(chunk) => {
                        let indices = chunk.entities();
                        let mut n: usize = 0;
                        while n < indices.len()
                            invariant
                                *self == *old(self),
                                self@.wf(),
                                n <= indices.len(),
                                indices@ == self.world.members(chunk_idx),
                                self@.scanned(chunk_idx),
                                chunk_idx.x == chunk_x,
                                chunk_idx.y == chunk_y,
                                forall|k: usize| #[trigger]
                                    self@.loaded(k) ==> !self.entities@.contains_key(k),
                                forall|n: int|
                                    0 <= n < new_entities.len() ==> self@.loaded(
                                        (#[trigger] new_entities@[n]).idx.0,
                                    ) && new_entities@[n]@ == self@.built(new_entities@[n].idx.0),
                                forall|i: usize|
                                    self@.found(i) && self@.scanned_before(
                                        self.storage@[i as int].p.abs,
                                        chunk_y as int,
                                        chunk_x as int,
                                    ) ==> #[trigger] self@.taken(
                                        views(new_entities@),
                                        i,
                                    ),
                                forall|m: int|
                                    0 <= m < n && self@.found(indices@[m]) ==> #[trigger] self@.taken(
                                        views(new_entities@),
                                        indices@[m],
                                    ),
                            decreases indices.len() - n,
                        {
                            let i = indices[n];
                            let idx = StorageIdx(i);
                            proof {
                                assert(self.world.holds(chunk_idx, i));
                                assert(self.world.tracks(i, self.storage@[i as int].p));
                            }
                            let ghost before = views(new_entities@);
                            let low_entity = self.storage.get(idx);
                            if low_entity.entity.spatial {
                                let p = self.get_sim_space_p(low_entity);
                                if self.bounds.contains(p) {
                                    assert(self@.found(i));
                                    assert(self@.loaded(i));
                                    let entity = self.load_entity(idx);
                                    match entity.sword {
                                        Some(sword) => {
                                            assert(self@.loaded(sword.0));
                                            let sword_entity = self.load_entity(sword);
                                            new_entities.push(sword_entity);
                                        },
                                        None => {},
                                    }
                                    new_entities.push(entity);
                                }
                            }
                            proof {
                                let after = views(new_entities@);
                                assert forall|k: usize| present(before, k) implies present(
                                    after,
                                    k,
                                ) by {
                                    let w = choose|w: int|
                                        0 <= w < before.len() && (#[trigger] before[w]).idx.0 == k;
                                    assert(after[w].idx.0 == k);
                                }
                                if self@.found(i) {
                                    assert(after[after.len() - 1].idx.0 == i);
                                    if let Some(sw) = self.storage@[i as int].entity.sword {
                                        assert(after[after.len() - 2].idx.0 == sw.0);
                                    }
                                    assert(self@.taken(after, i));
                                }
                                assert forall|j: usize|
                                    self@.found(j) && self@.scanned_before(
                                        self.storage@[j as int].p.abs,
                                        chunk_y as int,
                                        chunk_x as int,
                                    ) implies #[trigger] self@.taken(after, j) by {
                                    assert(self@.taken(before, j));
                                }
                                assert forall|m: int|
                                    0 <= m < n + 1 && self@.found(
                                        indices@[m],
                                    ) implies #[trigger] self@.taken(after, indices@[m]) by {
                                    if m < n {
                                        assert(self@.taken(before, indices@[m]));
                                    }
                                }
                            }
                            n += 1;
                        }
                        proof {
                            let after = views(new_entities@);
                            assert forall|j: usize|
                                self@.found(j) && self@.scanned_before(
                                    self.storage@[j as int].p.abs,
                                    chunk_y as int,
                                    chunk_x + 1,
                                ) implies #[trigger] self@.taken(after, j) by {
                                let c = self.storage@[j as int].p.abs;
                                if c == chunk_idx {
                                    assert(self.world.tracks(j, self.storage@[j as int].p));
                                    assert(self.world.holds(c, j));
                                    let m = choose|m: int|
                                        0 <= m < indices@.len() && indices@[m] == j;
                                    assert(self@.taken(after, indices@[m]));
                                }
                            }
                        }
                    },
                    None => {
                        proof {
                            let after = views(new_entities@);
                            assert forall|j: usize|
                                self@.found(j) && self@.scanned_before(
                                    self.storage@[j as int].p.abs,
                                    chunk_y as int,
                                    chunk_x + 1,
                                ) implies #[trigger] self@.taken(after, j) by {
                                let c = self.storage@[j as int].p.abs;
                                if c == chunk_idx {
                                    assert(self.world.tracks(j, self.storage@[j as int].p));
                                    assert(self.world.holds(c, j));
                                }
                            }
                        }
                    },
                }
                chunk_x += 1;
            }
            chunk_y += 1;
        }
        let ghost all = views(new_entities@);
        let ghost start = self@.working;
        self.update_entities(new_entities);
        proof {
            assert forall|k: usize| #[trigger]
                self@.working.contains_key(k) <==> start.contains_key(k) || old(self)@.loaded(
                    k,
                ) by {
                lemma_inserted(start, all, k, old(self)@.built(k));
                if old(self)@.loaded(k) {
                    if old(self)@.found(k) {
                        assert(old(self)@.taken(all, k));
                    } else {
                        let j = choose|j: usize| #[trigger]
                            old(self)@.found(j) && old(self)@.store[j as int].entity.sword == Some(
                                StorageIdx(k),
                            );
                        assert(old(self)@.taken(all, j));
                    }
                }
                if present(all, k) {
                    let n = choose|n: int| 0 <= n < all.len() && (#[trigger] all[n]).idx.0 == k;
                    assert(old(self)@.loaded(new_entities@[n].idx.0));
                }
            }
            assert forall|k: usize| #[trigger] old(self)@.loaded(k) implies self@.working[k]
                == old(self)@.built(k) by {
                lemma_inserted(start, all, k, old(self)@.built(k));
                assert(self@.working.contains_key(k));
                assert(present(all, k));
                assert forall|n: int|
                    0 <= n < all.len() && (#[trigger] all[n]).idx.0 == k implies all[n]
                    == old(self)@.built(k) by {
                    assert(new_entities@[n]@ == old(self)@.built(new_entities@[n].idx.0));
                }
            }
            assert forall|k: usize| start.contains_key(k) implies #[trigger] self@.working[k]
                == start[k] by {
                lemma_inserted(start, all, k, old(self)@.built(k));
                if present(all, k) {
                    let n = choose|n: int| 0 <= n < all.len() && (#[trigger] all[n]).idx.0 == k;
                    assert(old(self)@.loaded(new_entities@[n].idx.0));
                }
            }
            assert(self@.working =~= old(self)@.begun()) by {
                let target = old(self)@.begun();
                assert forall|k: usize| self@.working.contains_key(k) == target.contains_key(
                    k,
                ) by {
                    assert(self@.working.contains_key(k) <==> start.contains_key(k) || old(self)@.loaded(k));
                }
                assert forall|k: usize| #[trigger] self@.working.contains_key(k) implies self@.working[k]
                    == target[k] by {
                    assert(self@.working.contains_key(k));
                    if old(self)@.loaded(k) {
                        assert(self@.working[k] == old(self)@.built(k));
                    } else {
                        assert(start.contains_key(k));
                        assert(self@.working[k] == start[k]);
                    }
                }
            }
            assert forall|k: usize| #[trigger] self.entities@.contains_key(k) implies k
                < self.storage@.len() && self.entities@[k].idx.0 == k by {
                assert(self@.working.contains_key(k));
                if old(self)@.loaded(k) {
                    assert(self@.working[k] == old(self)@.built(k));
                    if !old(self)@.found(k) {
                        let j = choose|j: usize| #[trigger]
                            old(self)@.found(j) && old(self)@.store[j as int].entity.sword == Some(
                                StorageIdx(k),
                            );
                        assert(old(self).storage@[j as int].entity.sword matches Some(sw) && sw.0
                            < old(self).storage@.len());
                    }
                } else {
                    assert(old(self).entities@.contains_key(k));
                    assert(self@.working[k] == start[k]);
                }
            }
        }
    }

    /// Whether the working set can be stored.
    pub fn can_end(&self) -> (r: bool)
        requires
            self.world.wf(),
        ensures
            r == self@.ready_to_end(),
    {
        let n = self.storage.len();
        let keys = keys_in_order(&self.entities);
        let mut i: usize = 0;
        while i < keys.len()
            invariant
                i <= keys@.len(),
                n == self.storage@.len(),
                self.world.wf(),
                lists(keys@, self.entities@.dom()),
                forall|j: int|
                    0 <= j < i ==> {
                        &&& self@.working[#[trigger] keys@[j]].simming
                        &&& self@.working[keys@[j]].spatial ==> self.world.reachable(
                            self.origin,
                            self@.working[keys@[j]].p,
                        )
                        &&& self@.working[keys@[j]].sword matches Some(s) ==> s.0
                            < self.storage@.len()
                    },
            decreases keys@.len() - i,
        {
            let k = keys[i];
            proof {
                lemma_gap(keys@, self.entities@.dom(), i as int);
            }
            match self.entities.get(&k) {
                Some(entity) => {
                    assert(self@.working.contains_key(k));
                    assert(self@.working[k] == entity@);
                    let sword_ok = match entity.sword {
                        Some(s) => s.0 < n,
                        None => true,
                    };
                    let reach_ok = !entity.spatial || self.world.can_map(self.origin, entity.p);
                    if !entity.simming || !sword_ok || !reach_ok {
                        return false;
                    }
                },
                None => {},
            }
            i += 1;
        }
        proof {
            assert forall|k: usize| #[trigger] self@.working.contains_key(k) implies {
                &&& self@.working[k].simming
                &&& self@.working[k].spatial ==> self.world.reachable(
                    self.origin,
                    self@.working[k].p,
                )
                &&& self@.working[k].sword matches Some(s) ==> s.0 < self.storage@.len()
            } by {
                assert(self.entities@.dom().contains(k));
                assert(keys@.contains(k));
                let j = choose|j: int| 0 <= j < keys@.len() && keys@[j] == k;
                assert(self@.working[keys@[j]].simming);
            }
        }
        true
    }

    /// Puts the working set back: every entity of it is stored at its new
    /// position, no longer marked as loaded, and the chunks are brought up to
    /// date, entity by entity in rising order of their place in the store.
    /// Returns the new position of the entity that the camera follows, if it
    /// is in the working set. The store keeps its length.
    pub fn end(self, entity_focused_by_camera: Option<StorageIdx>) -> (r: Option<WorldPosition>)
        requires
            self@.wf(),
            self@.ready_to_end(),
        ensures
            final(self.storage)@.len() == old(self.storage)@.len(),
            forall|i: int|
                0 <= i < old(self.storage)@.len() ==> #[trigger] final(self.storage)@[i] == (
                if self@.working.contains_key(i as usize) {
                    self@.committed(i as usize)
                } else {
                    old(self.storage)@[i]
                }),
            final(self.world).wf(),
            stored_well(final(self.world), final(self.storage)@),
            final(self.world).middle == old(self.world).middle,
            final(self.world).tile_side == old(self.world).tile_side,
            final(self.world).chunk_side == old(self.world).chunk_side,
            final(self.world).walls == old(self.world).walls,
            forall|c: ChunkIdx| #[trigger]
                final(self.world).members(c) == self@.members_upto(
                    old(self.storage)@.len(),
                    c,
                ),
            r == self@.camera_after(entity_focused_by_camera),
            final(self.storage)@ == self@.stored_after(),
    {
        let ghost region = self;
        let SimRegion { storage, world, origin, bounds: _, updatable_bounds: _, entities } = self;
        let mut new_camera: Option<WorldPosition> = None;
        let len = storage.len();
        let mut k: usize = 0;
        while k < len
            invariant
                k <= len,
                len == old(self.storage)@.len(),
                storage@.len() == len,
                region == self,
                region@.wf(),
                region@.ready_to_end(),
                entities == region.entities,
                origin == region.origin,
                world.wf(),
                stored_well(world, storage@),
                world.middle == region.world.middle,
                world.tile_side == region.world.tile_side,
                world.chunk_side == region.world.chunk_side,
                world.walls == region.world.walls,
                forall|i: int|
                    0 <= i < len ==> #[trigger] storage@[i] == (if i < k
                        && region@.working.contains_key(i as usize) {
                        region@.committed(i as usize)
                    } else {
                        region.storage@[i]
                    }),
                forall|c: ChunkIdx| #[trigger]
                    world.members(c) == region@.members_upto(k as nat, c),
                new_camera == match entity_focused_by_camera {
                    Some(f) => if f.0 < k && region@.working.contains_key(f.0) {
                        Some(region@.new_position(f.0))
                    } else {
                        None
                    },
                    None => None,
                },
            decreases len - k,
        {
            match entities.get(&k) {
                Some(loaded) => {
                    let mut entity = loaded.clone();
                    assert(region@.working.contains_key(k));
                    assert(entity@ == region@.working[k]);
                    entity.simming = false;
                    let new_p = if entity.spatial {
                        world.map_into_chunk_space(origin, entity.p)
                    } else {
                        WorldPosition::default()
                    };
                    let p = storage.get(StorageIdx(k)).p;
                    match entity_focused_by_camera {
                        Some(f) => {
                            if f.0 == k {
                                new_camera = Some(new_p);
                            }
                        },
                        None => {},
                    }
                    let mut low = LowEntity { entity, p };
                    proof {
                        assert(world.tracks(k, storage@[k as int].p));
                        assert(storage@[k as int].p.spec_is_valid() ==> world.canonical(
                            storage@[k as int].p,
                        ));
                    }
                    let ghost world_before = *world;
                    let ghost store_before = storage@;
                    world.change_entity_chunks(k, &mut low, new_p);
                    storage.update(StorageIdx(k), low);
                    proof {
                        assert(storage@[k as int] == region@.committed(k));
                        assert forall|i: usize| i < storage@.len() implies #[trigger] world.tracks(
                            i,
                            storage@[i as int].p,
                        ) by {
                            if i != k {
                                assert(world_before.tracks(i, store_before[i as int].p));
                                assert forall|c: ChunkIdx| #[trigger]
                                    world.holds(c, i) <==> (store_before[i as int].p.spec_is_valid()
                                        && c == store_before[i as int].p.abs) by {
                                    assert(world.holds(c, i) <==> world_before.holds(c, i));
                                }
                            }
                        }
                        assert forall|c: ChunkIdx, e: usize| #[trigger]
                            world.holds(c, e) implies e < storage@.len() by {
                            if e != k {
                                assert(world.holds(c, e) <==> world_before.holds(c, e));
                            }
                        }
                    }
                },
                None => {
                    assert(!region@.working.contains_key(k));
                },
            }
            k += 1;
        }
        assert(storage@ =~= region@.stored_after());
        new_camera
    }
}

/// The place at the way from `origin` to `p`, taken from `origin`, is `p`
/// again: for a `p` in the layer of `origin` whose offsets are nearer to
/// the centre of its chunk than half a chunk, as long as neither the way nor
/// its sum with the offset of `origin` leaves the `i64` range.
pub proof fn lemma_map_inverts_substract(w: &World, origin: WorldPosition, p: WorldPosition)
    requires
        w.wf(),
        p.abs.z == origin.abs.z,
        2 * spec_abs(p.offset.x as int) < w.chunk_side,
        2 * spec_abs(p.offset.y as int) < w.chunk_side,
        i64::MIN <= w.chunk_side * (p.abs.x - origin.abs.x) + (p.offset.x - origin.offset.x)
            <= i64::MAX,
        i64::MIN <= w.chunk_side * (p.abs.y - origin.abs.y) + (p.offset.y - origin.offset.y)
            <= i64::MAX,
        i64::MIN <= w.chunk_side * (p.abs.x - origin.abs.x) + p.offset.x <= i64::MAX,
        i64::MIN <= w.chunk_side * (p.abs.y - origin.abs.y) + p.offset.y <= i64::MAX,
    ensures
        w.reachable(origin, w.spec_substract(p, origin).xy),
        w.spec_map(origin, w.spec_substract(p, origin).xy) == p,
{
    let side = w.chunk_side as int;
    let kx = p.abs.x - origin.abs.x;
    let ky = p.abs.y - origin.abs.y;
    let sx = side * kx + p.offset.x;
    let sy = side * ky + p.offset.y;
    assert(sx - kx * side == p.offset.x) by (nonlinear_arith)
        requires
            sx == side * kx + p.offset.x,
    ;
    assert(sy - ky * side == p.offset.y) by (nonlinear_arith)
        requires
            sy == side * ky + p.offset.y,
    ;
    lemma_round_div_nearest(sx, side, kx);
    lemma_round_div_nearest(sy, side, ky);
}

impl RegionView {
    /// Whether the stored entity `i` comes back to its stored position when
    /// it is loaded and stored again without a move: it has no place; or it is
    /// in the layer of the origin, its stored offsets are nearer to the centre
    /// of its chunk than half a chunk, and neither its way from the origin
    /// nor the sum of that way and the offset of the origin leaves the `i64`
    /// range.
    pub open spec fn returns_home(self, i: usize) -> bool {
        let p = self.store[i as int].p;
        let side = self.world.chunk_side;
        self.store[i as int].entity.spatial ==> {
            &&& p.abs.z == self.origin.abs.z
            &&& 2 * spec_abs(p.offset.x as int) < side
            &&& 2 * spec_abs(p.offset.y as int) < side
            &&& i64::MIN <= side * (p.abs.x - self.origin.abs.x) + (p.offset.x
                - self.origin.offset.x) <= i64::MAX
            &&& i64::MIN <= side * (p.abs.y - self.origin.abs.y) + (p.offset.y
                - self.origin.offset.y) <= i64::MAX
            &&& i64::MIN <= side * (p.abs.x - self.origin.abs.x) + p.offset.x <= i64::MAX
            &&& i64::MIN <= side * (p.abs.y - self.origin.abs.y) + p.offset.y <= i64::MAX
        }
    }
}

/// An entity that was loaded and has not moved is stored at the position
/// it had in the store, if it is one that comes back to it. Its place is
/// within reach of the origin, as `end` asks.
pub proof fn lemma_unmoved_entity_keeps_position(r: RegionView, i: usize)
    requires
        r.wf(),
        r.working.contains_key(i),
        r.working[i] == r.built(i),
        r.returns_home(i),
    ensures
        r.committed(i).p == r.store[i as int].p,
        r.working[i].spatial ==> r.can_reach(r.working[i].p),
{
    let low = r.store[i as int];
    if low.entity.spatial {
        lemma_map_inverts_substract(&r.world, r.origin, low.p);
    }
}

/// Loading and storing again without a move changes no stored position and
/// keeps the length of the store: after `begin` on an empty working set
/// `end` can run, and the store that `end` leaves holds every entity at the
/// position that it had, as long as every entity that is loaded is one that
/// comes back to its stored position.
pub proof fn lemma_round_trip_keeps_positions(start: RegionView)
    requires
        start.wf(),
        start.store.len() <= usize::MAX,
        start.working == Map::<usize, SimEntityView>::empty(),
        forall|i: usize| #[trigger] start.loaded(i) ==> start.returns_home(i),
    ensures
        ({
            let loaded = RegionView { working: start.begun(), ..start };
            &&& loaded.wf()
            &&& loaded.ready_to_end()
            &&& loaded.stored_after().len() == start.store.len()
            &&& forall|i: int|
                0 <= i < start.store.len() ==> (#[trigger] loaded.stored_after()[i]).p
                    == start.store[i].p
        }),
{
    let loaded = RegionView { working: start.begun(), ..start };
    assert forall|k: usize| #[trigger] loaded.working.contains_key(k) implies k < loaded.store.len()
        && loaded.working[k].idx.0 == k && loaded.working[k] == loaded.built(k)
        && loaded.returns_home(k) by {
        assert(start.loaded(k));
        if !start.found(k) {
            let j = choose|j: usize| #[trigger]
                start.found(j) && start.store[j as int].entity.sword == Some(StorageIdx(k));
            assert(start.store[j as int].entity.sword matches Some(s) && s.0 < start.store.len());
        }
    }
    assert forall|k: usize| #[trigger] loaded.working.contains_key(k) implies {
        &&& loaded.working[k].simming
        &&& loaded.working[k].spatial ==> loaded.world.reachable(
            loaded.origin,
            loaded.working[k].p,
        )
        &&& loaded.working[k].sword matches Some(s) ==> s.0 < loaded.store.len()
    } by {
        lemma_unmoved_entity_keeps_position(loaded, k);
        assert(loaded.store[k as int].entity.sword matches Some(s) ==> s.0 < loaded.store.len());
    }
    assert forall|i: int| 0 <= i < start.store.len() implies (#[trigger] loaded.stored_after()[i]).p
        == start.store[i].p by {
        if loaded.working.contains_key(i as usize) {
            lemma_unmoved_entity_keeps_position(loaded, i as usize);
        }
    }
}

} // verus!
