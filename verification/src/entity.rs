//! Entities: the stored record, the simulated record, and the store.
use crate::fixed::UNIT;
use crate::math::V2;
use crate::world::WorldPosition;
use vstd::prelude::*;

verus! {

/// Sub-steps of one hit point.
pub const HIT_POINT_SUB_COUNT: u8 = 4;

/// The way an entity faces. The pictures of the hero are kept in this
/// order.
#[derive(Copy, Clone, Debug, PartialEq, Eq, Structural)]
pub enum Facing {
    Left,
    Right,
    Down,
    Up,
}

impl Default for Facing {
    fn default() -> (r: Self)
        ensures
            r == Facing::Left,
    {
        Facing::Left
    }
}

impl Facing {
    /// The place of the facing among the four: left, right, down, up.
    pub open spec fn spec_index(self) -> usize {
        match self {
            Facing::Left => 0,
            Facing::Right => 1,
            Facing::Down => 2,
            Facing::Up => 3,
        }
    }

    /// The place of the facing among the four.
    pub fn index(self) -> (r: usize)
        ensures
            r == self.spec_index(),
            r < 4,
    {
        match self {
            Facing::Left => 0,
            Facing::Right => 1,
            Facing::Down => 2,
            Facing::Up => 3,
        }
    }
}

/// How an entity answers to acceleration.
#[derive(Copy, Clone, Debug, PartialEq, Eq, Structural)]
pub struct MoveSpec {
    /// Whether an acceleration longer than one is cut down to length one.
    pub unit_max_accel_vector: bool,
    pub speed: i64,
    pub drag: i64,
}

impl MoveSpec {
    /// How a player moves: fast, held back by drag, and no faster across
    /// than along an axis.
    pub open spec fn spec_player() -> MoveSpec {
        MoveSpec { unit_max_accel_vector: true, speed: 50_000_000, drag: 8_000_000 }
    }

    /// How a sword moves: as it is pushed, without drag.
    pub open spec fn spec_sword() -> MoveSpec {
        MoveSpec { unit_max_accel_vector: false, speed: 1_000_000, drag: 0 }
    }

    /// How a player moves.
    pub fn player() -> (r: Self)
        ensures
            r == Self::spec_player(),
    {
        MoveSpec { unit_max_accel_vector: true, speed: 50 * UNIT, drag: 8 * UNIT }
    }

    /// How a sword moves.
    pub fn sword() -> (r: Self)
        ensures
            r == Self::spec_sword(),
    {
        MoveSpec { unit_max_accel_vector: false, speed: UNIT, drag: 0 }
    }
}

impl Default for MoveSpec {
    fn default() -> (r: Self)
        ensures
            r == MoveSpec::spec_sword(),
    {
        MoveSpec { unit_max_accel_vector: false, speed: UNIT, drag: 0 }
    }
}

/// The place of an entity in the store. It is given once and never reused.
#[derive(Copy, Clone, Debug, PartialEq, Eq, Structural, Hash, PartialOrd, Ord)]
pub struct StorageIdx(pub usize);

impl Default for StorageIdx {
    fn default() -> (r: Self)
        ensures
            r == StorageIdx(0),
    {
        StorageIdx(0)
    }
}

/// One hit point, made of sub-steps.
#[derive(Copy, Clone, Debug, PartialEq, Eq, Structural)]
pub struct HitPoint {
    pub flags: u8,
    pub filled: u8,
}

impl HitPoint {
    /// A hit point with all its sub-steps.
    pub fn full() -> (r: Self)
        ensures
            r == (HitPoint { flags: 0, filled: HIT_POINT_SUB_COUNT }),
    {
        HitPoint { flags: 0, filled: HIT_POINT_SUB_COUNT }
    }
}

/// What an entity is; the frame moves and shows each kind in its own way.
#[derive(Copy, Clone, Debug, PartialEq, Eq, Structural)]
pub enum EntityKind {
    Wall,
    Player,
    Familiar,
    Monster,
    Sword,
}

impl Default for EntityKind {
    fn default() -> (r: Self)
        ensures
            r == EntityKind::Wall,
    {
        EntityKind::Wall
    }
}

/// An entity as the simulation works on it. Position and velocity are
/// relative to the origin of the region that holds it.
#[derive(Debug)]
pub struct SimEntity {
    pub idx: StorageIdx,
    pub updatable: bool,
    pub kind: EntityKind,
    /// Whether the entity has a place in the world.
    pub spatial: bool,
    /// Whether the entity takes part in collisions.
    pub collides: bool,
    /// Whether the entity is loaded in a region.
    pub simming: bool,
    pub p: V2,
    pub dp: V2,
    pub z: i64,
    pub dz: i64,
    pub chunk_z: i32,
    pub abs_tile_z: i32,
    pub width: i64,
    pub height: i64,
    pub sword: Option<StorageIdx>,
    pub hit_points: Vec<HitPoint>,
    pub facing_direction: Facing,
    pub distance_remaining: i64,
    pub t_bob: i64,
}

/// What a [`SimEntity`] holds, as a mathematical value.
pub struct SimEntityView {
    pub idx: StorageIdx,
    pub updatable: bool,
    pub kind: EntityKind,
    pub spatial: bool,
    pub collides: bool,
    pub simming: bool,
    pub p: V2,
    pub dp: V2,
    pub z: i64,
    pub dz: i64,
    pub chunk_z: i32,
    pub abs_tile_z: i32,
    pub width: i64,
    pub height: i64,
    pub sword: Option<StorageIdx>,
    pub hit_points: Seq<HitPoint>,
    pub facing_direction: Facing,
    pub distance_remaining: i64,
    pub t_bob: i64,
}

impl View for SimEntity {
    type V = SimEntityView;

    open spec fn view(&self) -> SimEntityView {
        SimEntityView {
            idx: self.idx,
            updatable: self.updatable,
            kind: self.kind,
            spatial: self.spatial,
            collides: self.collides,
            simming: self.simming,
            p: self.p,
            dp: self.dp,
            z: self.z,
            dz: self.dz,
            chunk_z: self.chunk_z,
            abs_tile_z: self.abs_tile_z,
            width: self.width,
            height: self.height,
            sword: self.sword,
            hit_points: self.hit_points@,
            facing_direction: self.facing_direction,
            distance_remaining: self.distance_remaining,
            t_bob: self.t_bob,
        }
    }
}

impl SimEntityView {
    /// The entity that `Default` gives: a wall of no size at the origin.
    pub open spec fn blank() -> SimEntityView {
        SimEntityView {
            idx: StorageIdx(0),
            updatable: false,
            kind: EntityKind::Wall,
            spatial: false,
            collides: false,
            simming: false,
            p: V2::zero(),
            dp: V2::zero(),
            z: 0,
            dz: 0,
            chunk_z: 0,
            abs_tile_z: 0,
            width: 0,
            height: 0,
            sword: None,
            hit_points: Seq::empty(),
            facing_direction: Facing::Left,
            distance_remaining: 0,
            t_bob: 0,
        }
    }
}

impl Default for SimEntity {
    fn default() -> (r: Self)
        ensures
            r@ == SimEntityView::blank(),
    {
        SimEntity {
            idx: StorageIdx(0),
            updatable: false,
            kind: EntityKind::Wall,
            spatial: false,
            collides: false,
            simming: false,
            p: V2 { x: 0, y: 0 },
            dp: V2 { x: 0, y: 0 },
            z: 0,
            dz: 0,
            chunk_z: 0,
            abs_tile_z: 0,
            width: 0,
            height: 0,
            sword: None,
            hit_points: Vec::new(),
            facing_direction: Facing::Left,
            distance_remaining: 0,
            t_bob: 0,
        }
    }
}

impl Clone for SimEntity {
    fn clone(&self) -> (r: Self)
        ensures
            r@ == self@,
    {
        let hit_points = self.hit_points.clone();
        assert(hit_points@ =~= self.hit_points@);
        SimEntity {
            idx: self.idx,
            updatable: self.updatable,
            kind: self.kind,
            spatial: self.spatial,
            collides: self.collides,
            simming: self.simming,
            p: self.p,
            dp: self.dp,
            z: self.z,
            dz: self.dz,
            chunk_z: self.chunk_z,
            abs_tile_z: self.abs_tile_z,
            width: self.width,
            height: self.height,
            sword: self.sword,
            hit_points,
            facing_direction: self.facing_direction,
            distance_remaining: self.distance_remaining,
            t_bob: self.t_bob,
        }
    }
}

/// An entity as the store keeps it: where it is in the world, and the entity.
#[derive(Debug)]
pub struct LowEntity {
    pub p: WorldPosition,
    pub entity: SimEntity,
}

/// What a [`LowEntity`] holds, as a mathematical value.
pub struct LowEntityView {
    pub p: WorldPosition,
    pub entity: SimEntityView,
}

impl View for LowEntity {
    type V = LowEntityView;

    open spec fn view(&self) -> LowEntityView {
        LowEntityView { p: self.p, entity: self.entity@ }
    }
}

impl Clone for LowEntity {
    fn clone(&self) -> (r: Self)
        ensures
            r@ == self@,
    {
        LowEntity { p: self.p, entity: self.entity.clone() }
    }
}

/// The store of all entities. An entity keeps the place it was given when
/// it was pushed; nothing is ever taken out.
#[derive(Debug)]
pub struct Storage {
    pub entities: Vec<LowEntity>,
}

impl View for Storage {
    type V = Seq<LowEntityView>;

    open spec fn view(&self) -> Seq<LowEntityView> {
        self.entities@.map_values(|e: LowEntity| e@)
    }
}

impl Default for Storage {
    fn default() -> (r: Self)
        ensures
            r@ == Seq::<LowEntityView>::empty(),
    {
        let r = Storage { entities: Vec::new() };
        assert(r@ =~= Seq::<LowEntityView>::empty());
        r
    }
}

impl Clone for Storage {
    fn clone(&self) -> (r: Self)
        ensures
            r@ == self@,
    {
        let mut entities: Vec<LowEntity> = Vec::new();
        let mut i: usize = 0;
        while i < self.entities.len()
            invariant
                i <= self.entities.len(),
                entities.len() == i,
                forall|j: int| 0 <= j < i ==> entities@[j]@ == self.entities@[j]@,
            decreases self.entities.len() - i,
        {
            entities.push(self.entities[i].clone());
            i += 1;
        }
        let r = Storage { entities };
        assert(r@ =~= self@);
        r
    }
}

impl Storage {
    /// How many entities the store holds.
    pub fn len(&self) -> (r: usize)
        ensures
            r == self@.len(),
    {
        self.entities.len()
    }

    /// Adds an entity at the end and returns its place, which the entity is
    /// given as its `idx`.
    pub fn push(&mut self, entity: LowEntity) -> (r: StorageIdx)
        ensures
            r.0 == old(self)@.len(),
            final(self)@ == old(self)@.push(
                LowEntityView { p: entity.p, entity: SimEntityView { idx: r, ..entity.entity@ } },
            ),
    {
        let mut entity = entity;
        let idx = StorageIdx(self.entities.len());
        entity.entity.idx = idx;
        self.entities.push(entity);
        assert(self@ =~= old(self)@.push(
            LowEntityView { p: entity.p, entity: SimEntityView { idx, ..entity.entity@ } },
        ));
        idx
    }

    /// The entity at `idx`.
    pub fn get(&self, idx: StorageIdx) -> (r: &LowEntity)
        requires
            idx.0 < self@.len(),
        ensures
            r@ == self@[idx.0 as int],
    {
        &self.entities[idx.0]
    }

    /// Puts `entity` in the place `idx`.
    pub fn update(&mut self, idx: StorageIdx, entity: LowEntity)
        requires
            idx.0 < old(self)@.len(),
        ensures
            final(self)@ == old(self)@.update(idx.0 as int, entity@),
    {
        self.entities[idx.0] = entity;
        assert(self@ =~= old(self)@.update(idx.0 as int, entity@));
    }
}

} // verus!
