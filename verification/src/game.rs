//! The game: its state, how it is set up, and what one frame does to it.
use crate::entity::{
    EntityKind, HitPoint, LowEntity, LowEntityView, SimEntity, SimEntityView, Storage, StorageIdx,
};
use crate::fixed::{fx_times, spec_times, HALF, UNIT};
use crate::host_api::{Bitmap, Input};
use crate::math::rectangle::Rect2;
use crate::math::V2;
use crate::pieces::HeroBitmaps;
use crate::region::{inserted, stored_well, views, RegionView, SimRegion, UPDATE_RANGE};
use crate::render::OffscreenBuffer;
use crate::consistency::agree;
use crate::update::{lemma_updates_keyed, update_all, updates, visible, visible_entities};
use crate::world::{ChunkIdx, World, WorldPosition};
use vstd::prelude::*;

verus! {

/// All that the game keeps from frame to frame.
#[derive(Debug)]
pub struct GameState {
    pub offscreen_buffer: OffscreenBuffer,
    pub world: World,
    /// Where the camera is: the origin of the next simulation region.
    pub camera: WorldPosition,
    /// The entity that the camera follows.
    pub entity_focused_by_camera: Option<StorageIdx>,
    pub storage: Storage,
    pub backdrop: Bitmap,
    pub shadow: Bitmap,
    pub tree: Bitmap,
    /// The pictures of the hero, one set for each facing.
    pub hero_bitmaps: Vec<HeroBitmaps>,
}

/// A wall: as wide and high as a tile, colliding.
pub open spec fn wall_entity(side: i64) -> SimEntityView {
    SimEntityView {
        kind: EntityKind::Wall,
        width: side,
        height: side,
        collides: true,
        spatial: true,
        ..SimEntityView::blank()
    }
}

/// A monster: a metre wide, half a metre high, colliding.
pub open spec fn monster_entity() -> SimEntityView {
    SimEntityView {
        kind: EntityKind::Monster,
        width: UNIT,
        height: HALF,
        collides: true,
        spatial: true,
        ..SimEntityView::blank()
    }
}

/// A familiar: a metre wide, half a metre high, not colliding.
pub open spec fn familiar_entity() -> SimEntityView {
    SimEntityView {
        kind: EntityKind::Familiar,
        width: UNIT,
        height: HALF,
        spatial: true,
        ..SimEntityView::blank()
    }
}

/// A sword: a metre wide, half a metre high, with no place in the world.
pub open spec fn sword_entity() -> SimEntityView {
    SimEntityView { kind: EntityKind::Sword, width: UNIT, height: HALF, ..SimEntityView::blank() }
}

/// A player: a metre wide, half a metre high, colliding, with three full
/// hit points and the sword `sword`.
pub open spec fn player_entity(sword: StorageIdx) -> SimEntityView {
    SimEntityView {
        kind: EntityKind::Player,
        width: UNIT,
        height: HALF,
        collides: true,
        spatial: true,
        hit_points: seq![
            HitPoint { flags: 0, filled: 4 },
            HitPoint { flags: 0, filled: 4 },
            HitPoint { flags: 0, filled: 4 },
        ],
        sword: Some(sword),
        ..SimEntityView::blank()
    }
}

/// What the store holds for `entity` once it was added at `p` as the
/// entity `idx`.
pub open spec fn added(p: WorldPosition, entity: SimEntityView, idx: usize) -> LowEntityView {
    LowEntityView {
        p: if p.spec_is_valid() {
            p
        } else {
            WorldPosition::unset()
        },
        entity: SimEntityView { idx: StorageIdx(idx), spatial: p.spec_is_valid(), ..entity },
    }
}

impl GameState {
    /// A game that has just started, with a buffer of 960 by 540 black
    /// pixels. The shadow and the tree get the point that is put on the place
    /// of what they show.
    pub fn new(backdrop: Bitmap, shadow: Bitmap, tree: Bitmap, hero_bitmaps: Vec<HeroBitmaps>) -> (r:
        Self)
        ensures
            r.wf(),
            r.offscreen_buffer.wf(),
            r.offscreen_buffer.width == 960,
            r.offscreen_buffer.height == 540,
            forall|i: int|
                0 <= i < r.offscreen_buffer.buffer@.len() ==> r.offscreen_buffer.buffer@[i] == 0,
            r.world.tile_side == 1_400_000,
            r.world.chunk_side == 22_400_000,
            r.world.walls@ == crate::world::wall_list(0, 1377),
            r.camera == r.world.spec_initial_camera(),
            r.entity_focused_by_camera == Some(StorageIdx(1)),
            r.storage@ == r.started_store(),
            r.backdrop == backdrop,
            r.shadow == (Bitmap { align_x: 72, align_y: 182, ..shadow }),
            r.tree == (Bitmap { align_x: 40, align_y: 80, ..tree }),
            r.hero_bitmaps == hero_bitmaps,
    {
        let width: usize = 960;
        let height: usize = 540;
        let bytes_per_pixel: usize = 4;
        let offscreen_buffer = OffscreenBuffer {
            buffer: vec![0u8; 2_073_600],
            width,
            height,
            bytes_per_pixel,
        };
        assert(offscreen_buffer.width * offscreen_buffer.height * 4 == 2_073_600) by {
            assert(960 * 540 * 4 == 2_073_600) by (nonlinear_arith);
        }
        let world = World::new();
        let camera = world.initial_camera();
        let mut shadow = shadow;
        let mut tree = tree;
        shadow.align_x = 72;
        shadow.align_y = 182;
        tree.align_x = 40;
        tree.align_y = 80;
        let mut state = GameState {
            offscreen_buffer,
            world,
            camera,
            entity_focused_by_camera: None,
            storage: Storage::default(),
            backdrop,
            shadow,
            tree,
            hero_bitmaps,
        };
        state.start();
        state
    }

    /// The invariant of the game: the world is well formed, and store and
    /// world agree.
    pub open spec fn wf(&self) -> bool {
        &&& self.world.wf()
        &&& stored_well(&self.world, self.storage@)
    }

    /// Whether the world is well formed and agrees with the store.
    pub fn is_sound(&self) -> (r: bool)
        ensures
            r == self.wf(),
    {
        agree(&self.world, &self.storage)
    }

    /// Whether nothing but store and chunks differs between two states.
    pub open spec fn same_frame(&self, other: &GameState) -> bool {
        &&& self.offscreen_buffer == other.offscreen_buffer
        &&& self.camera == other.camera
        &&& self.entity_focused_by_camera == other.entity_focused_by_camera
        &&& self.backdrop == other.backdrop
        &&& self.shadow == other.shadow
        &&& self.tree == other.tree
        &&& self.hero_bitmaps == other.hero_bitmaps
        &&& self.world.middle == other.world.middle
        &&& self.world.tile_side == other.world.tile_side
        &&& self.world.chunk_side == other.world.chunk_side
        &&& self.world.walls == other.world.walls
    }

    /// The side of a tile.
    pub fn tile_side(&self) -> (r: i64)
        ensures
            r == self.world.tile_side,
    {
        self.world.tile_side
    }

    /// Adds `entity` to the store and puts it into the chunk of `p`; an
    /// unset `p` adds an entity without a place. Returns the place of the
    /// entity in the store.
    pub fn add_low(&mut self, p: WorldPosition, entity: SimEntity) -> (r: StorageIdx)
        requires
            old(self).wf(),
            p.spec_is_valid() ==> old(self).world.canonical(p),
            !entity.simming,
            entity.sword matches Some(s) ==> s.0 <= old(self).storage@.len(),
        ensures
            final(self).wf(),
            final(self).same_frame(old(self)),
            r.0 == old(self).storage@.len(),
            final(self).storage@ == old(self).storage@.push(added(p, entity@, r.0)),
            forall|c: ChunkIdx| #[trigger]
                final(self).world.members(c) == old(self).world.members_after(
                    r.0,
                    WorldPosition::unset(),
                    p,
                    c,
                ),
    {
        let low_entity_idx = self.storage.len();
        let mut low = LowEntity { entity, p: WorldPosition::default() };
        proof {
            assert forall|c: ChunkIdx| !#[trigger] self.world.holds(c, low_entity_idx) by {
                if self.world.holds(c, low_entity_idx) {
                    assert(low_entity_idx < self.storage@.len());
                }
            }
        }
        let ghost world_before = self.world;
        let ghost store_before = self.storage@;
        self.world.change_entity_chunks(low_entity_idx, &mut low, p);
        let ghost stored = low@;
        let idx = self.storage.push(low);
        proof {
            let store = self.storage@;
            assert(store[low_entity_idx as int] == added(p, entity@, low_entity_idx));
            assert forall|i: usize| i < store.len() implies #[trigger] self.world.tracks(
                i,
                store[i as int].p,
            ) by {
                if i != low_entity_idx {
                    assert(world_before.tracks(i, store_before[i as int].p));
                    assert forall|c: ChunkIdx| #[trigger]
                        self.world.holds(c, i) <==> (store_before[i as int].p.spec_is_valid() && c
                            == store_before[i as int].p.abs) by {
                        assert(self.world.holds(c, i) <==> world_before.holds(c, i));
                    }
                }
            }
            assert forall|c: ChunkIdx, e: usize| #[trigger]
                self.world.holds(c, e) implies e < store.len() by {
                if e != low_entity_idx {
                    assert(self.world.holds(c, e) <==> world_before.holds(c, e));
                }
            }
            assert forall|i: int|
                0 <= i < store.len() implies ((#[trigger] store[i]).entity.sword matches Some(s)
                ==> s.0 < store.len()) by {
                if i != low_entity_idx {
                    assert(store[i] == store_before[i]);
                }
            }
        }
        idx
    }

    /// Adds a wall at `p`.
    pub fn add_wall(&mut self, p: WorldPosition) -> (r: StorageIdx)
        requires
            old(self).wf(),
            p.spec_is_valid() ==> old(self).world.canonical(p),
        ensures
            final(self).wf(),
            final(self).same_frame(old(self)),
            r.0 == old(self).storage@.len(),
            final(self).storage@ == old(self).storage@.push(
                added(p, wall_entity(old(self).world.tile_side), r.0),
            ),
            forall|c: ChunkIdx| #[trigger]
                final(self).world.members(c) == old(self).world.members_after(
                    r.0,
                    WorldPosition::unset(),
                    p,
                    c,
                ),
    {
        let mut entity = SimEntity::default();
        entity.kind = EntityKind::Wall;
        entity.width = self.tile_side();
        entity.height = self.tile_side();
        entity.collides = true;
        entity.spatial = true;
        self.add_low(p, entity)
    }

    /// Adds a monster at `p`.
    pub fn add_monster(&mut self, p: WorldPosition) -> (r: StorageIdx)
        requires
            old(self).wf(),
            p.spec_is_valid() ==> old(self).world.canonical(p),
        ensures
            final(self).wf(),
            final(self).same_frame(old(self)),
            r.0 == old(self).storage@.len(),
            final(self).storage@ == old(self).storage@.push(added(p, monster_entity(), r.0)),
            forall|c: ChunkIdx| #[trigger]
                final(self).world.members(c) == old(self).world.members_after(
                    r.0,
                    WorldPosition::unset(),
                    p,
                    c,
                ),
    {
        let mut entity = SimEntity::default();
        entity.kind = EntityKind::Monster;
        entity.width = UNIT;
        entity.height = HALF;
        entity.collides = true;
        entity.spatial = true;
        self.add_low(p, entity)
    }

    /// Adds a familiar at `p`.
    pub fn add_familiar(&mut self, p: WorldPosition) -> (r: StorageIdx)
        requires
            old(self).wf(),
            p.spec_is_valid() ==> old(self).world.canonical(p),
        ensures
            final(self).wf(),
            final(self).same_frame(old(self)),
            r.0 == old(self).storage@.len(),
            final(self).storage@ == old(self).storage@.push(added(p, familiar_entity(), r.0)),
            forall|c: ChunkIdx| #[trigger]
                final(self).world.members(c) == old(self).world.members_after(
                    r.0,
                    WorldPosition::unset(),
                    p,
                    c,
                ),
    {
        let mut entity = SimEntity::default();
        entity.kind = EntityKind::Familiar;
        entity.width = UNIT;
        entity.height = HALF;
        entity.spatial = true;
        self.add_low(p, entity)
    }

    /// Adds a sword, which has no place in the world until it is thrown.
    pub fn add_sword(&mut self) -> (r: StorageIdx)
        requires
            old(self).wf(),
        ensures
            final(self).wf(),
            final(self).same_frame(old(self)),
            r.0 == old(self).storage@.len(),
            final(self).storage@ == old(self).storage@.push(
                added(WorldPosition::unset(), sword_entity(), r.0),
            ),
            forall|c: ChunkIdx| #[trigger]
                final(self).world.members(c) == old(self).world.members(c),
    {
        let mut entity = SimEntity::default();
        entity.kind = EntityKind::Sword;
        entity.width = UNIT;
        entity.height = HALF;
        self.add_low(WorldPosition::default(), entity)
    }

    /// Adds a sword, and then a player at `p` who owns it.
    pub fn add_player(&mut self, p: WorldPosition) -> (r: StorageIdx)
        requires
            old(self).wf(),
            p.spec_is_valid() ==> old(self).world.canonical(p),
        ensures
            final(self).wf(),
            final(self).same_frame(old(self)),
            r.0 == old(self).storage@.len() + 1,
            final(self).storage@ == old(self).storage@.push(
                added(WorldPosition::unset(), sword_entity(), (r.0 - 1) as usize),
            ).push(added(p, player_entity(StorageIdx((r.0 - 1) as usize)), r.0)),
    {
        let sword = self.add_sword();
        let mut entity = SimEntity::default();
        entity.kind = EntityKind::Player;
        entity.width = UNIT;
        entity.height = HALF;
        entity.collides = true;
        entity.spatial = true;
        entity.hit_points.push(HitPoint::full());
        entity.hit_points.push(HitPoint::full());
        entity.hit_points.push(HitPoint::full());
        entity.sword = Some(sword);
        assert(entity@.hit_points =~= player_entity(sword).hit_points);
        self.add_low(p, entity)
    }

    /// Adds the familiar, where the camera starts.
    pub fn add_familiars(&mut self)
        requires
            old(self).wf(),
        ensures
            final(self).wf(),
            final(self).same_frame(old(self)),
            final(self).storage@ == old(self).storage@.push(
                added(
                    old(self).world.spec_initial_camera(),
                    familiar_entity(),
                    old(self).storage@.len() as usize,
                ),
            ),
    {
        let p = self.world.initial_camera();
        self.add_familiar(p);
    }

    /// The store after the walls of the first `n` wall tiles were added to
    /// `store`.
    pub open spec fn with_walls(&self, store: Seq<LowEntityView>, n: nat) -> Seq<LowEntityView>
        decreases n,
    {
        if n == 0 {
            store
        } else {
            let before = self.with_walls(store, (n - 1) as nat);
            let tile = self.world.walls@[n - 1];
            before.push(
                added(
                    self.world.spec_position_at_tile(tile.0, tile.1, tile.2),
                    wall_entity(self.world.tile_side),
                    before.len() as usize,
                ),
            )
        }
    }

    /// Adds a wall for every wall tile of the world, at the centre of the
    /// tile.
    pub fn add_walls(&mut self)
        requires
            old(self).wf(),
        ensures
            final(self).wf(),
            final(self).same_frame(old(self)),
            final(self).storage@ == old(self).with_walls(
                old(self).storage@,
                old(self).world.walls@.len(),
            ),
    {
        let n = self.world.walls.len();
        let mut i: usize = 0;
        while i < n
            invariant
                i <= n,
                n == old(self).world.walls@.len(),
                self.wf(),
                self.same_frame(old(self)),
                self.storage@ == old(self).with_walls(old(self).storage@, i as nat),
            decreases n - i,
        {
            let tile = self.world.walls[i];
            let p = self.world.position_at_tile(tile.0, tile.1, tile.2);
            self.add_wall(p);
            i += 1;
        }
    }

    /// The store of a game that has just started: a sword, the player who
    /// owns it, a monster, a familiar, and the walls.
    pub open spec fn started_store(&self) -> Seq<LowEntityView> {
        self.with_walls(
            seq![
                added(WorldPosition::unset(), sword_entity(), 0),
                added(self.world.spec_initial_player(), player_entity(StorageIdx(0)), 1),
                added(self.world.spec_initial_monster(), monster_entity(), 2),
                added(self.world.spec_initial_camera(), familiar_entity(), 3),
            ],
            self.world.walls@.len(),
        )
    }

    /// Starts the game anew: a new world, and in it the player with a sword,
    /// a monster, a familiar and the walls. The camera follows the player.
    pub fn start(&mut self)
        ensures
            final(self).wf(),
            final(self).world.tile_side == 1_400_000,
            final(self).world.chunk_side == 22_400_000,
            final(self).world.walls@ == crate::world::wall_list(0, 1377),
            final(self).camera == final(self).world.spec_initial_camera(),
            final(self).entity_focused_by_camera == Some(StorageIdx(1)),
            final(self).storage@ == final(self).started_store(),
            final(self).offscreen_buffer == old(self).offscreen_buffer,
            final(self).backdrop == old(self).backdrop,
            final(self).shadow == old(self).shadow,
            final(self).tree == old(self).tree,
            final(self).hero_bitmaps == old(self).hero_bitmaps,
    {
        self.world = World::new();
        self.camera = self.world.initial_camera();
        self.storage = Storage::default();
        self.entity_focused_by_camera = None;
        proof {
            assert forall|c: ChunkIdx| #[trigger] self.world.members(c) =~= Seq::<usize>::empty() by {}
            assert forall|c: ChunkIdx, e: usize| !#[trigger] self.world.holds(c, e) by {
                assert(self.world.members(c) =~= Seq::<usize>::empty());
            }
        }
        let player_p = self.world.initial_player();
        let idx = self.add_player(player_p);
        self.entity_focused_by_camera = Some(idx);
        let monster_p = self.world.initial_monster();
        self.add_monster(monster_p);
        self.add_familiars();
        let ghost base = self.storage@;
        let ghost before = *self;
        assert(base =~= seq![
            added(WorldPosition::unset(), sword_entity(), 0),
            added(self.world.spec_initial_player(), player_entity(StorageIdx(0)), 1),
            added(self.world.spec_initial_monster(), monster_entity(), 2),
            added(self.world.spec_initial_camera(), familiar_entity(), 3),
        ]);
        self.add_walls();
        proof {
            self.lemma_with_walls_same(&before, base, self.world.walls@.len());
        }
    }

    /// The walls that are added depend on the world alone.
    proof fn lemma_with_walls_same(&self, other: &GameState, store: Seq<LowEntityView>, n: nat)
        requires
            self.world.walls == other.world.walls,
            self.world.tile_side == other.world.tile_side,
            self.world.chunk_side == other.world.chunk_side,
        ensures
            self.with_walls(store, n) == other.with_walls(store, n),
        decreases n,
    {
        if n > 0 {
            self.lemma_with_walls_same(other, store, (n - 1) as nat);
        }
    }
}

/// The bounds within which entities are updated: three screens wide and
/// three screens high, around the camera.
pub open spec fn spec_camera_bounds(tile_side: i64) -> Rect2 {
    let half = V2 {
        x: spec_times(51, tile_side as int) as i64,
        y: spec_times(27, tile_side as int) as i64,
    }.spec_scaled(HALF);
    Rect2 { min: V2::zero().spec_minus(half), max: V2::zero().spec_plus(half) }
}

/// The bounds within which entities are updated.
pub fn camera_bounds(tile_side: i64) -> (r: Rect2)
    requires
        tile_side >= 0,
    ensures
        r == spec_camera_bounds(tile_side),
        r.wf(),
{
    let camera_size = V2::new(fx_times(51, tile_side), fx_times(27, tile_side));
    assert(camera_size.x >= 0 && camera_size.y >= 0) by (nonlinear_arith)
        requires
            tile_side >= 0,
            camera_size.x == crate::fixed::sat(51 * tile_side),
            camera_size.y == crate::fixed::sat(27 * tile_side),
    {
        assert(51 * tile_side >= 0);
        assert(27 * tile_side >= 0);
    }
    Rect2::new_center_dim(V2::default(), camera_size)
}

impl GameState {
    /// The region that a frame starts with: around the camera, with an
    /// empty working set.
    pub open spec fn frame_start(&self) -> RegionView {
        let updatable = spec_camera_bounds(self.world.tile_side);
        RegionView {
            world: self.world,
            store: self.storage@,
            origin: self.camera,
            bounds: updatable.spec_add_radius(V2 { x: UPDATE_RANGE, y: UPDATE_RANGE }),
            updatable_bounds: updatable,
            working: Map::empty(),
        }
    }

    /// The region of a frame once the entities near the camera are loaded.
    pub open spec fn frame_loaded(&self) -> RegionView {
        RegionView { working: self.frame_start().begun(), ..self.frame_start() }
    }

    /// The region of a frame once the loaded entities were updated.
    pub open spec fn frame_updated(&self, input: Input) -> RegionView {
        let loaded = self.frame_loaded();
        RegionView {
            working: inserted(loaded.working, updates(loaded.working, input)),
            ..loaded
        }
    }

    /// Whether a frame can run: the corners of the region and the new
    /// places of all updated entities are within reach of the camera.
    pub open spec fn frame_runs(&self, input: Input) -> bool {
        let start = self.frame_start();
        &&& start.world.reachable(start.origin, start.bounds.min)
        &&& start.world.reachable(start.origin, start.bounds.max)
        &&& self.frame_updated(input).ready_to_end()
    }

    /// Runs one frame: the entities near the camera are loaded, each one
    /// that is updated is moved as its kind asks, all are stored again, and
    /// the camera goes to the entity that it follows. Returns the entities
    /// that were updated, as they were before the frame moved them: they are
    /// what the frame shows. Where the frame cannot run, nothing changes and
    /// `None` is returned.
    pub fn simulate(&mut self, input: &Input) -> (r: Option<Vec<SimEntity>>)
        requires
            old(self).wf(),
        ensures
            final(self).wf(),
            final(self).offscreen_buffer == old(self).offscreen_buffer,
            final(self).entity_focused_by_camera == old(self).entity_focused_by_camera,
            final(self).backdrop == old(self).backdrop,
            final(self).shadow == old(self).shadow,
            final(self).tree == old(self).tree,
            final(self).hero_bitmaps == old(self).hero_bitmaps,
            final(self).world.middle == old(self).world.middle,
            final(self).world.tile_side == old(self).world.tile_side,
            final(self).world.chunk_side == old(self).world.chunk_side,
            final(self).world.walls == old(self).world.walls,
            final(self).storage@.len() == old(self).storage@.len(),
            r is Some <==> old(self).frame_runs(*input),
            r is None ==> {
                &&& final(self).storage@ == old(self).storage@
                &&& final(self).camera == old(self).camera
                &&& final(self).world == old(self).world
            },
            r is Some ==> {
                &&& views(r->0@) == visible(old(self).frame_loaded().working)
                &&& final(self).storage@ == old(self).frame_updated(*input).stored_after()
                &&& final(self).camera == match old(self).frame_updated(*input).camera_after(
                    old(self).entity_focused_by_camera,
                ) {
                    Some(p) => p,
                    None => old(self).camera,
                }
                &&& forall|c: ChunkIdx| #[trigger]
                    final(self).world.members(c) == old(self).frame_updated(*input).members_upto(
                        old(self).storage@.len(),
                        c,
                    )
            },
    {
        let bounds = camera_bounds(self.world.tile_side);
        let focus = self.entity_focused_by_camera;
        let camera = self.camera;
        let mut region = SimRegion::new(&mut self.storage, &mut self.world, camera, bounds);
        assert(region@ == old(self).frame_start()) by {
            assert(region@.working =~= Map::<usize, SimEntityView>::empty());
        }
        let ok = region.world.can_map(region.origin, region.bounds.min()) && region.world.can_map(
            region.origin,
            region.bounds.max(),
        );
        if !ok {
            return None;
        }
        region.begin();
        assert(region@ == old(self).frame_loaded());
        let shown = visible_entities(&region);
        let new_entities = update_all(&region, input);
        proof {
            lemma_updates_keyed(
                region@.working,
                *input,
                (usize::MAX + 1) as nat,
                region.storage@.len(),
            );
            assert forall|n: int| 0 <= n < new_entities@.len() implies (#[trigger] new_entities@[n]).idx.0
                < region.storage@.len() by {
                assert(views(new_entities@)[n] == new_entities@[n]@);
            }
        }
        region.update_entities(new_entities);
        assert(region@ == old(self).frame_updated(*input));
        if !region.can_end() {
            return None;
        }
        let new_camera = region.end(focus);
        match new_camera {
            Some(p) => {
                self.camera = p;
            },
            None => {},
        }
        Some(shown)
    }
}

} // verus!
