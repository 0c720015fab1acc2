use game::entity::{
    EntityKind, Facing, LowEntity, MoveSpec, SimEntity, Storage, StorageIdx,
};
use game::fixed::UNIT;
use game::math::rectangle::Rect2;
use game::math::V2;
use game::region::SimRegion;
use game::world::{ChunkIdx, World, WorldPosition};

const DT: i64 = 16_667;
const SIDE: i64 = 22_400_000;

fn at_chunk(x: i32, y: i32, ox: i64, oy: i64) -> WorldPosition {
    WorldPosition { abs: ChunkIdx::new(x, y, 0), offset: V2::new(ox, oy) }
}

fn entity_of(kind: EntityKind, width: i64, height: i64, collides: bool) -> SimEntity {
    let mut e = SimEntity::default();
    e.kind = kind;
    e.width = width;
    e.height = height;
    e.collides = collides;
    e.spatial = true;
    e
}

fn add(world: &mut World, storage: &mut Storage, p: WorldPosition, entity: SimEntity) -> StorageIdx {
    let idx = storage.len();
    let mut low = LowEntity { p: WorldPosition::default(), entity };
    world.change_entity_chunks(idx, &mut low, p);
    storage.push(low)
}

fn bounds(half: i64) -> Rect2 {
    Rect2::new_center_half_dim(V2::new(0, 0), V2::new(half, half))
}

fn wall_and_player(start_x: i64) -> (World, Storage) {
    let mut world = World::new();
    let mut storage = Storage::default();
    add(
        &mut world,
        &mut storage,
        at_chunk(0, 0, 0, 0),
        entity_of(EntityKind::Wall, 1_400_000, 1_400_000, true),
    );
    add(
        &mut world,
        &mut storage,
        at_chunk(0, 0, start_x, 0),
        entity_of(EntityKind::Player, UNIT, 500_000, true),
    );
    (world, storage)
}

fn push_right(world: &mut World, storage: &mut Storage) -> SimEntity {
    let mut region = SimRegion::new(storage, world, WorldPosition::origin(), bounds(10 * UNIT));
    region.begin();
    let player = region.entities.get(&1).unwrap().clone();
    let moved = region.move_entity(&player, DT, V2::new(UNIT, 0), MoveSpec::player());
    let after = moved.clone();
    region.update_entities(vec![moved]);
    assert!(region.can_end());
    region.end(None);
    after
}

#[test]
fn new_region_loads_a_metre_beyond_what_it_updates() {
    let mut world = World::new();
    let mut storage = Storage::default();
    let region = SimRegion::new(&mut storage, &mut world, at_chunk(1, 2, 3, 4), bounds(5 * UNIT));
    assert_eq!(region.origin, at_chunk(1, 2, 3, 4));
    assert_eq!(region.updatable_bounds, bounds(5 * UNIT));
    assert_eq!(region.bounds, bounds(6 * UNIT));
    assert_eq!(region.entities.len(), 0);
}

#[test]
fn begin_loads_what_is_within_the_bounds() {
    let mut world = World::new();
    let mut storage = Storage::default();
    let near = add(&mut world, &mut storage, at_chunk(0, 0, UNIT, UNIT), entity_of(EntityKind::Wall, 1, 1, true));
    let edge = add(
        &mut world,
        &mut storage,
        at_chunk(0, 0, 5_500_000, 0),
        entity_of(EntityKind::Wall, 1, 1, true),
    );
    let far = add(&mut world, &mut storage, at_chunk(0, 0, 6 * UNIT, 0), entity_of(EntityKind::Wall, 1, 1, true));
    let low_edge = add(
        &mut world,
        &mut storage,
        at_chunk(0, 0, -6 * UNIT, 0),
        entity_of(EntityKind::Wall, 1, 1, true),
    );
    let other_chunk = add(
        &mut world,
        &mut storage,
        at_chunk(1, 0, -SIDE / 2 + 1, 0),
        entity_of(EntityKind::Wall, 1, 1, true),
    );
    let origin = at_chunk(0, 0, SIDE / 2 - UNIT, 0);
    let mut region = SimRegion::new(&mut storage, &mut world, origin, bounds(5 * UNIT));
    region.begin();
    assert!(!region.entities.contains_key(&near.0));
    assert_eq!(region.entities.get(&edge.0).unwrap().p, V2::new(-4_700_000, 0));
    assert_eq!(region.entities.get(&far.0).unwrap().p, V2::new(-4_200_000, 0));
    assert!(!region.entities.contains_key(&low_edge.0));
    let loaded = region.entities.get(&other_chunk.0).unwrap();
    assert_eq!(loaded.p, V2::new(UNIT + 1, 0));
    assert_eq!(loaded.idx, other_chunk);
    assert!(loaded.simming);
    assert!(loaded.updatable);
    assert_eq!(region.entities.len(), 3);
    drop(region);

    let mut region = SimRegion::new(&mut storage, &mut world, at_chunk(0, 0, 0, 0), bounds(5 * UNIT));
    region.begin();
    assert_eq!(region.entities.get(&near.0).unwrap().p, V2::new(UNIT, UNIT));
    assert!(region.entities.get(&near.0).unwrap().updatable);
    assert_eq!(region.entities.get(&edge.0).unwrap().p, V2::new(5_500_000, 0));
    assert!(!region.entities.get(&edge.0).unwrap().updatable);
    assert!(!region.entities.contains_key(&far.0));
    assert!(region.entities.contains_key(&low_edge.0));
    assert!(!region.entities.get(&low_edge.0).unwrap().updatable);
    assert!(!region.entities.contains_key(&other_chunk.0));
    assert_eq!(region.entities.len(), 3);
}

#[test]
fn begin_loads_the_sword_with_its_owner() {
    let mut world = World::new();
    let mut storage = Storage::default();
    let sword = add(
        &mut world,
        &mut storage,
        WorldPosition::default(),
        entity_of(EntityKind::Sword, UNIT, 500_000, false),
    );
    let mut player = entity_of(EntityKind::Player, UNIT, 500_000, true);
    player.sword = Some(sword);
    let player = add(&mut world, &mut storage, at_chunk(0, 0, 0, 0), player);
    let lone = add(
        &mut world,
        &mut storage,
        WorldPosition::default(),
        entity_of(EntityKind::Sword, UNIT, 500_000, false),
    );
    let mut region = SimRegion::new(&mut storage, &mut world, at_chunk(0, 0, 0, 0), bounds(5 * UNIT));
    region.begin();
    assert!(region.entities.contains_key(&player.0));
    let loaded = region.entities.get(&sword.0).unwrap();
    assert!(!loaded.spatial);
    assert!(loaded.simming);
    assert_eq!(loaded.p, WorldPosition::invalid_offset());
    assert!(!loaded.updatable);
    assert!(!region.entities.contains_key(&lone.0));
}

#[test]
fn load_entity_builds_the_stored_entity() {
    let mut world = World::new();
    let mut storage = Storage::default();
    let idx = add(
        &mut world,
        &mut storage,
        at_chunk(1, -1, 5, 6),
        entity_of(EntityKind::Monster, UNIT, 500_000, true),
    );
    let region = SimRegion::new(&mut storage, &mut world, at_chunk(0, 0, 1, 1), bounds(5 * UNIT));
    let e = region.load_entity(idx);
    assert_eq!(e.idx, idx);
    assert_eq!(e.kind, EntityKind::Monster);
    assert_eq!(e.p, V2::new(SIDE + 4, -SIDE + 5));
    assert!(e.simming);
    assert!(!e.updatable);
    assert_eq!(region.entities.len(), 0);
}

#[test]
fn update_entities_puts_each_under_its_own_place_and_the_last_wins() {
    let mut world = World::new();
    let mut storage = Storage::default();
    let mut region = SimRegion::new(&mut storage, &mut world, at_chunk(0, 0, 0, 0), bounds(5 * UNIT));
    let mut a = SimEntity::default();
    a.idx = StorageIdx(3);
    a.width = 1;
    let mut b = SimEntity::default();
    b.idx = StorageIdx(5);
    b.width = 2;
    let mut c = SimEntity::default();
    c.idx = StorageIdx(3);
    c.width = 3;
    region.update_entities(vec![a, b, c]);
    assert_eq!(region.entities.len(), 2);
    assert_eq!(region.entities.get(&3).unwrap().width, 3);
    assert_eq!(region.entities.get(&5).unwrap().width, 2);
    let mut d = SimEntity::default();
    d.idx = StorageIdx(5);
    d.width = 4;
    region.update_entities(vec![d]);
    assert_eq!(region.entities.get(&5).unwrap().width, 4);
    assert_eq!(region.entities.get(&3).unwrap().width, 3);
}

#[test]
fn entity_without_a_place_does_not_move() {
    let mut world = World::new();
    let mut storage = Storage::default();
    let region = SimRegion::new(&mut storage, &mut world, at_chunk(0, 0, 0, 0), bounds(5 * UNIT));
    let mut e = entity_of(EntityKind::Sword, UNIT, UNIT, true);
    e.spatial = false;
    e.p = V2::new(7, 8);
    e.dp = V2::new(UNIT, UNIT);
    let moved = region.move_entity(&e, DT, V2::new(UNIT, 0), MoveSpec::player());
    assert_eq!(moved.p, V2::new(7, 8));
    assert_eq!(moved.dp, V2::new(UNIT, UNIT));
    assert_eq!(moved.facing_direction, e.facing_direction);
}

#[test]
fn first_frame_of_a_push_from_rest() {
    let mut world = World::new();
    let mut storage = Storage::default();
    let region = SimRegion::new(&mut storage, &mut world, at_chunk(0, 0, 0, 0), bounds(5 * UNIT));
    let e = entity_of(EntityKind::Player, UNIT, 500_000, true);
    let moved = region.move_entity(&e, DT, V2::new(UNIT, 0), MoveSpec::player());
    assert_eq!(moved.dp, V2::new(833_350, 0));
    assert_eq!(moved.p, V2::new(6_944, 0));
    assert_eq!(moved.facing_direction, Facing::Right);
}

#[test]
fn drag_works_against_the_velocity() {
    let mut world = World::new();
    let mut storage = Storage::default();
    let region = SimRegion::new(&mut storage, &mut world, at_chunk(0, 0, 0, 0), bounds(5 * UNIT));
    let mut e = entity_of(EntityKind::Player, UNIT, 500_000, true);
    e.dp = V2::new(2 * UNIT, 0);
    let moved = region.move_entity(&e, DT, V2::new(0, 0), MoveSpec::player());
    assert_eq!(moved.dp, V2::new(1_733_328, 0));
    assert_eq!(moved.p, V2::new(31_112, 0));
}

#[test]
fn sword_keeps_its_velocity() {
    let mut world = World::new();
    let mut storage = Storage::default();
    let region = SimRegion::new(&mut storage, &mut world, at_chunk(0, 0, 0, 0), bounds(5 * UNIT));
    let mut e = entity_of(EntityKind::Sword, UNIT, 500_000, false);
    e.dp = V2::new(2 * UNIT, 2 * UNIT);
    let moved = region.move_entity(&e, DT, V2::new(0, 0), MoveSpec::sword());
    assert_eq!(moved.dp, V2::new(2 * UNIT, 2 * UNIT));
    assert_eq!(moved.p, V2::new(33_334, 33_334));
}

#[test]
fn acceleration_along_both_axes_is_as_strong_as_along_one() {
    let mut world = World::new();
    let mut storage = Storage::default();
    let region = SimRegion::new(&mut storage, &mut world, at_chunk(0, 0, 0, 0), bounds(5 * UNIT));
    let e = entity_of(EntityKind::Player, UNIT, 500_000, true);
    let along = region.move_entity(&e, DT, V2::new(UNIT, 0), MoveSpec::player());
    let across = region.move_entity(&e, DT, V2::new(UNIT, UNIT), MoveSpec::player());
    assert_eq!(across.dp, V2::new(589_267, 589_267));
    assert_eq!(across.p, V2::new(4_910, 4_910));
    let gain = across.dp.len();
    assert!((gain - along.dp.x()).abs() <= 2);
    let speed = V2::new(35_355_350, 35_355_350).len();
    assert!((speed - 50 * UNIT).abs() <= 100);
}

#[test]
fn acceleration_is_not_cut_where_the_spec_does_not_ask() {
    let mut world = World::new();
    let mut storage = Storage::default();
    let region = SimRegion::new(&mut storage, &mut world, at_chunk(0, 0, 0, 0), bounds(5 * UNIT));
    let e = entity_of(EntityKind::Sword, UNIT, 500_000, false);
    let moved = region.move_entity(&e, UNIT, V2::new(3 * UNIT, 4 * UNIT), MoveSpec::sword());
    assert_eq!(moved.dp, V2::new(3 * UNIT, 4 * UNIT));
    assert_eq!(moved.p, V2::new(1_500_000, 2 * UNIT));
}

#[test]
fn short_acceleration_is_not_stretched() {
    let mut world = World::new();
    let mut storage = Storage::default();
    let region = SimRegion::new(&mut storage, &mut world, at_chunk(0, 0, 0, 0), bounds(5 * UNIT));
    let e = entity_of(EntityKind::Player, UNIT, 500_000, true);
    let moved = region.move_entity(&e, UNIT, V2::new(500_000, 0), MoveSpec::player());
    assert_eq!(moved.dp, V2::new(25 * UNIT, 0));
}

#[test]
fn facing_follows_the_larger_part_of_the_velocity() {
    let mut world = World::new();
    let mut storage = Storage::default();
    let region = SimRegion::new(&mut storage, &mut world, at_chunk(0, 0, 0, 0), bounds(5 * UNIT));
    let mut e = entity_of(EntityKind::Sword, UNIT, 500_000, false);
    let cases = [
        (V2::new(3, 1), Facing::Right),
        (V2::new(-3, 1), Facing::Left),
        (V2::new(1, 3), Facing::Up),
        (V2::new(1, -3), Facing::Down),
        (V2::new(2, 2), Facing::Right),
        (V2::new(-2, -2), Facing::Right),
        (V2::new(-2, 2), Facing::Right),
        (V2::new(i64::MIN, i64::MAX), Facing::Left),
        (V2::new(i64::MAX, i64::MIN), Facing::Down),
        (V2::new(0, 0), Facing::Right),
    ];
    for (dp, facing) in cases {
        e.dp = dp;
        e.facing_direction = Facing::Right;
        let moved = region.move_entity(&e, 0, V2::new(0, 0), MoveSpec::sword());
        assert_eq!(moved.facing_direction, facing);
    }
}

#[test]
fn mover_stops_at_a_wall_and_loses_its_speed_toward_it() {
    let mut world = World::new();
    let mut storage = Storage::default();
    let mut region = SimRegion::new(&mut storage, &mut world, at_chunk(0, 0, 0, 0), bounds(5 * UNIT));
    let mut wall = entity_of(EntityKind::Wall, 2 * UNIT, 2 * UNIT, true);
    wall.idx = StorageIdx(0);
    region.update_entities(vec![wall]);
    let mut e = entity_of(EntityKind::Sword, UNIT, UNIT, true);
    e.idx = StorageIdx(1);
    e.p = V2::new(-3 * UNIT, 0);
    e.dp = V2::new(3 * UNIT, UNIT);
    let moved = region.move_entity(&e, UNIT, V2::new(0, 0), MoveSpec::sword());
    assert_eq!(moved.dp, V2::new(0, UNIT));
    assert_eq!(moved.p, V2::new(-1_503_000, UNIT));
    assert_eq!(moved.facing_direction, Facing::Up);
}

#[test]
fn mover_that_does_not_collide_goes_through() {
    let mut world = World::new();
    let mut storage = Storage::default();
    let mut region = SimRegion::new(&mut storage, &mut world, at_chunk(0, 0, 0, 0), bounds(5 * UNIT));
    let mut wall = entity_of(EntityKind::Wall, 2 * UNIT, 2 * UNIT, true);
    wall.idx = StorageIdx(0);
    region.update_entities(vec![wall]);
    let mut e = entity_of(EntityKind::Sword, UNIT, UNIT, false);
    e.idx = StorageIdx(1);
    e.p = V2::new(-3 * UNIT, 0);
    e.dp = V2::new(6 * UNIT, 0);
    let moved = region.move_entity(&e, UNIT, V2::new(0, 0), MoveSpec::sword());
    assert_eq!(moved.p, V2::new(3 * UNIT, 0));
}

#[test]
fn end_stores_the_entities_and_keeps_the_length_of_the_store() {
    let mut world = World::new();
    let mut storage = Storage::default();
    let a = add(&mut world, &mut storage, at_chunk(0, 0, 0, 0), entity_of(EntityKind::Monster, 1, 1, false));
    let b = add(&mut world, &mut storage, at_chunk(0, 0, UNIT, 0), entity_of(EntityKind::Monster, 1, 1, false));
    let mut region = SimRegion::new(&mut storage, &mut world, at_chunk(0, 0, 0, 0), bounds(5 * UNIT));
    region.begin();
    let mut moved = region.entities.get(&a.0).unwrap().clone();
    moved.p = V2::new(SIDE, -SIDE - 5);
    moved.dp = V2::new(9, 9);
    region.update_entities(vec![moved]);
    let camera = region.end(Some(a));
    assert_eq!(camera, Some(at_chunk(1, -1, 0, -5)));
    assert_eq!(storage.len(), 2);
    assert_eq!(storage.get(a).p, at_chunk(1, -1, 0, -5));
    assert_eq!(storage.get(a).entity.dp, V2::new(9, 9));
    assert!(!storage.get(a).entity.simming);
    assert!(!storage.get(b).entity.simming);
    assert_eq!(storage.get(b).p, at_chunk(0, 0, UNIT, 0));
    assert_eq!(world.chunk(ChunkIdx::new(0, 0, 0)).unwrap().entities(), &[b.0]);
    assert_eq!(world.chunk(ChunkIdx::new(1, -1, 0)).unwrap().entities(), &[a.0]);
}

#[test]
fn end_returns_no_camera_for_an_entity_that_is_not_loaded() {
    let mut world = World::new();
    let mut storage = Storage::default();
    let a = add(&mut world, &mut storage, at_chunk(0, 0, 0, 0), entity_of(EntityKind::Monster, 1, 1, false));
    let far = add(&mut world, &mut storage, at_chunk(9, 9, 0, 0), entity_of(EntityKind::Monster, 1, 1, false));
    let mut region = SimRegion::new(&mut storage, &mut world, at_chunk(0, 0, 0, 0), bounds(5 * UNIT));
    region.begin();
    assert_eq!(region.end(Some(far)), None);
    let mut region = SimRegion::new(&mut storage, &mut world, at_chunk(0, 0, 0, 0), bounds(5 * UNIT));
    region.begin();
    assert_eq!(region.end(None), None);
    let mut region = SimRegion::new(&mut storage, &mut world, at_chunk(0, 0, 0, 0), bounds(5 * UNIT));
    region.begin();
    assert_eq!(region.end(Some(a)), Some(at_chunk(0, 0, 0, 0)));
}

#[test]
fn entity_that_loses_its_place_leaves_its_chunk() {
    let mut world = World::new();
    let mut storage = Storage::default();
    let a = add(&mut world, &mut storage, at_chunk(0, 0, 0, 0), entity_of(EntityKind::Sword, 1, 1, false));
    let mut region = SimRegion::new(&mut storage, &mut world, at_chunk(0, 0, 0, 0), bounds(5 * UNIT));
    region.begin();
    let mut gone = region.entities.get(&a.0).unwrap().clone();
    gone.spatial = false;
    region.update_entities(vec![gone]);
    region.end(None);
    assert_eq!(storage.get(a).p, WorldPosition::default());
    assert!(!storage.get(a).entity.spatial);
    assert_eq!(world.chunk(ChunkIdx::new(0, 0, 0)).unwrap().entities().len(), 0);

    let mut region = SimRegion::new(&mut storage, &mut world, at_chunk(0, 0, 0, 0), bounds(5 * UNIT));
    region.begin();
    assert_eq!(region.entities.len(), 0);
    let mut back = storage_entity(&region, a);
    back.spatial = true;
    back.p = V2::new(UNIT, UNIT);
    region.update_entities(vec![back]);
    region.end(None);
    assert_eq!(storage.get(a).p, at_chunk(0, 0, UNIT, UNIT));
    assert_eq!(world.chunk(ChunkIdx::new(0, 0, 0)).unwrap().entities(), &[a.0]);
}

fn storage_entity(region: &SimRegion, idx: StorageIdx) -> SimEntity {
    region.load_entity(idx)
}

#[test]
fn can_end_tells_what_end_asks() {
    let mut world = World::new();
    let mut storage = Storage::default();
    let a = add(&mut world, &mut storage, at_chunk(i32::MAX - 1, 0, 0, 0), entity_of(EntityKind::Monster, 1, 1, false));
    let origin = at_chunk(i32::MAX - 1, 0, 0, 0);
    let mut region = SimRegion::new(&mut storage, &mut world, origin, bounds(5 * UNIT));
    region.begin();
    assert!(region.can_end());
    let mut moved = region.entities.get(&a.0).unwrap().clone();
    moved.p = V2::new(2 * SIDE, 0);
    region.update_entities(vec![moved]);
    assert!(!region.can_end());
    let mut idle = region.entities.get(&a.0).unwrap().clone();
    idle.p = V2::new(0, 0);
    idle.simming = false;
    region.update_entities(vec![idle]);
    assert!(!region.can_end());
}

#[test]
fn loading_and_storing_without_a_move_changes_no_position() {
    let mut world = World::new();
    let mut storage = Storage::default();
    let places = [
        at_chunk(0, 0, 0, 0),
        at_chunk(0, 0, 11_199_999, -11_199_999),
        at_chunk(1, 0, -11_199_999, 5),
        at_chunk(-1, -1, 3_000_000, 7_000_000),
        at_chunk(2, 1, 1, 1),
        at_chunk(0, -2, -9_999_999, 10_000_000),
    ];
    for p in places {
        add(&mut world, &mut storage, p, entity_of(EntityKind::Monster, UNIT, UNIT, true));
    }
    let hidden = add(
        &mut world,
        &mut storage,
        WorldPosition::default(),
        entity_of(EntityKind::Sword, UNIT, UNIT, false),
    );
    let origin = at_chunk(0, 0, 4_000_000, -3_000_000);
    let mut region = SimRegion::new(&mut storage, &mut world, origin, bounds(100 * UNIT));
    region.begin();
    assert_eq!(region.entities.len(), places.len());
    assert!(region.can_end());
    region.end(None);
    assert_eq!(storage.len(), places.len() + 1);
    for (i, p) in places.iter().enumerate() {
        assert_eq!(storage.get(StorageIdx(i)).p, *p);
        assert!(world.chunk(p.abs).unwrap().entities().contains(&i));
    }
    assert_eq!(storage.get(hidden).p, WorldPosition::default());
}

#[test]
fn player_pushed_against_a_wall_comes_to_rest_at_its_edge() {
    let (mut world, mut storage) = wall_and_player(-750_000);
    let reach = 1_200_000;
    let mut last = V2::new(0, 0);
    for frame in 0..200 {
        let player = push_right(&mut world, &mut storage);
        assert!(player.p.x().abs() <= reach + 1_000);
        assert_eq!(player.p.y(), 0);
        if frame >= 100 {
            assert_eq!(player.p, last);
            assert_eq!(player.dp, V2::new(0, 0));
        }
        last = player.p;
    }
    assert_eq!(last, V2::new(1_199_993, 0));
    assert_eq!(storage.len(), 2);
    assert_eq!(storage.get(StorageIdx(1)).p, at_chunk(0, 0, 1_199_993, 0));
    assert_eq!(storage.get(StorageIdx(0)).p, at_chunk(0, 0, 0, 0));
}

#[test]
fn player_that_starts_outside_a_wall_never_enters_it() {
    let (mut world, mut storage) = wall_and_player(-2 * UNIT);
    let reach = 1_200_000;
    let mut last = V2::new(0, 0);
    for frame in 0..200 {
        let player = push_right(&mut world, &mut storage);
        assert!(player.p.x() <= -reach);
        if frame >= 100 {
            assert_eq!(player.p, last);
            assert_eq!(player.dp, V2::new(0, 0));
        }
        last = player.p;
    }
    assert_eq!(last, V2::new(-1_200_007, 0));
}

#[test]
fn mover_toward_a_box_stops_outside_at_any_speed() {
    for speed in [1i64, 1_000, 999_999, UNIT, 3 * UNIT, 1_000 * UNIT, i64::MAX / 4] {
        for (start, way) in [
            (V2::new(-5 * UNIT, 0), V2::new(speed, 0)),
            (V2::new(5 * UNIT, 300_000), V2::new(-speed, 0)),
            (V2::new(200_000, -5 * UNIT), V2::new(0, speed)),
            (V2::new(0, 5 * UNIT), V2::new(0, -speed)),
        ] {
            let mut world = World::new();
            let mut storage = Storage::default();
            let mut region =
                SimRegion::new(&mut storage, &mut world, at_chunk(0, 0, 0, 0), bounds(5 * UNIT));
            let mut wall = entity_of(EntityKind::Wall, 2 * UNIT, UNIT, true);
            wall.idx = StorageIdx(0);
            region.update_entities(vec![wall]);
            let mut e = entity_of(EntityKind::Sword, UNIT, UNIT, true);
            e.idx = StorageIdx(1);
            e.p = start;
            e.dp = way;
            let moved = region.move_entity(&e, UNIT, V2::new(0, 0), MoveSpec::sword());
            let outside_x = moved.p.x().abs() >= 1_500_000;
            let outside_y = moved.p.y().abs() >= UNIT;
            assert!(outside_x || outside_y);
        }
    }
}
