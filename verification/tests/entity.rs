use game::entity::{
    EntityKind, Facing, HitPoint, LowEntity, MoveSpec, SimEntity, Storage, StorageIdx,
    HIT_POINT_SUB_COUNT,
};
use game::fixed::UNIT;
use game::math::V2;
use game::world::{ChunkIdx, WorldPosition};

fn low(width: i64) -> LowEntity {
    let mut entity = SimEntity::default();
    entity.width = width;
    LowEntity { p: WorldPosition::origin(), entity }
}

#[test]
fn move_specs() {
    let player = MoveSpec::player();
    assert!(player.unit_max_accel_vector);
    assert_eq!(player.speed, 50 * UNIT);
    assert_eq!(player.drag, 8 * UNIT);
    let sword = MoveSpec::sword();
    assert!(!sword.unit_max_accel_vector);
    assert_eq!(sword.speed, UNIT);
    assert_eq!(sword.drag, 0);
    assert_eq!(MoveSpec::default(), sword);
}

#[test]
fn full_hit_point() {
    let hp = HitPoint::full();
    assert_eq!(hp.flags, 0);
    assert_eq!(hp.filled, HIT_POINT_SUB_COUNT);
    assert_eq!(hp.filled, 4);
}

#[test]
fn facings_have_the_places_of_the_pictures() {
    assert_eq!(Facing::Left.index(), 0);
    assert_eq!(Facing::Right.index(), 1);
    assert_eq!(Facing::Down.index(), 2);
    assert_eq!(Facing::Up.index(), 3);
    assert_eq!(Facing::default(), Facing::Left);
}

#[test]
fn default_entity_is_a_wall_of_no_size() {
    let e = SimEntity::default();
    assert_eq!(e.idx, StorageIdx(0));
    assert_eq!(e.kind, EntityKind::Wall);
    assert_eq!(EntityKind::default(), EntityKind::Wall);
    assert!(!e.spatial && !e.collides && !e.simming && !e.updatable);
    assert_eq!(e.p, V2::new(0, 0));
    assert_eq!(e.dp, V2::new(0, 0));
    assert_eq!(e.width, 0);
    assert_eq!(e.height, 0);
    assert_eq!(e.sword, None);
    assert_eq!(e.hit_points.len(), 0);
    assert_eq!(e.facing_direction, Facing::Left);
}

#[test]
fn clone_of_an_entity_holds_the_same() {
    let mut e = SimEntity::default();
    e.kind = EntityKind::Player;
    e.p = V2::new(3, 4);
    e.hit_points.push(HitPoint::full());
    e.sword = Some(StorageIdx(9));
    e.t_bob = 77;
    let c = e.clone();
    assert_eq!(c.kind, EntityKind::Player);
    assert_eq!(c.p, V2::new(3, 4));
    assert_eq!(c.hit_points, vec![HitPoint::full()]);
    assert_eq!(c.sword, Some(StorageIdx(9)));
    assert_eq!(c.t_bob, 77);
}

#[test]
fn store_gives_each_entity_the_next_place() {
    let mut storage = Storage::default();
    assert_eq!(storage.len(), 0);
    let a = storage.push(low(10));
    let b = storage.push(low(20));
    let c = storage.push(low(30));
    assert_eq!((a, b, c), (StorageIdx(0), StorageIdx(1), StorageIdx(2)));
    assert_eq!(storage.len(), 3);
    assert_eq!(storage.get(b).entity.width, 20);
    assert_eq!(storage.get(b).entity.idx, b);
    assert_eq!(storage.get(c).entity.idx, c);
}

#[test]
fn store_overwrites_the_place_it_is_given() {
    let mut storage = Storage::default();
    storage.push(low(10));
    let b = storage.push(low(20));
    let mut changed = low(99);
    changed.p = WorldPosition { abs: ChunkIdx::new(1, 2, 3), offset: V2::new(4, 5) };
    storage.update(b, changed);
    assert_eq!(storage.len(), 2);
    assert_eq!(storage.get(b).entity.width, 99);
    assert_eq!(storage.get(b).p.abs, ChunkIdx::new(1, 2, 3));
    assert_eq!(storage.get(StorageIdx(0)).entity.width, 10);
}

#[test]
fn clone_of_a_store_holds_the_same() {
    let mut storage = Storage::default();
    storage.push(low(10));
    storage.push(low(20));
    let copy = storage.clone();
    assert_eq!(copy.len(), 2);
    assert_eq!(copy.get(StorageIdx(1)).entity.width, 20);
}
