use game::collision::{hit_entity, test_wall, Hit, NEG_UNIT, WALL_EPSILON};
use game::entity::{SimEntity, StorageIdx};
use game::fixed::UNIT;
use game::math::V2;

fn box_at(idx: usize, x: i64, y: i64, width: i64, height: i64) -> SimEntity {
    let mut e = SimEntity::default();
    e.idx = StorageIdx(idx);
    e.p = V2::new(x, y);
    e.width = width;
    e.height = height;
    e.collides = true;
    e.spatial = true;
    e
}

fn free() -> Hit {
    Hit { t_min: UNIT, normal: V2::new(0, 0), found: false }
}

#[test]
fn wall_in_the_middle_of_the_way_is_hit_at_half_the_time() {
    let mut t_min = UNIT;
    let hit = test_wall(
        &mut t_min,
        UNIT,
        V2::new(0, 0),
        V2::new(2 * UNIT, 0),
        V2::new(-UNIT, UNIT),
    );
    assert!(hit);
    assert_eq!(t_min, 500_000 - WALL_EPSILON);
}

#[test]
fn way_without_a_part_toward_the_wall_hits_nothing() {
    let mut t_min = UNIT;
    let hit = test_wall(
        &mut t_min,
        UNIT,
        V2::new(0, 0),
        V2::new(0, 5 * UNIT),
        V2::new(-UNIT, UNIT),
    );
    assert!(!hit);
    assert_eq!(t_min, UNIT);
}

#[test]
fn wall_behind_the_start_is_not_hit() {
    let mut t_min = UNIT;
    assert!(!test_wall(
        &mut t_min,
        -UNIT,
        V2::new(0, 0),
        V2::new(2 * UNIT, 0),
        V2::new(-UNIT, UNIT)
    ));
    assert_eq!(t_min, UNIT);
}

#[test]
fn wall_beyond_the_end_of_the_way_is_not_hit() {
    let mut t_min = UNIT;
    assert!(!test_wall(
        &mut t_min,
        3 * UNIT,
        V2::new(0, 0),
        V2::new(2 * UNIT, 0),
        V2::new(-UNIT, UNIT)
    ));
    assert!(!test_wall(
        &mut t_min,
        2 * UNIT,
        V2::new(0, 0),
        V2::new(2 * UNIT, 0),
        V2::new(-UNIT, UNIT)
    ));
    assert_eq!(t_min, UNIT);
}

#[test]
fn crossing_outside_the_span_of_the_wall_is_no_hit() {
    let mut t_min = UNIT;
    assert!(!test_wall(
        &mut t_min,
        UNIT,
        V2::new(0, 0),
        V2::new(2 * UNIT, 4 * UNIT),
        V2::new(-UNIT, UNIT)
    ));
    assert!(test_wall(
        &mut t_min,
        UNIT,
        V2::new(0, 0),
        V2::new(2 * UNIT, 2 * UNIT),
        V2::new(-UNIT, UNIT)
    ));
    assert_eq!(t_min, 499_000);
}

#[test]
fn crossing_later_than_the_earliest_so_far_is_no_hit() {
    let mut t_min = 400_000;
    assert!(!test_wall(
        &mut t_min,
        UNIT,
        V2::new(0, 0),
        V2::new(2 * UNIT, 0),
        V2::new(-UNIT, UNIT)
    ));
    assert_eq!(t_min, 400_000);
}

#[test]
fn time_of_impact_is_not_below_zero() {
    let mut t_min = UNIT;
    assert!(test_wall(
        &mut t_min,
        100,
        V2::new(0, 0),
        V2::new(2 * UNIT, 0),
        V2::new(-UNIT, UNIT)
    ));
    assert_eq!(t_min, 0);
}

#[test]
fn going_down_to_a_wall() {
    let mut t_min = UNIT;
    assert!(test_wall(
        &mut t_min,
        -UNIT,
        V2::new(0, 0),
        V2::new(-4 * UNIT, 0),
        V2::new(0, 0)
    ));
    assert_eq!(t_min, 250_000 - WALL_EPSILON);
}

#[test]
fn box_is_hit_on_the_edge_that_faces_the_mover() {
    let other = box_at(0, 0, 0, 2 * UNIT, 2 * UNIT);
    let from_left = box_at(1, -3 * UNIT, 0, UNIT, UNIT);
    let h = hit_entity(free(), &from_left, &other, V2::new(3 * UNIT, 0));
    assert!(h.found);
    assert_eq!(h.normal, V2::new(NEG_UNIT, 0));
    assert_eq!(h.t_min, 500_000 - WALL_EPSILON);

    let from_right = box_at(1, 3 * UNIT, 0, UNIT, UNIT);
    let h = hit_entity(free(), &from_right, &other, V2::new(-3 * UNIT, 0));
    assert_eq!((h.found, h.normal, h.t_min), (true, V2::new(UNIT, 0), 499_000));

    let from_below = box_at(1, 0, -3 * UNIT, UNIT, UNIT);
    let h = hit_entity(free(), &from_below, &other, V2::new(0, 3 * UNIT));
    assert_eq!((h.found, h.normal, h.t_min), (true, V2::new(0, NEG_UNIT), 499_000));

    let from_above = box_at(1, 0, 3 * UNIT, UNIT, UNIT);
    let h = hit_entity(free(), &from_above, &other, V2::new(0, -3 * UNIT));
    assert_eq!((h.found, h.normal, h.t_min), (true, V2::new(0, UNIT), 499_000));
}

#[test]
fn entity_that_does_not_collide_is_not_hit() {
    let mover = box_at(1, -3 * UNIT, 0, UNIT, UNIT);
    let mut ghost = box_at(0, 0, 0, 2 * UNIT, 2 * UNIT);
    ghost.collides = false;
    assert_eq!(hit_entity(free(), &mover, &ghost, V2::new(3 * UNIT, 0)), free());
    let mut nowhere = box_at(0, 0, 0, 2 * UNIT, 2 * UNIT);
    nowhere.spatial = false;
    assert_eq!(hit_entity(free(), &mover, &nowhere, V2::new(3 * UNIT, 0)), free());
}

#[test]
fn mover_does_not_hit_itself() {
    let mover = box_at(1, 0, 0, UNIT, UNIT);
    let same = box_at(1, UNIT, 0, UNIT, UNIT);
    assert_eq!(hit_entity(free(), &mover, &same, V2::new(3 * UNIT, 0)), free());
}

#[test]
fn mover_that_passes_by_is_not_hit() {
    let other = box_at(0, 0, 0, 2 * UNIT, 2 * UNIT);
    let mover = box_at(1, -3 * UNIT, 2 * UNIT, UNIT, UNIT);
    assert_eq!(hit_entity(free(), &mover, &other, V2::new(6 * UNIT, 0)), free());
}
