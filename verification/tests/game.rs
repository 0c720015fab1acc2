use game::entity::{EntityKind, Facing, HitPoint, MoveSpec, SimEntity, StorageIdx};
use game::fixed::UNIT;
use game::game::{camera_bounds, GameState};
use game::pieces::{
    draw_piece, entity_pieces, ground_point, load_hero, meters_to_pixels, EntityVisiblePiece,
    HeroBitmaps, PieceKind,
};
use game::update::{
    player_acceleration, update_all, update_familiar, update_sword, visible_entities,
    SWORD_RANGE, SWORD_SPEED, TWO_PI,
};
use game::host_api::{Bitmap, Input, InputState};
use game::math::V2;
use game::region::SimRegion;
use game::render::Color;
use game::world::{ChunkIdx, WorldPosition};

const DT: i64 = 16_667;

fn bitmap(width: usize) -> Bitmap {
    Bitmap { align_x: 0, align_y: 0, width, height: 0, pixels: vec![] }
}

fn hero(n: usize) -> HeroBitmaps {
    HeroBitmaps { head: bitmap(n), cape: bitmap(n + 10), torso: bitmap(n + 20) }
}

fn new_game() -> GameState {
    GameState::new(bitmap(1), bitmap(2), bitmap(3), vec![hero(0), hero(1), hero(2), hero(3)])
}

fn keys(up: bool, down: bool, left: bool, right: bool, sword: bool) -> Input {
    let new = InputState { up, down, left, right, sword };
    Input { old: InputState::default(), new, time_per_frame: DT }
}

#[test]
fn keys_give_the_acceleration() {
    let none = InputState::default();
    assert_eq!(player_acceleration(&none), V2::new(0, 0));
    assert_eq!(player_acceleration(&keys(true, false, false, true, false).new), V2::new(UNIT, UNIT));
    assert_eq!(
        player_acceleration(&keys(false, true, true, false, false).new),
        V2::new(-UNIT, -UNIT)
    );
    assert_eq!(player_acceleration(&keys(true, true, true, true, true).new), V2::new(0, 0));
}

#[test]
fn camera_sees_three_screens() {
    let b = camera_bounds(1_400_000);
    assert_eq!(b.min(), V2::new(-35_700_000, -18_900_000));
    assert_eq!(b.max(), V2::new(35_700_000, 18_900_000));
}

#[test]
fn new_game_has_the_player_a_monster_a_familiar_and_the_walls() {
    let state = new_game();
    assert_eq!(state.storage.len(), 400);
    assert_eq!(state.entity_focused_by_camera, Some(StorageIdx(1)));
    assert_eq!(state.camera, state.world.initial_camera());
    let sword = state.storage.get(StorageIdx(0));
    assert_eq!(sword.entity.kind, EntityKind::Sword);
    assert!(!sword.entity.spatial);
    assert_eq!(sword.p, WorldPosition::default());
    let player = state.storage.get(StorageIdx(1));
    assert_eq!(player.entity.kind, EntityKind::Player);
    assert_eq!(player.entity.sword, Some(StorageIdx(0)));
    assert_eq!(player.entity.hit_points, vec![HitPoint::full(); 3]);
    assert_eq!(player.entity.width, UNIT);
    assert_eq!(player.entity.height, 500_000);
    assert!(player.entity.collides && player.entity.spatial);
    assert_eq!(player.p, state.world.initial_player());
    let monster = state.storage.get(StorageIdx(2));
    assert_eq!(monster.entity.kind, EntityKind::Monster);
    assert_eq!(monster.p, state.world.initial_monster());
    let familiar = state.storage.get(StorageIdx(3));
    assert_eq!(familiar.entity.kind, EntityKind::Familiar);
    assert!(!familiar.entity.collides);
    assert_eq!(familiar.p, state.world.initial_camera());
    for i in 0..396 {
        let wall = state.storage.get(StorageIdx(4 + i));
        let tile = state.world.walls[i];
        assert_eq!(wall.entity.kind, EntityKind::Wall);
        assert_eq!(wall.entity.idx, StorageIdx(4 + i));
        assert_eq!(wall.entity.width, 1_400_000);
        assert_eq!(wall.entity.height, 1_400_000);
        assert!(wall.entity.collides && wall.entity.spatial);
        assert_eq!(wall.p, state.world.position_at_tile(tile.0, tile.1, tile.2));
    }
}

#[test]
fn new_game_has_a_black_buffer_and_aligned_pictures() {
    let state = new_game();
    assert_eq!(state.offscreen_buffer.width, 960);
    assert_eq!(state.offscreen_buffer.height, 540);
    assert_eq!(state.offscreen_buffer.bytes_per_pixel, 4);
    assert_eq!(state.offscreen_buffer.buffer.len(), 960 * 540 * 4);
    assert!(state.offscreen_buffer.buffer.iter().all(|b| *b == 0));
    assert_eq!((state.shadow.align_x, state.shadow.align_y), (72, 182));
    assert_eq!((state.tree.align_x, state.tree.align_y), (40, 80));
    assert_eq!((state.backdrop.align_x, state.backdrop.align_y), (0, 0));
    assert_eq!(state.shadow.width, 2);
    assert_eq!(state.hero_bitmaps.len(), 4);
}

#[test]
fn every_stored_entity_is_in_the_chunk_of_its_position() {
    let state = new_game();
    let mut held = 0;
    for i in 0..state.storage.len() {
        let low = state.storage.get(StorageIdx(i));
        if low.p.is_valid() {
            let chunk = state.world.chunk(low.p.abs).unwrap();
            assert_eq!(chunk.entities().iter().filter(|e| **e == i).count(), 1);
            held += 1;
        }
    }
    assert_eq!(held, 399);
    let mut listed = 0;
    for x in -1..4 {
        for y in -1..3 {
            if let Some(chunk) = state.world.chunk(ChunkIdx::new(x, y, 0)) {
                listed += chunk.entities().len();
            }
        }
    }
    assert_eq!(listed, 399);
}

#[test]
fn start_sets_the_game_up_again() {
    let mut state = new_game();
    let input = keys(false, false, false, true, true);
    for _ in 0..20 {
        assert!(state.simulate(&input).is_some());
    }
    let fresh = new_game();
    assert_ne!(state.storage.get(StorageIdx(1)).p, fresh.storage.get(StorageIdx(1)).p);
    state.start();
    assert_eq!(state.storage.len(), 400);
    assert_eq!(state.camera, fresh.camera);
    for i in 0..400 {
        assert_eq!(state.storage.get(StorageIdx(i)).p, fresh.storage.get(StorageIdx(i)).p);
        assert_eq!(
            state.storage.get(StorageIdx(i)).entity.dp,
            fresh.storage.get(StorageIdx(i)).entity.dp
        );
    }
}

#[test]
fn frame_without_keys_moves_nothing_and_keeps_the_store() {
    let mut state = new_game();
    let before: Vec<WorldPosition> =
        (0..state.storage.len()).map(|i| state.storage.get(StorageIdx(i)).p).collect();
    let shown = state.simulate(&keys(false, false, false, false, false)).unwrap();
    assert_eq!(state.storage.len(), before.len());
    for (i, p) in before.iter().enumerate() {
        let low = state.storage.get(StorageIdx(i));
        assert!(!low.entity.simming);
        if i != 1 {
            assert_eq!(low.p, *p);
        }
    }
    let player = state.storage.get(StorageIdx(1)).p;
    assert_eq!(state.world.substract(player, before[1]).xy, V2::new(0, 0));
    assert_eq!(state.camera, player);
    assert!(shown.iter().all(|e| e.updatable && e.simming));
    assert!(shown.iter().any(|e| e.kind == EntityKind::Player));
    assert!(shown.windows(2).all(|w| w[0].idx < w[1].idx));
}

#[test]
fn key_to_the_right_moves_the_player_and_the_camera() {
    let mut state = new_game();
    let start = state.storage.get(StorageIdx(1)).p;
    let input = keys(false, false, false, true, false);
    state.simulate(&input).unwrap();
    let after = state.storage.get(StorageIdx(1));
    assert_eq!(state.world.substract(after.p, start).xy, V2::new(6_944, 0));
    assert_eq!(after.entity.dp, V2::new(833_350, 0));
    assert_eq!(state.camera, after.p);
    state.simulate(&input).unwrap();
    let after = state.storage.get(StorageIdx(1));
    assert_eq!(state.world.substract(after.p, start).xy, V2::new(26_851, 0));
    assert_eq!(after.entity.dp, V2::new(1_555_584, 0));
    assert_eq!(state.storage.len(), 400);
}

#[test]
fn sword_key_throws_the_sword_from_the_player() {
    let mut state = new_game();
    let player = state.storage.get(StorageIdx(1)).p;
    state.simulate(&keys(false, false, false, false, true)).unwrap();
    let sword = state.storage.get(StorageIdx(0));
    assert!(sword.entity.spatial);
    assert_eq!(state.world.substract(sword.p, player).xy, V2::new(0, 0));
    assert_eq!(sword.entity.dp, V2::new(SWORD_SPEED, SWORD_SPEED));
    assert_eq!(sword.entity.distance_remaining, SWORD_RANGE);
    assert!(state.world.chunk(sword.p.abs).unwrap().entities().contains(&0));

    let none = keys(false, false, false, false, false);
    state.simulate(&none).unwrap();
    let sword = state.storage.get(StorageIdx(0));
    assert_eq!(state.world.substract(sword.p, player).xy, V2::new(33_334, 33_334));
    assert_eq!(sword.entity.distance_remaining, SWORD_RANGE - 47_138);

    let mut frames = 1;
    while state.storage.get(StorageIdx(0)).entity.spatial {
        state.simulate(&none).unwrap();
        frames += 1;
        assert!(frames < 1_000);
    }
    let sword = state.storage.get(StorageIdx(0));
    assert_eq!(frames, 107);
    assert_eq!(sword.p, WorldPosition::default());
    assert!(sword.entity.distance_remaining < 0);
    for x in -1..4 {
        for y in -1..3 {
            if let Some(chunk) = state.world.chunk(ChunkIdx::new(x, y, 0)) {
                assert!(!chunk.entities().contains(&0));
            }
        }
    }
    assert_eq!(state.storage.len(), 400);
}

#[test]
fn frame_that_cannot_run_changes_nothing() {
    let mut state = new_game();
    state.camera = WorldPosition { abs: ChunkIdx::new(i32::MAX - 1, 0, 0), offset: V2::new(0, 0) };
    let before = state.storage.get(StorageIdx(1)).p;
    assert!(state.simulate(&keys(false, false, false, true, false)).is_none());
    assert_eq!(state.storage.get(StorageIdx(1)).p, before);
    assert_eq!(state.storage.get(StorageIdx(1)).entity.dp, V2::new(0, 0));
    assert_eq!(state.camera.abs, ChunkIdx::new(i32::MAX - 1, 0, 0));
    assert_eq!(state.storage.len(), 400);
}

#[test]
fn sword_flies_until_its_range_is_used_up() {
    let mut state = new_game();
    let origin = state.camera;
    let bounds = camera_bounds(state.world.tile_side);
    let region = SimRegion::new(&mut state.storage, &mut state.world, origin, bounds);
    let mut sword = SimEntity::default();
    sword.kind = EntityKind::Sword;
    sword.spatial = true;
    sword.dp = V2::new(3 * UNIT, 4 * UNIT);
    sword.distance_remaining = 6 * UNIT;
    let flown = update_sword(&region, &sword, UNIT, V2::new(0, 0));
    assert!(flown.spatial);
    assert_eq!(flown.p, V2::new(3 * UNIT, 4 * UNIT));
    assert_eq!(flown.distance_remaining, UNIT);
    let spent = update_sword(&region, &flown, UNIT, V2::new(0, 0));
    assert!(!spent.spatial);
    assert_eq!(spent.p, WorldPosition::invalid_offset());
    assert_eq!(spent.distance_remaining, -4 * UNIT);
    let still = update_sword(&region, &spent, UNIT, V2::new(0, 0));
    assert!(!still.spatial);
    assert_eq!(still.distance_remaining, -4 * UNIT);
}

#[test]
fn familiar_bobs_and_goes_to_a_player_in_sight() {
    let mut state = new_game();
    let origin = state.camera;
    let bounds = camera_bounds(state.world.tile_side);
    let mut region = SimRegion::new(&mut state.storage, &mut state.world, origin, bounds);
    let mut familiar = SimEntity::default();
    familiar.kind = EntityKind::Familiar;
    familiar.idx = StorageIdx(3);
    familiar.spatial = true;
    familiar.t_bob = TWO_PI - 10;
    let alone = update_familiar(&region, &familiar, DT);
    assert_eq!(alone.t_bob, DT - 10);
    assert_eq!(alone.p, V2::new(0, 0));
    assert_eq!(alone.dp, V2::new(0, 0));

    let mut player = SimEntity::default();
    player.kind = EntityKind::Player;
    player.idx = StorageIdx(1);
    player.spatial = true;
    player.p = V2::new(3 * UNIT, 0);
    region.update_entities(vec![player.clone()]);
    familiar.t_bob = 5;
    let drawn = update_familiar(&region, &familiar, DT);
    assert_eq!(drawn.t_bob, 5 + DT);
    assert_eq!(drawn.dp, V2::new(125_002, 0));
    assert_eq!(drawn.p, V2::new(1_041, 0));

    player.p = V2::new(UNIT, UNIT);
    region.update_entities(vec![player.clone()]);
    let near = update_familiar(&region, &familiar, DT);
    assert_eq!(near.dp, V2::new(0, 0));
    player.p = V2::new(10 * UNIT, 0);
    region.update_entities(vec![player]);
    let far = update_familiar(&region, &familiar, DT);
    assert_eq!(far.dp, V2::new(0, 0));
}

#[test]
fn update_pass_moves_what_is_updated_in_the_order_of_the_store() {
    let mut state = new_game();
    let origin = state.camera;
    let bounds = camera_bounds(state.world.tile_side);
    let mut region = SimRegion::new(&mut state.storage, &mut state.world, origin, bounds);
    region.begin();
    let shown = visible_entities(&region);
    let updates = update_all(&region, &keys(false, false, false, true, true));
    let kinds: Vec<EntityKind> = updates.iter().map(|e| e.kind).collect();
    assert_eq!(kinds, vec![EntityKind::Sword, EntityKind::Player, EntityKind::Familiar]);
    assert_eq!(updates[0].idx, StorageIdx(0));
    assert!(updates[0].spatial);
    assert_eq!(updates[0].distance_remaining, SWORD_RANGE);
    assert_eq!(updates[1].idx, StorageIdx(1));
    assert_eq!(updates[1].dp, V2::new(833_350, 0));
    assert_eq!(updates[2].idx, StorageIdx(3));
    assert!(shown.iter().all(|e| e.updatable));
    assert_eq!(
        shown.len(),
        region.entities.values().filter(|e| e.updatable).count()
    );
    let moved = region.move_entity(&shown[0], DT, V2::new(0, 0), MoveSpec::default());
    assert_eq!(moved.idx, shown[0].idx);
}

#[test]
fn pieces_of_each_kind() {
    let state = new_game();
    let mut e = SimEntity::default();
    e.facing_direction = Facing::Down;
    e.width = 2 * UNIT;
    e.height = UNIT;

    let hero = &state.hero_bitmaps[2];
    e.kind = EntityKind::Monster;
    let pieces = entity_pieces(&state.shadow, &state.tree, hero, &e);
    assert_eq!(pieces.len(), 1);
    assert!(is_bitmap(&pieces[0], 22));

    e.kind = EntityKind::Sword;
    let pieces = entity_pieces(&state.shadow, &state.tree, hero, &e);
    assert_eq!(pieces.len(), 1);
    assert!(is_bitmap(&pieces[0], 2));
    assert_eq!(pieces[0].offset, V2::new(72 * UNIT, 182 * UNIT));

    e.kind = EntityKind::Wall;
    let pieces = entity_pieces(&state.shadow, &state.tree, hero, &e);
    assert_eq!(pieces.len(), 2);
    assert!(is_rect(&pieces[0], Color::magenta(), V2::new(2 * UNIT, UNIT)));
    assert_eq!(pieces[0].offset, V2::new(UNIT, 500_000));
    assert!(is_bitmap(&pieces[1], 3));
    assert_eq!(pieces[1].offset, V2::new(40 * UNIT, 80 * UNIT));

    e.kind = EntityKind::Familiar;
    e.t_bob = 1_234;
    let pieces = entity_pieces(&state.shadow, &state.tree, hero, &e);
    assert_eq!(pieces.len(), 2);
    assert!(is_bitmap(&pieces[0], 2));
    assert!(is_bitmap(&pieces[1], 2));
    assert_eq!(pieces[0]._offset_z, UNIT);
    assert_eq!(pieces[1]._offset_z, 1_234);

    e.kind = EntityKind::Player;
    e.hit_points = vec![HitPoint::full(); 3];
    let pieces = entity_pieces(&state.shadow, &state.tree, hero, &e);
    assert_eq!(pieces.len(), 8);
    assert!(is_rect(&pieces[0], Color::magenta(), V2::new(2 * UNIT, UNIT)));
    assert!(is_bitmap(&pieces[1], 2));
    assert!(is_bitmap(&pieces[2], 22));
    assert!(is_bitmap(&pieces[3], 12));
    assert!(is_bitmap(&pieces[4], 2));
    for (i, x) in [-300_000i64, 0, 300_000].iter().enumerate() {
        let p = &pieces[5 + i];
        assert!(is_rect(p, Color::red(), V2::new(200_000, 200_000)));
        assert_eq!(p.offset, V2::new(*x, -250_000));
        assert_eq!(p.alpha, UNIT);
        assert_eq!(p._offset_z, 0);
    }
    e.hit_points = vec![];
    assert_eq!(entity_pieces(&state.shadow, &state.tree, hero, &e).len(), 5);
}

fn is_bitmap(piece: &EntityVisiblePiece, width: usize) -> bool {
    match piece.kind {
        PieceKind::Bitmap(b) => b.width == width && piece.alpha == UNIT,
        PieceKind::Rect(_, _) => false,
    }
}

fn is_rect(piece: &EntityVisiblePiece, color: Color, size: V2) -> bool {
    match piece.kind {
        PieceKind::Bitmap(_) => false,
        PieceKind::Rect(c, s) => c == color && s == size,
    }
}

#[test]
fn constructors_of_pieces() {
    let b = Bitmap { align_x: 3, align_y: 4, width: 9, height: 0, pixels: vec![] };
    let p = EntityVisiblePiece::new_bitmap(&b, 7, 8);
    assert!(matches!(p.kind, PieceKind::Bitmap(x) if x.width == 9));
    assert_eq!((p.offset, p.alpha, p._offset_z), (V2::new(3 * UNIT, 4 * UNIT), 7, 8));
    let r = EntityVisiblePiece::new_rect(Color::red(), V2::new(1, 2), V2::new(3, 4), 5, 6);
    assert!(matches!(r.kind, PieceKind::Rect(c, s) if c == Color::red() && s == V2::new(1, 2)));
    assert_eq!((r.offset, r.alpha, r._offset_z), (V2::new(3, 4), 5, 6));
}

#[test]
fn hero_pictures_get_their_point() {
    let loaded = load_hero(vec![hero(1), hero(2), hero(3), hero(4)]);
    assert_eq!(loaded.len(), 4);
    for (i, h) in loaded.iter().enumerate() {
        for b in [&h.head, &h.cape, &h.torso] {
            assert_eq!((b.align_x, b.align_y), (72, 182));
        }
        assert_eq!(h.head.width, i + 1);
        assert_eq!(h.cape.width, i + 11);
        assert_eq!(h.torso.width, i + 21);
    }
    assert_eq!(load_hero(vec![]).len(), 0);
}

#[test]
fn a_tile_is_sixty_pixels_wide() {
    assert_eq!(meters_to_pixels(1_400_000), 42_857_142);
    assert_eq!(meters_to_pixels(60 * UNIT), UNIT);
}

#[test]
fn ground_point_is_taken_from_the_middle_of_the_screen() {
    let scale = 10 * UNIT;
    assert_eq!(ground_point(960, 540, scale, V2::new(0, 0), 0), V2::new(480 * UNIT, 270 * UNIT));
    assert_eq!(
        ground_point(960, 540, scale, V2::new(2 * UNIT, 3 * UNIT), 500_000),
        V2::new(500 * UNIT, 235 * UNIT)
    );
    assert_eq!(ground_point(5, 3, scale, V2::new(-UNIT, -UNIT), 0), V2::new(-7_500_000, 11_500_000));
}

#[test]
fn pieces_are_drawn_around_the_ground_point() {
    let mut buffer = game::render::OffscreenBuffer {
        buffer: vec![0; 10 * 10 * 4],
        width: 10,
        height: 10,
        bytes_per_pixel: 4,
    };
    let rect = EntityVisiblePiece::new_rect(
        Color::red(),
        V2::new(2 * UNIT, UNIT),
        V2::new(UNIT, 500_000),
        UNIT,
        UNIT,
    );
    draw_piece(&mut buffer, &rect, V2::new(5 * UNIT, 5 * UNIT), 2 * UNIT);
    for y in 0..10 {
        for x in 0..10 {
            let p = buffer.get(x, y);
            let inside = (3..7).contains(&x) && (4..6).contains(&y);
            assert_eq!(p.red, if inside { 255 } else { 0 });
        }
    }
    let picture = Bitmap { align_x: 1, align_y: 0, width: 2, height: 1, pixels: vec![9, 8, 7, 255, 6, 5, 4, 255] };
    let piece = EntityVisiblePiece::new_bitmap(&picture, UNIT, UNIT);
    draw_piece(&mut buffer, &piece, V2::new(UNIT, 9 * UNIT), 2 * UNIT);
    assert_eq!(buffer.get(0, 9).blue, 9);
    assert_eq!(buffer.get(1, 9).blue, 6);
    assert_eq!(buffer.get(2, 9).blue, 0);
    assert_eq!(buffer.get(0, 8).blue, 0);
}

#[test]
fn store_and_world_agree_at_the_start_and_after_every_frame() {
    let mut state = new_game();
    assert!(state.is_sound());
    let inputs = [
        keys(false, false, false, true, true),
        keys(true, false, false, true, false),
        keys(true, false, false, false, false),
        keys(false, true, true, false, true),
        keys(false, false, true, false, false),
    ];
    for frame in 0..300 {
        assert!(state.simulate(&inputs[(frame / 60) % inputs.len()]).is_some());
        assert!(state.is_sound());
        assert_eq!(state.storage.len(), 400);
    }
    state.start();
    assert!(state.is_sound());
}

#[test]
fn store_and_world_that_do_not_agree_are_told() {
    let mut state = new_game();
    state.world.tile_side += 1;
    assert!(!state.is_sound());

    let mut state = new_game();
    let chunk = state.world.chunks.get_mut(&ChunkIdx::new(0, 0, 0).key()).unwrap();
    let taken = chunk.entities.pop().unwrap();
    assert!(!state.is_sound());
    state.world.chunks.get_mut(&ChunkIdx::new(1, 0, 0).key()).unwrap().entities.push(taken);
    assert!(!state.is_sound());

    let mut state = new_game();
    let chunk = state.world.chunks.get_mut(&ChunkIdx::new(0, 0, 0).key()).unwrap();
    let twice = chunk.entities[0];
    chunk.entities.push(twice);
    assert!(!state.is_sound());

    let mut state = new_game();
    state.world.chunks.get_mut(&ChunkIdx::new(0, 0, 0).key()).unwrap().entities.push(400);
    assert!(!state.is_sound());

    let mut state = new_game();
    let chunk = state.world.chunks.remove(&ChunkIdx::new(0, 0, 0).key()).unwrap();
    assert!(!state.is_sound());
    state.world.chunks.insert(ChunkIdx::new(9, 9, 9).key(), chunk);
    assert!(!state.is_sound());

    let mut state = new_game();
    let mut stale = game::entity::LowEntity {
        p: state.storage.get(StorageIdx(2)).p,
        entity: state.storage.get(StorageIdx(2)).entity.clone(),
    };
    stale.entity.simming = true;
    state.storage.update(StorageIdx(2), stale);
    assert!(!state.is_sound());

    let mut state = new_game();
    let mut moved = game::entity::LowEntity {
        p: state.storage.get(StorageIdx(2)).p,
        entity: state.storage.get(StorageIdx(2)).entity.clone(),
    };
    moved.p.offset = V2::new(i64::MAX, 0);
    state.storage.update(StorageIdx(2), moved);
    assert!(!state.is_sound());

    let mut state = new_game();
    let mut owner = game::entity::LowEntity {
        p: state.storage.get(StorageIdx(1)).p,
        entity: state.storage.get(StorageIdx(1)).entity.clone(),
    };
    owner.entity.sword = Some(StorageIdx(400));
    state.storage.update(StorageIdx(1), owner);
    assert!(!state.is_sound());
}
