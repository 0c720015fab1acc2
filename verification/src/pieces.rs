//! What is drawn for an entity: its pieces, and where on the screen they
//! go.
use crate::entity::{EntityKind, SimEntity, SimEntityView};
use crate::fixed::{fx_add, fx_sub, fx_times, spec_add, spec_sub, spec_times, HALF, UNIT};
use crate::host_api::Bitmap;
use crate::math::V2;
use crate::render::{Color, OffscreenBuffer};
use vstd::prelude::*;

verus! {

/// The pictures of the hero for one facing.
#[derive(Debug)]
pub struct HeroBitmaps {
    pub head: Bitmap,
    pub cape: Bitmap,
    pub torso: Bitmap,
}

/// What is drawn for a piece of an entity.
#[derive(Debug)]
pub enum PieceKind<'a> {
    /// A picture.
    Bitmap(&'a Bitmap),
    /// A rectangle of one colour, of a size in metres.
    Rect(Color, V2),
}

/// One piece of what is drawn for an entity.
#[derive(Debug)]
pub struct EntityVisiblePiece<'a> {
    pub kind: PieceKind<'a>,
    /// Where the piece goes, from the ground point of the entity.
    pub offset: V2,
    pub _offset_z: i64,
    pub alpha: i64,
}

impl<'a> EntityVisiblePiece<'a> {
    /// A rectangle of `color` and `size` at `offset`.
    pub fn new_rect(color: Color, size: V2, offset: V2, alpha: i64, _offset_z: i64) -> (r: Self)
        ensures
            r == (EntityVisiblePiece { kind: PieceKind::Rect(color, size), offset, _offset_z, alpha }),
    {
        EntityVisiblePiece { kind: PieceKind::Rect(color, size), offset, _offset_z, alpha }
    }

    /// The picture `bitmap`, put with its own point on the ground point.
    pub fn new_bitmap(bitmap: &'a Bitmap, alpha: i64, _offset_z: i64) -> (r: Self)
        ensures
            r == spec_bitmap_piece(bitmap, alpha, _offset_z),
    {
        let offset = V2::new(fx_times(bitmap.align_x as i64, UNIT), fx_times(bitmap.align_y as i64, UNIT));
        EntityVisiblePiece { kind: PieceKind::Bitmap(bitmap), offset, _offset_z, alpha }
    }
}

/// The piece that shows `bitmap`.
pub open spec fn spec_bitmap_piece<'a>(bitmap: &'a Bitmap, alpha: i64, offset_z: i64)
    -> EntityVisiblePiece<'a> {
    EntityVisiblePiece {
        kind: PieceKind::Bitmap(bitmap),
        offset: V2 {
            x: spec_times(bitmap.align_x as int, UNIT as int) as i64,
            y: spec_times(bitmap.align_y as int, UNIT as int) as i64,
        },
        _offset_z: offset_z,
        alpha,
    }
}

/// The piece that shows the box of an entity of `width` by `height`.
pub open spec fn spec_box_piece<'a>(width: i64, height: i64) -> EntityVisiblePiece<'a> {
    let size = V2 { x: width, y: height };
    EntityVisiblePiece {
        kind: PieceKind::Rect(Color { red: UNIT, green: 0, blue: UNIT }, size),
        offset: size.spec_scaled(HALF),
        _offset_z: UNIT,
        alpha: UNIT,
    }
}

/// The side of the square that shows a hit point.
pub const HEALTH_DIM: i64 = 200_000;

/// The way from one hit point to the next.
pub const HEALTH_SPACING: i64 = 300_000;

/// The piece that shows the hit point `i` of `n`: a red square in a row
/// that is centred under the entity.
pub open spec fn spec_health_piece<'a>(i: int, n: int) -> EntityVisiblePiece<'a> {
    EntityVisiblePiece {
        kind: PieceKind::Rect(
            Color { red: UNIT, green: 0, blue: 0 },
            V2 { x: HEALTH_DIM, y: HEALTH_DIM },
        ),
        offset: V2 { x: health_x(i, n) as i64, y: -250_000i64 as i64 },
        _offset_z: 0,
        alpha: UNIT,
    }
}

/// Where the hit point `i` of `n` is drawn, from the ground point: the
/// first one half the width of the row to the left, each next one a
/// spacing further, the sums kept in the `i64` range.
pub open spec fn health_x(i: int, n: int) -> int
    decreases i,
{
    if i <= 0 {
        crate::fixed::spec_mul(
            crate::fixed::spec_mul(-(HALF as int), spec_times(crate::fixed::sat(n - 1), UNIT as int)),
            HEALTH_SPACING as int,
        )
    } else {
        spec_add(health_x(i - 1, n), HEALTH_SPACING as int)
    }
}

/// The pieces that are drawn for `entity`, the lowest first: for a player
/// its box, its shadow, torso, cape and head, and a square for each hit
/// point; for a sword its shadow; for a wall its box and a tree; for a
/// familiar a head and a shadow that shows its bobbing; for a monster a
/// torso. `hero` holds the pictures of the hero for the facing of the
/// entity.
pub open spec fn spec_pieces<'a>(
    shadow: &'a Bitmap,
    tree: &'a Bitmap,
    hero: &'a HeroBitmaps,
    entity: SimEntityView,
) -> Seq<EntityVisiblePiece<'a>> {
    match entity.kind {
        EntityKind::Player => seq![
            spec_box_piece(entity.width, entity.height),
            spec_bitmap_piece(shadow, UNIT, UNIT),
            spec_bitmap_piece(&hero.torso, UNIT, UNIT),
            spec_bitmap_piece(&hero.cape, UNIT, UNIT),
            spec_bitmap_piece(&hero.head, UNIT, UNIT),
        ] + Seq::new(
            entity.hit_points.len(),
            |i: int| spec_health_piece(i, entity.hit_points.len() as int),
        ),
        EntityKind::Sword => seq![spec_bitmap_piece(shadow, UNIT, UNIT)],
        EntityKind::Wall => seq![
            spec_box_piece(entity.width, entity.height),
            spec_bitmap_piece(tree, UNIT, UNIT),
        ],
        EntityKind::Familiar => seq![
            spec_bitmap_piece(&hero.head, UNIT, UNIT),
            spec_bitmap_piece(shadow, UNIT, entity.t_bob),
        ],
        EntityKind::Monster => seq![spec_bitmap_piece(&hero.torso, UNIT, UNIT)],
    }
}

/// The pieces that are drawn for `entity`, the lowest first.
pub fn entity_pieces<'a>(
    shadow: &'a Bitmap,
    tree: &'a Bitmap,
    hero: &'a HeroBitmaps,
    entity: &SimEntity,
) -> (r: Vec<EntityVisiblePiece<'a>>)
    ensures
        r@ == spec_pieces(shadow, tree, hero, entity@),
{
    let mut pieces: Vec<EntityVisiblePiece<'a>> = Vec::new();
    match entity.kind {
        EntityKind::Player => {
            let size = V2::new(entity.width, entity.height);
            pieces.push(
                EntityVisiblePiece::new_rect(Color::magenta(), size, size.scaled(HALF), UNIT, UNIT),
            );
            pieces.push(EntityVisiblePiece::new_bitmap(shadow, UNIT, UNIT));
            pieces.push(EntityVisiblePiece::new_bitmap(&hero.torso, UNIT, UNIT));
            pieces.push(EntityVisiblePiece::new_bitmap(&hero.cape, UNIT, UNIT));
            pieces.push(EntityVisiblePiece::new_bitmap(&hero.head, UNIT, UNIT));
            let n = entity.hit_points.len();
            let ghost base = pieces@;
            if n > 0 {
                let mut hit_x = crate::fixed::fx_mul(
                    crate::fixed::fx_mul(
                        -HALF,
                        fx_times(crate::fixed::fx_clamp((n - 1) as i128), UNIT),
                    ),
                    HEALTH_SPACING,
                );
                let mut i: usize = 0;
                while i < n
                    invariant
                        i <= n,
                        n == entity.hit_points@.len(),
                        hit_x == health_x(i as int, n as int),
                        pieces@ == base + Seq::new(i as nat, |j: int| spec_health_piece(j, n as int)),
                    decreases n - i,
                {
                    pieces.push(
                        EntityVisiblePiece::new_rect(
                            Color::red(),
                            V2::new(HEALTH_DIM, HEALTH_DIM),
                            V2::new(hit_x, -250_000),
                            UNIT,
                            0,
                        ),
                    );
                    assert(pieces@ =~= base + Seq::new(
                        (i + 1) as nat,
                        |j: int| spec_health_piece(j, n as int),
                    ));
                    hit_x = fx_add(hit_x, HEALTH_SPACING);
                    i += 1;
                }
            } else {
                assert(pieces@ =~= base + Seq::new(0, |j: int| spec_health_piece(j, 0)));
            }
        },
        EntityKind::Sword => {
            pieces.push(EntityVisiblePiece::new_bitmap(shadow, UNIT, UNIT));
        },
        EntityKind::Wall => {
            let size = V2::new(entity.width, entity.height);
            pieces.push(
                EntityVisiblePiece::new_rect(Color::magenta(), size, size.scaled(HALF), UNIT, UNIT),
            );
            pieces.push(EntityVisiblePiece::new_bitmap(tree, UNIT, UNIT));
        },
        EntityKind::Familiar => {
            pieces.push(EntityVisiblePiece::new_bitmap(&hero.head, UNIT, UNIT));
            pieces.push(EntityVisiblePiece::new_bitmap(shadow, UNIT, entity.t_bob));
        },
        EntityKind::Monster => {
            pieces.push(EntityVisiblePiece::new_bitmap(&hero.torso, UNIT, UNIT));
        },
    }
    assert(pieces@ =~= spec_pieces(shadow, tree, hero, entity@));
    pieces
}

/// How many pixels a tile is wide on the screen.
pub const TILE_SIDE_IN_PIXELS: i64 = 60_000_000;

/// How much of its size a box is drawn with.
pub const BOX_FILL: i64 = 900_000;

/// How many pixels a metre is on the screen.
pub fn meters_to_pixels(tile_side: i64) -> (r: i64)
    requires
        tile_side != 0,
    ensures
        r == crate::fixed::spec_div(TILE_SIDE_IN_PIXELS as int, tile_side as int),
{
    crate::fixed::fx_div(TILE_SIDE_IN_PIXELS, tile_side)
}

/// Half of a count of pixels, as a scalar.
pub open spec fn spec_half_of(n: usize) -> int {
    crate::fixed::spec_mul(HALF as int, spec_times(crate::fixed::sat(n as int), UNIT as int))
}

/// Where on a screen of `width` by `height` pixels the entity at `p` stands,
/// lifted by `bob_offset`: from the middle of the screen, a metre being
/// `scale` pixels, up being toward the first row.
pub open spec fn spec_ground_point(width: usize, height: usize, scale: i64, p: V2, bob_offset: i64)
    -> V2 {
    V2 {
        x: spec_add(spec_half_of(width), crate::fixed::spec_mul(scale as int, p.x as int)) as i64,
        y: spec_sub(
            spec_half_of(height),
            crate::fixed::spec_mul(scale as int, spec_add(p.y as int, bob_offset as int)),
        ) as i64,
    }
}

/// Where on the screen the entity at `p` stands.
pub fn ground_point(width: usize, height: usize, scale: i64, p: V2, bob_offset: i64) -> (r: V2)
    ensures
        r == spec_ground_point(width, height, scale, p, bob_offset),
{
    let center_x = crate::fixed::fx_mul(
        HALF,
        fx_times(crate::fixed::fx_clamp(width as i128), UNIT),
    );
    let center_y = crate::fixed::fx_mul(
        HALF,
        fx_times(crate::fixed::fx_clamp(height as i128), UNIT),
    );
    V2::new(
        fx_add(center_x, crate::fixed::fx_mul(scale, p.x())),
        fx_sub(center_y, crate::fixed::fx_mul(scale, fx_add(p.y(), bob_offset))),
    )
}

/// The lower corner of the box of `size` metres that is drawn around
/// `ground`.
pub open spec fn box_min(ground: V2, size: V2, scale: i64) -> V2 {
    ground.spec_minus(size.spec_scaled(scale).spec_scaled(HALF))
}

/// The upper corner of that box: it is drawn a little smaller than it is.
pub open spec fn box_max(ground: V2, size: V2, scale: i64) -> V2 {
    box_min(ground, size, scale).spec_plus(size.spec_scaled(scale).spec_scaled(BOX_FILL))
}

/// Draws one piece of an entity that stands at `ground` on the screen: a
/// picture with its own point on `ground`, a rectangle around `ground`.
pub fn draw_piece(buffer: &mut OffscreenBuffer, piece: &EntityVisiblePiece, ground: V2, scale: i64)
    requires
        old(buffer).wf(),
        piece.kind matches PieceKind::Bitmap(b) ==> b.wf(),
    ensures
        final(buffer).wf(),
        final(buffer).width == old(buffer).width,
        final(buffer).height == old(buffer).height,
        forall|x: int, y: int|
            0 <= x < old(buffer).width && 0 <= y < old(buffer).height
                ==> #[trigger] final(buffer).pixel(x, y) == (match piece.kind {
                PieceKind::Bitmap(b) => old(buffer).drawn(
                    b,
                    crate::render::nearest(ground.spec_minus(piece.offset).x),
                    crate::render::nearest(ground.spec_minus(piece.offset).y),
                    piece.alpha,
                    x,
                    y,
                ),
                PieceKind::Rect(color, size) => if OffscreenBuffer::within(
                    x,
                    y,
                    crate::render::clip(
                        crate::render::nearest(box_min(ground, size, scale).x),
                        0,
                        i32::MAX as int,
                    ),
                    crate::render::clip(
                        crate::render::nearest(box_min(ground, size, scale).y),
                        0,
                        i32::MAX as int,
                    ),
                    crate::render::clip(
                        crate::render::nearest(box_max(ground, size, scale).x),
                        0,
                        old(buffer).width as int,
                    ),
                    crate::render::clip(
                        crate::render::nearest(box_max(ground, size, scale).y),
                        0,
                        old(buffer).height as int,
                    ),
                ) {
                    color.pixel()
                } else {
                    old(buffer).pixel(x, y)
                },
            }),
{
    match piece.kind {
        PieceKind::Bitmap(bitmap) => {
            let at = ground.minus(piece.offset);
            proof {
                assert(spec_times(0, UNIT as int) == 0);
            }
            buffer.render_bitmap(bitmap, at, 0, 0, piece.alpha);
        },
        PieceKind::Rect(color, size) => {
            let scaled = size.scaled(scale);
            let left_top = ground.minus(scaled.scaled(HALF));
            buffer.render_rectangle(left_top, left_top.plus(scaled.scaled(BOX_FILL)), color);
        },
    }
}

/// The pictures of the hero, each with the point that is put on the place
/// of the hero: 72 pixels from the left, 182 from the bottom.
pub fn load_hero(loaded: Vec<HeroBitmaps>) -> (r: Vec<HeroBitmaps>)
    ensures
        r@.len() == loaded@.len(),
        forall|i: int|
            0 <= i < r@.len() ==> {
                &&& (#[trigger] r@[i]).head.align_x == 72 && r@[i].head.align_y == 182
                &&& r@[i].cape.align_x == 72 && r@[i].cape.align_y == 182
                &&& r@[i].torso.align_x == 72 && r@[i].torso.align_y == 182
                &&& r@[i].head.width == loaded@[i].head.width
                &&& r@[i].head.height == loaded@[i].head.height
                &&& r@[i].head.pixels == loaded@[i].head.pixels
                &&& r@[i].cape.width == loaded@[i].cape.width
                &&& r@[i].cape.height == loaded@[i].cape.height
                &&& r@[i].cape.pixels == loaded@[i].cape.pixels
                &&& r@[i].torso.width == loaded@[i].torso.width
                &&& r@[i].torso.height == loaded@[i].torso.height
                &&& r@[i].torso.pixels == loaded@[i].torso.pixels
            },
{
    let mut result = loaded;
    let n = result.len();
    let mut i: usize = 0;
    while i < n
        invariant
            i <= n,
            n == loaded@.len(),
            result@.len() == n,
            forall|j: int|
                0 <= j < n ==> {
                    &&& (#[trigger] result@[j]).head.width == loaded@[j].head.width
                    &&& result@[j].head.height == loaded@[j].head.height
                    &&& result@[j].head.pixels == loaded@[j].head.pixels
                    &&& result@[j].cape.width == loaded@[j].cape.width
                    &&& result@[j].cape.height == loaded@[j].cape.height
                    &&& result@[j].cape.pixels == loaded@[j].cape.pixels
                    &&& result@[j].torso.width == loaded@[j].torso.width
                    &&& result@[j].torso.height == loaded@[j].torso.height
                    &&& result@[j].torso.pixels == loaded@[j].torso.pixels
                },
            forall|j: int|
                0 <= j < i ==> {
                    &&& (#[trigger] result@[j]).head.align_x == 72 && result@[j].head.align_y == 182
                    &&& result@[j].cape.align_x == 72 && result@[j].cape.align_y == 182
                    &&& result@[j].torso.align_x == 72 && result@[j].torso.align_y == 182
                },
        decreases n - i,
    {
        let hero = &mut result[i];
        hero.head.align_x = 72;
        hero.head.align_y = 182;
        hero.cape.align_x = 72;
        hero.cape.align_y = 182;
        hero.torso.align_x = 72;
        hero.torso.align_y = 182;
        i += 1;
    }
    result
}

} // verus!
