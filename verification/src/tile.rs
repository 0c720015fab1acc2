//! A map of tiles in chunks: an earlier form of the world, in which a
//! position names a tile and an offset from the centre of that tile.
use crate::fixed::{
    fx_clamp, fx_round_div, lemma_product_fits, lemma_round_div_remainder, round_div, sat,
    spec_abs, spec_add,
};
use crate::math::V2;
use crate::world::{is_wall_tile, ChunkIdx};
use std::collections::HashMap;
use vstd::prelude::*;

verus! {

/// The difference of two places, in metres.
#[derive(Copy, Clone, Debug, PartialEq, Eq, Structural)]
pub struct PositionDiff {
    pub xy: V2,
    pub z: i64,
}

/// A tile within its chunk.
#[derive(Copy, Clone, Debug, PartialEq, Eq, Structural)]
pub struct TilePosition {
    pub x: i32,
    pub y: i32,
}

/// A tile of the map. The high bits of a coordinate name the chunk, the
/// low bits the tile in the chunk.
#[derive(Copy, Clone, Debug, PartialEq, Eq, Structural)]
pub struct AbsPosition {
    pub x: i32,
    pub y: i32,
    pub z: i32,
}

/// A place on the map: a tile, and an offset from the centre of the tile.
#[derive(Copy, Clone, Debug, PartialEq, Eq, Structural)]
pub struct TileMapPosition {
    pub abs: AbsPosition,
    /// Offset from the tile's centre.
    pub offset: V2,
}

/// A tile as its chunk and its place in the chunk.
#[derive(Copy, Clone, Debug, PartialEq, Eq, Structural)]
pub struct ChunkPosition {
    pub position_in_map: ChunkIdx,
    pub tile_position: TilePosition,
}

/// A tile of the map.
#[derive(Copy, Clone, Debug, PartialEq, Eq, Structural)]
pub struct Tile {
    pub kind: TileKind,
}

/// What a tile is; a tile that was never set is empty.
#[derive(Copy, Clone, Debug, PartialEq, Eq, Structural)]
pub enum TileKind {
    Wall,
    Ground,
    Empty,
}

/// A length in metres.
#[derive(Copy, Clone, Debug, PartialEq, Eq, Structural)]
pub struct Meter(pub i64);

/// The tiles of a chunk, row after row; tiles beyond the end are empty.
#[derive(Debug)]
pub struct TileChunk {
    pub chunk_dim: i32,
    pub tiles: Vec<Tile>,
}

/// `s` made at least `n` long with empty tiles.
pub open spec fn padded(s: Seq<Tile>, n: int) -> Seq<Tile> {
    if s.len() >= n {
        s
    } else {
        s + Seq::new((n - s.len()) as nat, |i: int| Tile { kind: TileKind::Empty })
    }
}

impl TileChunk {
    /// A chunk of `chunk_dim` tiles a side, with no tile set.
    pub fn new(chunk_dim: i32) -> (r: Self)
        ensures
            r.chunk_dim == chunk_dim,
            r.tiles@ == Seq::<Tile>::empty(),
    {
        TileChunk { chunk_dim, tiles: Vec::new() }
    }

    /// Where in the chunk the tile at `position` is kept.
    pub open spec fn spec_offset(&self, position: TilePosition) -> int {
        position.y * self.chunk_dim + position.x
    }

    /// Where in the chunk the tile at `position` is kept.
    pub fn offset(&self, position: TilePosition) -> (r: i32)
        requires
            i32::MIN <= self.spec_offset(position) <= i32::MAX,
        ensures
            r == self.spec_offset(position),
    {
        let wide: i64 = position.y as i64 * self.chunk_dim as i64 + position.x as i64;
        assert(i32::MIN as int * i32::MIN as int >= position.y as int * (self.chunk_dim as int)
            >= i32::MIN as int * (i32::MAX as int)) by (nonlinear_arith)
            requires
                i32::MIN <= position.y <= i32::MAX,
                i32::MIN <= self.chunk_dim <= i32::MAX,
        ;
        wide as i32
    }

    /// The tile at `position`, if it was ever set or a later one was.
    pub fn tile(&self, position: TilePosition) -> (r: Option<&Tile>)
        requires
            i32::MIN <= self.spec_offset(position) <= i32::MAX,
        ensures
            r is Some <==> 0 <= self.spec_offset(position) < self.tiles@.len(),
            r is Some ==> *r->0 == self.tiles@[self.spec_offset(position)],
    {
        let offset = self.offset(position);
        if offset >= 0 && (offset as usize) < self.tiles.len() {
            Some(&self.tiles[offset as usize])
        } else {
            None
        }
    }

    /// Sets the tile at `position`; the chunk is made long enough with
    /// empty tiles.
    pub fn set_tile(&mut self, position: TilePosition, tile: Tile)
        requires
            0 <= old(self).spec_offset(position) <= i32::MAX,
        ensures
            final(self).chunk_dim == old(self).chunk_dim,
            final(self).tiles@ == padded(
                old(self).tiles@,
                old(self).spec_offset(position) + 1,
            ).update(old(self).spec_offset(position), tile),
    {
        let offset = self.offset(position) as usize;
        while self.tiles.len() <= offset
            invariant
                self.chunk_dim == old(self).chunk_dim,
                offset == old(self).spec_offset(position),
                offset <= i32::MAX,
                self.tiles@.len() >= old(self).tiles@.len(),
                self.tiles@.len() <= offset + 1 || self.tiles@ == old(self).tiles@,
                self.tiles@ == padded(old(self).tiles@, self.tiles@.len() as int),
            decreases offset + 1 - self.tiles.len(),
        {
            let ghost before = self.tiles@;
            self.tiles.push(Tile { kind: TileKind::Empty });
            assert(self.tiles@ =~= padded(old(self).tiles@, self.tiles@.len() as int));
        }
        self.tiles[offset] = tile;
    }
}

/// The map: chunks of tiles, the size of a tile, and the tiles that are
/// walls.
#[derive(Debug)]
pub struct TileMap {
    pub middle: i32,
    pub chunk_shift: i32,
    pub chunk_mask: i32,
    pub chunk_dim: i32,
    pub tile_size: Meter,
    /// The chunks, each under the key of its index.
    pub chunks: HashMap<u128, TileChunk>,
    pub walls: Vec<AbsPosition>,
}

/// The wall tiles among the first `n` tiles of one screen, counted row by
/// row.
pub open spec fn screen_walls(middle: int, n: nat) -> Seq<AbsPosition>
    decreases n,
{
    if n == 0 {
        Seq::empty()
    } else {
        let i = (n - 1) as int;
        let before = screen_walls(middle, (n - 1) as nat);
        if is_wall_tile(i % 17, i / 17) {
            before.push(
                AbsPosition {
                    x: (i % 17 + middle) as i32,
                    y: (i / 17 + middle) as i32,
                    z: middle as i32,
                },
            )
        } else {
            before
        }
    }
}

impl TileMap {
    /// Whether the map can name its tiles: the size of a tile is above zero,
    /// and a chunk is as many tiles wide as its shift says.
    pub open spec fn wf(&self) -> bool {
        &&& self.tile_size.0 > 0
        &&& 0 <= self.chunk_shift < 31
        &&& self.chunk_dim == 1i32 << self.chunk_shift
        &&& self.chunk_mask == self.chunk_dim - 1
    }

    /// The tiles of the chunk `c`; none where the map has no such chunk.
    pub open spec fn tiles(&self, c: ChunkIdx) -> Seq<Tile> {
        if self.chunks@.contains_key(c.spec_key()) {
            self.chunks@[c.spec_key()].tiles@
        } else {
            Seq::empty()
        }
    }

    /// The tile `position` as its chunk and its place in the chunk.
    pub open spec fn spec_abs(&self, position: AbsPosition) -> ChunkPosition {
        ChunkPosition {
            position_in_map: ChunkIdx {
                x: position.x >> self.chunk_shift,
                y: position.y >> self.chunk_shift,
                z: position.z,
            },
            tile_position: TilePosition {
                x: position.x & self.chunk_mask,
                y: position.y & self.chunk_mask,
            },
        }
    }

    /// Where the player starts.
    pub fn initial_player(&self) -> (r: TileMapPosition)
        requires
            self.middle <= i32::MAX - 3,
        ensures
            r == (TileMapPosition {
                abs: AbsPosition {
                    x: (self.middle + 1) as i32,
                    y: (self.middle + 3) as i32,
                    z: self.middle,
                },
                offset: V2::zero(),
            }),
    {
        TileMapPosition {
            abs: AbsPosition { x: self.middle + 1, y: self.middle + 3, z: self.middle },
            offset: V2::default(),
        }
    }

    /// Where the camera starts: the middle of the screen.
    pub fn initial_camera(&self) -> (r: TileMapPosition)
        requires
            self.middle <= i32::MAX - 8,
        ensures
            r == (TileMapPosition {
                abs: AbsPosition {
                    x: (self.middle + 8) as i32,
                    y: (self.middle + 4) as i32,
                    z: self.middle,
                },
                offset: V2::zero(),
            }),
    {
        TileMapPosition {
            abs: AbsPosition { x: self.middle + 17 / 2, y: self.middle + 9 / 2, z: self.middle },
            offset: V2::default(),
        }
    }

    /// The map of one screen, with no chunk yet.
    pub fn new() -> (r: Self)
        ensures
            r.wf(),
            r.middle == 1023,
            r.chunk_shift == 4,
            r.chunk_mask == 15,
            r.chunk_dim == 16,
            r.tile_size == Meter(1_400_000),
            r.chunks@ == Map::<u128, TileChunk>::empty(),
            r.walls@ == screen_walls(1023, 153),
    {
        let chunk_shift: i32 = 4;
        assert(1i32 << 4i32 == 16) by (bit_vector);
        let mut result = TileMap {
            middle: 1023,
            chunk_shift,
            chunk_mask: 15,
            chunk_dim: 16,
            tile_size: Meter(1_400_000),
            chunks: HashMap::new(),
            walls: Vec::new(),
        };
        result.dummy_world();
        assert(result.walls@ =~= screen_walls(1023, 153));
        result
    }

    /// Adds the wall tiles of one screen to `walls`.
    pub fn dummy_world(&mut self)
        requires
            old(self).middle <= i32::MAX - 16,
        ensures
            final(self).walls@ == old(self).walls@ + screen_walls(old(self).middle as int, 153),
            final(self).middle == old(self).middle,
            final(self).chunk_shift == old(self).chunk_shift,
            final(self).chunk_mask == old(self).chunk_mask,
            final(self).chunk_dim == old(self).chunk_dim,
            final(self).tile_size == old(self).tile_size,
            final(self).chunks == old(self).chunks,
    {
        let mut tile_y: i32 = 0;
        assert(self.walls@ =~= old(self).walls@ + screen_walls(self.middle as int, 0));
        while tile_y < 9
            invariant
                0 <= tile_y <= 9,
                self.middle <= i32::MAX - 16,
                self.walls@ == old(self).walls@ + screen_walls(
                    self.middle as int,
                    (tile_y * 17) as nat,
                ),
                self.middle == old(self).middle,
                self.chunk_shift == old(self).chunk_shift,
                self.chunk_mask == old(self).chunk_mask,
                self.chunk_dim == old(self).chunk_dim,
                self.tile_size == old(self).tile_size,
                self.chunks == old(self).chunks,
            decreases 9 - tile_y,
        {
            let mut tile_x: i32 = 0;
            while tile_x < 17
                invariant
                    0 <= tile_y < 9,
                    0 <= tile_x <= 17,
                    self.middle <= i32::MAX - 16,
                    self.walls@ == old(self).walls@ + screen_walls(
                        self.middle as int,
                        (tile_y * 17 + tile_x) as nat,
                    ),
                    self.middle == old(self).middle,
                    self.chunk_shift == old(self).chunk_shift,
                    self.chunk_mask == old(self).chunk_mask,
                    self.chunk_dim == old(self).chunk_dim,
                    self.tile_size == old(self).tile_size,
                    self.chunks == old(self).chunks,
                decreases 17 - tile_x,
            {
                let wall = if tile_x == 0 || tile_x == 16 {
                    tile_y != 4
                } else if tile_y == 0 || tile_y == 8 {
                    tile_x != 8
                } else {
                    false
                };
                let ghost i: int = tile_y * 17 + tile_x;
                assert(i % 17 == tile_x && i / 17 == tile_y);
                if wall {
                    self.walls.push(
                        AbsPosition {
                            x: tile_x + self.middle,
                            y: tile_y + self.middle,
                            z: self.middle,
                        },
                    );
                }
                assert(self.walls@ =~= old(self).walls@ + screen_walls(
                    self.middle as int,
                    (i + 1) as nat,
                ));
                tile_x += 1;
            }
            tile_y += 1;
        }
    }

    /// The chunk at `chunk`, if the map has one there.
    pub fn chunk(&self, chunk: ChunkIdx) -> (r: Option<&TileChunk>)
        ensures
            r is Some <==> self.chunks@.contains_key(chunk.spec_key()),
            r is Some ==> *r->0 == self.chunks@[chunk.spec_key()],
    {
        let key = chunk.key();
        self.chunks.get(&key)
    }

    /// The tile `position` as its chunk and its place in the chunk.
    pub fn abs(&self, position: AbsPosition) -> (r: ChunkPosition)
        requires
            0 <= self.chunk_shift < 32,
        ensures
            r == self.spec_abs(position),
    {
        ChunkPosition {
            position_in_map: ChunkIdx {
                x: position.x >> self.chunk_shift,
                y: position.y >> self.chunk_shift,
                z: position.z,
            },
            tile_position: TilePosition {
                x: position.x & self.chunk_mask,
                y: position.y & self.chunk_mask,
            },
        }
    }

    /// The tile at `position`, if its chunk holds one.
    pub open spec fn spec_tile(&self, position: AbsPosition) -> Option<Tile> {
        let at = self.spec_abs(position);
        let key = at.position_in_map.spec_key();
        if self.chunks@.contains_key(key) {
            let chunk = self.chunks@[key];
            let offset = chunk.spec_offset(at.tile_position);
            if 0 <= offset < chunk.tiles@.len() {
                Some(chunk.tiles@[offset])
            } else {
                None
            }
        } else {
            None
        }
    }

    /// Whether the place of every tile in its chunk is a number that the
    /// chunk can count to.
    pub open spec fn countable(&self, position: AbsPosition) -> bool {
        let at = self.spec_abs(position);
        let key = at.position_in_map.spec_key();
        self.chunks@.contains_key(key) ==> i32::MIN <= self.chunks@[key].spec_offset(
            at.tile_position,
        ) <= i32::MAX
    }

    /// The tile at `position`, if its chunk holds one.
    pub fn tile_from_compressed_pos(&self, position: AbsPosition) -> (r: Option<&Tile>)
        requires
            0 <= self.chunk_shift < 32,
            self.countable(position),
        ensures
            r is Some <==> self.spec_tile(position) is Some,
            r is Some ==> *r->0 == self.spec_tile(position)->0,
    {
        let chunk_pos = self.abs(position);
        match self.chunk(chunk_pos.position_in_map) {
            Some(c) => c.tile(chunk_pos.tile_position),
            None => None,
        }
    }

    /// The tile at the place `position`.
    pub fn tile_from_map_pos(&self, position: TileMapPosition) -> (r: Option<&Tile>)
        requires
            0 <= self.chunk_shift < 32,
            self.countable(position.abs),
        ensures
            r is Some <==> self.spec_tile(position.abs) is Some,
            r is Some ==> *r->0 == self.spec_tile(position.abs)->0,
    {
        self.tile_from_compressed_pos(position.abs)
    }

    /// Whether one can stand at `position`: there is no wall.
    pub fn is_tile_empty(&self, position: TileMapPosition) -> (r: bool)
        requires
            0 <= self.chunk_shift < 32,
            self.countable(position.abs),
        ensures
            r == !(self.spec_tile(position.abs) == Some(Tile { kind: TileKind::Wall })),
    {
        match self.tile_from_map_pos(position) {
            Some(t) => match t.kind {
                TileKind::Wall => false,
                _ => true,
            },
            None => true,
        }
    }

    /// Sets the tile at `position`, whose chunk the map must have.
    pub fn set_tile(&mut self, position: AbsPosition, tile: Tile) -> (r: bool)
        requires
            0 <= old(self).chunk_shift < 32,
            old(self).chunks@.contains_key(
                old(self).spec_abs(position).position_in_map.spec_key(),
            ),
            0 <= old(self).chunks@[old(self).spec_abs(
                position,
            ).position_in_map.spec_key()].spec_offset(old(self).spec_abs(position).tile_position)
                <= i32::MAX,
        ensures
            r,
            final(self).middle == old(self).middle,
            final(self).chunk_shift == old(self).chunk_shift,
            final(self).chunk_mask == old(self).chunk_mask,
            final(self).chunk_dim == old(self).chunk_dim,
            final(self).tile_size == old(self).tile_size,
            final(self).walls == old(self).walls,
            final(self).chunks@.dom() == old(self).chunks@.dom(),
            final(self).spec_tile(position) == Some(tile),
            forall|k: u128|
                k != old(self).spec_abs(position).position_in_map.spec_key()
                    && old(self).chunks@.contains_key(k) ==> #[trigger] final(self).chunks@[k]
                    == old(self).chunks@[k],
    {
        let chunk_pos = self.abs(position);
        let key = chunk_pos.position_in_map.key();
        let taken = self.chunks.remove(&key);
        match taken {
            Some(mut chunk) => {
                chunk.set_tile(chunk_pos.tile_position, tile);
                self.chunks.insert(key, chunk);
                assert(self.chunks@.dom() =~= old(self).chunks@.dom());
            },
            None => {
                proof {
                    assert(false);
                }
            },
        }
        true
    }

    /// How many tiles the offset `rel` reaches over.
    pub open spec fn carry(&self, rel: int) -> int {
        round_div(rel, self.tile_size.0 as int)
    }

    /// Whether the offset `rel` can be brought into canonical form from the
    /// tile coordinate `pos`: the tile that it comes to is within the `i32`
    /// range, and what is left is nearer to the centre of that tile than
    /// half a tile.
    pub open spec fn fits(&self, pos: i32, rel: int) -> bool {
        &&& i32::MIN <= pos + self.carry(rel) <= i32::MAX
        &&& 2 * spec_abs(rel - self.carry(rel) * self.tile_size.0) < self.tile_size.0
    }

    /// Brings one coordinate into canonical form: moves whole tiles from
    /// the offset `rel` into the tile coordinate `pos`.
    pub fn recanonicalize_coord(&self, pos: i32, rel: i64) -> (r: (i32, i64))
        requires
            self.tile_size.0 > 0,
            self.fits(pos, rel as int),
        ensures
            r.0 == pos + self.carry(rel as int),
            r.1 == rel - self.carry(rel as int) * self.tile_size.0,
    {
        let offset: i64 = fx_round_div(rel, self.tile_size.0);
        let new_pos: i64 = pos as i64 + offset;
        proof {
            lemma_round_div_remainder(rel as int, self.tile_size.0 as int);
            lemma_product_fits(offset as int, self.tile_size.0 as int);
        }
        let new_rel: i128 = (rel as i128) - (offset as i128) * (self.tile_size.0 as i128);
        (new_pos as i32, new_rel as i64)
    }

    /// The place at `offset` from `base`, in canonical form.
    pub open spec fn spec_map(&self, base: TileMapPosition, offset: V2) -> TileMapPosition {
        let sx = spec_add(base.offset.x as int, offset.x as int);
        let sy = spec_add(base.offset.y as int, offset.y as int);
        TileMapPosition {
            abs: AbsPosition {
                x: (base.abs.x + self.carry(sx)) as i32,
                y: (base.abs.y + self.carry(sy)) as i32,
                z: base.abs.z,
            },
            offset: V2 {
                x: (sx - self.carry(sx) * self.tile_size.0) as i64,
                y: (sy - self.carry(sy) * self.tile_size.0) as i64,
            },
        }
    }

    /// The place at `offset` from `base_position`, in canonical form: for
    /// each axis the offsets are added, the nearest whole number of tiles
    /// goes into the tile coordinate, and the rest stays as the offset.
    pub fn map_into_tile_space(&self, base_position: TileMapPosition, offset: V2) -> (r:
        TileMapPosition)
        requires
            self.tile_size.0 > 0,
            self.fits(
                base_position.abs.x,
                spec_add(base_position.offset.x as int, offset.x as int),
            ),
            self.fits(
                base_position.abs.y,
                spec_add(base_position.offset.y as int, offset.y as int),
            ),
        ensures
            r == self.spec_map(base_position, offset),
    {
        let sum = base_position.offset.plus(offset);
        let (abs_x, x) = self.recanonicalize_coord(base_position.abs.x, sum.x());
        let (abs_y, y) = self.recanonicalize_coord(base_position.abs.y, sum.y());
        TileMapPosition {
            abs: AbsPosition { x: abs_x, y: abs_y, z: base_position.abs.z },
            offset: V2::new(x, y),
        }
    }

    /// The way from `b` to `a`, in metres: the tiles between them, each a
    /// tile long, and the difference of the offsets.
    pub fn substract(&self, a: TileMapPosition, b: TileMapPosition) -> (r: PositionDiff)
        ensures
            r == (PositionDiff {
                xy: V2 {
                    x: sat(self.tile_size.0 * (a.abs.x - b.abs.x) + (a.offset.x - b.offset.x))
                        as i64,
                    y: sat(self.tile_size.0 * (a.abs.y - b.abs.y) + (a.offset.y - b.offset.y))
                        as i64,
                },
                z: sat(self.tile_size.0 * (a.abs.z - b.abs.z)) as i64,
            }),
    {
        let side: i128 = self.tile_size.0 as i128;
        let dx: i128 = a.abs.x as i128 - b.abs.x as i128;
        let dy: i128 = a.abs.y as i128 - b.abs.y as i128;
        let dz: i128 = a.abs.z as i128 - b.abs.z as i128;
        proof {
            lemma_product_fits(self.tile_size.0 as int, dx as int);
            lemma_product_fits(self.tile_size.0 as int, dy as int);
            lemma_product_fits(self.tile_size.0 as int, dz as int);
        }
        let x: i128 = side * dx + (a.offset.x as i128 - b.offset.x as i128);
        let y: i128 = side * dy + (a.offset.y as i128 - b.offset.y as i128);
        let z: i128 = side * dz;
        PositionDiff { xy: V2::new(fx_clamp(x), fx_clamp(y)), z: fx_clamp(z) }
    }

    /// The centre of the tile (`x`, `y`, `z`).
    pub fn centered_tile_point(x: i32, y: i32, z: i32) -> (r: TileMapPosition)
        ensures
            r == (TileMapPosition { abs: AbsPosition { x, y, z }, offset: V2::zero() }),
    {
        TileMapPosition { abs: AbsPosition { x, y, z }, offset: V2::default() }
    }
}

} // verus!
