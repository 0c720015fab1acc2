//! The world: a sparse grid of chunks, and positions in it.
use crate::entity::{LowEntity, SimEntityView};
use crate::fixed::{
    fx_abs, fx_add, fx_clamp, fx_round_div, fx_times, lemma_product_fits,
    lemma_round_div_bound, lemma_round_div_remainder, lemma_round_div_small, round_div, sat, spec_abs, spec_add,
    spec_times, tdiv,
};
use crate::math::V2;
use std::collections::HashMap;
use vstd::prelude::*;

verus! {

/// The chunk coordinate that marks a position as unset.
pub const TILE_CHUNK_UNINITIALIZED: i32 = i32::MAX;

/// Which chunk of the grid.
#[derive(Copy, Clone, Debug, PartialEq, Eq, Structural, Hash)]
pub struct ChunkIdx {
    pub x: i32,
    pub y: i32,
    pub z: i32,
}

impl Default for ChunkIdx {
    fn default() -> (r: Self)
        ensures
            r == (ChunkIdx { x: 0, y: 0, z: 0 }),
    {
        ChunkIdx { x: 0, y: 0, z: 0 }
    }
}

impl ChunkIdx {
    /// The three coordinates as one number: the key of the chunk in the map.
    pub open spec fn spec_key(self) -> u128 {
        ((self.x + 0x8000_0000) * 0x1_0000_0000_0000_0000 + (self.y + 0x8000_0000) * 0x1_0000_0000
            + (self.z + 0x8000_0000)) as u128
    }

    /// The chunk (`x`, `y`, `z`).
    pub fn new(x: i32, y: i32, z: i32) -> (r: Self)
        ensures
            r == (ChunkIdx { x, y, z }),
    {
        ChunkIdx { x, y, z }
    }

    /// The key of the chunk in the map.
    pub fn key(&self) -> (k: u128)
        ensures
            k == self.spec_key(),
    {
        let x: u128 = (self.x as i64 + 0x8000_0000) as u128;
        let y: u128 = (self.y as i64 + 0x8000_0000) as u128;
        let z: u128 = (self.z as i64 + 0x8000_0000) as u128;
        x * 0x1_0000_0000_0000_0000 + y * 0x1_0000_0000 + z
    }

    /// Two chunks with one key are one chunk.
    pub proof fn lemma_key_injective(a: ChunkIdx, b: ChunkIdx)
        ensures
            a.spec_key() == b.spec_key() <==> a == b,
    {
        let ka: int = (a.x + 0x8000_0000) * 0x1_0000_0000_0000_0000 + (a.y + 0x8000_0000)
            * 0x1_0000_0000 + (a.z + 0x8000_0000);
        let kb: int = (b.x + 0x8000_0000) * 0x1_0000_0000_0000_0000 + (b.y + 0x8000_0000)
            * 0x1_0000_0000 + (b.z + 0x8000_0000);
        assert(0 <= ka < 0x1_0000_0000_0000_0000_0000_0000);
        assert(0 <= kb < 0x1_0000_0000_0000_0000_0000_0000);
        assert(a.spec_key() == ka);
        assert(b.spec_key() == kb);
        if ka == kb {
            let dx: int = a.x - b.x;
            let dy: int = a.y - b.y;
            let dz: int = a.z - b.z;
            assert(dx * 0x1_0000_0000_0000_0000 + dy * 0x1_0000_0000 + dz == 0);
            assert(dx == 0);
            assert(dy == 0);
        }
    }
}

/// A place in the world: a chunk, and an offset from the centre of that chunk.
#[derive(Copy, Clone, Debug, PartialEq, Eq, Structural)]
pub struct WorldPosition {
    pub abs: ChunkIdx,
    /// Offset from the chunk's centre.
    pub offset: V2,
}

impl Default for WorldPosition {
    fn default() -> (r: Self)
        ensures
            r == WorldPosition::unset(),
    {
        WorldPosition { abs: ChunkIdx::new(TILE_CHUNK_UNINITIALIZED, 0, 0), offset: V2::default() }
    }
}

impl WorldPosition {
    /// The position of an entity that has no place in the world.
    pub open spec fn unset() -> WorldPosition {
        WorldPosition { abs: ChunkIdx { x: TILE_CHUNK_UNINITIALIZED, y: 0, z: 0 }, offset: V2::zero() }
    }

    /// Whether the position is set.
    pub open spec fn spec_is_valid(&self) -> bool {
        self.abs.x != TILE_CHUNK_UNINITIALIZED
    }

    /// The region-local offset that stands for "nowhere".
    pub fn invalid_offset() -> (r: V2)
        ensures
            r == (V2 { x: 100_000_000_000, y: 100_000_000_000 }),
    {
        V2::new(100_000_000_000, 100_000_000_000)
    }

    /// The centre of chunk (0, 0, 0).
    pub fn origin() -> (r: Self)
        ensures
            r == (WorldPosition { abs: ChunkIdx { x: 0, y: 0, z: 0 }, offset: V2::zero() }),
    {
        WorldPosition { abs: ChunkIdx::default(), offset: V2::default() }
    }

    /// Whether the position is set.
    pub fn is_valid(&self) -> (r: bool)
        ensures
            r == self.spec_is_valid(),
    {
        self.abs.x != TILE_CHUNK_UNINITIALIZED
    }
}

/// The difference of two places, in metres.
#[derive(Copy, Clone, Debug, PartialEq, Eq, Structural)]
pub struct WorldDiff {
    pub xy: V2,
    pub z: i64,
}

/// Tiles along one side of a chunk.
pub const TILES_PER_CHUNK: i32 = 16;

/// Whether `e` stands at `i` in `s`, and nowhere before.
pub open spec fn is_first(s: Seq<usize>, e: usize, i: int) -> bool {
    &&& 0 <= i < s.len()
    &&& s[i] == e
    &&& forall|j: int| 0 <= j < i ==> s[j] != e
}

/// The place of the first `e` in `s`.
pub open spec fn first_index(s: Seq<usize>, e: usize) -> int {
    choose|i: int| is_first(s, e, i)
}

/// `s` with its first `e` taken out: the last item moves to the gap.
pub open spec fn without(s: Seq<usize>, e: usize) -> Seq<usize> {
    s.update(first_index(s, e), s.last()).drop_last()
}

proof fn lemma_first_index(s: Seq<usize>, e: usize, i: int)
    requires
        is_first(s, e, i),
    ensures
        first_index(s, e) == i,
{
    let j = first_index(s, e);
    assert(is_first(s, e, j));
    if j < i {
        assert(s[j] != e);
    } else if i < j {
        assert(s[i] != e);
    }
}

/// Taking `e` out of a list that holds nothing twice leaves a list that
/// holds nothing twice, `e` no more, and every other item still.
pub proof fn lemma_without(s: Seq<usize>, e: usize)
    requires
        s.no_duplicates(),
        s.contains(e),
    ensures
        without(s, e).no_duplicates(),
        !without(s, e).contains(e),
        forall|x: usize| x != e ==> (#[trigger] without(s, e).contains(x) <==> s.contains(x)),
        without(s, e).len() == s.len() - 1,
{
    let i0 = choose|i: int| 0 <= i < s.len() && s[i] == e;
    assert(is_first(s, e, i0)) by {
        assert forall|j: int| 0 <= j < i0 implies s[j] != e by {
            if s[j] == e {
                assert(s[j] == s[i0]);
            }
        }
    }
    lemma_first_index(s, e, i0);
    let w = without(s, e);
    let n = s.len() as int;
    assert forall|a: int, b: int| 0 <= a < w.len() && 0 <= b < w.len() && a != b implies w[a]
        != w[b] by {
        let sa = if a == i0 { n - 1 } else { a };
        let sb = if b == i0 { n - 1 } else { b };
        assert(w[a] == s[sa]);
        assert(w[b] == s[sb]);
    }
    assert(!w.contains(e)) by {
        if w.contains(e) {
            let a = choose|a: int| 0 <= a < w.len() && w[a] == e;
            let sa = if a == i0 { n - 1 } else { a };
            assert(w[a] == s[sa]);
            assert(sa != i0);
        }
    }
    assert forall|x: usize| x != e implies (#[trigger] w.contains(x) <==> s.contains(x)) by {
        if w.contains(x) {
            let a = choose|a: int| 0 <= a < w.len() && w[a] == x;
            let sa = if a == i0 { n - 1 } else { a };
            assert(w[a] == s[sa]);
        }
        if s.contains(x) {
            let b = choose|b: int| 0 <= b < s.len() && s[b] == x;
            assert(b != i0);
            let a = if b == n - 1 { i0 } else { b };
            assert(w[a] == x);
        }
    }
}

/// The members `s` of chunk `c` once entity `e` has gone from `old_p` to
/// `new_p`: unchanged where both are set and in one chunk; else without `e`
/// where `c` is the chunk of a set `old_p`, and with `e` at the end where `c`
/// is the chunk of a set `new_p`.
pub open spec fn moved_members(
    s: Seq<usize>,
    e: usize,
    old_p: WorldPosition,
    new_p: WorldPosition,
    c: ChunkIdx,
) -> Seq<usize> {
    if old_p.spec_is_valid() && new_p.spec_is_valid() && old_p.abs == new_p.abs {
        s
    } else {
        let left = if old_p.spec_is_valid() && c == old_p.abs {
            without(s, e)
        } else {
            s
        };
        if new_p.spec_is_valid() && c == new_p.abs {
            left.push(e)
        } else {
            left
        }
    }
}

/// A move of entity `e` leaves every other entity where it was.
pub proof fn lemma_moved_members_others(
    s: Seq<usize>,
    e: usize,
    old_p: WorldPosition,
    new_p: WorldPosition,
    c: ChunkIdx,
    j: usize,
)
    requires
        s.no_duplicates(),
        old_p.spec_is_valid() && c == old_p.abs ==> s.contains(e),
        j != e,
    ensures
        moved_members(s, e, old_p, new_p, c).contains(j) <==> s.contains(j),
{
    if old_p.spec_is_valid() && new_p.spec_is_valid() && old_p.abs == new_p.abs {
    } else {
        let left = if old_p.spec_is_valid() && c == old_p.abs {
            without(s, e)
        } else {
            s
        };
        if old_p.spec_is_valid() && c == old_p.abs {
            lemma_without(s, e);
        }
        assert(left.contains(j) <==> s.contains(j));
        if new_p.spec_is_valid() && c == new_p.abs {
            let t = left.push(e);
            if t.contains(j) {
                let a = choose|a: int| 0 <= a < t.len() && t[a] == j;
                assert(a < left.len());
                assert(left[a] == j);
            }
            if left.contains(j) {
                let a = choose|a: int| 0 <= a < left.len() && left[a] == j;
                assert(t[a] == j);
            }
        }
    }
}

/// A chunk: the entities that are in it, by their place in the store.
#[derive(Debug)]
pub struct Chunk {
    pub idx: ChunkIdx,
    pub entities: Vec<usize>,
}

impl Clone for Chunk {
    fn clone(&self) -> (r: Self)
        ensures
            r.idx == self.idx,
            r.entities@ == self.entities@,
    {
        let entities = self.entities.clone();
        assert(entities@ =~= self.entities@);
        Chunk { idx: self.idx, entities }
    }
}

impl Chunk {
    /// The chunk `idx`, with no entity in it.
    pub fn new(idx: ChunkIdx) -> (r: Self)
        ensures
            r.idx == idx,
            r.entities@ == Seq::<usize>::empty(),
    {
        Chunk { idx, entities: Vec::new() }
    }

    /// Takes the first `low_entity_idx` out of the chunk and returns it, or
    /// returns `None` and leaves the chunk as it is when it is not there.
    pub fn remove_entity(&mut self, low_entity_idx: usize) -> (r: Option<usize>)
        ensures
            final(self).idx == old(self).idx,
            r is Some <==> old(self).entities@.contains(low_entity_idx),
            r is Some ==> r == Some(low_entity_idx) && final(self).entities@ == without(
                old(self).entities@,
                low_entity_idx,
            ),
            r is None ==> final(self).entities@ == old(self).entities@,
    {
        let mut i: usize = 0;
        while i < self.entities.len()
            invariant
                *self == *old(self),
                i <= self.entities.len(),
                forall|j: int| 0 <= j < i ==> self.entities@[j] != low_entity_idx,
            decreases self.entities.len() - i,
        {
            if self.entities[i] == low_entity_idx {
                proof {
                    lemma_first_index(self.entities@, low_entity_idx, i as int);
                }
                let taken = self.entities.swap_remove(i);
                return Some(taken);
            }
            i += 1;
        }
        None
    }

    /// The entities in the chunk.
    pub fn entities(&self) -> (r: &[usize])
        ensures
            r@ == self.entities@,
    {
        self.entities.as_slice()
    }
}

/// A tile of the world.
#[derive(Copy, Clone, Debug, PartialEq, Eq, Structural)]
pub struct Tile {
    pub kind: TileKind,
}

/// What a tile is.
#[derive(Copy, Clone, Debug, PartialEq, Eq, Structural)]
pub enum TileKind {
    Wall,
    Ground,
}

/// The world: the size of a tile and of a chunk, the chunks that hold
/// entities, and the tiles that are walls.
#[derive(Debug)]
pub struct World {
    pub middle: i32,
    /// Side of a tile, in metres.
    pub tile_side: i64,
    /// Side of a chunk, in metres.
    pub chunk_side: i64,
    /// The chunks, each under the key of its index.
    pub chunks: HashMap<u128, Chunk>,
    pub walls: Vec<(i32, i32, i32)>,
}

/// Tiles across one screen.
pub const TILES_PER_WIDTH: i32 = 17;

/// Tiles down one screen.
pub const TILES_PER_HEIGHT: i32 = 9;

/// Whether the tile at (`tile_x`, `tile_y`) of a screen is a wall: the border
/// of the screen, but for a door in the middle of each side.
pub open spec fn is_wall_tile(tile_x: int, tile_y: int) -> bool {
    if tile_x == 0 || tile_x == TILES_PER_WIDTH - 1 {
        tile_y != 4
    } else if tile_y == 0 || tile_y == TILES_PER_HEIGHT - 1 {
        tile_x != 8
    } else {
        false
    }
}

/// The wall tiles among the first `n` tiles of the three by three screens,
/// counted screen by screen and, in a screen, row by row.
pub open spec fn wall_list(middle: int, n: nat) -> Seq<(i32, i32, i32)>
    decreases n,
{
    if n == 0 {
        Seq::empty()
    } else {
        let i = (n - 1) as int;
        let tile_x = i % 17;
        let tile_y = (i / 17) % 9;
        let screen_x = (i / 153) % 3;
        let screen_y = i / 459;
        let before = wall_list(middle, (n - 1) as nat);
        if is_wall_tile(tile_x, tile_y) {
            before.push(
                (
                    (screen_x * 17 + tile_x + middle) as i32,
                    (screen_y * 9 + tile_y + middle) as i32,
                    middle as i32,
                ),
            )
        } else {
            before
        }
    }
}

proof fn lemma_wall_list_step(middle: int, screen_y: int, screen_x: int, tile_y: int, tile_x: int)
    requires
        0 <= screen_y < 3,
        0 <= screen_x < 3,
        0 <= tile_y < 9,
        0 <= tile_x < 17,
    ensures
        ({
            let i = screen_y * 459 + screen_x * 153 + tile_y * 17 + tile_x;
            let before = wall_list(middle, i as nat);
            wall_list(middle, (i + 1) as nat) == if is_wall_tile(tile_x, tile_y) {
                before.push(
                    (
                        (screen_x * 17 + tile_x + middle) as i32,
                        (screen_y * 9 + tile_y + middle) as i32,
                        middle as i32,
                    ),
                )
            } else {
                before
            }
        }),
{
    let i = screen_y * 459 + screen_x * 153 + tile_y * 17 + tile_x;
    assert(i % 17 == tile_x);
    assert(i / 17 == screen_y * 27 + screen_x * 9 + tile_y);
    assert((i / 17) % 9 == tile_y);
    assert(i / 153 == screen_y * 3 + screen_x);
    assert((i / 153) % 3 == screen_x);
    assert(i / 459 == screen_y);
}

impl World {
    /// Whether the world has a chunk at `c`.
    pub open spec fn has_chunk(&self, c: ChunkIdx) -> bool {
        self.chunks@.contains_key(c.spec_key())
    }

    /// The entities in chunk `c`; none where the world has no such chunk.
    pub open spec fn members(&self, c: ChunkIdx) -> Seq<usize> {
        if self.has_chunk(c) {
            self.chunks@[c.spec_key()].entities@
        } else {
            Seq::empty()
        }
    }

    /// Whether entity `e` is in chunk `c`.
    pub open spec fn holds(&self, c: ChunkIdx, e: usize) -> bool {
        self.members(c).contains(e)
    }

    /// Whether the chunks hold entity `e` where the position `p` says: in
    /// the chunk of `p` and no other, or in none when `p` is unset.
    pub open spec fn tracks(&self, e: usize, p: WorldPosition) -> bool {
        forall|c: ChunkIdx| #[trigger] self.holds(c, e) <==> (p.spec_is_valid() && c == p.abs)
    }

    /// The invariant of the world: a chunk is sixteen tiles wide, every chunk
    /// stands under its own key, no chunk holds an entity twice, and no two
    /// chunks hold the same entity.
    pub open spec fn wf(&self) -> bool {
        &&& self.tile_side > 0
        &&& self.chunk_side == TILES_PER_CHUNK * self.tile_side
        &&& forall|c: ChunkIdx| #[trigger]
            self.has_chunk(c) ==> self.chunks@[c.spec_key()].idx == c
        &&& forall|k: u128| #[trigger]
            self.chunks@.contains_key(k) ==> self.chunks@[k].idx.spec_key() == k
        &&& forall|c: ChunkIdx| #[trigger] self.members(c).no_duplicates()
        &&& forall|c1: ChunkIdx, c2: ChunkIdx, e: usize|
            #[trigger] self.holds(c1, e) && #[trigger] self.holds(c2, e) ==> c1 == c2
    }

    /// Whether an offset is within half a chunk of the centre.
    pub open spec fn spec_is_canonical(&self, rel: i64) -> bool {
        2 * spec_abs(rel as int) <= self.chunk_side
    }

    /// Whether a position is in canonical form: both offsets within half a
    /// chunk of the centre.
    pub open spec fn canonical(&self, p: WorldPosition) -> bool {
        self.spec_is_canonical(p.offset.x) && self.spec_is_canonical(p.offset.y)
    }

    /// How many chunks the offset `rel` reaches over.
    pub open spec fn carry(&self, rel: int) -> int {
        round_div(rel, self.chunk_side as int)
    }

    /// Whether `offset` from `base` is a place whose chunk coordinates are
    /// within the `i32` range.
    pub open spec fn reachable(&self, base: WorldPosition, offset: V2) -> bool {
        &&& i32::MIN <= base.abs.x + self.carry(spec_add(base.offset.x as int, offset.x as int))
            <= i32::MAX
        &&& i32::MIN <= base.abs.y + self.carry(spec_add(base.offset.y as int, offset.y as int))
            <= i32::MAX
    }

    /// The place at `offset` from `base`, in canonical form.
    pub open spec fn spec_map(&self, base: WorldPosition, offset: V2) -> WorldPosition {
        let sx = spec_add(base.offset.x as int, offset.x as int);
        let sy = spec_add(base.offset.y as int, offset.y as int);
        WorldPosition {
            abs: ChunkIdx {
                x: (base.abs.x + self.carry(sx)) as i32,
                y: (base.abs.y + self.carry(sy)) as i32,
                z: base.abs.z,
            },
            offset: V2 {
                x: (sx - self.carry(sx) * self.chunk_side) as i64,
                y: (sy - self.carry(sy) * self.chunk_side) as i64,
            },
        }
    }

    /// The way from `b` to `a`, in metres.
    pub open spec fn spec_substract(&self, a: WorldPosition, b: WorldPosition) -> WorldDiff {
        WorldDiff {
            xy: V2 {
                x: sat(self.chunk_side * (a.abs.x - b.abs.x) + (a.offset.x - b.offset.x)) as i64,
                y: sat(self.chunk_side * (a.abs.y - b.abs.y) + (a.offset.y - b.offset.y)) as i64,
            },
            z: sat(self.chunk_side * (a.abs.z - b.abs.z)) as i64,
        }
    }

    /// The centre of the tile (`abs_x`, `abs_y`, `abs_z`), before it is brought
    /// into canonical form.
    pub open spec fn tile_point(&self, abs_x: i32, abs_y: i32, abs_z: i32) -> WorldPosition {
        let cx = tdiv(abs_x as int, TILES_PER_CHUNK as int);
        let cy = tdiv(abs_y as int, TILES_PER_CHUNK as int);
        let cz = tdiv(abs_z as int, TILES_PER_CHUNK as int);
        WorldPosition {
            abs: ChunkIdx { x: cx as i32, y: cy as i32, z: cz as i32 },
            offset: V2 {
                x: spec_times(abs_x - cx * TILES_PER_CHUNK, self.tile_side as int) as i64,
                y: spec_times(abs_y - cy * TILES_PER_CHUNK, self.tile_side as int) as i64,
            },
        }
    }

    /// The place of the centre of the tile (`abs_x`, `abs_y`, `abs_z`).
    pub open spec fn spec_position_at_tile(&self, abs_x: i32, abs_y: i32, abs_z: i32)
        -> WorldPosition {
        self.spec_map(self.tile_point(abs_x, abs_y, abs_z), V2::zero())
    }

    /// The world of three by three screens, with no chunk yet.
    pub fn new() -> (r: Self)
        ensures
            r.wf(),
            r.middle == 0,
            r.tile_side == 1_400_000,
            r.chunk_side == 22_400_000,
            r.chunks@ == Map::<u128, Chunk>::empty(),
            r.walls@ == wall_list(0, 1377),
    {
        let tile_side: i64 = 1_400_000;
        let chunk_side: i64 = 16 * tile_side;
        let mut result = World {
            middle: 0,
            tile_side,
            chunk_side,
            chunks: HashMap::new(),
            walls: Vec::new(),
        };
        result.dummy_world();
        assert(result.walls@ =~= wall_list(0, 1377));
        assert forall|c: ChunkIdx| #[trigger] result.members(c).no_duplicates() by {
            assert(result.members(c) =~= Seq::<usize>::empty());
        }
        result
    }

    /// Adds the wall tiles of the three by three screens to `walls`.
    pub fn dummy_world(&mut self)
        requires
            old(self).middle <= i32::MAX - 50,
        ensures
            final(self).walls@ == old(self).walls@ + wall_list(old(self).middle as int, 1377),
            final(self).middle == old(self).middle,
            final(self).tile_side == old(self).tile_side,
            final(self).chunk_side == old(self).chunk_side,
            final(self).chunks == old(self).chunks,
    {
        let mut screen_y: i32 = 0;
        assert(self.walls@ =~= old(self).walls@ + wall_list(self.middle as int, 0));
        while screen_y < 3
            invariant
                0 <= screen_y <= 3,
                self.middle <= i32::MAX - 50,
                self.walls@ == old(self).walls@ + wall_list(
                    self.middle as int,
                    (screen_y * 459) as nat,
                ),
                self.middle == old(self).middle,
                self.tile_side == old(self).tile_side,
                self.chunk_side == old(self).chunk_side,
                self.chunks == old(self).chunks,
            decreases 3 - screen_y,
        {
            let mut screen_x: i32 = 0;
            while screen_x < 3
                invariant
                    0 <= screen_y < 3,
                    0 <= screen_x <= 3,
                    self.middle <= i32::MAX - 50,
                    self.walls@ == old(self).walls@ + wall_list(
                        self.middle as int,
                        (screen_y * 459 + screen_x * 153) as nat,
                    ),
                    self.middle == old(self).middle,
                    self.tile_side == old(self).tile_side,
                    self.chunk_side == old(self).chunk_side,
                    self.chunks == old(self).chunks,
                decreases 3 - screen_x,
            {
                let mut tile_y: i32 = 0;
                while tile_y < TILES_PER_HEIGHT
                    invariant
                        0 <= screen_y < 3,
                        0 <= screen_x < 3,
                        0 <= tile_y <= 9,
                        self.middle <= i32::MAX - 50,
                        self.walls@ == old(self).walls@ + wall_list(
                            self.middle as int,
                            (screen_y * 459 + screen_x * 153 + tile_y * 17) as nat,
                        ),
                        self.middle == old(self).middle,
                        self.tile_side == old(self).tile_side,
                        self.chunk_side == old(self).chunk_side,
                        self.chunks == old(self).chunks,
                    decreases 9 - tile_y,
                {
                    let mut tile_x: i32 = 0;
                    while tile_x < TILES_PER_WIDTH
                        invariant
                            0 <= screen_y < 3,
                            0 <= screen_x < 3,
                            0 <= tile_y < 9,
                            0 <= tile_x <= 17,
                            self.middle <= i32::MAX - 50,
                            self.walls@ == old(self).walls@ + wall_list(
                                self.middle as int,
                                (screen_y * 459 + screen_x * 153 + tile_y * 17 + tile_x) as nat,
                            ),
                            self.middle == old(self).middle,
                            self.tile_side == old(self).tile_side,
                            self.chunk_side == old(self).chunk_side,
                            self.chunks == old(self).chunks,
                        decreases 17 - tile_x,
                    {
                        let abs_x: i32 = screen_x * TILES_PER_WIDTH + tile_x;
                        let abs_y: i32 = screen_y * TILES_PER_HEIGHT + tile_y;
                        let wall = if tile_x == 0 || tile_x == TILES_PER_WIDTH - 1 {
                            tile_y != 4
                        } else if tile_y == 0 || tile_y == TILES_PER_HEIGHT - 1 {
                            tile_x != 8
                        } else {
                            false
                        };
                        let ghost i: int = screen_y * 459 + screen_x * 153 + tile_y * 17 + tile_x;
                        proof {
                            lemma_wall_list_step(
                                self.middle as int,
                                screen_y as int,
                                screen_x as int,
                                tile_y as int,
                                tile_x as int,
                            );
                        }
                        if wall {
                            self.walls.push(
                                (abs_x + self.middle, abs_y + self.middle, self.middle),
                            );
                            assert(self.walls@ =~= old(self).walls@ + wall_list(
                                self.middle as int,
                                (i + 1) as nat,
                            ));
                        }
                        tile_x += 1;
                    }
                    tile_y += 1;
                }
                screen_x += 1;
            }
            screen_y += 1;
        }
    }

    /// How many chunks the world has.
    pub fn chunk_count(&self) -> (r: usize)
        ensures
            r == self.chunks@.len(),
    {
        self.chunks.len()
    }

    /// The chunk at `idx`, or `None` where no entity was ever put there.
    pub fn chunk(&self, idx: ChunkIdx) -> (r: Option<&Chunk>)
        ensures
            r is Some <==> self.has_chunk(idx),
            r is Some ==> *r->0 == self.chunks@[idx.spec_key()] && r->0.entities@ == self.members(
                idx,
            ),
    {
        let key = idx.key();
        self.chunks.get(&key)
    }

    /// Whether an offset is within half a chunk of the centre.
    pub fn is_canonical(&self, rel: i64) -> (r: bool)
        ensures
            r == self.spec_is_canonical(rel),
    {
        let twice: i128 = 2 * fx_abs(rel);
        twice <= self.chunk_side as i128
    }

    /// Whether two positions in canonical form are in one chunk.
    pub fn same_chunk(&self, a: WorldPosition, b: WorldPosition) -> (r: bool)
        requires
            self.canonical(a),
            self.canonical(b),
        ensures
            r == (a.abs == b.abs),
    {
        a.abs.x == b.abs.x && a.abs.y == b.abs.y && a.abs.z == b.abs.z
    }

    /// Brings one coordinate into canonical form: moves whole chunks from the
    /// offset `rel` into the chunk coordinate `pos`.
    pub fn recanonicalize_coord(&self, pos: i32, rel: i64) -> (r: (i32, i64))
        requires
            self.wf(),
            i32::MIN <= pos + self.carry(rel as int) <= i32::MAX,
        ensures
            r.0 == pos + self.carry(rel as int),
            r.1 == rel - self.carry(rel as int) * self.chunk_side,
            self.spec_is_canonical(r.1),
    {
        let offset: i64 = fx_round_div(rel, self.chunk_side);
        let new_pos: i64 = pos as i64 + offset;
        proof {
            lemma_round_div_remainder(rel as int, self.chunk_side as int);
            lemma_product_fits(offset as int, self.chunk_side as int);
        }
        let new_rel: i128 = (rel as i128) - (offset as i128) * (self.chunk_side as i128);
        (new_pos as i32, new_rel as i64)
    }

    /// Whether `offset` from `base` is a place whose chunk coordinates are
    /// within the `i32` range.
    pub fn can_map(&self, base: WorldPosition, offset: V2) -> (r: bool)
        requires
            self.wf(),
        ensures
            r == self.reachable(base, offset),
    {
        let cx: i64 = fx_round_div(fx_add(base.offset.x, offset.x), self.chunk_side);
        let cy: i64 = fx_round_div(fx_add(base.offset.y, offset.y), self.chunk_side);
        let nx: i128 = base.abs.x as i128 + cx as i128;
        let ny: i128 = base.abs.y as i128 + cy as i128;
        i32::MIN as i128 <= nx && nx <= i32::MAX as i128 && i32::MIN as i128 <= ny && ny
            <= i32::MAX as i128
    }

    /// The place at `offset` from `base`, in canonical form: for each axis
    /// the offsets are added, the nearest whole number of chunks goes into
    /// the chunk coordinate, and the rest stays as the offset.
    pub fn map_into_chunk_space(&self, base_position: WorldPosition, offset: V2) -> (r:
        WorldPosition)
        requires
            self.wf(),
            self.reachable(base_position, offset),
        ensures
            r == self.spec_map(base_position, offset),
            self.canonical(r),
    {
        let sum = base_position.offset.plus(offset);
        let (abs_x, x) = self.recanonicalize_coord(base_position.abs.x, sum.x());
        let (abs_y, y) = self.recanonicalize_coord(base_position.abs.y, sum.y());
        WorldPosition {
            abs: ChunkIdx { x: abs_x, y: abs_y, z: base_position.abs.z },
            offset: V2::new(x, y),
        }
    }

    /// The place of the centre of the tile (`abs_x`, `abs_y`, `abs_z`).
    pub fn position_at_tile(&self, abs_x: i32, abs_y: i32, abs_z: i32) -> (r: WorldPosition)
        requires
            self.wf(),
        ensures
            r == self.spec_position_at_tile(abs_x, abs_y, abs_z),
            self.canonical(r),
            -0x0800_0001 <= r.abs.x <= 0x0800_0001,
            -0x0800_0001 <= r.abs.y <= 0x0800_0001,
    {
        let cx: i32 = abs_x / TILES_PER_CHUNK;
        let cy: i32 = abs_y / TILES_PER_CHUNK;
        let cz: i32 = abs_z / TILES_PER_CHUNK;
        let x: i64 = fx_times((abs_x - cx * TILES_PER_CHUNK) as i64, self.tile_side);
        let y: i64 = fx_times((abs_y - cy * TILES_PER_CHUNK) as i64, self.tile_side);
        let pos = WorldPosition { abs: ChunkIdx { x: cx, y: cy, z: cz }, offset: V2::new(x, y) };
        proof {
            self.lemma_tile_point_reachable(abs_x, abs_y, abs_z);
        }
        self.map_into_chunk_space(pos, V2::default())
    }

    /// The centre of a tile is always a place within reach.
    pub proof fn lemma_tile_point_reachable(&self, abs_x: i32, abs_y: i32, abs_z: i32)
        requires
            self.wf(),
        ensures
            self.reachable(self.tile_point(abs_x, abs_y, abs_z), V2::zero()),
            -0x0800_0001 <= self.spec_position_at_tile(abs_x, abs_y, abs_z).abs.x <= 0x0800_0001,
            -0x0800_0001 <= self.spec_position_at_tile(abs_x, abs_y, abs_z).abs.y <= 0x0800_0001,
    {
        let p = self.tile_point(abs_x, abs_y, abs_z);
        let cx = tdiv(abs_x as int, 16);
        let cy = tdiv(abs_y as int, 16);
        let nx = abs_x - cx * 16;
        let ny = abs_y - cy * 16;
        assert(-16 < nx < 16 && -16 < ny < 16);
        let t = self.tile_side as int;
        assert(-16 * t <= nx * t <= 16 * t && -16 * t <= ny * t <= 16 * t) by (nonlinear_arith)
            requires
                -16 < nx < 16,
                -16 < ny < 16,
                t > 0,
        ;
        lemma_round_div_small(nx * t, self.chunk_side as int);
        lemma_round_div_small(ny * t, self.chunk_side as int);
    }

    /// The way from `b` to `a`, in metres: the chunks between them, each a
    /// chunk side long, and the difference of the offsets.
    pub fn substract(&self, a: WorldPosition, b: WorldPosition) -> (r: WorldDiff)
        ensures
            r == self.spec_substract(a, b),
    {
        let side: i128 = self.chunk_side as i128;
        let dx: i128 = a.abs.x as i128 - b.abs.x as i128;
        let dy: i128 = a.abs.y as i128 - b.abs.y as i128;
        let dz: i128 = a.abs.z as i128 - b.abs.z as i128;
        proof {
            lemma_product_fits(self.chunk_side as int, dx as int);
            lemma_product_fits(self.chunk_side as int, dy as int);
            lemma_product_fits(self.chunk_side as int, dz as int);
        }
        let x: i128 = side * dx + (a.offset.x as i128 - b.offset.x as i128);
        let y: i128 = side * dy + (a.offset.y as i128 - b.offset.y as i128);
        let z: i128 = side * dz;
        WorldDiff { xy: V2::new(fx_clamp(x), fx_clamp(y)), z: fx_clamp(z) }
    }

    /// Where the monster starts: the centre of the tile (9, 5, 0).
    pub open spec fn spec_initial_monster(&self) -> WorldPosition {
        self.spec_map(self.spec_position_at_tile(9, 5, 0), V2::zero())
    }

    /// Where the player starts: the centre of the tile (8, 4, 0).
    pub open spec fn spec_initial_player(&self) -> WorldPosition {
        self.spec_map(self.spec_position_at_tile(8, 4, 0), V2::zero())
    }

    /// Where the camera starts: a metre and a half up and right of the
    /// centre of chunk (0, 0, 0).
    pub open spec fn spec_initial_camera(&self) -> WorldPosition {
        self.spec_map(
            WorldPosition {
                abs: ChunkIdx { x: 0, y: 0, z: 0 },
                offset: V2 { x: 1_500_000, y: 1_500_000 },
            },
            V2::zero(),
        )
    }

    /// Where the monster starts.
    pub fn initial_monster(&self) -> (r: WorldPosition)
        requires
            self.wf(),
        ensures
            r == self.spec_initial_monster(),
            self.canonical(r),
    {
        let center = self.position_at_tile(17 / 2 + 1, 9 / 2 + 1, 0);
        proof {
            self.lemma_canonical_reachable(center);
        }
        self.map_into_chunk_space(center, V2::default())
    }

    /// Where the player starts.
    pub fn initial_player(&self) -> (r: WorldPosition)
        requires
            self.wf(),
        ensures
            r == self.spec_initial_player(),
            self.canonical(r),
    {
        let center = self.position_at_tile(17 / 2, 9 / 2, 0);
        proof {
            self.lemma_canonical_reachable(center);
        }
        self.map_into_chunk_space(center, V2::default())
    }

    /// Where the camera starts: a metre and a half up and right of the
    /// centre of chunk (0, 0, 0).
    pub fn initial_camera(&self) -> (r: WorldPosition)
        requires
            self.wf(),
        ensures
            r == self.spec_initial_camera(),
            self.canonical(r),
    {
        let center = WorldPosition { offset: V2::new(1_500_000, 1_500_000), abs: ChunkIdx::default() };
        proof {
            lemma_round_div_bound(1_500_000, self.chunk_side as int);
        }
        self.map_into_chunk_space(center, V2::default())
    }

    /// A position in canonical form whose chunk is not at the very edge of
    /// the grid can be brought into canonical form again.
    pub proof fn lemma_canonical_reachable(&self, p: WorldPosition)
        requires
            self.wf(),
            self.canonical(p),
            i32::MIN < p.abs.x < i32::MAX,
            i32::MIN < p.abs.y < i32::MAX,
        ensures
            self.reachable(p, V2::zero()),
    {
        lemma_round_div_small(p.offset.x as int, self.chunk_side as int);
        lemma_round_div_small(p.offset.y as int, self.chunk_side as int);
    }

    /// Moves entity `low_entity_idx` from where `entity` says it is to
    /// `new_p`. Where both are set and in one chunk, no chunk changes.
    /// Otherwise the entity leaves the chunk of its old position, if that was
    /// set, and enters the chunk of `new_p`, if that is set; the chunk is made
    /// if the world has none there. The entity then holds `new_p` and has a
    /// place, or holds the unset position and has none.
    pub fn change_entity_chunks(
        &mut self,
        low_entity_idx: usize,
        entity: &mut LowEntity,
        new_p: WorldPosition,
    )
        requires
            old(self).wf(),
            old(self).tracks(low_entity_idx, old(entity).p),
            old(entity).p.spec_is_valid() && new_p.spec_is_valid() ==> old(self).canonical(
                old(entity).p,
            ) && old(self).canonical(new_p),
        ensures
            final(self).wf(),
            final(self).tracks(low_entity_idx, final(entity).p),
            final(self).middle == old(self).middle,
            final(self).tile_side == old(self).tile_side,
            final(self).chunk_side == old(self).chunk_side,
            final(self).walls == old(self).walls,
            final(entity).p == (if new_p.spec_is_valid() {
                new_p
            } else {
                WorldPosition::unset()
            }),
            final(entity).entity@ == (SimEntityView {
                spatial: new_p.spec_is_valid(),
                ..old(entity).entity@
            }),
            forall|c: ChunkIdx| #[trigger]
                final(self).members(c) == old(self).members_after(
                    low_entity_idx,
                    old(entity).p,
                    new_p,
                    c,
                ),
            forall|c: ChunkIdx| #[trigger]
                final(self).has_chunk(c) == (old(self).has_chunk(c) || (new_p.spec_is_valid()
                    && c == new_p.abs && !(old(entity).p.spec_is_valid() && old(entity).p.abs
                    == new_p.abs))),
            forall|c: ChunkIdx, j: usize|
                j != low_entity_idx ==> (#[trigger] final(self).holds(c, j) <==> old(self).holds(
                    c,
                    j,
                )),
    {
        let old_p = entity.p;
        let old_valid = old_p.is_valid();
        let new_valid = new_p.is_valid();
        let same = old_valid && new_valid && self.same_chunk(old_p, new_p);
        if !same {
            if old_valid {
                self.take_out(low_entity_idx, old_p.abs);
            }
            if new_valid {
                self.put_in(low_entity_idx, new_p.abs);
            }
        }
        if new_valid {
            entity.p = new_p;
            entity.entity.spatial = true;
        } else {
            entity.p = WorldPosition::default();
            entity.entity.spatial = false;
        }
        proof {
            assert forall|c: ChunkIdx| #[trigger]
                final(self).members(c) == old(self).members_after(
                    low_entity_idx,
                    old_p,
                    new_p,
                    c,
                ) by {}
            assert forall|c: ChunkIdx, j: usize| j != low_entity_idx implies (#[trigger] final(
                self).holds(c, j) <==> old(self).holds(c, j)) by {
                assert(old(self).holds(c, low_entity_idx) <==> (old_p.spec_is_valid() && c
                    == old_p.abs));
                lemma_moved_members_others(
                    old(self).members(c),
                    low_entity_idx,
                    old_p,
                    new_p,
                    c,
                    j,
                );
            }
        }
    }

    /// Takes entity `e` out of chunk `c`, which holds it.
    fn take_out(&mut self, e: usize, c: ChunkIdx)
        requires
            old(self).wf(),
            old(self).holds(c, e),
        ensures
            final(self).wf(),
            final(self).middle == old(self).middle,
            final(self).tile_side == old(self).tile_side,
            final(self).chunk_side == old(self).chunk_side,
            final(self).walls == old(self).walls,
            forall|d: ChunkIdx| #[trigger] final(self).has_chunk(d) == old(self).has_chunk(d),
            final(self).members(c) == without(old(self).members(c), e),
            forall|d: ChunkIdx| d != c ==> #[trigger] final(self).members(d) == old(self).members(d),
            forall|d: ChunkIdx| !#[trigger] final(self).holds(d, e),
    {
        let key = c.key();
        let taken = self.chunks.remove(&key);
        proof {
            lemma_without(old(self).members(c), e);
        }
        match taken {
            Some(mut chunk) => {
                let _ = chunk.remove_entity(e);
                self.chunks.insert(key, chunk);
            },
            None => {
                proof {
                    assert(old(self).has_chunk(c));
                    assert(false);
                }
            },
        }
        proof {
            assert forall|d: ChunkIdx| d != c implies #[trigger] final(self).members(d)
                == old(self).members(d) && final(self).has_chunk(d) == old(self).has_chunk(d) by {
                ChunkIdx::lemma_key_injective(c, d);
            }
            assert(final(self).members(c) == without(old(self).members(c), e));
            assert forall|d: ChunkIdx| !#[trigger] final(self).holds(d, e) by {
                if d != c {
                    assert(final(self).members(d) == old(self).members(d));
                    if old(self).holds(d, e) {
                        assert(old(self).holds(c, e));
                    }
                }
            }
            assert forall|d: ChunkIdx| #[trigger] final(self).members(d).no_duplicates() by {
                if d != c {
                    assert(final(self).members(d) == old(self).members(d));
                }
            }
            assert forall|c1: ChunkIdx, c2: ChunkIdx, x: usize|
                #[trigger] final(self).holds(c1, x) && #[trigger] final(self).holds(
                    c2,
                    x,
                ) implies c1 == c2 by {
                assert(x != e);
                assert(old(self).holds(c1, x)) by {
                    if c1 != c {
                        assert(final(self).members(c1) == old(self).members(c1));
                    }
                }
                assert(old(self).holds(c2, x)) by {
                    if c2 != c {
                        assert(final(self).members(c2) == old(self).members(c2));
                    }
                }
            }
            assert forall|k: u128| #[trigger] final(self).chunks@.contains_key(k) implies
                final(self).chunks@[k].idx.spec_key() == k by {
                if k != key {
                    assert(old(self).chunks@.contains_key(k));
                }
            }
            assert forall|d: ChunkIdx| #[trigger] final(self).has_chunk(d) implies
                final(self).chunks@[d.spec_key()].idx == d by {
                if d != c {
                    ChunkIdx::lemma_key_injective(c, d);
                    assert(old(self).has_chunk(d));
                }
            }
        }
    }

    /// Puts entity `e`, which no chunk holds, into chunk `c`; makes the chunk
    /// if the world has none there.
    fn put_in(&mut self, e: usize, c: ChunkIdx)
        requires
            old(self).wf(),
            forall|d: ChunkIdx| !#[trigger] old(self).holds(d, e),
        ensures
            final(self).wf(),
            final(self).middle == old(self).middle,
            final(self).tile_side == old(self).tile_side,
            final(self).chunk_side == old(self).chunk_side,
            final(self).walls == old(self).walls,
            forall|d: ChunkIdx| #[trigger] final(self).has_chunk(d) == (old(self).has_chunk(d) || d == c),
            final(self).members(c) == old(self).members(c).push(e),
            forall|d: ChunkIdx| d != c ==> #[trigger] final(self).members(d) == old(self).members(d),
            forall|d: ChunkIdx| #[trigger] final(self).holds(d, e) <==> d == c,
    {
        let key = c.key();
        let taken = self.chunks.remove(&key);
        let mut chunk = match taken {
            Some(chunk) => chunk,
            None => Chunk::new(c),
        };
        assert(chunk.entities@ =~= old(self).members(c));
        assert(chunk.idx == c) by {
            if old(self).has_chunk(c) {
                assert(old(self).chunks@[c.spec_key()].idx == c);
            }
        }
        chunk.entities.push(e);
        self.chunks.insert(key, chunk);
        proof {
            assert(!old(self).holds(c, e));
            assert(final(self).members(c) == old(self).members(c).push(e));
            assert(final(self).holds(c, e)) by {
                let s = old(self).members(c);
                assert(s.push(e)[s.len() as int] == e);
            }
            assert forall|d: ChunkIdx| d != c implies #[trigger] final(self).members(d)
                == old(self).members(d) && final(self).has_chunk(d) == old(self).has_chunk(d) by {
                ChunkIdx::lemma_key_injective(c, d);
            }
            assert forall|d: ChunkIdx| d != c implies !#[trigger] final(self).holds(d, e) by {
                assert(final(self).members(d) == old(self).members(d));
                assert(!old(self).holds(d, e));
            }
            assert forall|d: ChunkIdx| #[trigger] final(self).members(d).no_duplicates() by {
                if d != c {
                    assert(final(self).members(d) == old(self).members(d));
                } else {
                    let s = old(self).members(c);
                    assert(s.no_duplicates());
                    assert(!s.contains(e));
                    assert forall|a: int, b: int|
                        0 <= a < s.push(e).len() && 0 <= b < s.push(e).len() && a
                            != b implies s.push(e)[a] != s.push(e)[b] by {
                        if a == s.len() {
                            assert(s[b] != e);
                        } else if b == s.len() {
                            assert(s[a] != e);
                        }
                    }
                }
            }
            assert forall|c1: ChunkIdx, c2: ChunkIdx, x: usize|
                #[trigger] final(self).holds(c1, x) && #[trigger] final(self).holds(
                    c2,
                    x,
                ) implies c1 == c2 by {
                let s = old(self).members(c);
                if c1 != c {
                    assert(final(self).members(c1) == old(self).members(c1));
                    assert(old(self).holds(c1, x));
                }
                if c2 != c {
                    assert(final(self).members(c2) == old(self).members(c2));
                    assert(old(self).holds(c2, x));
                }
                if c1 == c && c2 != c {
                    let a = choose|a: int| 0 <= a < s.push(e).len() && s.push(e)[a] == x;
                    if a < s.len() {
                        assert(s[a] == x);
                        assert(old(self).holds(c, x));
                    }
                }
                if c2 == c && c1 != c {
                    let a = choose|a: int| 0 <= a < s.push(e).len() && s.push(e)[a] == x;
                    if a < s.len() {
                        assert(s[a] == x);
                        assert(old(self).holds(c, x));
                    }
                }
            }
            assert forall|k: u128| #[trigger] final(self).chunks@.contains_key(k) implies
                final(self).chunks@[k].idx.spec_key() == k by {
                if k != key {
                    assert(old(self).chunks@.contains_key(k));
                }
            }
            assert forall|d: ChunkIdx| #[trigger] final(self).has_chunk(d) implies
                final(self).chunks@[d.spec_key()].idx == d by {
                if d != c {
                    ChunkIdx::lemma_key_injective(c, d);
                    assert(old(self).has_chunk(d));
                }
            }
        }
    }

    /// The members of chunk `c` once entity `e` has gone from `old_p` to
    /// `new_p`.
    pub open spec fn members_after(
        &self,
        e: usize,
        old_p: WorldPosition,
        new_p: WorldPosition,
        c: ChunkIdx,
    ) -> Seq<usize> {
        moved_members(self.members(c), e, old_p, new_p, c)
    }
}

/// No entity is in two chunks: an entity that a well-formed world holds in
/// a chunk is held in no other, and where the world tracks the position of
/// the entity, that chunk is the chunk of the position.
pub proof fn lemma_in_one_chunk(w: &World, e: usize, c1: ChunkIdx, c2: ChunkIdx, p: WorldPosition)
    requires
        w.wf(),
        w.holds(c1, e),
    ensures
        w.holds(c2, e) ==> c1 == c2,
        w.tracks(e, p) ==> p.spec_is_valid() && c1 == p.abs,
        w.members(c1).no_duplicates(),
{
}

/// Bringing a position into canonical form: the result is in canonical
/// form, it is the same place as before, and a position whose offsets are
/// nearer to the centre than half a chunk comes back unchanged.
pub proof fn lemma_canonical_form_is_stable(w: &World, p: WorldPosition)
    requires
        w.wf(),
        w.reachable(p, V2::zero()),
    ensures
        w.canonical(w.spec_map(p, V2::zero())),
        w.spec_substract(w.spec_map(p, V2::zero()), p).xy == V2::zero(),
        w.spec_substract(w.spec_map(p, V2::zero()), p).z == 0,
        2 * spec_abs(p.offset.x as int) < w.chunk_side && 2 * spec_abs(p.offset.y as int)
            < w.chunk_side ==> w.spec_map(p, V2::zero()) == p,
{
    let side = w.chunk_side as int;
    let cx = w.carry(p.offset.x as int);
    let cy = w.carry(p.offset.y as int);
    lemma_round_div_remainder(p.offset.x as int, side);
    lemma_round_div_remainder(p.offset.y as int, side);
    assert(side * cx + (p.offset.x - cx * side - p.offset.x) == 0) by (nonlinear_arith);
    assert(side * cy + (p.offset.y - cy * side - p.offset.y) == 0) by (nonlinear_arith);
    assert(side * 0 == 0);
    if 2 * spec_abs(p.offset.x as int) < side {
        assert(cx * side == 0) by (nonlinear_arith)
            requires
                cx == 0,
        ;
    }
    if 2 * spec_abs(p.offset.y as int) < side {
        assert(cy * side == 0) by (nonlinear_arith)
            requires
                cy == 0,
        ;
    }
}

/// The way from `b` to the place at `d` from `b` is `d`, for every `d` that
/// can be added to the offset of `b` within the `i64` range.
pub proof fn lemma_substract_inverts_map(w: &World, b: WorldPosition, d: V2)
    requires
        w.wf(),
        w.reachable(b, d),
        i64::MIN <= b.offset.x + d.x <= i64::MAX,
        i64::MIN <= b.offset.y + d.y <= i64::MAX,
    ensures
        w.spec_substract(w.spec_map(b, d), b).xy == d,
        w.spec_substract(w.spec_map(b, d), b).z == 0,
{
    let side = w.chunk_side as int;
    let sx = b.offset.x + d.x;
    let sy = b.offset.y + d.y;
    let cx = w.carry(sx);
    let cy = w.carry(sy);
    lemma_round_div_remainder(sx, side);
    lemma_round_div_remainder(sy, side);
    assert(side * cx + (sx - cx * side - b.offset.x) == d.x) by (nonlinear_arith)
        requires
            sx == b.offset.x + d.x,
    ;
    assert(side * cy + (sy - cy * side - b.offset.y) == d.y) by (nonlinear_arith)
        requires
            sy == b.offset.y + d.y,
    ;
    assert(side * 0 == 0);
}

} // verus!
