//! A check of the world against the store: whether every entity is in the
//! chunk of its position, once, and in no other.
use crate::entity::{LowEntityView, Storage, StorageIdx};
use crate::region::stored_well;
use crate::world::{Chunk, ChunkIdx, World, TILES_PER_CHUNK};
use std::collections::HashMap;
use vstd::prelude::*;
use vstd::std_specs::iter::IteratorSpec;

verus! {

/// The keys under which `chunks` holds a chunk, each once, in no order
/// that one could rely on.
pub fn chunk_keys(chunks: &HashMap<u128, Chunk>) -> (r: Vec<u128>)
    ensures
        r@.no_duplicates(),
        forall|k: u128| r@.contains(k) <==> chunks@.contains_key(k),
{
    let mut r: Vec<u128> = Vec::new();
    let probe = chunks.iter();
    let ghost all = probe.remaining();
    proof {
        vstd::std_specs::hash::axiom_spec_hash_map_iter(chunks);
    }
    for kv in it: chunks.iter()
        invariant
            it.seq() == all,
            r@.len() == it.index(),
            forall|i: int| 0 <= i < r@.len() ==> r@[i] == *all[i].0,
    {
        r.push(*kv.0);
    }
    proof {
        assert forall|i: int, j: int| 0 <= i < r@.len() && 0 <= j < r@.len() && i != j implies r@[i]
            != r@[j] by {
            if r@[i] == r@[j] {
                assert(chunks@.contains_key(*all[i].0) && chunks@[*all[i].0] == *all[i].1);
                assert(chunks@.contains_key(*all[j].0) && chunks@[*all[j].0] == *all[j].1);
                assert(all[i] == all[j]);
            }
        }
        assert forall|k: u128| r@.contains(k) <==> chunks@.contains_key(k) by {
            if r@.contains(k) {
                let i = choose|i: int| 0 <= i < r@.len() && r@[i] == k;
                assert(chunks@.contains_key(*all[i].0));
            }
            if chunks@.contains_key(k) {
                assert(all.contains((&k, &chunks@[k])));
                let i = choose|i: int| 0 <= i < all.len() && all[i] == (&k, &chunks@[k]);
                assert(r@[i] == k);
            }
        }
    }
    r
}

/// The entities in the chunk under the key `k`.
pub open spec fn list_of(w: &World, k: u128) -> Seq<usize> {
    w.chunks@[k].entities@
}

/// Whether the member `t` of the chunk `j` of `keys` has been looked at
/// when the looking has come to the member `t_end` of the chunk `j_end`.
pub open spec fn looked_at(w: &World, keys: Seq<u128>, j_end: int, t_end: int, j: int, t: int)
    -> bool {
    &&& 0 <= j < keys.len()
    &&& 0 <= t < list_of(w, keys[j]).len()
    &&& j < j_end || (j == j_end && t < t_end)
}

/// Whether the entity `e` is among the members that have been looked at.
pub open spec fn placed(w: &World, keys: Seq<u128>, j_end: int, t_end: int, e: usize) -> bool {
    exists|j: int, t: int| #[trigger]
        looked_at(w, keys, j_end, t_end, j, t) && list_of(w, keys[j])[t] == e
}

/// Whether no entity is twice among the members that have been looked at.
pub open spec fn all_differ(w: &World, keys: Seq<u128>, j_end: int, t_end: int) -> bool {
    forall|j1: int, t1: int, j2: int, t2: int|
        #[trigger] looked_at(w, keys, j_end, t_end, j1, t1) && #[trigger] looked_at(
            w,
            keys,
            j_end,
            t_end,
            j2,
            t2,
        ) && (j1 != j2 || t1 != t2) ==> list_of(w, keys[j1])[t1] != list_of(w, keys[j2])[t2]
}

/// Whether the chunk under the key `k` stands under its own key.
pub open spec fn key_fits(w: &World, k: u128) -> bool {
    w.chunks@[k].idx.spec_key() == k
}

/// Whether the member `t` of the chunk under `k` is an entity of the store
/// whose position is set and in that chunk.
pub open spec fn member_fits(w: &World, store: Seq<LowEntityView>, k: u128, t: int) -> bool {
    let e = list_of(w, k)[t];
    &&& e < store.len()
    &&& store[e as int].p.spec_is_valid()
    &&& store[e as int].p.abs == w.chunks@[k].idx
}

/// What holds of each stored entity by itself.
pub open spec fn entity_fits(w: &World, store: Seq<LowEntityView>, i: int) -> bool {
    &&& store[i].p.spec_is_valid() ==> w.canonical(store[i].p)
    &&& !store[i].entity.simming
    &&& store[i].entity.spatial == store[i].p.spec_is_valid()
    &&& !store[i].p.spec_is_valid() ==> store[i].p == crate::world::WorldPosition::unset()
    &&& store[i].entity.sword matches Some(s) ==> s.0 < store.len()
}

/// A chunk that stands under its own key is the chunk of its index.
proof fn lemma_chunk_of_key(w: &World, k: u128)
    requires
        w.chunks@.contains_key(k),
        key_fits(w, k),
    ensures
        w.has_chunk(w.chunks@[k].idx),
        w.members(w.chunks@[k].idx) == list_of(w, k),
{
}

/// A world and a store that have passed every test agree.
proof fn lemma_passed(w: &World, store: Seq<LowEntityView>, keys: Seq<u128>)
    requires
        w.tile_side > 0,
        w.chunk_side == TILES_PER_CHUNK * w.tile_side,
        keys.no_duplicates(),
        forall|k: u128| keys.contains(k) <==> w.chunks@.contains_key(k),
        forall|j: int| 0 <= j < keys.len() ==> key_fits(w, #[trigger] keys[j]),
        forall|j: int, t: int|
            0 <= j < keys.len() && 0 <= t < list_of(w, keys[j]).len() ==> #[trigger] member_fits(
                w,
                store,
                keys[j],
                t,
            ),
        all_differ(w, keys, keys.len() as int, 0),
        forall|e: usize|
            e < store.len() ==> (store[e as int].p.spec_is_valid() <==> placed(
                w,
                keys,
                keys.len() as int,
                0,
                e,
            )),
        forall|i: int| 0 <= i < store.len() ==> entity_fits(w, store, i),
    ensures
        w.wf(),
        stored_well(w, store),
{
    let n = keys.len() as int;
    assert forall|c: ChunkIdx| #[trigger] w.has_chunk(c) implies w.chunks@[c.spec_key()].idx
        == c by {
        assert(keys.contains(c.spec_key()));
        let j = choose|j: int| 0 <= j < keys.len() && keys[j] == c.spec_key();
        assert(key_fits(w, keys[j]));
        ChunkIdx::lemma_key_injective(w.chunks@[c.spec_key()].idx, c);
    }
    assert forall|k: u128| #[trigger] w.chunks@.contains_key(k) implies w.chunks@[k].idx.spec_key()
        == k by {
        assert(keys.contains(k));
        let j = choose|j: int| 0 <= j < keys.len() && keys[j] == k;
        assert(key_fits(w, keys[j]));
    }
    assert forall|c: ChunkIdx| #[trigger] w.members(c).no_duplicates() by {
        if w.has_chunk(c) {
            let k = c.spec_key();
            assert(keys.contains(k));
            let j = choose|j: int| 0 <= j < keys.len() && keys[j] == k;
            assert forall|a: int, b: int|
                0 <= a < w.members(c).len() && 0 <= b < w.members(c).len() && a
                    != b implies w.members(c)[a] != w.members(c)[b] by {
                assert(looked_at(w, keys, n, 0, j, a));
                assert(looked_at(w, keys, n, 0, j, b));
            }
        }
    }
    assert forall|c: ChunkIdx, e: usize| #[trigger] w.holds(c, e) implies e < store.len()
        && store[e as int].p.spec_is_valid() && store[e as int].p.abs == c by {
        let k = c.spec_key();
        assert(w.has_chunk(c));
        assert(keys.contains(k));
        let j = choose|j: int| 0 <= j < keys.len() && keys[j] == k;
        let t = choose|t: int| 0 <= t < w.members(c).len() && w.members(c)[t] == e;
        assert(member_fits(w, store, keys[j], t));
    }
    assert forall|c1: ChunkIdx, c2: ChunkIdx, e: usize|
        #[trigger] w.holds(c1, e) && #[trigger] w.holds(c2, e) implies c1 == c2 by {
        assert(store[e as int].p.abs == c1);
        assert(store[e as int].p.abs == c2);
    }
    assert forall|i: int| 0 <= i < store.len() implies {
        &&& (#[trigger] store[i]).p.spec_is_valid() ==> w.canonical(store[i].p)
        &&& !store[i].entity.simming
        &&& store[i].entity.spatial == store[i].p.spec_is_valid()
        &&& !store[i].p.spec_is_valid() ==> store[i].p == crate::world::WorldPosition::unset()
        &&& store[i].entity.sword matches Some(s) ==> s.0 < store.len()
    } by {
        assert(entity_fits(w, store, i));
    }
    assert forall|i: usize| i < store.len() implies #[trigger] w.tracks(i, store[i as int].p) by {
        let p = store[i as int].p;
        assert forall|c: ChunkIdx| #[trigger] w.holds(c, i) <==> (p.spec_is_valid() && c
            == p.abs) by {
            if p.spec_is_valid() && c == p.abs {
                assert(placed(w, keys, n, 0, i));
                let (j, t) = choose|j: int, t: int| #[trigger]
                    looked_at(w, keys, n, 0, j, t) && list_of(w, keys[j])[t] == i;
                assert(member_fits(w, store, keys[j], t));
                assert(key_fits(w, keys[j]));
                assert(keys.contains(keys[j]));
                lemma_chunk_of_key(w, keys[j]);
                assert(w.members(c)[t] == i);
            }
        }
    }
}

/// Whether the world is well formed and agrees with the store: the chunks
/// hold each stored entity where its position says, once, and hold nothing
/// else, and every stored entity is as the store keeps entities.
pub fn agree(world: &World, storage: &Storage) -> (r: bool)
    ensures
        r == (world.wf() && stored_well(world, storage@)),
{
    if world.tile_side <= 0 || world.chunk_side as i128 != 16 * (world.tile_side as i128) {
        return false;
    }
    let len = storage.len();
    let mut i: usize = 0;
    while i < len
        invariant
            i <= len,
            len == storage@.len(),
            forall|n: int| 0 <= n < i ==> entity_fits(world, storage@, n),
        decreases len - i,
    {
        let low = storage.get(StorageIdx(i));
        let valid = low.p.is_valid();
        let sword_ok = match low.entity.sword {
            Some(s) => s.0 < len,
            None => true,
        };
        let canonical = !valid || (world.is_canonical(low.p.offset.x()) && world.is_canonical(
            low.p.offset.y(),
        ));
        let unset = valid || (low.p.abs.y == 0 && low.p.abs.z == 0 && low.p.offset.x() == 0
            && low.p.offset.y() == 0);
        if !canonical || low.entity.simming || low.entity.spatial != valid || !unset || !sword_ok {
            assert(!entity_fits(world, storage@, i as int));
            return false;
        }
        i += 1;
    }
    let keys = chunk_keys(&world.chunks);
    let mut seen: Vec<bool> = Vec::new();
    let mut n: usize = 0;
    while n < len
        invariant
            n <= len,
            seen@.len() == n,
            forall|e: int| 0 <= e < n ==> !seen@[e],
        decreases len - n,
    {
        seen.push(false);
        n += 1;
    }
    let mut j: usize = 0;
    while j < keys.len()
        invariant
            j <= keys@.len(),
            world.tile_side > 0,
            world.chunk_side == TILES_PER_CHUNK * world.tile_side,
            forall|n: int| 0 <= n < storage@.len() ==> entity_fits(world, storage@, n),
            len == storage@.len(),
            seen@.len() == len,
            keys@.no_duplicates(),
            forall|k: u128| keys@.contains(k) <==> world.chunks@.contains_key(k),
            forall|a: int| 0 <= a < j ==> key_fits(world, #[trigger] keys@[a]),
            forall|a: int, t: int|
                0 <= a < j && 0 <= t < list_of(world, keys@[a]).len() ==> #[trigger] member_fits(
                    world,
                    storage@,
                    keys@[a],
                    t,
                ),
            all_differ(world, keys@, j as int, 0),
            forall|e: usize| e < len ==> (seen@[e as int] <==> placed(world, keys@, j as int, 0, e)),
        decreases keys@.len() - j,
    {
        let k = keys[j];
        assert(keys@.contains(k));
        match world.chunks.get(&k) {
            Some(chunk) => {
                if chunk.idx.key() != k {
                    return false;
                }
                assert(key_fits(world, k));
                proof {
                    lemma_chunk_of_key(world, k);
                }
                let mut t: usize = 0;
                while t < chunk.entities.len()
                    invariant
                        j < keys@.len(),
                        world.tile_side > 0,
                        world.chunk_side == TILES_PER_CHUNK * world.tile_side,
                        forall|n: int| 0 <= n < storage@.len() ==> entity_fits(world, storage@, n),
                        k == keys@[j as int],
                        world.chunks@.contains_key(k),
                        *chunk == world.chunks@[k],
                        key_fits(world, k),
                        t <= chunk.entities@.len(),
                        len == storage@.len(),
                        seen@.len() == len,
                        keys@.no_duplicates(),
                        forall|k: u128| keys@.contains(k) <==> world.chunks@.contains_key(k),
                        forall|a: int| 0 <= a < j ==> key_fits(world, #[trigger] keys@[a]),
                        forall|a: int, u: int|
                            0 <= a < j && 0 <= u < list_of(world, keys@[a]).len()
                                ==> #[trigger] member_fits(world, storage@, keys@[a], u),
                        forall|u: int| 0 <= u < t ==> #[trigger] member_fits(world, storage@, k, u),
                        all_differ(world, keys@, j as int, t as int),
                        forall|e: usize|
                            e < len ==> (seen@[e as int] <==> placed(
                                world,
                                keys@,
                                j as int,
                                t as int,
                                e,
                            )),
                    decreases chunk.entities@.len() - t,
                {
                    let e = chunk.entities[t];
                    assert(list_of(world, k)[t as int] == e);
                    assert(world.holds(chunk.idx, e)) by {
                        lemma_chunk_of_key(world, k);
                    }
                    if e >= len {
                        return false;
                    }
                    if seen[e] {
                        proof {
                            lemma_seen_twice(world, keys@, j as int, t as int, e);
                        }
                        return false;
                    }
                    let low = storage.get(StorageIdx(e));
                    if !low.p.is_valid() || low.p.abs.x != chunk.idx.x || low.p.abs.y != chunk.idx.y
                        || low.p.abs.z != chunk.idx.z {
                        assert(!world.tracks(e, storage@[e as int].p));
                        return false;
                    }
                    seen[e] = true;
                    proof {
                        lemma_one_more(world, keys@, j as int, t as int);
                        assert forall|x: usize| x < len implies (seen@[x as int] <==> placed(
                            world,
                            keys@,
                            j as int,
                            t as int + 1,
                            x,
                        )) by {
                            if x == e {
                                assert(looked_at(world, keys@, j as int, t as int + 1, j as int, t as int));
                            }
                        }
                    }
                    t += 1;
                }
                proof {
                    lemma_next_chunk(world, keys@, j as int);
                }
            },
            None => {
                proof {
                    assert(false);
                }
            },
        }
        j += 1;
    }
    let mut i: usize = 0;
    while i < len
        invariant
            i <= len,
            world.tile_side > 0,
            world.chunk_side == TILES_PER_CHUNK * world.tile_side,
            forall|n: int| 0 <= n < storage@.len() ==> entity_fits(world, storage@, n),
            len == storage@.len(),
            seen@.len() == len,
            keys@.no_duplicates(),
            forall|k: u128| keys@.contains(k) <==> world.chunks@.contains_key(k),
            forall|a: int| 0 <= a < keys@.len() ==> key_fits(world, #[trigger] keys@[a]),
            forall|a: int, t: int|
                0 <= a < keys@.len() && 0 <= t < list_of(world, keys@[a]).len()
                    ==> #[trigger] member_fits(world, storage@, keys@[a], t),
            all_differ(world, keys@, keys@.len() as int, 0),
            forall|e: usize|
                e < len ==> (seen@[e as int] <==> placed(
                    world,
                    keys@,
                    keys@.len() as int,
                    0,
                    e,
                )),
            forall|e: usize|
                e < i ==> (storage@[e as int].p.spec_is_valid() <==> seen@[e as int]),
        decreases len - i,
    {
        let valid = storage.get(StorageIdx(i)).p.is_valid();
        if valid != seen[i] {
            proof {
                if world.wf() && stored_well(world, storage@) {
                    let p = storage@[i as int].p;
                    assert(world.tracks(i, p));
                    if valid {
                        assert(world.holds(p.abs, i));
                        lemma_held_is_placed(world, keys@, p.abs, i);
                    } else {
                        let (a, u) = choose|a: int, u: int| #[trigger]
                            looked_at(world, keys@, keys@.len() as int, 0, a, u) && list_of(
                                world,
                                keys@[a],
                            )[u] == i;
                        assert(member_fits(world, storage@, keys@[a], u));
                    }
                }
            }
            return false;
        }
        i += 1;
    }
    proof {
        assert forall|e: usize| e < storage@.len() implies (storage@[e as int].p.spec_is_valid()
            <==> placed(world, keys@, keys@.len() as int, 0, e)) by {
            assert(seen@[e as int] <==> placed(world, keys@, keys@.len() as int, 0, e));
            assert(storage@[e as int].p.spec_is_valid() <==> seen@[e as int]);
        }
        lemma_passed(world, storage@, keys@);
    }
    true
}

/// Looking at one more member adds that member to what has been looked at,
/// and nothing else.
proof fn lemma_one_more(w: &World, keys: Seq<u128>, j: int, t: int)
    requires
        0 <= j < keys.len(),
        0 <= t < list_of(w, keys[j]).len(),
        all_differ(w, keys, j, t),
        !placed(w, keys, j, t, list_of(w, keys[j])[t]),
    ensures
        all_differ(w, keys, j, t + 1),
        forall|x: usize|
            placed(w, keys, j, t + 1, x) <==> placed(w, keys, j, t, x) || x == list_of(
                w,
                keys[j],
            )[t],
{
    let e = list_of(w, keys[j])[t];
    assert forall|x: usize|
        placed(w, keys, j, t + 1, x) <==> placed(w, keys, j, t, x) || x == e by {
        if placed(w, keys, j, t + 1, x) {
            let (a, u) = choose|a: int, u: int| #[trigger]
                looked_at(w, keys, j, t + 1, a, u) && list_of(w, keys[a])[u] == x;
            if !(a == j && u == t) {
                assert(looked_at(w, keys, j, t, a, u));
            }
        }
        if placed(w, keys, j, t, x) {
            let (a, u) = choose|a: int, u: int| #[trigger]
                looked_at(w, keys, j, t, a, u) && list_of(w, keys[a])[u] == x;
            assert(looked_at(w, keys, j, t + 1, a, u));
        }
        if x == e {
            assert(looked_at(w, keys, j, t + 1, j, t));
        }
    }
    assert forall|j1: int, t1: int, j2: int, t2: int|
        #[trigger] looked_at(w, keys, j, t + 1, j1, t1) && #[trigger] looked_at(
            w,
            keys,
            j,
            t + 1,
            j2,
            t2,
        ) && (j1 != j2 || t1 != t2) implies list_of(w, keys[j1])[t1] != list_of(w, keys[j2])[t2] by {
        let first_new = j1 == j && t1 == t;
        let second_new = j2 == j && t2 == t;
        if first_new {
            assert(looked_at(w, keys, j, t, j2, t2));
        } else if second_new {
            assert(looked_at(w, keys, j, t, j1, t1));
        } else {
            assert(looked_at(w, keys, j, t, j1, t1));
            assert(looked_at(w, keys, j, t, j2, t2));
        }
    }
}

/// Having looked at every member of a chunk is being at the start of the
/// next chunk.
proof fn lemma_next_chunk(w: &World, keys: Seq<u128>, j: int)
    requires
        0 <= j < keys.len(),
    ensures
        all_differ(w, keys, j, list_of(w, keys[j]).len() as int) ==> all_differ(w, keys, j + 1, 0),
        forall|x: usize|
            placed(w, keys, j + 1, 0, x) <==> placed(w, keys, j, list_of(w, keys[j]).len() as int, x),
{
    let full = list_of(w, keys[j]).len() as int;
    assert forall|a: int, u: int|
        looked_at(w, keys, j + 1, 0, a, u) <==> looked_at(w, keys, j, full, a, u) by {}
    assert forall|x: usize|
        placed(w, keys, j + 1, 0, x) <==> placed(w, keys, j, full, x) by {
        if placed(w, keys, j + 1, 0, x) {
            let (a, u) = choose|a: int, u: int| #[trigger]
                looked_at(w, keys, j + 1, 0, a, u) && list_of(w, keys[a])[u] == x;
            assert(looked_at(w, keys, j, full, a, u));
        }
        if placed(w, keys, j, full, x) {
            let (a, u) = choose|a: int, u: int| #[trigger]
                looked_at(w, keys, j, full, a, u) && list_of(w, keys[a])[u] == x;
            assert(looked_at(w, keys, j + 1, 0, a, u));
        }
    }
    if all_differ(w, keys, j, full) {
        assert forall|j1: int, t1: int, j2: int, t2: int|
            #[trigger] looked_at(w, keys, j + 1, 0, j1, t1) && #[trigger] looked_at(
                w,
                keys,
                j + 1,
                0,
                j2,
                t2,
            ) && (j1 != j2 || t1 != t2) implies list_of(w, keys[j1])[t1] != list_of(
            w,
            keys[j2],
        )[t2] by {
            assert(looked_at(w, keys, j, full, j1, t1));
            assert(looked_at(w, keys, j, full, j2, t2));
        }
    }
}

/// An entity that is looked at a second time is twice in one chunk or in
/// two chunks: the world is not well formed.
proof fn lemma_seen_twice(w: &World, keys: Seq<u128>, j: int, t: int, e: usize)
    requires
        0 <= j < keys.len(),
        0 <= t < list_of(w, keys[j]).len(),
        list_of(w, keys[j])[t] == e,
        keys.no_duplicates(),
        forall|k: u128| keys.contains(k) <==> w.chunks@.contains_key(k),
        forall|a: int| 0 <= a <= j ==> key_fits(w, #[trigger] keys[a]),
        placed(w, keys, j, t, e),
    ensures
        !w.wf(),
{
    let (a, u) = choose|a: int, u: int| #[trigger]
        looked_at(w, keys, j, t, a, u) && list_of(w, keys[a])[u] == e;
    assert(keys.contains(keys[a]));
    assert(keys.contains(keys[j]));
    assert(key_fits(w, keys[a]));
    assert(key_fits(w, keys[j]));
    lemma_chunk_of_key(w, keys[a]);
    lemma_chunk_of_key(w, keys[j]);
    let c1 = w.chunks@[keys[a]].idx;
    let c2 = w.chunks@[keys[j]].idx;
    assert(w.members(c1)[u] == e);
    assert(w.members(c2)[t] == e);
    assert(w.holds(c1, e));
    assert(w.holds(c2, e));
    if w.wf() {
        if a == j {
            assert(w.members(c2).no_duplicates());
        } else {
            assert(c1 == c2);
        }
    }
}

/// An entity that a chunk of a well-formed world holds is among the members
/// of all chunks.
proof fn lemma_held_is_placed(w: &World, keys: Seq<u128>, c: ChunkIdx, e: usize)
    requires
        w.holds(c, e),
        forall|k: u128| keys.contains(k) <==> w.chunks@.contains_key(k),
    ensures
        placed(w, keys, keys.len() as int, 0, e),
{
    let k = c.spec_key();
    assert(w.has_chunk(c));
    assert(keys.contains(k));
    let j = choose|j: int| 0 <= j < keys.len() && keys[j] == k;
    let t = choose|t: int| 0 <= t < w.members(c).len() && w.members(c)[t] == e;
    assert(looked_at(w, keys, keys.len() as int, 0, j, t));
}

} // verus!
