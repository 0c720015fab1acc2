//! What a frame does to each entity: the player follows the keys and
//! throws its sword, a sword flies, a familiar follows the player.
use crate::entity::{EntityKind, MoveSpec, SimEntity, SimEntityView, StorageIdx};
use crate::fixed::{fx_add, fx_sub, spec_add, spec_sub, UNIT};
use crate::host_api::{Input, InputState};
use crate::math::V2;
use crate::motion::{lemma_moved_keeps_body, moved};
use crate::ordered::{keys_in_order, lemma_gap, lists, reached};
use crate::region::{views, SimRegion};
use crate::world::WorldPosition;
use vstd::prelude::*;

verus! {

/// A full turn, the time after which the bobbing of a familiar starts over.
pub const TWO_PI: i64 = 6_283_185;

/// How far a thrown sword flies.
pub const SWORD_RANGE: i64 = 5_000_000;

/// How fast a thrown sword flies, along each axis.
pub const SWORD_SPEED: i64 = 2_000_000;

/// The square of the distance within which a familiar sees a player.
pub const FAMILIAR_SIGHT_SQ: i64 = 100_000_000;

/// The square of the distance that a familiar keeps from a player.
pub const FAMILIAR_KEEP_SQ: i64 = 2_000_000;

/// What part of the way to the player a familiar takes as acceleration:
/// a half over the distance of sight.
pub const FAMILIAR_PULL: i64 = 50_000;

/// The acceleration that the keys ask for: one along each axis whose key
/// is down, none where both keys of an axis are.
pub open spec fn spec_player_acceleration(input: InputState) -> V2 {
    V2 {
        x: ((if input.right {
            UNIT as int
        } else {
            0
        }) - (if input.left {
            UNIT as int
        } else {
            0
        })) as i64,
        y: ((if input.up {
            UNIT as int
        } else {
            0
        }) - (if input.down {
            UNIT as int
        } else {
            0
        })) as i64,
    }
}

/// The acceleration that the keys ask for.
pub fn player_acceleration(input: &InputState) -> (r: V2)
    ensures
        r == spec_player_acceleration(*input),
{
    let mut x: i64 = 0;
    let mut y: i64 = 0;
    if input.up {
        y += UNIT;
    }
    if input.down {
        y -= UNIT;
    }
    if input.right {
        x += UNIT;
    }
    if input.left {
        x -= UNIT;
    }
    V2::new(x, y)
}

/// A sword after a frame: it moves without drag, what it has flown is
/// taken off what it may still fly, and when that is used up it leaves the
/// world.
pub open spec fn sword_moved(m: Map<usize, SimEntityView>, e: SimEntityView, dt: i64, ddp: V2)
    -> SimEntityView {
    let new = moved(m, e, dt, ddp, MoveSpec::spec_sword());
    let flown = e.p.spec_minus(new.p).spec_len();
    let left = spec_sub(new.distance_remaining as int, flown);
    if left < 0 {
        SimEntityView {
            distance_remaining: left as i64,
            spatial: false,
            p: V2 { x: 100_000_000_000, y: 100_000_000_000 },
            ..new
        }
    } else {
        SimEntityView { distance_remaining: left as i64, ..new }
    }
}

/// Moves a sword for one frame.
pub fn update_sword(sim_region: &SimRegion, entity: &SimEntity, dt: i64, ddp: V2) -> (r: SimEntity)
    ensures
        r@ == sword_moved(sim_region@.working, entity@, dt, ddp),
{
    let mut new_entity = sim_region.move_entity(entity, dt, ddp, MoveSpec::sword());
    let distance_traveled = entity.p.minus(new_entity.p).len();
    new_entity.distance_remaining = fx_sub(new_entity.distance_remaining, distance_traveled);
    if new_entity.distance_remaining < 0 {
        new_entity.spatial = false;
        new_entity.p = WorldPosition::invalid_offset();
    }
    new_entity
}

/// The time of the bobbing after `dt` more seconds: it starts over after a
/// full turn.
pub open spec fn bobbed(t_bob: i64, dt: i64) -> int {
    let t = spec_add(t_bob as int, dt as int);
    if t >= TWO_PI {
        spec_sub(t, TWO_PI as int)
    } else {
        t
    }
}

/// Whether the familiar `me` is drawn to the entity `other`: a player
/// within sight and not too near.
pub open spec fn draws(me: SimEntityView, other: SimEntityView) -> bool {
    &&& other.kind == EntityKind::Player
    &&& FAMILIAR_KEEP_SQ < other.p.spec_minus(me.p).spec_len_sq() < FAMILIAR_SIGHT_SQ
}

/// Where the player is that the familiar `me` goes to, among the entities
/// of `m` whose place in the store is below `n`: the last one that draws it.
pub open spec fn hero_below(m: Map<usize, SimEntityView>, me: SimEntityView, n: nat) -> Option<V2>
    decreases n,
{
    if n == 0 {
        None
    } else {
        let k = (n - 1) as usize;
        if m.contains_key(k) && draws(me, m[k]) {
            Some(m[k].p)
        } else {
            hero_below(m, me, (n - 1) as nat)
        }
    }
}

/// Where `m` has no entity from `a` up to `b`, the player found below `b`
/// is the one found below `a`.
pub proof fn lemma_hero_skips(m: Map<usize, SimEntityView>, me: SimEntityView, a: nat, b: nat)
    requires
        a <= b <= usize::MAX + 1,
        forall|k: usize| a <= k < b ==> !m.contains_key(k),
    ensures
        hero_below(m, me, b) == hero_below(m, me, a),
    decreases b - a,
{
    if a < b {
        lemma_hero_skips(m, me, a, (b - 1) as nat);
        assert(!m.contains_key((b - 1) as usize));
    }
}

/// A familiar after a frame: it bobs on, and where a player draws it, it
/// moves toward that player.
pub open spec fn familiar_moved(m: Map<usize, SimEntityView>, e: SimEntityView, dt: i64)
    -> SimEntityView {
    let me = SimEntityView { t_bob: bobbed(e.t_bob, dt) as i64, ..e };
    match hero_below(m, me, (usize::MAX + 1) as nat) {
        Some(hero_p) => moved(
            m,
            me,
            dt,
            hero_p.spec_minus(me.p).spec_scaled(FAMILIAR_PULL),
            MoveSpec::spec_player(),
        ),
        None => me,
    }
}

/// Moves a familiar for one frame.
pub fn update_familiar(sim_region: &SimRegion, entity: &SimEntity, dt: i64) -> (r: SimEntity)
    ensures
        r@ == familiar_moved(sim_region@.working, entity@, dt),
{
    let mut entity = entity.clone();
    let mut closest_hero: Option<V2> = None;
    entity.t_bob = fx_add(entity.t_bob, dt);
    if entity.t_bob >= TWO_PI {
        entity.t_bob = fx_sub(entity.t_bob, TWO_PI);
    }
    let keys = keys_in_order(&sim_region.entities);
    let mut i: usize = 0;
    while i < keys.len()
        invariant
            i <= keys@.len(),
            lists(keys@, sim_region.entities@.dom()),
            closest_hero == hero_below(sim_region@.working, entity@, reached(keys@, i as int)),
        decreases keys@.len() - i,
    {
        let k = keys[i];
        proof {
            lemma_gap(keys@, sim_region.entities@.dom(), i as int);
            lemma_hero_skips(sim_region@.working, entity@, reached(keys@, i as int), k as nat);
        }
        match sim_region.entities.get(&k) {
            Some(other) => {
                assert(sim_region@.working[k] == other@);
                if other.kind == EntityKind::Player {
                    let distance = other.p.minus(entity.p).len_sq();
                    if distance < FAMILIAR_SIGHT_SQ && distance > FAMILIAR_KEEP_SQ {
                        closest_hero = Some(other.p);
                    }
                }
            },
            None => {},
        }
        i += 1;
    }
    proof {
        lemma_gap(keys@, sim_region.entities@.dom(), keys@.len() as int);
        lemma_hero_skips(
            sim_region@.working,
            entity@,
            reached(keys@, keys@.len() as int),
            (usize::MAX + 1) as nat,
        );
    }
    match closest_hero {
        Some(hero_p) => {
            let ddp = hero_p.minus(entity.p).scaled(FAMILIAR_PULL);
            sim_region.move_entity(&entity, dt, ddp, MoveSpec::player())
        },
        None => entity,
    }
}

/// The sword of the player `e` as it is thrown: where the key is down and
/// the sword is in the working set without a place, it gets the place of
/// the player, its range and its speed. Else nothing.
pub open spec fn thrown(m: Map<usize, SimEntityView>, e: SimEntityView, input: Input) -> Seq<
    SimEntityView,
> {
    match e.sword {
        Some(StorageIdx(s)) => if input.new.sword && m.contains_key(s) && !m[s].spatial {
            seq![
                SimEntityView {
                    spatial: true,
                    distance_remaining: SWORD_RANGE,
                    p: e.p,
                    dp: V2 { x: SWORD_SPEED, y: SWORD_SPEED },
                    ..m[s]
                },
            ]
        } else {
            Seq::empty()
        },
        None => Seq::empty(),
    }
}

/// What a frame puts into the working set on account of the entity `e`:
/// nothing for an entity that is not updated, for a wall or a monster; the
/// thrown sword and the moved player for a player; the moved entity for a
/// sword or a familiar.
#[verifier::opaque]
pub open spec fn updates_of(m: Map<usize, SimEntityView>, e: SimEntityView, input: Input) -> Seq<
    SimEntityView,
> {
    if !e.updatable {
        Seq::empty()
    } else {
        match e.kind {
            EntityKind::Player => thrown(m, e, input).push(
                moved(
                    m,
                    e,
                    input.time_per_frame,
                    spec_player_acceleration(input.new),
                    MoveSpec::spec_player(),
                ),
            ),
            EntityKind::Sword => seq![sword_moved(m, e, input.time_per_frame, V2::zero())],
            EntityKind::Familiar => seq![familiar_moved(m, e, input.time_per_frame)],
            EntityKind::Wall => Seq::empty(),
            EntityKind::Monster => Seq::empty(),
        }
    }
}

/// What a frame puts into the working set on account of the entities of
/// `m` whose place in the store is below `n`, in rising order of that place.
pub open spec fn updates_below(m: Map<usize, SimEntityView>, input: Input, n: nat) -> Seq<
    SimEntityView,
>
    decreases n,
{
    if n == 0 {
        Seq::empty()
    } else {
        let before = updates_below(m, input, (n - 1) as nat);
        let k = (n - 1) as usize;
        if m.contains_key(k) {
            before + updates_of(m, m[k], input)
        } else {
            before
        }
    }
}

/// What a frame puts into the working set.
pub open spec fn updates(m: Map<usize, SimEntityView>, input: Input) -> Seq<SimEntityView> {
    updates_below(m, input, (usize::MAX + 1) as nat)
}

/// Where `m` has no entity from `a` up to `b`, the updates below `b` are
/// those below `a`.
pub proof fn lemma_updates_skip(m: Map<usize, SimEntityView>, input: Input, a: nat, b: nat)
    requires
        a <= b <= usize::MAX + 1,
        forall|k: usize| a <= k < b ==> !m.contains_key(k),
    ensures
        updates_below(m, input, b) == updates_below(m, input, a),
    decreases b - a,
{
    if a < b {
        lemma_updates_skip(m, input, a, (b - 1) as nat);
        assert(!m.contains_key((b - 1) as usize));
    }
}

/// The entities of `m` that are updated and whose place in the store is
/// below `n`, in rising order of that place.
pub open spec fn visible_below(m: Map<usize, SimEntityView>, n: nat) -> Seq<SimEntityView>
    decreases n,
{
    if n == 0 {
        Seq::empty()
    } else {
        let before = visible_below(m, (n - 1) as nat);
        let k = (n - 1) as usize;
        if m.contains_key(k) && m[k].updatable {
            before.push(m[k])
        } else {
            before
        }
    }
}

/// The entities of `m` that are updated: what a frame shows.
pub open spec fn visible(m: Map<usize, SimEntityView>) -> Seq<SimEntityView> {
    visible_below(m, (usize::MAX + 1) as nat)
}

/// Where `m` has no entity from `a` up to `b`, what is shown below `b` is
/// what is shown below `a`.
pub proof fn lemma_visible_skip(m: Map<usize, SimEntityView>, a: nat, b: nat)
    requires
        a <= b <= usize::MAX + 1,
        forall|k: usize| a <= k < b ==> !m.contains_key(k),
    ensures
        visible_below(m, b) == visible_below(m, a),
    decreases b - a,
{
    if a < b {
        lemma_visible_skip(m, a, (b - 1) as nat);
        assert(!m.contains_key((b - 1) as usize));
    }
}

/// The entities of the working set that are updated, in rising order of
/// their place in the store.
pub fn visible_entities(sim_region: &SimRegion) -> (r: Vec<SimEntity>)
    ensures
        views(r@) == visible(sim_region@.working),
{
    let mut result: Vec<SimEntity> = Vec::new();
    let keys = keys_in_order(&sim_region.entities);
    let mut i: usize = 0;
    assert(views(result@) =~= visible_below(sim_region@.working, 0));
    while i < keys.len()
        invariant
            i <= keys@.len(),
            lists(keys@, sim_region.entities@.dom()),
            views(result@) == visible_below(sim_region@.working, reached(keys@, i as int)),
        decreases keys@.len() - i,
    {
        let k = keys[i];
        proof {
            lemma_gap(keys@, sim_region.entities@.dom(), i as int);
            lemma_visible_skip(sim_region@.working, reached(keys@, i as int), k as nat);
        }
        match sim_region.entities.get(&k) {
            Some(entity) => {
                assert(sim_region@.working[k] == entity@);
                if entity.updatable {
                    let ghost before = views(result@);
                    result.push(entity.clone());
                    assert(views(result@) =~= before.push(entity@));
                }
            },
            None => {},
        }
        i += 1;
    }
    proof {
        lemma_gap(keys@, sim_region.entities@.dom(), keys@.len() as int);
        lemma_visible_skip(
            sim_region@.working,
            reached(keys@, keys@.len() as int),
            (usize::MAX + 1) as nat,
        );
    }
    result
}

/// Puts the sword of the player `entity` at the end of `new_entities` as it
/// is thrown, if it is.
pub fn throw_sword(
    sim_region: &SimRegion,
    entity: &SimEntity,
    input: &Input,
    new_entities: &mut Vec<SimEntity>,
)
    ensures
        views(final(new_entities)@) == views(old(new_entities)@) + thrown(
            sim_region@.working,
            entity@,
            *input,
        ),
{
    let ghost before = views(new_entities@);
    if input.new.sword {
        match entity.sword {
            Some(sword_idx) => {
                match sim_region.entities.get(&sword_idx.0) {
                    Some(sword) => {
                        assert(sim_region@.working[sword_idx.0] == sword@);
                        if !sword.spatial {
                            let mut sword = sword.clone();
                            sword.spatial = true;
                            sword.distance_remaining = SWORD_RANGE;
                            sword.p = entity.p;
                            sword.dp = V2::new(SWORD_SPEED, SWORD_SPEED);
                            new_entities.push(sword);
                        }
                    },
                    None => {},
                }
            },
            None => {},
        }
    }
    assert(views(new_entities@) =~= before + thrown(sim_region@.working, entity@, *input));
}

/// Puts at the end of `new_entities` what a frame puts into the working set
/// on account of `entity`.
pub fn update_one(
    sim_region: &SimRegion,
    entity: &SimEntity,
    input: &Input,
    new_entities: &mut Vec<SimEntity>,
)
    ensures
        views(final(new_entities)@) == views(old(new_entities)@) + updates_of(
            sim_region@.working,
            entity@,
            *input,
        ),
{
    let ghost before = views(new_entities@);
    reveal(updates_of);
    if entity.updatable {
        match entity.kind {
            EntityKind::Player => {
                throw_sword(sim_region, entity, input, new_entities);
                let ghost mid = views(new_entities@);
                let new_entity = sim_region.move_entity(
                    entity,
                    input.time_per_frame,
                    player_acceleration(&input.new),
                    MoveSpec::player(),
                );
                new_entities.push(new_entity);
                assert(views(new_entities@) =~= mid.push(new_entity@));
            },
            EntityKind::Sword => {
                let new_entity = update_sword(
                    sim_region,
                    entity,
                    input.time_per_frame,
                    V2::new(0, 0),
                );
                new_entities.push(new_entity);
                assert(views(new_entities@) =~= before.push(new_entity@));
            },
            EntityKind::Wall => {},
            EntityKind::Familiar => {
                let new_entity = update_familiar(sim_region, entity, input.time_per_frame);
                new_entities.push(new_entity);
                assert(views(new_entities@) =~= before.push(new_entity@));
            },
            EntityKind::Monster => {},
        }
    }
    assert(views(new_entities@) =~= before + updates_of(sim_region@.working, entity@, *input));
}

/// What a frame puts into the working set: each entity that is updated is
/// moved as its kind asks, in rising order of its place in the store. The
/// working set itself is left as it is.
pub fn update_all(sim_region: &SimRegion, input: &Input) -> (r: Vec<SimEntity>)
    ensures
        views(r@) == updates(sim_region@.working, *input),
{
    let mut new_entities: Vec<SimEntity> = Vec::new();
    let keys = keys_in_order(&sim_region.entities);
    let mut i: usize = 0;
    assert(views(new_entities@) =~= updates_below(sim_region@.working, *input, 0));
    while i < keys.len()
        invariant
            i <= keys@.len(),
            lists(keys@, sim_region.entities@.dom()),
            views(new_entities@) == updates_below(
                sim_region@.working,
                *input,
                reached(keys@, i as int),
            ),
        decreases keys@.len() - i,
    {
        let k = keys[i];
        proof {
            lemma_gap(keys@, sim_region.entities@.dom(), i as int);
            lemma_updates_skip(sim_region@.working, *input, reached(keys@, i as int), k as nat);
        }
        match sim_region.entities.get(&k) {
            Some(entity) => {
                assert(sim_region@.working[k] == entity@);
                update_one(sim_region, entity, input, &mut new_entities);
            },
            None => {},
        }
        i += 1;
    }
    proof {
        lemma_gap(keys@, sim_region.entities@.dom(), keys@.len() as int);
        lemma_updates_skip(
            sim_region@.working,
            *input,
            reached(keys@, keys@.len() as int),
            (usize::MAX + 1) as nat,
        );
    }
    new_entities
}

/// Whether each entity of `m` stands under its own `idx`, below `len`.
pub open spec fn keyed(m: Map<usize, SimEntityView>, len: nat) -> bool {
    forall|k: usize| #[trigger] m.contains_key(k) ==> k < len && m[k].idx.0 == k
}

/// Every entity that a frame puts into the working set is an entity of the
/// working set, moved: it has an `idx` of the working set.
pub proof fn lemma_updates_keyed(m: Map<usize, SimEntityView>, input: Input, n: nat, len: nat)
    requires
        keyed(m, len),
    ensures
        forall|j: int|
            0 <= j < updates_below(m, input, n).len() ==> (#[trigger] updates_below(
                m,
                input,
                n,
            )[j]).idx.0 < len,
    decreases n,
{
    reveal(updates_of);
    if n > 0 {
        lemma_updates_keyed(m, input, (n - 1) as nat, len);
        let k = (n - 1) as usize;
        if m.contains_key(k) {
            let e = m[k];
            let dt = input.time_per_frame;
            lemma_moved_keeps_body(
                m,
                e,
                dt,
                spec_player_acceleration(input.new),
                MoveSpec::spec_player(),
            );
            lemma_moved_keeps_body(m, e, dt, V2::zero(), MoveSpec::spec_sword());
            let me = SimEntityView { t_bob: bobbed(e.t_bob, dt) as i64, ..e };
            match hero_below(m, me, (usize::MAX + 1) as nat) {
                Some(hero_p) => {
                    lemma_moved_keeps_body(
                        m,
                        me,
                        dt,
                        hero_p.spec_minus(me.p).spec_scaled(FAMILIAR_PULL),
                        MoveSpec::spec_player(),
                    );
                },
                None => {},
            }
            let before = updates_below(m, input, (n - 1) as nat);
            let here = updates_of(m, e, input);
            assert forall|j: int| 0 <= j < here.len() implies (#[trigger] here[j]).idx.0 < len by {
                match e.sword {
                    Some(StorageIdx(sw)) => {
                        if m.contains_key(sw) {
                            assert(m[sw].idx.0 == sw);
                        }
                    },
                    None => {},
                }
            }
            assert forall|j: int| 0 <= j < (before + here).len() implies (#[trigger] (before
                + here)[j]).idx.0 < len by {
                if j < before.len() {
                    assert((before + here)[j] == before[j]);
                } else {
                    assert((before + here)[j] == here[j - before.len()]);
                }
            }
        }
    }
}

} // verus!
