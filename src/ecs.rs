//! The entity store, its attribute records, and the simulation driver.

use crate::ecs::systems::{
    create_enemy, damage_player_pass, expected_spawns, gun_shot_pass, is_new_enemy, remove_by_ttl,
    remove_overcolored_enemy_pass, scope_pass, shot_pass, spawn_enemies_pass, spawners_ticked,
    tick_core, update_ttl, after_player_damage, all_killed, count_dying, copies, expire_all,
    kill_record, lemma_survivors_append, movement, resolve, scored_all, ttl_all, guns_ticked,
    shots_fired, first_player, first_scope, find_player, find_scope, PhysicSystem,
};
use crate::math::{
    abs, lemma_unit_direction_orientation, norm_sq, point_ok, try_normalize, unit_direction, vector_within, Point, Vector, MAX_COORD, UNIT,
};
use crate::random::seeded_rng;
use rand::rngs::SmallRng;
use vstd::prelude::*;

pub mod systems;

verus! {

/// Opaque entity identifier; identifiers are handed out in increasing order.
pub type Entity = u64;

/// Largest speed, in coordinate units per second, and largest radius.
pub const MAX_SPEED: i64 = 1_000_000_000;

pub const MAX_RADIUS: i64 = 1_000_000_000;

#[derive(Clone, Copy, Debug, PartialEq, Eq, Structural)]
pub struct Position {
    pub point: Point,
}

/// Displacement per tick.
#[derive(Clone, Copy, Debug, PartialEq, Eq, Structural)]
pub struct Velocity {
    pub velocity: Vector,
}

/// Speeds are in coordinate units per second.
#[derive(Clone, Copy, Debug, PartialEq, Eq, Structural)]
pub struct Player {
    pub max_speed: i64,
    pub radius: i64,
}

#[derive(Clone, Copy, Debug, PartialEq, Eq, Structural)]
pub struct Enemy {
    pub radius: i64,
    pub max_speed: i64,
}

#[derive(Clone, Copy, Debug, PartialEq, Eq, Structural)]
pub struct Gun {
    pub tick_to_reload: i32,
}

#[derive(Clone, Copy, Debug, PartialEq, Eq, Structural)]
pub struct Shot {
    pub from: Point,
    pub to: Point,
    pub force: i32,
}

#[derive(Clone, Copy, Debug, PartialEq, Eq, Structural)]
pub struct DeadByTtl {
    pub ttl: i32,
}

#[derive(Clone, Copy, Debug, PartialEq, Eq, Structural)]
pub struct ShotTrace {
    pub from: Point,
    pub to: Point,
}

/// A white enemy dies once its damage is positive, a dark one once it is negative.
#[derive(Clone, Copy, Debug, PartialEq, Eq, Structural)]
pub struct Color {
    pub is_white: bool,
    pub damage: i32,
}

#[derive(Clone, Copy, Debug, PartialEq, Eq, Structural)]
pub struct Spawner {
    pub tick_to_spawn: i32,
}

#[derive(Clone, Copy, Debug, PartialEq, Eq, Structural)]
pub struct EnemyKillEvent;

#[derive(Clone, Copy, Debug, PartialEq, Eq, Structural)]
pub struct Scope {
    pub scope: u32,
}

/// One entity and the attributes attached to it. What an entity is follows
/// from which attributes it carries.
#[derive(Clone, Copy, Debug, PartialEq, Eq, Structural)]
pub struct Record {
    pub entity: Entity,
    /// Marked for deletion; removed by `EntityStore::maintain`.
    pub doomed: bool,
    pub position: Option<Position>,
    pub velocity: Option<Velocity>,
    pub player: Option<Player>,
    pub enemy: Option<Enemy>,
    pub gun: Option<Gun>,
    pub shot: Option<Shot>,
    pub ttl: Option<DeadByTtl>,
    pub trace: Option<ShotTrace>,
    pub color: Option<Color>,
    pub spawner: Option<Spawner>,
    pub kill_event: Option<EnemyKillEvent>,
    pub scope: Option<Scope>,
}

impl Record {
    /// A record with no attributes.
    pub fn empty() -> (r: Record)
        ensures
            r == blank(),
    {
        Record {
            entity: 0,
            doomed: false,
            position: None,
            velocity: None,
            player: None,
            enemy: None,
            gun: None,
            shot: None,
            ttl: None,
            trace: None,
            color: None,
            spawner: None,
            kill_event: None,
            scope: None,
        }
    }
}

pub open spec fn blank() -> Record {
    Record {
        entity: 0,
        doomed: false,
        position: None,
        velocity: None,
        player: None,
        enemy: None,
        gun: None,
        shot: None,
        ttl: None,
        trace: None,
        color: None,
        spawner: None,
        kill_event: None,
        scope: None,
    }
}

pub open spec fn is_live(r: Record) -> bool {
    !r.doomed
}

/// The attribute values that the passes can work with.
pub open spec fn record_ok(r: Record) -> bool {
    &&& (r.position matches Some(p) ==> point_ok(p.point))
    &&& (r.velocity matches Some(v) ==> vector_within(v.velocity, MAX_SPEED as int))
    &&& (r.player matches Some(p) ==> 0 < p.radius <= MAX_RADIUS && 0 <= p.max_speed <= MAX_SPEED)
    &&& (r.enemy matches Some(e) ==> 0 < e.radius <= MAX_RADIUS && 0 <= e.max_speed <= MAX_SPEED)
    &&& (r.shot matches Some(s) ==> point_ok(s.from) && point_ok(s.to))
}

pub open spec fn records_ok(s: Seq<Record>, next_id: u64) -> bool {
    &&& forall|i: int| 0 <= i < s.len() ==> record_ok(#[trigger] s[i])
    &&& forall|i: int| 0 <= i < s.len() ==> (#[trigger] s[i]).entity < next_id
    &&& forall|i: int, j: int| 0 <= i < j < s.len() ==> (#[trigger] s[i]).entity < (#[trigger] s[j]).entity
}

/// `s` with `r` added as a new entity, unless identifiers are exhausted.
pub open spec fn with_new(s: Seq<Record>, next_id: u64, r: Record) -> (Seq<Record>, u64) {
    if next_id < u64::MAX {
        (s.push(Record { entity: next_id, doomed: false, ..r }), (next_id + 1) as u64)
    } else {
        (s, next_id)
    }
}

/// `s` with each of `rs` added in order, as `with_new` adds one.
pub open spec fn with_all_new(s: Seq<Record>, next_id: u64, rs: Seq<Record>) -> (Seq<Record>, u64)
    decreases rs.len(),
{
    if rs.len() == 0 {
        (s, next_id)
    } else {
        let prev = with_all_new(s, next_id, rs.drop_last());
        with_new(prev.0, prev.1, rs.last())
    }
}

/// The records that are not marked for deletion, in order.
pub open spec fn survivors(s: Seq<Record>) -> Seq<Record>
    decreases s.len(),
{
    if s.len() == 0 {
        s
    } else if s.last().doomed {
        survivors(s.drop_last())
    } else {
        survivors(s.drop_last()).push(s.last())
    }
}

/// Table of entities with their attributes.
pub struct EntityStore {
    pub records: Vec<Record>,
    pub next_id: u64,
}

impl EntityStore {
    pub open spec fn wf(&self) -> bool {
        records_ok(self.records@, self.next_id)
    }

    pub fn new() -> (r: EntityStore)
        ensures
            r.wf(),
            r.records@.len() == 0,
            r.next_id == 0,
    {
        EntityStore { records: Vec::new(), next_id: 0 }
    }

    /// Adds an entity carrying the attributes of `r`. Returns `None`, and
    /// changes nothing, once identifiers are exhausted.
    pub fn create_entity(&mut self, r: Record) -> (e: Option<Entity>)
        requires
            old(self).wf(),
            record_ok(r),
        ensures
            final(self).wf(),
            (final(self).records@, final(self).next_id) == with_new(
                old(self).records@,
                old(self).next_id,
                r,
            ),
            e == (if old(self).next_id < u64::MAX {
                Some(old(self).next_id)
            } else {
                None::<Entity>
            }),
    {
        if self.next_id == u64::MAX {
            return None;
        }
        let id = self.next_id;
        let mut rec = r;
        rec.entity = id;
        rec.doomed = false;
        self.records.push(rec);
        self.next_id = id + 1;
        assert(rec == Record { entity: id, doomed: false, ..r });
        Some(id)
    }

    /// Adds an entity for each of `rs`, in order.
    pub fn create_entities(&mut self, rs: &Vec<Record>)
        requires
            old(self).wf(),
            forall|i: int| 0 <= i < rs@.len() ==> record_ok(#[trigger] rs@[i]),
        ensures
            final(self).wf(),
            (final(self).records@, final(self).next_id) == with_all_new(
                old(self).records@,
                old(self).next_id,
                rs@,
            ),
    {
        let mut i: usize = 0;
        while i < rs.len()
            invariant
                i <= rs@.len(),
                self.wf(),
                forall|k: int| 0 <= k < rs@.len() ==> record_ok(#[trigger] rs@[k]),
                (self.records@, self.next_id) == with_all_new(
                    old(self).records@,
                    old(self).next_id,
                    rs@.take(i as int),
                ),
            decreases rs@.len() - i,
        {
            proof {
                assert(rs@.take(i as int + 1).drop_last() =~= rs@.take(i as int));
            }
            self.create_entity(rs[i]);
            i += 1;
        }
        proof {
            assert(rs@.take(rs@.len() as int) =~= rs@);
        }
    }

    /// Marks the entity at `index` for deletion at the end of the tick.
    pub fn mark_at(&mut self, index: usize)
        requires
            old(self).wf(),
            index < old(self).records@.len(),
        ensures
            final(self).wf(),
            final(self).next_id == old(self).next_id,
            final(self).records@ == old(self).records@.update(
                index as int,
                Record { doomed: true, ..old(self).records@[index as int] },
            ),
    {
        let mut r = self.records[index];
        r.doomed = true;
        self.records.set(index, r);
        assert(self.records@ =~= old(self).records@.update(
            index as int,
            Record { doomed: true, ..old(self).records@[index as int] },
        ));
    }

    /// Marks entity `e` for deletion at the end of the tick. Deleting an entity
    /// that does not exist, or one already marked, is a programming error.
    pub fn delete(&mut self, e: Entity)
        requires
            old(self).wf(),
            exists|i: int|
                0 <= i < old(self).records@.len() && (#[trigger] old(self).records@[i]).entity == e
                    && !old(self).records@[i].doomed,
        ensures
            final(self).wf(),
            final(self).next_id == old(self).next_id,
            final(self).records@.len() == old(self).records@.len(),
            forall|i: int|
                0 <= i < old(self).records@.len() ==> #[trigger] final(self).records@[i] == (if old(
                    self,
                ).records@[i].entity == e {
                    Record { doomed: true, ..old(self).records@[i] }
                } else {
                    old(self).records@[i]
                }),
    {
        let mut i: usize = 0;
        while i < self.records.len()
            invariant
                i <= self.records@.len(),
                *self == *old(self),
                forall|k: int| 0 <= k < i ==> (#[trigger] self.records@[k]).entity != e,
                self.wf(),
            decreases self.records@.len() - i,
        {
            if self.records[i].entity == e {
                let ghost before = self.records@;
                self.mark_at(i);
                assert forall|k: int| 0 <= k < before.len() && k != i implies (#[trigger] before[k]).entity != e by {
                    if k > i {
                        assert(before[i as int].entity < before[k].entity);
                    }
                }
                return;
            }
            i += 1;
        }
        proof {
            let k = choose|k: int|
                0 <= k < old(self).records@.len() && (#[trigger] old(self).records@[k]).entity == e
                    && !old(self).records@[k].doomed;
            assert(self.records@[k].entity != e);
        }
    }

    /// Removes every entity marked for deletion.
    pub fn maintain(&mut self)
        requires
            old(self).wf(),
        ensures
            final(self).wf(),
            final(self).next_id == old(self).next_id,
            final(self).records@ == survivors(old(self).records@),
    {
        let mut kept: Vec<Record> = Vec::new();
        let mut i: usize = 0;
        let ghost s = self.records@;
        while i < self.records.len()
            invariant
                i <= s.len(),
                self.records@ == s,
                records_ok(s, self.next_id),
                kept@ == survivors(s.take(i as int)),
                records_ok(kept@, self.next_id),
                i < s.len() && kept@.len() > 0 ==> kept@.last().entity < s[i as int].entity,
            decreases s.len() - i,
        {
            let r = self.records[i];
            proof {
                assert(s.take(i as int + 1).drop_last() =~= s.take(i as int));
            }
            if !r.doomed {
                kept.push(r);
            }
            i += 1;
        }
        proof {
            assert(s.take(s.len() as int) =~= s);
        }
        self.records = kept;
    }
}


/// Process-wide tunables.
#[derive(Clone, Copy, Debug, PartialEq, Eq, Structural)]
pub struct Settings {
    /// Width and height of the world, whose corners are the origin and this point.
    pub world_size: Point,
    /// Ticks per second.
    pub fps: i32,
    pub gun_reload_ticks: i32,
    pub spawn_ticks: i32,
    /// How many enemies `MainState::init` places.
    pub initial_enemies: u32,
}

impl Settings {
    pub open spec fn wf(&self) -> bool {
        &&& 0 < self.world_size.x <= MAX_COORD
        &&& 0 < self.world_size.y <= MAX_COORD
        &&& 1 <= self.fps
        &&& 0 <= self.gun_reload_ticks
        &&& 0 <= self.spawn_ticks
    }
}

/// What the host last asked for; read by the passes of the next tick.
#[derive(Clone, Copy, Debug, PartialEq, Eq, Structural)]
pub struct Input {
    /// Movement direction; a length of `UNIT` is full speed.
    pub player_direction: Vector,
    /// Where the player aims while the trigger is held.
    pub shoot_point: Option<Point>,
    pub shoot_force: i32,
}

impl Input {
    pub open spec fn wf(&self) -> bool {
        &&& vector_within(self.player_direction, UNIT as int)
        &&& (self.shoot_point matches Some(p) ==> point_ok(p))
    }

    pub fn new() -> (r: Input)
        ensures
            r.wf(),
            r.player_direction == (Vector { x: 0, y: 0 }),
            r.shoot_point is None,
            r.shoot_force == 0,
    {
        Input { player_direction: Vector { x: 0, y: 0 }, shoot_point: None, shoot_force: 0 }
    }
}


/// Putting a valid record with the same identifier in place of another keeps
/// the table valid.
pub proof fn lemma_update_ok(s: Seq<Record>, next_id: u64, i: int, r: Record)
    requires
        records_ok(s, next_id),
        0 <= i < s.len(),
        record_ok(r),
        r.entity == s[i].entity,
    ensures
        records_ok(s.update(i, r), next_id),
{
    let t = s.update(i, r);
    assert forall|a: int, b: int| 0 <= a < b < t.len() implies (#[trigger] t[a]).entity < (
    #[trigger] t[b]).entity by {
        assert(s[a].entity < s[b].entity);
    }
    assert forall|a: int| 0 <= a < t.len() implies record_ok(#[trigger] t[a]) && t[a].entity < next_id by {
        assert(a != i ==> t[a] == s[a]);
    }
}


impl Settings {
    /// A world of 50 by 40 units at 50 ticks per second.
    pub fn new() -> (r: Settings)
        ensures
            r.wf(),
            r == default_settings(),
    {
        Settings {
            world_size: Point { x: 50_000, y: 40_000 },
            fps: 50,
            gun_reload_ticks: 5,
            spawn_ticks: 0,
            initial_enemies: 10,
        }
    }
}

pub open spec fn default_settings() -> Settings {
    Settings {
        world_size: Point { x: 50_000, y: 40_000 },
        fps: 50,
        gun_reload_ticks: 5,
        spawn_ticks: 0,
        initial_enemies: 10,
    }
}

/// The player as `init` places it: at the centre of the world, at rest, with a
/// loaded gun.
pub open spec fn player_record(settings: Settings) -> Record {
    Record {
        player: Some(Player { max_speed: 6000, radius: 250 }),
        position: Some(
            Position {
                point: Point { x: (settings.world_size.x / 2) as i64, y: (settings.world_size.y / 2) as i64 },
            },
        ),
        velocity: Some(Velocity { velocity: Vector { x: 0, y: 0 } }),
        gun: Some(Gun { tick_to_reload: 0 }),
        ..blank()
    }
}

/// The entity that spawns enemies and keeps the score.
pub open spec fn spawner_record() -> Record {
    Record { spawner: Some(Spawner { tick_to_spawn: 0 }), scope: Some(Scope { scope: 0 }), ..blank() }
}

/// The direction that `set_player_direction` keeps: scaled down to length
/// `UNIT` when it is longer.
pub open spec fn limited_direction(d: Vector) -> Vector {
    if norm_sq(d) > UNIT * UNIT {
        unit_direction(d)
    } else {
        d
    }
}

/// A direction longer than `UNIT` is kept at length at most `UNIT` and with
/// its orientation: a positive dot product with the input, and a cross product
/// below `|d.x| + |d.y|`, which is what rounding leaves of zero. A shorter one
/// is kept as it is.
pub proof fn lemma_limited_direction(d: Vector)
    requires
        vector_within(d, 2 * MAX_COORD),
    ensures
        norm_sq(limited_direction(d)) <= UNIT * UNIT,
        norm_sq(d) > UNIT * UNIT ==> {
            let s = limited_direction(d);
            &&& s.x * d.x + s.y * d.y > 0
            &&& -(abs(d.x as int) + abs(d.y as int)) < s.x * d.y - s.y * d.x < abs(d.x as int) + abs(
                d.y as int,
            )
        },
        norm_sq(d) <= UNIT * UNIT ==> limited_direction(d) == d,
{
    if norm_sq(d) > UNIT * UNIT {
        lemma_unit_direction_orientation(d);
    }
}

/// The simulation: the entities, the tunables, the host's input and the random
/// stream that places new enemies.
pub struct MainState {
    pub store: EntityStore,
    pub settings: Settings,
    pub input: Input,
    pub rnd: SmallRng,
}

impl MainState {
    pub open spec fn wf(&self) -> bool {
        self.store.wf() && self.settings.wf() && self.input.wf()
    }

    /// An empty world with the default settings.
    pub fn new() -> (r: MainState)
        ensures
            r.wf(),
            r.store.records@.len() == 0,
            r.store.next_id == 0,
            r.settings == default_settings(),
            r.input == (Input { player_direction: Vector { x: 0, y: 0 }, shoot_point: None, shoot_force: 0 }),
    {
        MainState::with_settings(Settings::new(), 0)
    }

    /// An empty world with the given settings and random seed.
    pub fn with_settings(settings: Settings, seed: u64) -> (r: MainState)
        requires
            settings.wf(),
        ensures
            r.wf(),
            r.store.records@.len() == 0,
            r.store.next_id == 0,
            r.settings == settings,
            r.input == (Input { player_direction: Vector { x: 0, y: 0 }, shoot_point: None, shoot_force: 0 }),
    {
        MainState { store: EntityStore::new(), settings, input: Input::new(), rnd: seeded_rng(seed) }
    }

    /// Places the player at the centre of the world, the spawner with the
    /// score, and `settings.initial_enemies` enemies on the border.
    pub fn init(&mut self)
        requires
            old(self).wf(),
            old(self).store.next_id + 2 + old(self).settings.initial_enemies <= u64::MAX,
        ensures
            final(self).wf(),
            final(self).settings == old(self).settings,
            final(self).input == old(self).input,
            final(self).store.next_id == old(self).store.next_id + 2 + old(self).settings.initial_enemies,
            final(self).store.records@.len() == old(self).store.records@.len() + 2
                + old(self).settings.initial_enemies,
            final(self).store.records@.take(old(self).store.records@.len() + 2int) == with_all_new(
                old(self).store.records@,
                old(self).store.next_id,
                seq![player_record(old(self).settings), spawner_record()],
            ).0,
            forall|i: int|
                old(self).store.records@.len() + 2 <= i < final(self).store.records@.len() ==> is_new_enemy(
                    #[trigger] final(self).store.records@[i],
                    old(self).settings.world_size,
                ),
    {
        let mut player = Record::empty();
        player.player = Some(Player { max_speed: 6000, radius: 250 });
        player.position = Some(
            Position { point: Point { x: self.settings.world_size.x / 2, y: self.settings.world_size.y / 2 } },
        );
        player.velocity = Some(Velocity { velocity: Vector { x: 0, y: 0 } });
        player.gun = Some(Gun { tick_to_reload: 0 });
        let mut spawner = Record::empty();
        spawner.spawner = Some(Spawner { tick_to_spawn: 0 });
        spawner.scope = Some(Scope { scope: 0 });
        let mut first: Vec<Record> = Vec::new();
        first.push(player);
        first.push(spawner);
        proof {
            assert(first@ =~= seq![player_record(self.settings), spawner_record()]);
        }
        self.store.create_entities(&first);
        proof {
            reveal_with_fuel(with_all_new, 3);
        }
        let ghost base = self.store.records@;
        let n = self.settings.initial_enemies;
        let mut i: u32 = 0;
        while i < n
            invariant
                i <= n,
                n == self.settings.initial_enemies,
                self.wf(),
                self.settings == old(self).settings,
                self.input == old(self).input,
                base.len() == old(self).store.records@.len() + 2,
                self.store.next_id == old(self).store.next_id + 2 + i,
                old(self).store.next_id + 2 + n <= u64::MAX,
                self.store.records@.len() == base.len() + i,
                self.store.records@.take(base.len() as int) == base,
                forall|j: int| base.len() <= j < self.store.records@.len() ==> is_new_enemy(
                    #[trigger] self.store.records@[j], self.settings.world_size),
            decreases n - i,
        {
            let ghost before = self.store.records@;
            create_enemy(&mut self.store, &self.settings, &mut self.rnd);
            proof {
                assert(self.store.records@.take(base.len() as int) =~= before.take(base.len() as int));
                assert forall|j: int| base.len() <= j < self.store.records@.len() implies is_new_enemy(
                    #[trigger] self.store.records@[j], self.settings.world_size) by {
                    if j < before.len() {
                        assert(self.store.records@[j] == before[j]);
                    }
                }
            }
            i += 1;
        }
    }

    /// Advances the world by one tick: countdowns, movement, fire, hits,
    /// kills, the player's death, scoring and spawning, in that order; the
    /// entities marked for deletion are then removed.
    pub fn step(&mut self)
        requires
            old(self).wf(),
        ensures
            final(self).wf(),
            final(self).settings == old(self).settings,
            final(self).input == old(self).input,
            ({
                let core = tick_core(old(self).store.records@, old(self).store.next_id, old(self).input, old(self).settings);
                let kept = survivors(spawners_ticked(core.0, old(self).settings.spawn_ticks));
                let born = final(self).store.records@.len() - kept.len();
                &&& final(self).store.records@.len() >= kept.len()
                &&& final(self).store.records@.take(kept.len() as int) == kept
                &&& forall|i: int| kept.len() <= i < final(self).store.records@.len() ==> is_new_enemy(
                    #[trigger] final(self).store.records@[i], old(self).settings.world_size)
                &&& born <= expected_spawns(core.0)
                &&& core.1 + expected_spawns(core.0) <= u64::MAX ==> born == expected_spawns(core.0)
            }),
    {
        let ghost s0 = self.store.records@;
        update_ttl(&mut self.store);
        let ghost s1 = self.store.records@;
        assert(s1 =~= ttl_all(s0));
        remove_by_ttl(&mut self.store);
        assert(self.store.records@ =~= expire_all(s1));
        PhysicSystem.run(&mut self.store, &self.input, &self.settings);
        gun_shot_pass(&mut self.store, &self.input, &self.settings);
        shot_pass(&mut self.store);
        remove_overcolored_enemy_pass(&mut self.store);
        let ghost k0 = self.store.records@;
        damage_player_pass(&mut self.store);
        let ghost k1 = self.store.records@;
        assert(k1 =~= after_player_damage(k0));
        scope_pass(&mut self.store);
        assert(self.store.records@ =~= scored_all(k1));
        let ghost c = self.store.records@;
        let ghost n = c.len();
        spawn_enemies_pass(&mut self.store, &self.settings, &mut self.rnd);
        let ghost spawned = self.store.records@;
        proof {
            let t = spawners_ticked(c, self.settings.spawn_ticks);
            let born = spawned.subrange(n as int, spawned.len() as int);
            assert(spawned =~= t + born);
            assert forall|i: int| 0 <= i < born.len() implies !(#[trigger] born[i]).doomed by {
                assert(born[i] == spawned[n + i]);
            }
            lemma_survivors_append(t, born);
        }
        self.store.maintain();
        proof {
            let t = spawners_ticked(c, self.settings.spawn_ticks);
            let kept = survivors(t);
            let born = spawned.subrange(n as int, spawned.len() as int);
            assert(self.store.records@ == kept + born);
            assert(self.store.records@.take(kept.len() as int) =~= kept);
            assert forall|i: int| kept.len() <= i < self.store.records@.len() implies is_new_enemy(
                #[trigger] self.store.records@[i], self.settings.world_size) by {
                assert(self.store.records@[i] == born[i - kept.len()]);
                assert(born[i - kept.len()] == spawned[n + i - kept.len()]);
            }
        }
    }

    /// Keeps the movement direction for the next ticks. A direction longer
    /// than `UNIT` is first scaled down to that length, in place.
    pub fn set_player_direction(&mut self, direction: &mut Vector)
        requires
            old(self).wf(),
            vector_within(*old(direction), 2 * MAX_COORD),
        ensures
            final(self).wf(),
            *final(direction) == limited_direction(*old(direction)),
            final(self).input == (Input { player_direction: *final(direction), ..old(self).input }),
            final(self).store == old(self).store,
            final(self).settings == old(self).settings,
            norm_sq(*final(direction)) <= UNIT * UNIT,
            final(direction).x * old(direction).x >= 0,
            final(direction).y * old(direction).y >= 0,
    {
        let d = *direction;
        let dx = d.x as i128;
        let dy = d.y as i128;
        proof {
            assert(dx * dx <= 4_000_000_000_000_000_000 && dy * dy <= 4_000_000_000_000_000_000) by (nonlinear_arith)
                requires
                    -2_000_000_000 <= dx <= 2_000_000_000,
                    -2_000_000_000 <= dy <= 2_000_000_000,
            ;
            assert(dx * dx >= 0 && dy * dy >= 0 && dx * dy == dy * dx) by (nonlinear_arith);
        }
        if dx * dx + dy * dy > 1_000_000 {
            if let Some(u) = try_normalize(&d, 10) {
                *direction = u;
            }
        } else {
            proof {
                assert(d.x * d.x <= 1_000_000 && d.y * d.y <= 1_000_000);
                assert(-1000 <= d.x <= 1000) by (nonlinear_arith)
                    requires
                        d.x * d.x <= 1_000_000,
                ;
                assert(-1000 <= d.y <= 1000) by (nonlinear_arith)
                    requires
                        d.y * d.y <= 1_000_000,
                ;
                assert(d.x * d.x >= 0 && d.y * d.y >= 0) by (nonlinear_arith);
            }
        }
        self.input.player_direction = *direction;
    }

    /// Where the player aims; `None` while the trigger is not held.
    pub fn set_shoot_point(&mut self, shoot_point: Option<Point>)
        requires
            old(self).wf(),
            shoot_point matches Some(p) ==> point_ok(p),
        ensures
            final(self).wf(),
            final(self).input == (Input { shoot_point, ..old(self).input }),
            final(self).store == old(self).store,
            final(self).settings == old(self).settings,
    {
        self.input.shoot_point = shoot_point;
    }

    /// The damage that each shot deals.
    pub fn set_shoot_force(&mut self, force: i32)
        requires
            old(self).wf(),
        ensures
            final(self).wf(),
            final(self).input == (Input { shoot_force: force, ..old(self).input }),
            final(self).store == old(self).store,
            final(self).settings == old(self).settings,
    {
        self.input.shoot_force = force;
    }
}


/// What the host draws of an enemy.
#[derive(Clone, Copy, Debug, PartialEq, Eq, Structural)]
pub struct EnemyView {
    pub position: Point,
    pub radius: i64,
    pub is_white: bool,
}

pub open spec fn is_drawn_enemy(r: Record) -> bool {
    is_live(r) && r.position is Some && r.enemy is Some && r.color is Some
}

/// The live enemies of `s`, in order.
pub open spec fn enemy_views(s: Seq<Record>) -> Seq<EnemyView>
    decreases s.len(),
{
    if s.len() == 0 {
        Seq::empty()
    } else {
        let prev = enemy_views(s.drop_last());
        let r = s.last();
        if is_drawn_enemy(r) {
            prev.push(
                EnemyView {
                    position: r.position.unwrap().point,
                    radius: r.enemy.unwrap().radius,
                    is_white: r.color.unwrap().is_white,
                },
            )
        } else {
            prev
        }
    }
}

/// The live shot traces of `s`, in order.
pub open spec fn trace_views(s: Seq<Record>) -> Seq<ShotTrace>
    decreases s.len(),
{
    if s.len() == 0 {
        Seq::empty()
    } else {
        let prev = trace_views(s.drop_last());
        let r = s.last();
        if is_live(r) && r.trace is Some {
            prev.push(r.trace.unwrap())
        } else {
            prev
        }
    }
}

impl MainState {
    /// Position and radius of the player, if it is alive.
    pub fn get_player(&self) -> (r: Option<(Point, i64)>)
        ensures
            r == (match first_player(self.store.records@) {
                Some(k) => Some(
                    (
                        self.store.records@[k].position.unwrap().point,
                        self.store.records@[k].player.unwrap().radius,
                    ),
                ),
                None => None,
            }),
    {
        match find_player(&self.store) {
            Some(k) => {
                let r = self.store.records[k];
                Some((r.position.unwrap().point, r.player.unwrap().radius))
            },
            None => None,
        }
    }

    /// The score, or zero when there is no score record.
    pub fn get_score(&self) -> (r: u32)
        ensures
            r == (match first_scope(self.store.records@) {
                Some(k) => self.store.records@[k].scope.unwrap().scope,
                None => 0,
            }),
    {
        match find_scope(&self.store) {
            Some(k) => self.store.records[k].scope.unwrap().scope,
            None => 0,
        }
    }

    /// The live enemies, in the order of the table.
    pub fn get_enemies(&self) -> (r: Vec<EnemyView>)
        ensures
            r@ == enemy_views(self.store.records@),
    {
        let s = &self.store.records;
        let mut out: Vec<EnemyView> = Vec::new();
        let mut i: usize = 0;
        while i < s.len()
            invariant
                i <= s@.len(),
                out@ == enemy_views(s@.take(i as int)),
            decreases s@.len() - i,
        {
            proof {
                assert(s@.take(i as int + 1).drop_last() =~= s@.take(i as int));
            }
            let r = s[i];
            if !r.doomed {
                if let Some(p) = r.position {
                    if let Some(e) = r.enemy {
                        if let Some(c) = r.color {
                            out.push(EnemyView { position: p.point, radius: e.radius, is_white: c.is_white });
                        }
                    }
                }
            }
            i += 1;
        }
        proof {
            assert(s@.take(s@.len() as int) =~= s@);
        }
        out
    }

    /// The live shot traces, in the order of the table.
    pub fn get_traces(&self) -> (r: Vec<ShotTrace>)
        ensures
            r@ == trace_views(self.store.records@),
    {
        let s = &self.store.records;
        let mut out: Vec<ShotTrace> = Vec::new();
        let mut i: usize = 0;
        while i < s.len()
            invariant
                i <= s@.len(),
                out@ == trace_views(s@.take(i as int)),
            decreases s@.len() - i,
        {
            proof {
                assert(s@.take(i as int + 1).drop_last() =~= s@.take(i as int));
            }
            let r = s[i];
            if !r.doomed {
                if let Some(t) = r.trace {
                    out.push(t);
                }
            }
            i += 1;
        }
        proof {
            assert(s@.take(s@.len() as int) =~= s@);
        }
        out
    }
}

} // verus!
