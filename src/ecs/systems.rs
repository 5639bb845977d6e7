//! The passes that make up a tick, each stated as a function of the table of
//! records, and the laws that relate them.

use crate::ecs::{
    blank, is_live, lemma_update_ok, record_ok, records_ok, survivors, with_all_new, with_new,
    Color, DeadByTtl, Enemy, EnemyKillEvent, EntityStore, Gun, Input, Position, Record, Scope,
    Settings, Shot, ShotTrace, Spawner, Velocity, MAX_RADIUS, MAX_SPEED,
};
use crate::math::{
    bounded_add, circles_overlap, dist_sq, div_i64, div_tz, get_cross_points_with_sphere,
    has_circles_collision, lemma_div_tz_bound, lemma_nearest_idx_range, near, nearest_idx,
    nearest_point, norm_sq, normalized_or_none, point_ok, sphere_cross_points, sq_distance_wide,
    translate_bounded, try_normalize, vector_within, Point, Vector, MAX_COORD, UNIT,
};
use crate::random::{draw_up_to, flip_coin};
use rand::rngs::SmallRng;
use vstd::prelude::*;

verus! {

/// The countdown of a live entity, one tick further on.
pub open spec fn dec_ttl(r: Record) -> Record {
    if is_live(r) && r.ttl is Some {
        let t = r.ttl.unwrap().ttl;
        Record {
            ttl: Some(DeadByTtl { ttl: if t > i32::MIN { (t - 1) as i32 } else { t } }),
            ..r
        }
    } else {
        r
    }
}

/// Decrements every live countdown.
pub fn update_ttl(store: &mut EntityStore)
    requires
        old(store).wf(),
    ensures
        final(store).wf(),
        final(store).next_id == old(store).next_id,
        final(store).records@.len() == old(store).records@.len(),
        forall|i: int|
            0 <= i < old(store).records@.len() ==> #[trigger] final(store).records@[i] == dec_ttl(
                old(store).records@[i],
            ),
{
    let mut i: usize = 0;
    while i < store.records.len()
        invariant
            i <= store.records@.len(),
            store.records@.len() == old(store).records@.len(),
            store.next_id == old(store).next_id,
            store.wf(),
            forall|k: int| 0 <= k < i ==> #[trigger] store.records@[k] == dec_ttl(old(store).records@[k]),
            forall|k: int| i <= k < store.records@.len() ==> #[trigger] store.records@[k] == old(store).records@[k],
        decreases store.records@.len() - i,
    {
        let r = store.records[i];
        let ghost before = store.records@;
        if !r.doomed {
            if let Some(t) = r.ttl {
                let mut n = r;
                n.ttl = Some(DeadByTtl { ttl: if t.ttl > i32::MIN { t.ttl - 1 } else { t.ttl } });
                store.records.set(i, n);
                proof {
                    lemma_update_ok(before, old(store).next_id, i as int, n);
                }
            }
        }
        i += 1;
    }
}


/// A live entity whose countdown has run out is marked for deletion.
pub open spec fn expire(r: Record) -> Record {
    if is_live(r) && r.ttl is Some && r.ttl.unwrap().ttl <= 0 {
        Record { doomed: true, ..r }
    } else {
        r
    }
}

/// Marks for deletion every live entity whose countdown is at or below zero.
pub fn remove_by_ttl(store: &mut EntityStore)
    requires
        old(store).wf(),
    ensures
        final(store).wf(),
        final(store).next_id == old(store).next_id,
        final(store).records@.len() == old(store).records@.len(),
        forall|i: int|
            0 <= i < old(store).records@.len() ==> #[trigger] final(store).records@[i] == expire(
                old(store).records@[i],
            ),
{
    let mut i: usize = 0;
    while i < store.records.len()
        invariant
            i <= store.records@.len(),
            store.records@.len() == old(store).records@.len(),
            store.next_id == old(store).next_id,
            store.wf(),
            forall|k: int| 0 <= k < i ==> #[trigger] store.records@[k] == expire(old(store).records@[k]),
            forall|k: int| i <= k < store.records@.len() ==> #[trigger] store.records@[k] == old(store).records@[k],
        decreases store.records@.len() - i,
    {
        let r = store.records[i];
        if !r.doomed {
            if let Some(t) = r.ttl {
                if t.ttl <= 0 {
                    store.mark_at(i);
                }
            }
        }
        i += 1;
    }
}

/// Direction `d` (length `UNIT` at full speed) turned into a displacement per
/// tick at `speed` units per second.
pub open spec fn scaled(d: Vector, speed: int, fps: int) -> Vector {
    Vector { x: div_tz(d.x * speed, UNIT * fps) as i64, y: div_tz(d.y * speed, UNIT * fps) as i64 }
}

pub fn scale_direction(d: &Vector, speed: i64, fps: i32) -> (r: Vector)
    requires
        vector_within(*d, UNIT as int),
        0 <= speed <= MAX_SPEED,
        1 <= fps,
    ensures
        r == scaled(*d, speed as int, fps as int),
        vector_within(r, MAX_SPEED as int),
{
    let den: i64 = 1000 * fps as i64;
    proof {
        assert(-(1000 * speed) <= d.x * speed <= 1000 * speed) by (nonlinear_arith)
            requires
                -1000 <= d.x <= 1000,
                0 <= speed,
        ;
        assert(-(1000 * speed) <= d.y * speed <= 1000 * speed) by (nonlinear_arith)
            requires
                -1000 <= d.y <= 1000,
                0 <= speed,
        ;
        assert(1000 * speed <= speed * den) by (nonlinear_arith)
            requires
                den >= 1000,
                speed >= 0,
        ;
        lemma_div_tz_bound(d.x * speed, den as int, speed as int);
        lemma_div_tz_bound(d.y * speed, den as int, speed as int);
    }
    let x = div_i64(d.x * speed, den);
    let y = div_i64(d.y * speed, den);
    Vector { x, y }
}

/// A live player's velocity follows the input direction at its top speed.
pub open spec fn player_velocity(r: Record, dir: Vector, fps: int) -> Record {
    if is_live(r) && r.velocity is Some && r.player is Some {
        Record {
            velocity: Some(Velocity { velocity: scaled(dir, r.player.unwrap().max_speed as int, fps) }),
            ..r
        }
    } else {
        r
    }
}

/// Sets the velocity of each live player from the input direction.
pub fn player_velocity_pass(store: &mut EntityStore, input: &Input, settings: &Settings)
    requires
        old(store).wf(),
        input.wf(),
        settings.wf(),
    ensures
        final(store).wf(),
        final(store).next_id == old(store).next_id,
        final(store).records@.len() == old(store).records@.len(),
        forall|i: int|
            0 <= i < old(store).records@.len() ==> #[trigger] final(store).records@[i]
                == player_velocity(old(store).records@[i], input.player_direction, settings.fps as int),
{
    let mut i: usize = 0;
    while i < store.records.len()
        invariant
            i <= store.records@.len(),
            store.records@.len() == old(store).records@.len(),
            store.next_id == old(store).next_id,
            store.wf(),
            input.wf(),
            settings.wf(),
            forall|k: int| 0 <= k < i ==> #[trigger] store.records@[k] == player_velocity(
                old(store).records@[k], input.player_direction, settings.fps as int),
            forall|k: int| i <= k < store.records@.len() ==> #[trigger] store.records@[k] == old(store).records@[k],
        decreases store.records@.len() - i,
    {
        let r = store.records[i];
        let ghost before = store.records@;
        if !r.doomed && r.velocity.is_some() {
            if let Some(p) = r.player {
                proof {
                    assert(record_ok(before[i as int]));
                }
                let v = scale_direction(&input.player_direction, p.max_speed, settings.fps);
                let mut n = r;
                n.velocity = Some(Velocity { velocity: v });
                store.records.set(i, n);
                proof {
                    lemma_update_ok(before, old(store).next_id, i as int, n);
                }
            }
        }
        i += 1;
    }
}

/// A live player moves by its velocity.
pub open spec fn player_moved(r: Record) -> Record {
    if is_live(r) && r.position is Some && r.velocity is Some && r.player is Some {
        Record {
            position: Some(
                Position { point: bounded_add(r.position.unwrap().point, r.velocity.unwrap().velocity) },
            ),
            ..r
        }
    } else {
        r
    }
}

/// Moves each live player by its velocity.
pub fn player_position_pass(store: &mut EntityStore)
    requires
        old(store).wf(),
    ensures
        final(store).wf(),
        final(store).next_id == old(store).next_id,
        final(store).records@.len() == old(store).records@.len(),
        forall|i: int|
            0 <= i < old(store).records@.len() ==> #[trigger] final(store).records@[i]
                == player_moved(old(store).records@[i]),
{
    let mut i: usize = 0;
    while i < store.records.len()
        invariant
            i <= store.records@.len(),
            store.records@.len() == old(store).records@.len(),
            store.next_id == old(store).next_id,
            store.wf(),
            forall|k: int| 0 <= k < i ==> #[trigger] store.records@[k] == player_moved(old(store).records@[k]),
            forall|k: int| i <= k < store.records@.len() ==> #[trigger] store.records@[k] == old(store).records@[k],
        decreases store.records@.len() - i,
    {
        let r = store.records[i];
        let ghost before = store.records@;
        if !r.doomed && r.player.is_some() {
            if let Some(p) = r.position {
                if let Some(v) = r.velocity {
                    proof {
                        assert(record_ok(before[i as int]));
                    }
                    let np = translate_bounded(&p.point, &v.velocity);
                    let mut n = r;
                    n.position = Some(Position { point: np });
                    store.records.set(i, n);
                    proof {
                        lemma_update_ok(before, old(store).next_id, i as int, n);
                    }
                }
            }
        }
        i += 1;
    }
}

/// One coordinate of a circle of radius `r` pushed back inside `[0, bound]`.
pub open spec fn clamp_axis(v: int, r: int, bound: int) -> int {
    let low = if v - r < 0 {
        r
    } else {
        v
    };
    if low + r > bound {
        bound - r
    } else {
        low
    }
}

pub fn clamp_coordinate(v: i64, r: i64, bound: i64) -> (c: i64)
    requires
        coord_range(v as int),
        0 < r <= MAX_COORD,
        0 < bound <= MAX_COORD,
    ensures
        c == clamp_axis(v as int, r as int, bound as int),
        coord_range(c as int),
{
    let low = if v - r < 0 {
        r
    } else {
        v
    };
    if low + r > bound {
        bound - r
    } else {
        low
    }
}

pub open spec fn coord_range(v: int) -> bool {
    -MAX_COORD <= v <= MAX_COORD
}

/// After the clamp a circle that fits in the world lies wholly inside it,
/// wherever it was before.
pub proof fn lemma_clamp_inside(v: int, r: int, bound: int)
    requires
        0 < r,
        2 * r <= bound,
    ensures
        r <= clamp_axis(v, r, bound) <= bound - r,
{
}

/// After the clamp pass a live player that fits in the world lies wholly
/// inside it on both axes, wherever it stood before.
pub proof fn lemma_returned_inside(r: Record, world: Point)
    requires
        is_live(r),
        r.position is Some,
        r.player matches Some(p) && 0 < p.radius && 2 * p.radius <= world.x && 2 * p.radius <= world.y,
        point_ok(r.position.unwrap().point),
        0 < world.x <= MAX_COORD,
        0 < world.y <= MAX_COORD,
    ensures
        ({
            let q = returned(r, world).position.unwrap().point;
            let rad = r.player.unwrap().radius;
            &&& rad <= q.x <= world.x - rad
            &&& rad <= q.y <= world.y - rad
        }),
{
    let p = r.position.unwrap().point;
    let rad = r.player.unwrap().radius as int;
    lemma_clamp_inside(p.x as int, rad, world.x as int);
    lemma_clamp_inside(p.y as int, rad, world.y as int);
}

/// A live player is pushed back so that its circle lies inside the world.
pub open spec fn returned(r: Record, world: Point) -> Record {
    if is_live(r) && r.position is Some && r.player is Some {
        let p = r.position.unwrap().point;
        let rad = r.player.unwrap().radius as int;
        Record {
            position: Some(
                Position {
                    point: Point {
                        x: clamp_axis(p.x as int, rad, world.x as int) as i64,
                        y: clamp_axis(p.y as int, rad, world.y as int) as i64,
                    },
                },
            ),
            ..r
        }
    } else {
        r
    }
}

/// Pushes each live player back inside the world.
pub fn return_player_to_warzone(store: &mut EntityStore, settings: &Settings)
    requires
        old(store).wf(),
        settings.wf(),
    ensures
        final(store).wf(),
        final(store).next_id == old(store).next_id,
        final(store).records@.len() == old(store).records@.len(),
        forall|i: int|
            0 <= i < old(store).records@.len() ==> #[trigger] final(store).records@[i]
                == returned(old(store).records@[i], settings.world_size),
{
    let mut i: usize = 0;
    while i < store.records.len()
        invariant
            i <= store.records@.len(),
            store.records@.len() == old(store).records@.len(),
            store.next_id == old(store).next_id,
            store.wf(),
            settings.wf(),
            forall|k: int| 0 <= k < i ==> #[trigger] store.records@[k] == returned(old(store).records@[k], settings.world_size),
            forall|k: int| i <= k < store.records@.len() ==> #[trigger] store.records@[k] == old(store).records@[k],
        decreases store.records@.len() - i,
    {
        let r = store.records[i];
        let ghost before = store.records@;
        if !r.doomed {
            if let Some(p) = r.position {
                if let Some(pl) = r.player {
                    proof {
                        assert(record_ok(before[i as int]));
                    }
                    let x = clamp_coordinate(p.point.x, pl.radius, settings.world_size.x);
                    let y = clamp_coordinate(p.point.y, pl.radius, settings.world_size.y);
                    let mut n = r;
                    n.position = Some(Position { point: Point { x, y } });
                    store.records.set(i, n);
                    proof {
                        lemma_update_ok(before, old(store).next_id, i as int, n);
                    }
                }
            }
        }
        i += 1;
    }
}


pub open spec fn is_player_at(r: Record) -> bool {
    is_live(r) && r.position is Some && r.player is Some
}

/// Index of the first live player with a position, from `i` on.
pub open spec fn first_player_from(s: Seq<Record>, i: int) -> Option<int>
    decreases s.len() - i,
{
    if i < 0 || i >= s.len() {
        None
    } else if is_player_at(s[i]) {
        Some(i)
    } else {
        first_player_from(s, i + 1)
    }
}

pub open spec fn first_player(s: Seq<Record>) -> Option<int> {
    first_player_from(s, 0)
}

/// Index of the first live player with a position.
pub fn find_player(store: &EntityStore) -> (r: Option<usize>)
    ensures
        r matches Some(k) ==> first_player(store.records@) == Some(k as int),
        r is None ==> first_player(store.records@) is None,
        r matches Some(k) ==> k < store.records@.len() && is_player_at(store.records@[k as int]),
{
    let mut i: usize = 0;
    while i < store.records.len()
        invariant
            i <= store.records@.len(),
            first_player(store.records@) == first_player_from(store.records@, i as int),
        decreases store.records@.len() - i,
    {
        let r = store.records[i];
        if !r.doomed && r.position.is_some() && r.player.is_some() {
            return Some(i);
        }
        i += 1;
    }
    None
}

/// A live enemy heads for `target` at its top speed; it stands still when it
/// is already there.
pub open spec fn enemy_velocity(r: Record, target: Point, fps: int) -> Record {
    if is_live(r) && r.position is Some && r.velocity is Some && r.enemy is Some {
        let p = r.position.unwrap().point;
        let d = Vector { x: (target.x - p.x) as i64, y: (target.y - p.y) as i64 };
        let v = match normalized_or_none(d, 1) {
            Some(u) => scaled(u, r.enemy.unwrap().max_speed as int, fps),
            None => Vector { x: 0, y: 0 },
        };
        Record { velocity: Some(Velocity { velocity: v }), ..r }
    } else {
        r
    }
}

/// An enemy that stands on its target, or within one coordinate unit of it,
/// gets a zero velocity rather than a direction.
pub proof fn lemma_enemy_on_target_stands_still(r: Record, target: Point, fps: int)
    requires
        is_live(r),
        r.position is Some,
        r.velocity is Some,
        r.enemy is Some,
        point_ok(r.position.unwrap().point),
        point_ok(target),
        norm_sq(
            Vector {
                x: (target.x - r.position.unwrap().point.x) as i64,
                y: (target.y - r.position.unwrap().point.y) as i64,
            },
        ) <= 1,
    ensures
        enemy_velocity(r, target, fps).velocity == Some(Velocity { velocity: Vector { x: 0, y: 0 } }),
{
}

/// Points every live enemy at the first live player; without a player nothing
/// changes.
pub fn enemies_velocity_pass(store: &mut EntityStore, settings: &Settings)
    requires
        old(store).wf(),
        settings.wf(),
    ensures
        final(store).wf(),
        final(store).next_id == old(store).next_id,
        final(store).records@.len() == old(store).records@.len(),
        first_player(old(store).records@) is None ==> final(store).records@ == old(store).records@,
        first_player(old(store).records@) matches Some(k) ==> forall|i: int|
            0 <= i < old(store).records@.len() ==> #[trigger] final(store).records@[i]
                == enemy_velocity(
                old(store).records@[i],
                old(store).records@[k].position.unwrap().point,
                settings.fps as int,
            ),
{
    let found = find_player(store);
    let k = match found {
        Some(k) => k,
        None => {
            return;
        },
    };
    let target = match store.records[k].position {
        Some(p) => p.point,
        None => {
            return;
        },
    };
    proof {
        assert(record_ok(store.records@[k as int]));
    }
    let mut i: usize = 0;
    while i < store.records.len()
        invariant
            i <= store.records@.len(),
            store.records@.len() == old(store).records@.len(),
            store.next_id == old(store).next_id,
            store.wf(),
            settings.wf(),
            point_ok(target),
            target == old(store).records@[k as int].position.unwrap().point,
            forall|j: int| 0 <= j < i ==> #[trigger] store.records@[j] == enemy_velocity(
                old(store).records@[j], target, settings.fps as int),
            forall|j: int| i <= j < store.records@.len() ==> #[trigger] store.records@[j] == old(store).records@[j],
        decreases store.records@.len() - i,
    {
        let r = store.records[i];
        let ghost before = store.records@;
        if !r.doomed && r.velocity.is_some() {
            if let Some(p) = r.position {
                if let Some(e) = r.enemy {
                    proof {
                        assert(record_ok(before[i as int]));
                    }
                    let d = Vector { x: target.x - p.point.x, y: target.y - p.point.y };
                    let v = match try_normalize(&d, 1) {
                        Some(u) => scale_direction(&u, e.max_speed, settings.fps),
                        None => Vector { x: 0, y: 0 },
                    };
                    let mut n = r;
                    n.velocity = Some(Velocity { velocity: v });
                    store.records.set(i, n);
                    proof {
                        lemma_update_ok(before, old(store).next_id, i as int, n);
                    }
                }
            }
        }
        i += 1;
    }
}

pub open spec fn is_mover(r: Record) -> bool {
    is_live(r) && r.position is Some && r.velocity is Some && r.enemy is Some
}

/// Where a moving enemy would stand after this tick.
pub open spec fn candidate(r: Record) -> Point {
    bounded_add(r.position.unwrap().point, r.velocity.unwrap().velocity)
}

/// Enemy `j`, where it stands now, is in the way of enemy `i`'s move.
pub open spec fn blocks(s: Seq<Record>, i: int, j: int) -> bool {
    &&& 0 <= j < s.len()
    &&& j != i
    &&& is_mover(s[j])
    &&& circles_overlap(
        s[j].position.unwrap().point,
        candidate(s[i]),
        s[i].enemy.unwrap().radius + s[j].enemy.unwrap().radius,
    )
}

pub open spec fn blocked(s: Seq<Record>, i: int) -> bool {
    exists|j: int| blocks(s, i, j)
}

/// Enemy `i` after the move: it takes its candidate position unless another
/// enemy, where it stood before the pass, is in the way.
pub open spec fn enemy_moved(s: Seq<Record>, i: int) -> Record {
    if is_mover(s[i]) && !blocked(s, i) {
        Record { position: Some(Position { point: candidate(s[i]) }), ..s[i] }
    } else {
        s[i]
    }
}

/// Whether some other enemy blocks the move of enemy `i`.
fn is_blocked(s: &Vec<Record>, i: usize, cand: &Point) -> (r: bool)
    requires
        i < s@.len(),
        is_mover(s@[i as int]),
        *cand == candidate(s@[i as int]),
        point_ok(*cand),
        forall|k: int| 0 <= k < s@.len() ==> record_ok(#[trigger] s@[k]),
    ensures
        r == blocked(s@, i as int),
{
    let me = s[i].enemy.unwrap();
    let mut found = false;
    let mut j: usize = 0;
    while j < s.len()
        invariant
            j <= s@.len(),
            i < s@.len(),
            is_mover(s@[i as int]),
            me == s@[i as int].enemy.unwrap(),
            *cand == candidate(s@[i as int]),
            point_ok(*cand),
            forall|k: int| 0 <= k < s@.len() ==> record_ok(#[trigger] s@[k]),
            found == exists|k: int| 0 <= k < j && blocks(s@, i as int, k),
        decreases s@.len() - j,
    {
        let o = s[j];
        if j != i && !o.doomed && o.velocity.is_some() {
            if let Some(op) = o.position {
                if let Some(oe) = o.enemy {
                    proof {
                        assert(record_ok(s@[j as int]));
                        assert(record_ok(s@[i as int]));
                    }
                    if has_circles_collision(&op.point, cand, me.radius + oe.radius) {
                        found = true;
                    }
                }
            }
        }
        proof {
            if found && !(exists|k: int| 0 <= k < j && blocks(s@, i as int, k)) {
                assert(blocks(s@, i as int, j as int));
            }
            if !found {
                assert forall|k: int| 0 <= k < j + 1 implies !blocks(s@, i as int, k) by {
                    if k < j {
                    }
                }
            }
        }
        j += 1;
    }
    found
}

/// Moves every live enemy by its velocity, unless the move would bring it
/// into another enemy where that one stood before the pass.
pub fn enemies_position_pass(store: &mut EntityStore)
    requires
        old(store).wf(),
    ensures
        final(store).wf(),
        final(store).next_id == old(store).next_id,
        final(store).records@.len() == old(store).records@.len(),
        forall|i: int|
            0 <= i < old(store).records@.len() ==> #[trigger] final(store).records@[i]
                == enemy_moved(old(store).records@, i),
{
    let ghost s = store.records@;
    let mut next: Vec<Record> = Vec::new();
    let mut i: usize = 0;
    while i < store.records.len()
        invariant
            i <= s.len(),
            store.records@ == s,
            store.wf(),
            next@.len() == i,
            forall|k: int| 0 <= k < i ==> #[trigger] next@[k] == enemy_moved(s, k),
        decreases s.len() - i,
    {
        let r = store.records[i];
        let mut n = r;
        if !r.doomed && r.enemy.is_some() {
            if let Some(p) = r.position {
                if let Some(v) = r.velocity {
                    proof {
                        assert(record_ok(s[i as int]));
                    }
                    let cand = translate_bounded(&p.point, &v.velocity);
                    if !is_blocked(&store.records, i, &cand) {
                        n.position = Some(Position { point: cand });
                    }
                }
            }
        }
        next.push(n);
        i += 1;
    }
    proof {
        let t = next@;
        assert forall|k: int| 0 <= k < t.len() implies record_ok(#[trigger] t[k]) && t[k].entity == s[k].entity by {
            assert(record_ok(s[k]));
        }
        assert forall|a: int, b: int| 0 <= a < b < t.len() implies (#[trigger] t[a]).entity < (#[trigger] t[b]).entity by {
            assert(t[a].entity == s[a].entity && t[b].entity == s[b].entity);
        }
        assert forall|a: int| 0 <= a < t.len() implies (#[trigger] t[a]).entity < store.next_id by {
            assert(t[a].entity == s[a].entity);
        }
    }
    store.records = next;
}

/// Two enemies that stand on the same spot and move alike both stay where
/// they are, when the step is shorter than the sum of their radii: each would
/// run into the other.
pub proof fn lemma_twin_enemies_stay(s: Seq<Record>, i: int, j: int)
    requires
        0 <= i < s.len(),
        0 <= j < s.len(),
        i != j,
        is_mover(s[i]),
        is_mover(s[j]),
        s[i].position == s[j].position,
        s[i].velocity == s[j].velocity,
        dist_sq(candidate(s[i]), s[i].position.unwrap().point) < (s[i].enemy.unwrap().radius
            + s[j].enemy.unwrap().radius) * (s[i].enemy.unwrap().radius + s[j].enemy.unwrap().radius),
    ensures
        enemy_moved(s, i) == s[i],
        enemy_moved(s, j) == s[j],
{
    let pi = s[i].position.unwrap().point;
    let c = candidate(s[i]);
    assert(dist_sq(pi, c) == dist_sq(c, pi)) by (nonlinear_arith);
    assert(blocks(s, i, j));
    assert(candidate(s[j]) == c);
    let ri = s[i].enemy.unwrap().radius as int;
    let rj = s[j].enemy.unwrap().radius as int;
    assert((rj + ri) * (rj + ri) == (ri + rj) * (ri + rj)) by (nonlinear_arith);
    assert(blocks(s, j, i));
}


pub open spec fn is_gunner(r: Record) -> bool {
    is_live(r) && r.gun is Some && r.position is Some
}

/// The gun of `r` fires this tick.
pub open spec fn fires(r: Record, aim: Option<Point>) -> bool {
    is_gunner(r) && r.gun.unwrap().tick_to_reload == 0 && aim is Some
}

/// A gun that is reloading counts down; a loaded gun (at zero) fires when the
/// player aims and then reloads, and stays loaded while nobody aims; a gun
/// below zero reloads without firing.
pub open spec fn gun_ticked(r: Record, aim: Option<Point>, reload: i32) -> Record {
    if is_gunner(r) {
        let t = r.gun.unwrap().tick_to_reload;
        if t > 0 {
            Record { gun: Some(Gun { tick_to_reload: (t - 1) as i32 }), ..r }
        } else if t < 0 || aim is Some {
            Record { gun: Some(Gun { tick_to_reload: reload }), ..r }
        } else {
            r
        }
    } else {
        r
    }
}

pub open spec fn guns_ticked(s: Seq<Record>, aim: Option<Point>, reload: i32) -> Seq<Record> {
    s.map_values(|r: Record| gun_ticked(r, aim, reload))
}

/// A shot lives for the tick it was fired in.
pub open spec fn shot_record(from: Point, to: Point, force: i32) -> Record {
    Record { shot: Some(Shot { from, to, force }), ttl: Some(DeadByTtl { ttl: 0 }), ..blank() }
}

/// The shots that the guns of `s` fire, in the order of the guns.
pub open spec fn shots_fired(s: Seq<Record>, aim: Option<Point>, force: i32) -> Seq<Record>
    decreases s.len(),
{
    if s.len() == 0 {
        Seq::empty()
    } else {
        let prev = shots_fired(s.drop_last(), aim, force);
        if fires(s.last(), aim) {
            prev.push(shot_record(s.last().position.unwrap().point, aim.unwrap(), force))
        } else {
            prev
        }
    }
}

/// Advances every gun and adds a shot entity for each gun that fires.
pub fn gun_shot_pass(store: &mut EntityStore, input: &Input, settings: &Settings)
    requires
        old(store).wf(),
        input.wf(),
        settings.wf(),
    ensures
        final(store).wf(),
        (final(store).records@, final(store).next_id) == with_all_new(
            guns_ticked(old(store).records@, input.shoot_point, settings.gun_reload_ticks),
            old(store).next_id,
            shots_fired(old(store).records@, input.shoot_point, input.shoot_force),
        ),
{
    let ghost s = store.records@;
    let mut shots: Vec<Record> = Vec::new();
    let mut i: usize = 0;
    while i < store.records.len()
        invariant
            i <= s.len(),
            store.records@.len() == s.len(),
            store.next_id == old(store).next_id,
            s == old(store).records@,
            store.wf(),
            input.wf(),
            settings.wf(),
            forall|k: int| 0 <= k < i ==> #[trigger] store.records@[k] == gun_ticked(
                s[k], input.shoot_point, settings.gun_reload_ticks),
            forall|k: int| i <= k < s.len() ==> #[trigger] store.records@[k] == s[k],
            shots@ == shots_fired(s.take(i as int), input.shoot_point, input.shoot_force),
            forall|k: int| 0 <= k < shots@.len() ==> record_ok(#[trigger] shots@[k]),
        decreases s.len() - i,
    {
        let r = store.records[i];
        let ghost before = store.records@;
        proof {
            assert(s.take(i as int + 1).drop_last() =~= s.take(i as int));
            assert(record_ok(s[i as int]));
        }
        if !r.doomed {
            if let Some(g) = r.gun {
                if let Some(p) = r.position {
                    let mut n = r;
                    if g.tick_to_reload > 0 {
                        n.gun = Some(Gun { tick_to_reload: g.tick_to_reload - 1 });
                    } else if g.tick_to_reload < 0 {
                        n.gun = Some(Gun { tick_to_reload: settings.gun_reload_ticks });
                    } else if let Some(aim) = input.shoot_point {
                        n.gun = Some(Gun { tick_to_reload: settings.gun_reload_ticks });
                        let mut shot = Record::empty();
                        shot.shot = Some(Shot { from: p.point, to: aim, force: input.shoot_force });
                        shot.ttl = Some(DeadByTtl { ttl: 0 });
                        shots.push(shot);
                    }
                    store.records.set(i, n);
                    proof {
                        lemma_update_ok(before, old(store).next_id, i as int, n);
                    }
                }
            }
        }
        i += 1;
    }
    proof {
        assert(s.take(s.len() as int) =~= s);
        assert(store.records@ =~= guns_ticked(s, input.shoot_point, settings.gun_reload_ticks));
    }
    store.create_entities(&shots);
}

pub open spec fn is_target(r: Record) -> bool {
    is_live(r) && r.enemy is Some && r.position is Some && r.color is Some
}

/// Where `shot` first meets the enemy of `r`, if it does.
pub open spec fn enemy_hit(r: Record, shot: Shot) -> Option<Point> {
    if is_target(r) {
        let pts = sphere_cross_points(
            r.position.unwrap().point,
            r.enemy.unwrap().radius as int,
            shot.from,
            shot.to,
        );
        if pts.len() > 0 {
            Some(pts[nearest_idx(pts, shot.from)])
        } else {
            None
        }
    } else {
        None
    }
}

/// The first enemy of `s` whose hit point is nearest to where the shot starts,
/// with that point.
pub open spec fn best_hit(s: Seq<Record>, shot: Shot) -> Option<(int, Point)>
    decreases s.len(),
{
    if s.len() == 0 {
        None
    } else {
        let prev = best_hit(s.drop_last(), shot);
        match enemy_hit(s.last(), shot) {
            None => prev,
            Some(p) => match prev {
                None => Some((s.len() - 1, p)),
                Some(kq) => if dist_sq(p, shot.from) < dist_sq(kq.1, shot.from) {
                    Some((s.len() - 1, p))
                } else {
                    prev
                },
            },
        }
    }
}

/// Where the shot meets the enemy standing at `enemy_pos`: the crossing
/// nearest to where the shot starts.
pub fn get_enemy_hit_point(shot: &Shot, enemy: &Enemy, enemy_pos: &Point) -> (r: Option<Point>)
    requires
        point_ok(shot.from),
        point_ok(shot.to),
        point_ok(*enemy_pos),
        0 < enemy.radius <= MAX_RADIUS,
    ensures
        ({
            let pts = sphere_cross_points(*enemy_pos, enemy.radius as int, shot.from, shot.to);
            r == (if pts.len() > 0 {
                Some(pts[nearest_idx(pts, shot.from)])
            } else {
                None::<Point>
            })
        }),
        r matches Some(p) ==> near(p, shot.from, 5 * MAX_COORD),
{
    let pts = get_cross_points_with_sphere(enemy_pos, enemy.radius, &shot.from, &shot.to);
    let r = nearest_point(&pts, &shot.from);
    proof {
        if pts@.len() > 0 {
            lemma_nearest_idx_range(pts@, shot.from);
            assert(near(pts@[nearest_idx(pts@, shot.from)], *enemy_pos, 2 * enemy.radius + 2));
        }
    }
    r
}

/// The enemy that `shot` strikes first among the records, and where.
fn find_best_hit(s: &Vec<Record>, shot: &Shot) -> (r: Option<(usize, Point)>)
    requires
        point_ok(shot.from),
        point_ok(shot.to),
        forall|k: int| 0 <= k < s@.len() ==> record_ok(#[trigger] s@[k]),
    ensures
        r is None ==> best_hit(s@, *shot) is None,
        r matches Some(kp) ==> best_hit(s@, *shot) == Some((kp.0 as int, kp.1)),
        r matches Some(kp) ==> kp.0 < s@.len() && is_target(s@[kp.0 as int]),
{
    let mut best: Option<(usize, Point)> = None;
    let mut best_d: i128 = 0;
    let mut k: usize = 0;
    while k < s.len()
        invariant
            k <= s@.len(),
            point_ok(shot.from),
            point_ok(shot.to),
            forall|j: int| 0 <= j < s@.len() ==> record_ok(#[trigger] s@[j]),
            best is None ==> best_hit(s@.take(k as int), *shot) is None,
            best matches Some(kp) ==> best_hit(s@.take(k as int), *shot) == Some((kp.0 as int, kp.1))
                && kp.0 < k && is_target(s@[kp.0 as int]) && near(kp.1, shot.from, 5 * MAX_COORD)
                && best_d == dist_sq(kp.1, shot.from),
        decreases s@.len() - k,
    {
        let r = s[k];
        proof {
            let t = s@.take(k as int + 1);
            assert(t.drop_last() =~= s@.take(k as int));
            assert(t.last() == s@[k as int]);
            assert(record_ok(s@[k as int]));
        }
        let mut hit: Option<Point> = None;
        if !r.doomed && r.color.is_some() {
            if let Some(e) = r.enemy {
                if let Some(p) = r.position {
                    hit = get_enemy_hit_point(shot, &e, &p.point);
                }
            }
        }
        assert(hit == enemy_hit(s@[k as int], *shot));
        if let Some(p) = hit {
            let d = sq_distance_wide(&p, &shot.from);
            match best {
                None => {
                    best = Some((k, p));
                    best_d = d;
                },
                Some(_) => {
                    if d < best_d {
                        best = Some((k, p));
                        best_d = d;
                    }
                },
            }
        }
        k += 1;
    }
    proof {
        assert(s@.take(s@.len() as int) =~= s@);
    }
    best
}

/// `d + f`, held to the range of `i32`.
pub open spec fn add_damage(d: i32, f: i32) -> i32 {
    if d + f > i32::MAX {
        i32::MAX
    } else if d + f < i32::MIN {
        i32::MIN
    } else {
        (d + f) as i32
    }
}

/// The records after `shot` has struck `hit`, if anything.
pub open spec fn apply_hit(s: Seq<Record>, shot: Shot, hit: Option<(int, Point)>) -> Seq<Record> {
    match hit {
        None => s,
        Some(kq) => {
            let r = s[kq.0];
            let c = r.color.unwrap();
            s.update(kq.0, Record { color: Some(Color { damage: add_damage(c.damage, shot.force), ..c }), ..r })
        },
    }
}

/// The trace of a resolved shot: it runs to the hit point, or to where the
/// player aimed when nothing was struck.
pub open spec fn trace_record(shot: Shot, hit: Option<(int, Point)>) -> Record {
    Record {
        trace: Some(
            ShotTrace {
                from: shot.from,
                to: match hit {
                    Some(kq) => kq.1,
                    None => shot.to,
                },
            },
        ),
        ttl: Some(DeadByTtl { ttl: 5 }),
        ..blank()
    }
}

/// The records and the traces after the shots among the first `n` records
/// have been resolved, in order.
pub open spec fn resolve(s: Seq<Record>, n: nat) -> (Seq<Record>, Seq<Record>)
    decreases n,
{
    if n == 0 {
        (s, Seq::empty())
    } else {
        let prev = resolve(s, (n - 1) as nat);
        let cur = prev.0;
        let i = n - 1;
        if i < cur.len() && is_live(cur[i]) && cur[i].shot is Some {
            let shot = cur[i].shot.unwrap();
            let hit = best_hit(cur, shot);
            let after = apply_hit(cur, shot, hit);
            (after.update(i, Record { doomed: true, ..after[i] }), prev.1.push(trace_record(shot, hit)))
        } else {
            prev
        }
    }
}

/// Resolves every live shot: the nearest enemy it strikes takes its force as
/// damage, a trace is added, and the shot is used up.
pub fn shot_pass(store: &mut EntityStore)
    requires
        old(store).wf(),
    ensures
        final(store).wf(),
        ({
            let res = resolve(old(store).records@, old(store).records@.len());
            (final(store).records@, final(store).next_id) == with_all_new(res.0, old(store).next_id, res.1)
        }),
{
    let n = store.records.len();
    let ghost s = store.records@;
    let mut traces: Vec<Record> = Vec::new();
    let mut i: usize = 0;
    while i < n
        invariant
            i <= n,
            n == s.len(),
            s == old(store).records@,
            store.records@.len() == n,
            store.next_id == old(store).next_id,
            store.wf(),
            (store.records@, traces@) == resolve(s, i as nat),
            forall|k: int| 0 <= k < traces@.len() ==> record_ok(#[trigger] traces@[k]),
        decreases n - i,
    {
        let r = store.records[i];
        proof {
            assert(record_ok(store.records@[i as int]));
        }
        if !r.doomed {
            if let Some(shot) = r.shot {
                let ghost cur = store.records@;
                let hit = find_best_hit(&store.records, &shot);
                let ghost ghit: Option<(int, Point)> = match hit {
                    Some(kp) => Some((kp.0 as int, kp.1)),
                    None => None,
                };
                let to = match hit {
                    Some((k, p)) => {
                        let mut t = store.records[k];
                        let c = t.color.unwrap();
                        t.color = Some(Color { is_white: c.is_white, damage: add_damage_exec(c.damage, shot.force) });
                        store.records.set(k, t);
                        proof {
                            lemma_update_ok(cur, store.next_id, k as int, t);
                            assert(store.records@ =~= apply_hit(cur, shot, ghit));
                        }
                        p
                    },
                    None => shot.to,
                };
                store.mark_at(i);
                let mut tr = Record::empty();
                tr.trace = Some(ShotTrace { from: shot.from, to });
                tr.ttl = Some(DeadByTtl { ttl: 5 });
                traces.push(tr);
                proof {
                    assert(tr == trace_record(shot, ghit));
                    assert(traces@ =~= resolve(s, i as nat).1.push(trace_record(shot, ghit)));
                }
            }
        }
        i += 1;
    }
    store.create_entities(&traces);
}

fn add_damage_exec(d: i32, f: i32) -> (r: i32)
    ensures
        r == add_damage(d, f),
{
    let v = d as i64 + f as i64;
    if v > i32::MAX as i64 {
        i32::MAX
    } else if v < i32::MIN as i64 {
        i32::MIN
    } else {
        v as i32
    }
}


/// A white enemy dies once its damage is positive, a dark one once it is
/// negative.
pub open spec fn lethal(c: Color) -> bool {
    (c.is_white && c.damage > 0) || (!c.is_white && c.damage < 0)
}

pub open spec fn is_dying(r: Record) -> bool {
    is_live(r) && r.enemy is Some && r.color is Some && lethal(r.color.unwrap())
}

pub open spec fn killed(r: Record) -> Record {
    if is_dying(r) {
        Record { doomed: true, ..r }
    } else {
        r
    }
}

pub open spec fn all_killed(s: Seq<Record>) -> Seq<Record> {
    s.map_values(|r: Record| killed(r))
}

pub open spec fn count_dying(s: Seq<Record>) -> nat
    decreases s.len(),
{
    if s.len() == 0 {
        0
    } else {
        count_dying(s.drop_last()) + if is_dying(s.last()) {
            1nat
        } else {
            0nat
        }
    }
}

pub open spec fn kill_record() -> Record {
    Record { kill_event: Some(EnemyKillEvent), ..blank() }
}

/// `n` copies of `r`.
pub open spec fn copies(r: Record, n: nat) -> Seq<Record>
    decreases n,
{
    if n == 0 {
        Seq::empty()
    } else {
        copies(r, (n - 1) as nat).push(r)
    }
}

/// Marks for deletion every live enemy whose damage has become lethal, and
/// adds one kill event for each.
pub fn remove_overcolored_enemy_pass(store: &mut EntityStore)
    requires
        old(store).wf(),
    ensures
        final(store).wf(),
        (final(store).records@, final(store).next_id) == with_all_new(
            all_killed(old(store).records@),
            old(store).next_id,
            copies(kill_record(), count_dying(old(store).records@)),
        ),
{
    let ghost s = store.records@;
    let mut count: usize = 0;
    let mut i: usize = 0;
    while i < store.records.len()
        invariant
            i <= s.len(),
            s == old(store).records@,
            store.records@.len() == s.len(),
            store.next_id == old(store).next_id,
            store.wf(),
            count == count_dying(s.take(i as int)),
            count <= i,
            forall|k: int| 0 <= k < i ==> #[trigger] store.records@[k] == killed(s[k]),
            forall|k: int| i <= k < s.len() ==> #[trigger] store.records@[k] == s[k],
        decreases s.len() - i,
    {
        let r = store.records[i];
        proof {
            assert(s.take(i as int + 1).drop_last() =~= s.take(i as int));
        }
        if !r.doomed && r.enemy.is_some() {
            if let Some(c) = r.color {
                if (c.is_white && c.damage > 0) || (!c.is_white && c.damage < 0) {
                    store.mark_at(i);
                    count += 1;
                }
            }
        }
        i += 1;
    }
    proof {
        assert(s.take(s.len() as int) =~= s);
        assert(store.records@ =~= all_killed(s));
    }
    let mut events: Vec<Record> = Vec::new();
    let mut j: usize = 0;
    while j < count
        invariant
            j <= count,
            events@ == copies(kill_record(), j as nat),
            forall|k: int| 0 <= k < events@.len() ==> #[trigger] events@[k] == kill_record(),
        decreases count - j,
    {
        let mut e = Record::empty();
        e.kill_event = Some(EnemyKillEvent);
        events.push(e);
        j += 1;
    }
    store.create_entities(&events);
}

/// Enemy `j` touches the player of record `p`.
pub open spec fn touches(s: Seq<Record>, p: int, j: int) -> bool {
    &&& 0 <= j < s.len()
    &&& s[j].position is Some
    &&& s[j].enemy is Some
    &&& circles_overlap(
        s[j].position.unwrap().point,
        s[p].position.unwrap().point,
        s[p].player.unwrap().radius + s[j].enemy.unwrap().radius,
    )
}

/// Marks the first live player for deletion when an enemy touches it, also
/// one that this tick has already marked for deletion.
pub fn damage_player_pass(store: &mut EntityStore)
    requires
        old(store).wf(),
    ensures
        final(store).wf(),
        final(store).next_id == old(store).next_id,
        first_player(old(store).records@) is None ==> final(store).records@ == old(store).records@,
        first_player(old(store).records@) matches Some(p) ==> final(store).records@ == (if exists|j: int|
            touches(old(store).records@, p, j) {
            old(store).records@.update(p, Record { doomed: true, ..old(store).records@[p] })
        } else {
            old(store).records@
        }),
{
    let found = find_player(store);
    let p = match found {
        Some(p) => p,
        None => {
            return;
        },
    };
    let pr = store.records[p];
    let pp = pr.position.unwrap().point;
    let pl = pr.player.unwrap();
    proof {
        assert(record_ok(store.records@[p as int]));
    }
    let ghost s = store.records@;
    let mut hit = false;
    let mut j: usize = 0;
    while j < store.records.len()
        invariant
            j <= s.len(),
            store.records@ == s,
            s == old(store).records@,
            store.wf(),
            p < s.len(),
            pp == s[p as int].position.unwrap().point,
            pl == s[p as int].player.unwrap(),
            point_ok(pp),
            0 < pl.radius <= MAX_RADIUS,
            hit == exists|k: int| 0 <= k < j && touches(s, p as int, k),
        decreases s.len() - j,
    {
        let e = store.records[j];
        proof {
            assert(record_ok(s[j as int]));
        }
        if let Some(ep) = e.position {
            if let Some(en) = e.enemy {
                if has_circles_collision(&ep.point, &pp, pl.radius + en.radius) {
                    hit = true;
                }
            }
        }
        proof {
            if hit && !(exists|k: int| 0 <= k < j && touches(s, p as int, k)) {
                assert(touches(s, p as int, j as int));
            }
            if !hit {
                assert forall|k: int| 0 <= k < j + 1 implies !touches(s, p as int, k) by {
                    if k < j {
                    }
                }
            }
        }
        j += 1;
    }
    if hit {
        store.mark_at(p);
    } else {
        proof {
            assert forall|k: int| !touches(s, p as int, k) by {
                if 0 <= k < s.len() {
                }
            }
        }
    }
}

pub open spec fn is_scope(r: Record) -> bool {
    is_live(r) && r.scope is Some
}

/// Index of the first live score record, from `i` on.
pub open spec fn first_scope_from(s: Seq<Record>, i: int) -> Option<int>
    decreases s.len() - i,
{
    if i < 0 || i >= s.len() {
        None
    } else if is_scope(s[i]) {
        Some(i)
    } else {
        first_scope_from(s, i + 1)
    }
}

pub open spec fn first_scope(s: Seq<Record>) -> Option<int> {
    first_scope_from(s, 0)
}

/// Index of the first live score record.
pub fn find_scope(store: &EntityStore) -> (r: Option<usize>)
    ensures
        r matches Some(k) ==> first_scope(store.records@) == Some(k as int),
        r is None ==> first_scope(store.records@) is None,
        r matches Some(k) ==> k < store.records@.len() && is_scope(store.records@[k as int]),
{
    let mut i: usize = 0;
    while i < store.records.len()
        invariant
            i <= store.records@.len(),
            first_scope(store.records@) == first_scope_from(store.records@, i as int),
        decreases store.records@.len() - i,
    {
        let r = store.records[i];
        if !r.doomed && r.scope.is_some() {
            return Some(i);
        }
        i += 1;
    }
    None
}

pub open spec fn is_kill(r: Record) -> bool {
    is_live(r) && r.kill_event is Some
}

pub open spec fn count_kills(s: Seq<Record>) -> nat
    decreases s.len(),
{
    if s.len() == 0 {
        0
    } else {
        count_kills(s.drop_last()) + if is_kill(s.last()) {
            1nat
        } else {
            0nat
        }
    }
}

/// `a + b`, held to the range of `u32`.
pub open spec fn add_score(a: u32, b: nat) -> u32 {
    if a + b > u32::MAX {
        u32::MAX
    } else {
        (a + b) as u32
    }
}

/// The score record takes the kills; every live kill event is used up.
pub open spec fn scored(r: Record, is_first: bool, kills: nat) -> Record {
    let r1 = if is_first {
        Record { scope: Some(Scope { scope: add_score(r.scope.unwrap().scope, kills) }), ..r }
    } else {
        r
    };
    if is_kill(r) {
        Record { doomed: true, ..r1 }
    } else {
        r1
    }
}

fn count_kill_events(s: &Vec<Record>) -> (n: u64)
    ensures
        n == count_kills(s@),
{
    let mut n: u64 = 0;
    let mut i: usize = 0;
    while i < s.len()
        invariant
            i <= s@.len(),
            n == count_kills(s@.take(i as int)),
            n <= i,
        decreases s@.len() - i,
    {
        proof {
            assert(s@.take(i as int + 1).drop_last() =~= s@.take(i as int));
        }
        let r = s[i];
        if !r.doomed && r.kill_event.is_some() {
            n += 1;
        }
        i += 1;
    }
    proof {
        assert(s@.take(s@.len() as int) =~= s@);
    }
    n
}

/// Adds the number of live kill events to the first score record and marks
/// the events for deletion.
pub fn scope_pass(store: &mut EntityStore)
    requires
        old(store).wf(),
    ensures
        final(store).wf(),
        final(store).next_id == old(store).next_id,
        final(store).records@.len() == old(store).records@.len(),
        forall|i: int|
            0 <= i < old(store).records@.len() ==> #[trigger] final(store).records@[i] == scored(
                old(store).records@[i],
                first_scope(old(store).records@) == Some(i),
                count_kills(old(store).records@),
            ),
{
    let ghost s = store.records@;
    let kills = count_kill_events(&store.records);
    let first = find_scope(store);
    let mut i: usize = 0;
    while i < store.records.len()
        invariant
            i <= s.len(),
            s == old(store).records@,
            store.records@.len() == s.len(),
            store.next_id == old(store).next_id,
            store.wf(),
            kills == count_kills(s),
            first matches Some(k) ==> first_scope(s) == Some(k as int) && k < s.len() && is_scope(s[k as int]),
            first is None ==> first_scope(s) is None,
            forall|k: int| 0 <= k < i ==> #[trigger] store.records@[k] == scored(s[k], first_scope(s) == Some(k), kills as nat),
            forall|k: int| i <= k < s.len() ==> #[trigger] store.records@[k] == s[k],
        decreases s.len() - i,
    {
        let r = store.records[i];
        let ghost before = store.records@;
        let mut n = r;
        let is_first = match first {
            Some(k) => k == i,
            None => false,
        };
        if is_first {
            let sc = r.scope.unwrap().scope;
            let total = sc as u128 + kills as u128;
            n.scope = Some(Scope { scope: if total > u32::MAX as u128 { u32::MAX } else { total as u32 } });
        }
        if !r.doomed && r.kill_event.is_some() {
            n.doomed = true;
        }
        store.records.set(i, n);
        proof {
            assert(record_ok(before[i as int]));
            lemma_update_ok(before, old(store).next_id, i as int, n);
        }
        i += 1;
    }
}


/// A point on the border of the world `[0, world.x] x [0, world.y]`.
pub open spec fn on_edge(p: Point, world: Point) -> bool {
    ||| ((p.x == 0 || p.x == world.x) && 0 <= p.y <= world.y)
    ||| ((p.y == 0 || p.y == world.y) && 0 <= p.x <= world.x)
}

/// The point `along` the chosen edge: a left or right edge when `vertical`,
/// the far one of the two when `far`.
pub open spec fn edge_point_spec(world: Point, vertical: bool, far: bool, along: int) -> Point {
    if vertical {
        Point { x: if far { world.x } else { 0 }, y: along as i64 }
    } else {
        Point { x: along as i64, y: if far { world.y } else { 0 } }
    }
}

pub fn edge_point(world: &Point, vertical: bool, far: bool, along: i64) -> (p: Point)
    requires
        0 <= world.x,
        0 <= world.y,
        0 <= along <= (if vertical { world.y } else { world.x }),
    ensures
        p == edge_point_spec(*world, vertical, far, along as int),
        on_edge(p, *world),
{
    if vertical {
        Point { x: if far { world.x } else { 0 }, y: along }
    } else {
        Point { x: along, y: if far { world.y } else { 0 } }
    }
}

/// The enemy that the world starts with and spawns.
pub open spec fn default_enemy() -> Enemy {
    Enemy { radius: 500, max_speed: 4000 }
}

impl Enemy {
    pub fn default() -> (e: Enemy)
        ensures
            e == default_enemy(),
    {
        Enemy { radius: 500, max_speed: 4000 }
    }
}

/// A fresh enemy on the border of the world, at rest and undamaged.
pub open spec fn is_new_enemy(r: Record, world: Point) -> bool {
    &&& !r.doomed
    &&& r.enemy == Some(default_enemy())
    &&& r.position matches Some(p) && on_edge(p.point, world)
    &&& r.velocity == Some(Velocity { velocity: Vector { x: 0, y: 0 } })
    &&& r.color matches Some(c) && c.damage == 0
    &&& r.player is None && r.gun is None && r.shot is None && r.ttl is None
    &&& r.trace is None && r.spawner is None && r.kill_event is None && r.scope is None
}

/// Adds an enemy at a random point of the border, of a random colour.
pub fn create_enemy(store: &mut EntityStore, settings: &Settings, rng: &mut SmallRng)
    requires
        old(store).wf(),
        settings.wf(),
    ensures
        final(store).wf(),
        old(store).next_id < u64::MAX ==> {
            &&& final(store).records@.len() == old(store).records@.len() + 1
            &&& final(store).records@.drop_last() == old(store).records@
            &&& is_new_enemy(final(store).records@.last(), settings.world_size)
            &&& final(store).next_id == old(store).next_id + 1
        },
        old(store).next_id == u64::MAX ==> final(store).records@ == old(store).records@
            && final(store).next_id == old(store).next_id,
{
    let vertical = flip_coin(rng);
    let far = flip_coin(rng);
    let span = if vertical {
        settings.world_size.y
    } else {
        settings.world_size.x
    };
    let along = draw_up_to(rng, span);
    let position = edge_point(&settings.world_size, vertical, far, along);
    let is_white = flip_coin(rng);
    let mut r = Record::empty();
    r.enemy = Some(Enemy::default());
    r.position = Some(Position { point: position });
    r.velocity = Some(Velocity { velocity: Vector { x: 0, y: 0 } });
    r.color = Some(Color { is_white, damage: 0 });
    store.create_entity(r);
    proof {
        if old(store).next_id < u64::MAX {
            assert(store.records@.drop_last() =~= old(store).records@);
        }
    }
}

pub open spec fn is_spawner(r: Record) -> bool {
    is_live(r) && r.spawner is Some
}

/// A live spawner that is due this tick.
pub open spec fn spawn_due(r: Record) -> bool {
    is_spawner(r) && r.spawner.unwrap().tick_to_spawn <= 0
}

/// A spawner counts down, and starts over once it is due.
pub open spec fn spawner_ticked(r: Record, spawn_ticks: i32) -> Record {
    if is_spawner(r) {
        let t = r.spawner.unwrap().tick_to_spawn;
        Record {
            spawner: Some(Spawner { tick_to_spawn: if t > 0 { (t - 1) as i32 } else { spawn_ticks } }),
            ..r
        }
    } else {
        r
    }
}

pub open spec fn count_due(s: Seq<Record>) -> nat
    decreases s.len(),
{
    if s.len() == 0 {
        0
    } else {
        count_due(s.drop_last()) + if spawn_due(s.last()) {
            1nat
        } else {
            0nat
        }
    }
}

pub open spec fn count_enemies(s: Seq<Record>) -> nat
    decreases s.len(),
{
    if s.len() == 0 {
        0
    } else {
        count_enemies(s.drop_last()) + if is_live(s.last()) && s.last().enemy is Some {
            1nat
        } else {
            0nat
        }
    }
}

/// How many live enemies the world aims for at a given score.
pub open spec fn target_count(score: u32) -> int {
    score / 5 + 10
}

/// How many enemies a tick spawns: one for each due spawner, while the live
/// enemies are fewer than the target; none without a score record.
pub open spec fn expected_spawns(s: Seq<Record>) -> int {
    match first_scope(s) {
        None => 0,
        Some(k) => {
            spawn_bound(count_enemies(s) as int, target_count(s[k].scope.unwrap().scope), count_due(s) as int)
        },
    }
}

fn count_live_enemies(s: &Vec<Record>) -> (n: u64)
    ensures
        n == count_enemies(s@),
        n <= s@.len(),
{
    let mut n: u64 = 0;
    let mut i: usize = 0;
    while i < s.len()
        invariant
            i <= s@.len(),
            n == count_enemies(s@.take(i as int)),
            n <= i,
        decreases s@.len() - i,
    {
        proof {
            assert(s@.take(i as int + 1).drop_last() =~= s@.take(i as int));
        }
        let r = s[i];
        if !r.doomed && r.enemy.is_some() {
            n += 1;
        }
        i += 1;
    }
    proof {
        assert(s@.take(s@.len() as int) =~= s@);
    }
    n
}

/// Advances the spawners and adds an enemy on the border for each one that
/// is due, while the live enemies are fewer than the score asks for.
pub fn spawn_enemies_pass(store: &mut EntityStore, settings: &Settings, rng: &mut SmallRng)
    requires
        old(store).wf(),
        settings.wf(),
    ensures
        final(store).wf(),
        final(store).records@.len() >= old(store).records@.len(),
        forall|i: int|
            0 <= i < old(store).records@.len() ==> #[trigger] final(store).records@[i]
                == spawner_ticked(old(store).records@[i], settings.spawn_ticks),
        forall|i: int|
            old(store).records@.len() <= i < final(store).records@.len() ==> is_new_enemy(
                #[trigger] final(store).records@[i],
                settings.world_size,
            ),
        final(store).records@.len() - old(store).records@.len() <= expected_spawns(old(store).records@),
        old(store).next_id + expected_spawns(old(store).records@) <= u64::MAX ==> final(store).records@.len()
            - old(store).records@.len() == expected_spawns(old(store).records@),
{
    let ghost s = store.records@;
    let n = store.records.len();
    let enemies = count_live_enemies(&store.records);
    let first = find_scope(store);
    let mut due: u64 = 0;
    let mut i: usize = 0;
    while i < n
        invariant
            i <= n,
            n == s.len(),
            s == old(store).records@,
            store.records@.len() == n,
            store.next_id == old(store).next_id,
            store.wf(),
            settings.wf(),
            due == count_due(s.take(i as int)),
            due <= i,
            forall|k: int| 0 <= k < i ==> #[trigger] store.records@[k] == spawner_ticked(s[k], settings.spawn_ticks),
            forall|k: int| i <= k < n ==> #[trigger] store.records@[k] == s[k],
        decreases n - i,
    {
        proof {
            assert(s.take(i as int + 1).drop_last() =~= s.take(i as int));
        }
        let r = store.records[i];
        let ghost before = store.records@;
        if !r.doomed {
            if let Some(sp) = r.spawner {
                let mut nr = r;
                if sp.tick_to_spawn > 0 {
                    nr.spawner = Some(Spawner { tick_to_spawn: sp.tick_to_spawn - 1 });
                } else {
                    nr.spawner = Some(Spawner { tick_to_spawn: settings.spawn_ticks });
                    due += 1;
                }
                store.records.set(i, nr);
                proof {
                    assert(record_ok(before[i as int]));
                    lemma_update_ok(before, old(store).next_id, i as int, nr);
                }
            }
        }
        i += 1;
    }
    proof {
        assert(s.take(s.len() as int) =~= s);
    }
    let k = match first {
        Some(k) => k,
        None => {
            return;
        },
    };
    let target: u64 = s_scope(&store.records, k) as u64 / 5 + 10;
    let ghost mid = store.records@;
    let mut spawned: u64 = 0;
    let mut e: u64 = 0;
    proof {
        assert(expected_spawns(s) == spawn_bound(enemies as int, target as int, due as int));
    }
    while e < due
        invariant
            e <= due,
            due == count_due(s),
            enemies == count_enemies(s),
            enemies <= n,
            n == s.len(),
            k < s.len(),
            is_scope(s[k as int]),
            first_scope(s) == Some(k as int),
            target == target_count(s[k as int].scope.unwrap().scope),
            expected_spawns(s) == spawn_bound(enemies as int, target as int, due as int),
            store.wf(),
            settings.wf(),
            store.records@.len() == n + spawned,
            store.records@.take(n as int) == mid,
            mid.len() == n,
            forall|j: int| n <= j < store.records@.len() ==> is_new_enemy(#[trigger] store.records@[j], settings.world_size),
            store.next_id == old(store).next_id + spawned,
            spawned <= spawn_bound(enemies as int, target as int, e as int),
            old(store).next_id + expected_spawns(s) <= u64::MAX ==> spawned == spawn_bound(enemies as int, target as int, e as int),
        decreases due - e,
    {
        if enemies + spawned < target {
            let ghost before = store.records@;
            create_enemy(store, settings, rng);
            proof {
                if before.len() < store.records@.len() {
                    assert(store.records@.take(n as int) =~= before.take(n as int));
                    assert forall|j: int| n <= j < store.records@.len() implies is_new_enemy(#[trigger] store.records@[j], settings.world_size) by {
                        if j < before.len() {
                            assert(store.records@[j] == before[j]);
                        }
                    }
                }
            }
            if store.records.len() > n + spawned as usize {
                spawned += 1;
            }
        }
        e += 1;
    }
    proof {
        assert(store.records@.take(n as int) == mid);
        assert forall|j: int| 0 <= j < n implies #[trigger] store.records@[j] == spawner_ticked(s[j], settings.spawn_ticks) by {
            assert(store.records@[j] == store.records@.take(n as int)[j]);
        }
    }
}

/// How many of `due` spawns happen when `enemies` live enemies aim for `target`.
pub open spec fn spawn_bound(enemies: int, target: int, due: int) -> int {
    if enemies >= target {
        0
    } else if due < target - enemies {
        due
    } else {
        target - enemies
    }
}

/// The score of record `k`.
fn s_scope(s: &Vec<Record>, k: usize) -> (v: u32)
    requires
        k < s@.len(),
        s@[k as int].scope is Some,
    ensures
        v == s@[k as int].scope.unwrap().scope,
{
    s[k].scope.unwrap().scope
}


pub open spec fn ttl_all(s: Seq<Record>) -> Seq<Record> {
    s.map_values(|r: Record| dec_ttl(r))
}

pub open spec fn expire_all(s: Seq<Record>) -> Seq<Record> {
    s.map_values(|r: Record| expire(r))
}

pub open spec fn player_velocity_all(s: Seq<Record>, dir: Vector, fps: int) -> Seq<Record> {
    s.map_values(|r: Record| player_velocity(r, dir, fps))
}

pub open spec fn player_moved_all(s: Seq<Record>) -> Seq<Record> {
    s.map_values(|r: Record| player_moved(r))
}

pub open spec fn returned_all(s: Seq<Record>, world: Point) -> Seq<Record> {
    s.map_values(|r: Record| returned(r, world))
}

pub open spec fn enemies_steered(s: Seq<Record>, fps: int) -> Seq<Record> {
    match first_player(s) {
        None => s,
        Some(k) => s.map_values(|r: Record| enemy_velocity(r, s[k].position.unwrap().point, fps)),
    }
}

pub open spec fn enemies_moved_all(s: Seq<Record>) -> Seq<Record> {
    Seq::new(s.len(), |i: int| enemy_moved(s, i))
}

pub open spec fn after_player_damage(s: Seq<Record>) -> Seq<Record> {
    match first_player(s) {
        None => s,
        Some(p) => if exists|j: int| touches(s, p, j) {
            s.update(p, Record { doomed: true, ..s[p] })
        } else {
            s
        },
    }
}

pub open spec fn scored_all(s: Seq<Record>) -> Seq<Record> {
    Seq::new(s.len(), |i: int| scored(s[i], first_scope(s) == Some(i), count_kills(s)))
}

pub open spec fn spawners_ticked(s: Seq<Record>, spawn_ticks: i32) -> Seq<Record> {
    s.map_values(|r: Record| spawner_ticked(r, spawn_ticks))
}

pub open spec fn player_movement(s: Seq<Record>, input: Input, settings: Settings) -> Seq<Record> {
    player_moved_all(player_velocity_all(s, input.player_direction, settings.fps as int))
}

pub open spec fn enemy_movement(s: Seq<Record>, settings: Settings) -> Seq<Record> {
    enemies_moved_all(enemies_steered(s, settings.fps as int))
}

/// The movement phase of a tick: the player moves and is kept inside the
/// world, then the enemies steer toward it and move.
pub open spec fn movement(s: Seq<Record>, input: Input, settings: Settings) -> Seq<Record> {
    enemy_movement(returned_all(player_movement(s, input, settings), settings.world_size), settings)
}

/// A tick up to the spawning of enemies, which draws random numbers:
/// countdowns, movement, fire, hits, kills, the player's death and scoring.
pub open spec fn tick_core(s: Seq<Record>, next_id: u64, input: Input, settings: Settings) -> (Seq<Record>, u64) {
    let s1 = movement(expire_all(ttl_all(s)), input, settings);
    let g = with_all_new(
        guns_ticked(s1, input.shoot_point, settings.gun_reload_ticks),
        next_id,
        shots_fired(s1, input.shoot_point, input.shoot_force),
    );
    let r = resolve(g.0, g.0.len());
    let h = with_all_new(r.0, g.1, r.1);
    let k = with_all_new(all_killed(h.0), h.1, copies(kill_record(), count_dying(h.0)));
    (scored_all(after_player_damage(k.0)), k.1)
}

/// Moves the player by the input direction.
pub struct PlayerMovementSystem;

impl PlayerMovementSystem {
    pub fn run(&self, store: &mut EntityStore, input: &Input, settings: &Settings)
        requires
            old(store).wf(),
            input.wf(),
            settings.wf(),
        ensures
            final(store).wf(),
            final(store).next_id == old(store).next_id,
            final(store).records@ == player_movement(old(store).records@, *input, *settings),
    {
        let ghost s0 = store.records@;
        player_velocity_pass(store, input, settings);
        let ghost s1 = store.records@;
        assert(s1 =~= player_velocity_all(s0, input.player_direction, settings.fps as int));
        player_position_pass(store);
        assert(store.records@ =~= player_moved_all(s1));
    }
}

/// Steers the enemies toward the player and moves them.
pub struct EnemyMovementSystem;

impl EnemyMovementSystem {
    pub fn run(&self, store: &mut EntityStore, settings: &Settings)
        requires
            old(store).wf(),
            settings.wf(),
        ensures
            final(store).wf(),
            final(store).next_id == old(store).next_id,
            final(store).records@ == enemy_movement(old(store).records@, *settings),
    {
        let ghost s0 = store.records@;
        enemies_velocity_pass(store, settings);
        let ghost s1 = store.records@;
        assert(s1 =~= enemies_steered(s0, settings.fps as int));
        enemies_position_pass(store);
        assert(store.records@ =~= enemies_moved_all(s1));
    }
}

/// The movement phase of a tick: integer kinematics for the player and the
/// enemies, with the boundary clamp in between.
pub struct PhysicSystem;

impl PhysicSystem {
    pub fn run(&self, store: &mut EntityStore, input: &Input, settings: &Settings)
        requires
            old(store).wf(),
            input.wf(),
            settings.wf(),
        ensures
            final(store).wf(),
            final(store).next_id == old(store).next_id,
            final(store).records@ == movement(old(store).records@, *input, *settings),
    {
        PlayerMovementSystem.run(store, input, settings);
        let ghost s1 = store.records@;
        return_player_to_warzone(store, settings);
        assert(store.records@ =~= returned_all(s1, settings.world_size));
        EnemyMovementSystem.run(store, settings);
    }
}

/// Survivors of records followed by live ones are the survivors followed by
/// those records.
pub proof fn lemma_survivors_append(t: Seq<Record>, born: Seq<Record>)
    requires
        forall|i: int| 0 <= i < born.len() ==> !(#[trigger] born[i]).doomed,
    ensures
        survivors(t + born) == survivors(t) + born,
    decreases born.len(),
{
    if born.len() == 0 {
        assert(t + born =~= t);
        assert(survivors(t) + born =~= survivors(t));
    } else {
        let b = born.drop_last();
        assert((t + born).drop_last() =~= t + b);
        assert((t + born).last() == born.last());
        lemma_survivors_append(t, b);
        assert(survivors(t) + born =~= (survivors(t) + b).push(born.last()));
    }
}


proof fn lemma_kills_appended(s: Seq<Record>, next_id: u64, n: nat)
    requires
        next_id + n <= u64::MAX,
    ensures
        ({
            let r = with_all_new(s, next_id, copies(kill_record(), n));
            &&& r.0.len() == s.len() + n
            &&& r.0.take(s.len() as int) == s
            &&& r.1 == next_id + n
            &&& count_kills(r.0) == count_kills(s) + n
            &&& forall|i: int| s.len() <= i < r.0.len() ==> (#[trigger] r.0[i]).player is None
                && r.0[i].scope is None
        }),
    decreases n,
{
    let c = copies(kill_record(), n);
    if n == 0 {
        assert(s.take(s.len() as int) =~= s);
    } else {
        lemma_kills_appended(s, next_id, (n - 1) as nat);
        assert(c.drop_last() =~= copies(kill_record(), (n - 1) as nat));
        let prev = with_all_new(s, next_id, copies(kill_record(), (n - 1) as nat));
        let r = with_all_new(s, next_id, c);
        assert(r == with_new(prev.0, prev.1, kill_record()));
        assert(r.0.drop_last() =~= prev.0);
        assert(r.0.take(s.len() as int) =~= prev.0.take(s.len() as int));
        assert forall|i: int| s.len() <= i < r.0.len() implies (#[trigger] r.0[i]).player is None
            && r.0[i].scope is None by {
            if i < prev.0.len() {
                assert(r.0[i] == prev.0[i]);
            }
        }
    }
}

proof fn lemma_no_kills(t: Seq<Record>)
    requires
        forall|i: int| 0 <= i < t.len() ==> !is_kill(#[trigger] t[i]),
    ensures
        count_kills(t) == 0,
    decreases t.len(),
{
    if t.len() > 0 {
        let d = t.drop_last();
        assert forall|i: int| 0 <= i < d.len() implies !is_kill(#[trigger] d[i]) by {
            assert(d[i] == t[i]);
        }
        lemma_no_kills(d);
        assert(!is_kill(t[t.len() - 1]));
    }
}

proof fn lemma_update_keeps_kills(t: Seq<Record>, p: int, x: Record)
    requires
        0 <= p < t.len(),
        !is_kill(t[p]),
        !is_kill(x),
    ensures
        count_kills(t.update(p, x)) == count_kills(t),
    decreases t.len(),
{
    let u = t.update(p, x);
    if p < t.len() - 1 {
        assert(u.drop_last() =~= t.drop_last().update(p, x));
        lemma_update_keeps_kills(t.drop_last(), p, x);
    } else {
        assert(u.drop_last() =~= t.drop_last());
    }
}

proof fn lemma_first_scope_from_facts(s: Seq<Record>, i: int, k: int)
    requires
        0 <= i,
        first_scope_from(s, i) == Some(k),
    ensures
        i <= k < s.len(),
        is_scope(s[k]),
        forall|j: int| i <= j < k ==> !is_scope(#[trigger] s[j]),
    decreases s.len() - i,
{
    if i < s.len() && !is_scope(s[i]) {
        lemma_first_scope_from_facts(s, i + 1, k);
    }
}

proof fn lemma_first_scope_at(s: Seq<Record>, i: int, k: int)
    requires
        0 <= i <= k < s.len(),
        is_scope(s[k]),
        forall|j: int| i <= j < k ==> !is_scope(#[trigger] s[j]),
    ensures
        first_scope_from(s, i) == Some(k),
    decreases k - i,
{
    if i < k {
        lemma_first_scope_at(s, i + 1, k);
    }
}

proof fn lemma_first_player_facts(s: Seq<Record>, i: int, k: int)
    requires
        0 <= i,
        first_player_from(s, i) == Some(k),
    ensures
        i <= k < s.len(),
        is_player_at(s[k]),
    decreases s.len() - i,
{
    if i < s.len() && !is_player_at(s[i]) {
        lemma_first_player_facts(s, i + 1, k);
    }
}

/// Kills are scored exactly: after the kill, player-damage and scoring passes
/// the score has grown by the number of live enemies whose damage had become
/// lethal, so it never decreases. The score record is an entity of its own,
/// and the kill events of earlier ticks are gone.
pub proof fn lemma_score_counts_kills(h: Seq<Record>, next_id: u64, k: int)
    requires
        first_scope(h) == Some(k),
        h[k].enemy is None,
        h[k].player is None,
        h[k].kill_event is None,
        forall|i: int| 0 <= i < h.len() ==> !is_kill(#[trigger] h[i]),
        next_id + count_dying(h) <= u64::MAX,
        h[k].scope.unwrap().scope + count_dying(h) <= u32::MAX,
    ensures
        ({
            let kk = with_all_new(all_killed(h), next_id, copies(kill_record(), count_dying(h)));
            let out = scored_all(after_player_damage(kk.0));
            &&& 0 <= k < out.len()
            &&& out[k].scope.unwrap().scope == h[k].scope.unwrap().scope + count_dying(h)
            &&& out[k].scope.unwrap().scope >= h[k].scope.unwrap().scope
        }),
{
    let n = count_dying(h);
    let a = all_killed(h);
    lemma_first_scope_from_facts(h, 0, k);
    assert forall|i: int| 0 <= i < a.len() implies !is_kill(#[trigger] a[i]) by {
        assert(a[i] == killed(h[i]));
    }
    lemma_no_kills(a);
    lemma_kills_appended(a, next_id, n);
    let kk = with_all_new(a, next_id, copies(kill_record(), n));
    let t = kk.0;
    assert forall|i: int| 0 <= i < h.len() implies #[trigger] t[i] == killed(h[i]) by {
        assert(t[i] == t.take(h.len() as int)[i]);
    }
    let d = after_player_damage(t);
    // The score record keeps its place and its value.
    assert(t[k] == h[k]);
    match first_player(t) {
        None => {
            assert(d == t);
        },
        Some(p) => {
            lemma_first_player_facts(t, 0, p);
            assert(p < h.len());
            assert(p != k);
            assert(!is_kill(t[p]));
            lemma_update_keeps_kills(t, p, Record { doomed: true, ..t[p] });
        },
    }
    assert(count_kills(d) == n);
    assert(d.len() == t.len());
    assert forall|j: int| 0 <= j < k implies !is_scope(#[trigger] d[j]) by {
        assert(!is_scope(h[j]));
        assert(t[j] == killed(h[j]));
    }
    assert(d[k] == h[k]);
    lemma_first_scope_at(d, 0, k);
    let out = scored_all(d);
    assert(out[k] == scored(d[k], true, count_kills(d)));
}

} // verus!
