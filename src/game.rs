//! A smaller game on the same geometry: one shot kills, the first touch ends
//! the game, and the enemies step one after another.

use crate::math::{
    abs, bounded_add, dist_sq, div_i64, div_tz, get_cross_points_with_sphere, lemma_nearest_idx_range,
    sphere_cross_points, near, nearest_idx, nearest_point, point_ok, sq_distance_wide,
    translate_bounded, vector_within, Point, Vector, MAX_COORD, UNIT,
};
use crate::random::{draw_up_to, flip_coin, seeded_rng};
use rand::rngs::SmallRng;
use vstd::prelude::*;

verus! {

/// Ticks a gun needs between two shots.
pub const RELOAD_TICKS: i32 = 5;

/// Radius of every enemy of this game.
pub const ENEMY_RADIUS: i64 = 500;

/// Enemies keep their centres at least this far apart, squared.
pub const ENEMY_GAP_SQ: i64 = 1_000_000;

/// The player is caught when an enemy's centre comes closer than this, squared.
pub const CATCH_SQ: i64 = 360_000;

/// Largest speed that the host may give the player.
pub const MAX_PLAYER_SPEED: i64 = 1_000_000_000;

#[derive(Clone, Copy, Debug, PartialEq, Eq, Structural)]
pub enum Color {
    Green,
    Red,
    Blue,
}

#[derive(Clone, Copy, Debug, PartialEq, Eq, Structural)]
pub struct Enemy {
    pub pos: Point,
    pub color: Color,
}

#[derive(Clone, Copy, Debug, PartialEq, Eq, Structural)]
pub struct Gun {
    pub target: Point,
    pub ticks_to_fire: i32,
}

impl Gun {
    pub fn can_fire(&self) -> (r: bool)
        ensures
            r == (self.ticks_to_fire == 0),
    {
        self.ticks_to_fire == 0
    }

    pub fn fire(&mut self)
        ensures
            *final(self) == (Gun { ticks_to_fire: RELOAD_TICKS, ..*old(self) }),
    {
        self.ticks_to_fire = RELOAD_TICKS;
    }

    pub fn wait(&mut self)
        ensures
            *final(self) == waited(*old(self)),
    {
        if self.ticks_to_fire > 0 {
            self.ticks_to_fire = self.ticks_to_fire - 1;
        }
    }
}

/// A gun one tick closer to being loaded.
pub open spec fn waited(g: Gun) -> Gun {
    if g.ticks_to_fire > 0 {
        Gun { ticks_to_fire: (g.ticks_to_fire - 1) as i32, ..g }
    } else {
        g
    }
}

/// The player; `speed` is a direction in which a length of `UNIT` is eight
/// world units per second.
#[derive(Clone, Copy, Debug, PartialEq, Eq, Structural)]
pub struct Player {
    pub pos: Point,
    pub speed: Vector,
    pub gun: Gun,
    pub firing: bool,
}

/// Where the player stands after a tick, held to the range of coordinates.
pub open spec fn player_step(p: Point, speed: Vector) -> Point {
    bounded_add(p, Vector { x: div_tz(speed.x * 8, 50) as i64, y: div_tz(speed.y * 8, 50) as i64 })
}

/// A step of an enemy toward `target`: four world units per second along the
/// direction divided by the sum of its components' magnitudes; no step when
/// it stands on the target.
pub open spec fn step_toward(p: Point, target: Point) -> Point {
    let dx = target.x - p.x;
    let dy = target.y - p.y;
    let len = abs(dx) + abs(dy);
    if len == 0 {
        p
    } else {
        bounded_add(
            p,
            Vector {
                x: div_tz(div_tz(dx * UNIT, len) * 2, 25) as i64,
                y: div_tz(div_tz(dy * UNIT, len) * 2, 25) as i64,
            },
        )
    }
}

/// Another enemy than `i` stands too close to `pt`.
pub open spec fn crowded(es: Seq<Enemy>, pt: Point, i: int) -> bool {
    exists|j: int| 0 <= j < es.len() && j != i && dist_sq(#[trigger] es[j].pos, pt) < ENEMY_GAP_SQ
}

/// The enemies after the first `n` of them have stepped toward `target`, one
/// after the other; each step is dropped when it would crowd another enemy
/// where that one stands at the time.
pub open spec fn walk(es: Seq<Enemy>, target: Point, n: nat) -> Seq<Enemy>
    decreases n,
{
    if n == 0 {
        es
    } else {
        let cur = walk(es, target, (n - 1) as nat);
        let i = n - 1;
        if i >= cur.len() {
            cur
        } else {
            let np = step_toward(cur[i].pos, target);
            if crowded(cur, np, i) {
                cur
            } else {
                cur.update(i, Enemy { pos: np, ..cur[i] })
            }
        }
    }
}

/// Some enemy has caught the player at `p`.
pub open spec fn caught(es: Seq<Enemy>, p: Point) -> bool {
    exists|j: int| 0 <= j < es.len() && dist_sq(#[trigger] es[j].pos, p) < CATCH_SQ
}

/// Where a shot from `from` toward `target` meets enemy `e`: the crossing
/// ahead of `from` nearest to it.
pub open spec fn heat_point(e: Enemy, from: Point, target: Point) -> Option<Point> {
    let pts = sphere_cross_points(e.pos, ENEMY_RADIUS as int, from, target);
    if pts.len() > 0 {
        Some(pts[nearest_idx(pts, from)])
    } else {
        None
    }
}

/// The first enemy whose heat point is nearest to `from`, with that point.
pub open spec fn fired_enemy(es: Seq<Enemy>, from: Point, target: Point) -> Option<(int, Point)>
    decreases es.len(),
{
    if es.len() == 0 {
        None
    } else {
        let prev = fired_enemy(es.drop_last(), from, target);
        match heat_point(es.last(), from, target) {
            None => prev,
            Some(p) => match prev {
                None => Some((es.len() - 1, p)),
                Some(kq) => if dist_sq(p, from) < dist_sq(kq.1, from) {
                    Some((es.len() - 1, p))
                } else {
                    prev
                },
            },
        }
    }
}

/// A spot where enemies appear: one unit in from an edge of the 50 by 50
/// field, at a whole unit along it.
pub open spec fn spawn_spot(p: Point) -> bool {
    (on_spawn_edge(p.x as int) && on_spawn_line(p.y as int)) || (on_spawn_line(p.x as int)
        && on_spawn_edge(p.y as int))
}

pub open spec fn on_spawn_edge(v: int) -> bool {
    v == 1000 || v == 49_000
}

pub open spec fn on_spawn_line(v: int) -> bool {
    0 <= v <= 49_000 && v % 1000 == 0
}

pub open spec fn enemies_ok(es: Seq<Enemy>) -> bool {
    forall|i: int| 0 <= i < es.len() ==> point_ok(#[trigger] es[i].pos)
}

/// The enemies after a kill of enemy `i`: it is replaced by `first`, and by
/// `second` too when `extra`.
pub open spec fn replaced(es: Seq<Enemy>, i: int, first: Enemy, second: Enemy, extra: bool) -> Seq<
    Enemy,
> {
    let r = es.remove(i).push(first);
    if extra {
        r.push(second)
    } else {
        r
    }
}

/// A game in which one shot kills an enemy and the first touch ends the game.
pub struct World {
    pub enemies: Vec<Enemy>,
    pub player: Player,
    pub latest_heat: Point,
    pub game_over: bool,
    pub scope: i32,
    pub rand: SmallRng,
}

impl World {
    pub open spec fn wf(&self) -> bool {
        &&& enemies_ok(self.enemies@)
        &&& point_ok(self.player.pos)
        &&& point_ok(self.player.gun.target)
        &&& vector_within(self.player.speed, MAX_PLAYER_SPEED as int)
        &&& 0 <= self.player.gun.ticks_to_fire <= RELOAD_TICKS
    }

    /// A new game with ten enemies around the player.
    pub fn new() -> (w: World)
        ensures
            w.wf(),
            w.enemies@.len() == 10,
            forall|i: int| 0 <= i < 10 ==> spawn_spot(#[trigger] w.enemies@[i].pos) && w.enemies@[i].color == Color::Blue,
            w.player == (Player {
                pos: Point { x: 25_000, y: 25_000 },
                speed: Vector { x: 0, y: 0 },
                gun: Gun { target: Point { x: 0, y: 0 }, ticks_to_fire: 0 },
                firing: false,
            }),
            w.latest_heat == (Point { x: -10_000i64, y: -10_000i64 }),
            !w.game_over,
            w.scope == 0,
    {
        let mut rand = seeded_rng(0);
        let mut enemies: Vec<Enemy> = Vec::new();
        let mut i: usize = 0;
        while i < 10
            invariant
                i <= 10,
                enemies@.len() == i,
                forall|k: int| 0 <= k < i ==> spawn_spot((#[trigger] enemies@[k]).pos) && point_ok(enemies@[k].pos)
                    && enemies@[k].color == Color::Blue,
            decreases 10 - i,
        {
            let e = create_enemy(&mut rand);
            let ghost before = enemies@;
            enemies.push(e);
            proof {
                assert forall|k: int| 0 <= k < i + 1 implies spawn_spot((#[trigger] enemies@[k]).pos) && point_ok(enemies@[k].pos)
                    && enemies@[k].color == Color::Blue by {
                    if k < i {
                        assert(enemies@[k] == before[k]);
                    } else {
                        assert(enemies@[k] == e);
                    }
                }
            }
            i += 1;
        }
        World {
            enemies,
            player: Player {
                pos: Point { x: 25_000, y: 25_000 },
                speed: Vector { x: 0, y: 0 },
                gun: Gun { target: Point { x: 0, y: 0 }, ticks_to_fire: 0 },
                firing: false,
            },
            latest_heat: Point { x: -10_000, y: -10_000 },
            rand,
            game_over: false,
            scope: 0,
        }
    }

    /// One tick of 20 ms. Draws the enemies that replace a killed one, then
    /// plays the tick as `advance` does; a finished game draws nothing.
    pub fn step(&mut self)
        requires
            old(self).wf(),
        ensures
            final(self).wf(),
            exists|first: Enemy, second: Enemy, extra: bool|
                spawn_spot(first.pos) && spawn_spot(second.pos) && advanced(*old(self), *final(self), first, second, extra),
            old(self).game_over ==> final(self).rand == old(self).rand,
    {
        if self.game_over {
            let ghost any = Enemy { pos: Point { x: 1000, y: 0 }, color: Color::Blue };
            proof {
                assert(spawn_spot(any.pos));
                assert(advanced(*old(self), *self, any, any, false));
            }
            return;
        }
        let first = create_enemy(&mut self.rand);
        let second = create_enemy(&mut self.rand);
        let extra = draw_up_to(&mut self.rand, 2) == 0;
        let ghost before = *self;
        self.advance(first, second, extra);
        proof {
            assert(advanced(before, *self, first, second, extra));
            assert(advanced(*old(self), *self, first, second, extra));
            assert(spawn_spot(first.pos) && spawn_spot(second.pos));
        }
    }

    /// One tick, given the enemies that would replace a killed one: the game
    /// ends when an enemy has caught the player; otherwise the player moves,
    /// fires if it can, kills the nearest enemy ahead along the line of fire, and the
    /// enemies step toward the player.
    pub fn advance(&mut self, first: Enemy, second: Enemy, extra: bool)
        requires
            old(self).wf(),
            point_ok(first.pos),
            point_ok(second.pos),
        ensures
            final(self).wf(),
            advanced(*old(self), *final(self), first, second, extra),
    {
        if self.game_over {
            return;
        }
        if player_has_collision(&self.player.pos, &self.enemies) {
            self.game_over = true;
            return;
        }
        let dx = div_i64(self.player.speed.x * 8, 50);
        let dy = div_i64(self.player.speed.y * 8, 50);
        proof {
            lemma_speed_step(self.player.speed.x as int);
            lemma_speed_step(self.player.speed.y as int);
        }
        self.player.pos = translate_bounded(&self.player.pos, &Vector { x: dx, y: dy });
        let ghost es0 = self.enemies@;
        if self.player.firing && self.player.gun.can_fire() {
            self.player.gun.fire();
            let target = self.player.gun.target;
            let fired = get_fired_enemy(&self.player.pos, &target, &self.enemies);
            if let Some((i, heat)) = fired {
                self.latest_heat = heat;
                self.enemies.remove(i);
                if self.scope < i32::MAX {
                    self.scope = self.scope + 1;
                }
                self.enemies.push(first);
                if extra {
                    self.enemies.push(second);
                }
                proof {
                    assert(self.enemies@ =~= replaced(es0, i as int, first, second, extra));
                }
            }
        } else {
            self.player.gun.wait();
        }
        let target = self.player.pos;
        walk_enemies(&mut self.enemies, &target);
    }

    pub fn set_player_pos(&mut self, x: i64, y: i64)
        requires
            point_ok(Point { x, y }),
        ensures
            final(self).player == (Player { pos: Point { x, y }, ..old(self).player }),
            final(self).enemies == old(self).enemies,
            final(self).game_over == old(self).game_over,
            final(self).scope == old(self).scope,
            final(self).latest_heat == old(self).latest_heat,
    {
        self.player.pos = Point { x, y };
    }

    pub fn get_player_pos(&self) -> (p: Point)
        ensures
            p == self.player.pos,
    {
        self.player.pos
    }

    pub fn set_player_speed(&mut self, x: i64, y: i64)
        requires
            vector_within(Vector { x, y }, MAX_PLAYER_SPEED as int),
        ensures
            final(self).player == (Player { speed: Vector { x, y }, ..old(self).player }),
            final(self).enemies == old(self).enemies,
            final(self).game_over == old(self).game_over,
            final(self).scope == old(self).scope,
            final(self).latest_heat == old(self).latest_heat,
    {
        self.player.speed = Vector { x, y };
    }

    pub fn set_gan_target(&mut self, x: i64, y: i64)
        requires
            point_ok(Point { x, y }),
        ensures
            final(self).player == (Player {
                gun: Gun { target: Point { x, y }, ..old(self).player.gun },
                ..old(self).player
            }),
            final(self).enemies == old(self).enemies,
            final(self).game_over == old(self).game_over,
            final(self).scope == old(self).scope,
            final(self).latest_heat == old(self).latest_heat,
    {
        self.player.gun.target = Point { x, y };
    }

    pub fn set_firing(&mut self, firing: bool)
        ensures
            final(self).player == (Player { firing, ..old(self).player }),
            final(self).enemies == old(self).enemies,
            final(self).game_over == old(self).game_over,
            final(self).scope == old(self).scope,
            final(self).latest_heat == old(self).latest_heat,
    {
        self.player.firing = firing;
    }

    pub fn enemies_count(&self) -> (n: usize)
        ensures
            n == self.enemies@.len(),
    {
        self.enemies.len()
    }

    pub fn enemy(&self, no: usize) -> (e: Enemy)
        requires
            no < self.enemies@.len(),
        ensures
            e == self.enemies@[no as int],
    {
        self.enemies[no]
    }

    pub fn latest_heat(&self) -> (p: Point)
        ensures
            p == self.latest_heat,
    {
        self.latest_heat
    }

    pub fn get_scope(&self) -> (s: i32)
        ensures
            s == self.scope,
    {
        self.scope
    }
}

/// `b` is the world `a` after one tick, given the enemies that would replace a
/// killed one.
pub open spec fn advanced(a: World, b: World, first: Enemy, second: Enemy, extra: bool) -> bool {
    if a.game_over {
        b.enemies@ == a.enemies@ && b.player == a.player && b.game_over && b.scope == a.scope
            && b.latest_heat == a.latest_heat
    } else if caught(a.enemies@, a.player.pos) {
        b.enemies@ == a.enemies@ && b.player == a.player && b.game_over && b.scope == a.scope
            && b.latest_heat == a.latest_heat
    } else {
        let p1 = player_step(a.player.pos, a.player.speed);
        let fire = a.player.firing && a.player.gun.ticks_to_fire == 0;
        let hit = if fire {
            fired_enemy(a.enemies@, p1, a.player.gun.target)
        } else {
            None
        };
        let es1 = match hit {
            Some(kq) => replaced(a.enemies@, kq.0, first, second, extra),
            None => a.enemies@,
        };
        &&& b.enemies@ == walk(es1, p1, es1.len())
        &&& b.player == (Player {
            pos: p1,
            gun: if fire {
                Gun { ticks_to_fire: RELOAD_TICKS, ..a.player.gun }
            } else {
                waited(a.player.gun)
            },
            ..a.player
        })
        &&& !b.game_over
        &&& b.latest_heat == (match hit {
            Some(kq) => kq.1,
            None => a.latest_heat,
        })
        &&& b.scope == (match hit {
            Some(_) => if a.scope < i32::MAX {
                (a.scope + 1) as i32
            } else {
                a.scope
            },
            None => a.scope,
        })
    }
}

proof fn lemma_speed_step(v: int)
    requires
        -MAX_PLAYER_SPEED <= v <= MAX_PLAYER_SPEED,
    ensures
        -MAX_COORD <= div_tz(v * 8, 50) <= MAX_COORD,
{
    let m = if v * 8 >= 0 {
        v * 8
    } else {
        -(v * 8)
    };
    assert(m / 50 <= MAX_COORD) by (nonlinear_arith)
        requires
            0 <= m <= 8_000_000_000,
    ;
    assert(m / 50 >= 0) by (nonlinear_arith)
        requires
            0 <= m,
    ;
}

/// An enemy on a random spawn spot.
fn create_enemy(rand: &mut SmallRng) -> (e: Enemy)
    ensures
        spawn_spot(e.pos),
        point_ok(e.pos),
        e.color == Color::Blue,
{
    let vertical = flip_coin(rand);
    let side: i64 = if flip_coin(rand) {
        49_000
    } else {
        1000
    };
    let along = draw_up_to(rand, 49) * 1000;
    let pos = if vertical {
        Point { x: side, y: along }
    } else {
        Point { x: along, y: side }
    };
    Enemy { pos, color: Color::Blue }
}

/// Whether an enemy other than `exclude_id` stands too close to `point`.
pub fn has_collision(enemies: &Vec<Enemy>, point: &Point, exclude_id: usize) -> (r: bool)
    requires
        enemies_ok(enemies@),
        point_ok(*point),
    ensures
        r == crowded(enemies@, *point, exclude_id as int),
{
    let mut i: usize = 0;
    while i < enemies.len()
        invariant
            i <= enemies@.len(),
            enemies_ok(enemies@),
            point_ok(*point),
            forall|j: int| 0 <= j < i && j != exclude_id ==> dist_sq(#[trigger] enemies@[j].pos, *point) >= ENEMY_GAP_SQ,
        decreases enemies@.len() - i,
    {
        if i != exclude_id {
            proof {
                assert(point_ok(enemies@[i as int].pos));
            }
            if sq_distance_wide(&enemies[i].pos, point) < ENEMY_GAP_SQ as i128 {
                return true;
            }
        }
        i += 1;
    }
    false
}

/// Whether some enemy has caught the player at `player_pos`.
pub fn player_has_collision(player_pos: &Point, enemies: &Vec<Enemy>) -> (r: bool)
    requires
        enemies_ok(enemies@),
        point_ok(*player_pos),
    ensures
        r == caught(enemies@, *player_pos),
{
    let mut i: usize = 0;
    while i < enemies.len()
        invariant
            i <= enemies@.len(),
            enemies_ok(enemies@),
            point_ok(*player_pos),
            forall|j: int| 0 <= j < i ==> dist_sq(#[trigger] enemies@[j].pos, *player_pos) >= CATCH_SQ,
        decreases enemies@.len() - i,
    {
        proof {
            assert(point_ok(enemies@[i as int].pos));
        }
        if sq_distance_wide(&enemies[i].pos, player_pos) < CATCH_SQ as i128 {
            return true;
        }
        i += 1;
    }
    false
}

/// Where a shot from `player_pos` toward `gun_target` meets `enemy`.
pub fn get_enemy_heat_point(player_pos: &Point, gun_target: &Point, enemy: &Enemy) -> (r: Option<Point>)
    requires
        point_ok(*player_pos),
        point_ok(*gun_target),
        point_ok(enemy.pos),
    ensures
        r == heat_point(*enemy, *player_pos, *gun_target),
        r matches Some(p) ==> near(p, *player_pos, 5 * MAX_COORD),
{
    let pts = get_cross_points_with_sphere(&enemy.pos, ENEMY_RADIUS, player_pos, gun_target);
    proof {
        if pts@.len() > 0 {
            lemma_nearest_idx_range(pts@, *player_pos);
            assert(near(pts@[nearest_idx(pts@, *player_pos)], enemy.pos, 2 * ENEMY_RADIUS + 2));
        }
    }
    nearest_point(&pts, player_pos)
}

/// The enemy that a shot from `player_pos` toward `gun_target` kills, and
/// where it is struck.
pub fn get_fired_enemy(player_pos: &Point, gun_target: &Point, enemies: &Vec<Enemy>) -> (r: Option<
    (usize, Point),
>)
    requires
        point_ok(*player_pos),
        point_ok(*gun_target),
        enemies_ok(enemies@),
    ensures
        r is None ==> fired_enemy(enemies@, *player_pos, *gun_target) is None,
        r matches Some(kp) ==> fired_enemy(enemies@, *player_pos, *gun_target) == Some((kp.0 as int, kp.1))
            && kp.0 < enemies@.len(),
{
    let mut best: Option<(usize, Point)> = None;
    let mut best_d: i128 = 0;
    let mut k: usize = 0;
    while k < enemies.len()
        invariant
            k <= enemies@.len(),
            point_ok(*player_pos),
            point_ok(*gun_target),
            enemies_ok(enemies@),
            best is None ==> fired_enemy(enemies@.take(k as int), *player_pos, *gun_target) is None,
            best matches Some(kp) ==> fired_enemy(enemies@.take(k as int), *player_pos, *gun_target) == Some(
                (kp.0 as int, kp.1),
            ) && kp.0 < k && near(kp.1, *player_pos, 5 * MAX_COORD) && best_d == dist_sq(kp.1, *player_pos),
        decreases enemies@.len() - k,
    {
        proof {
            let t = enemies@.take(k as int + 1);
            assert(t.drop_last() =~= enemies@.take(k as int));
            assert(t.last() == enemies@[k as int]);
            assert(point_ok(enemies@[k as int].pos));
        }
        let hit = get_enemy_heat_point(player_pos, gun_target, &enemies[k]);
        if let Some(p) = hit {
            let d = sq_distance_wide(&p, player_pos);
            match best {
                None => {
                    best = Some((k, p));
                    best_d = d;
                },
                Some(_) => {
                    if d < best_d {
                        best = Some((k, p));
                        best_d = d;
                    }
                },
            }
        }
        k += 1;
    }
    proof {
        assert(enemies@.take(enemies@.len() as int) =~= enemies@);
    }
    best
}

/// A step of an enemy at `p` toward `target`.
pub fn step_enemy(p: &Point, target: &Point) -> (r: Point)
    requires
        point_ok(*p),
        point_ok(*target),
    ensures
        r == step_toward(*p, *target),
        point_ok(r),
{
    let dx = target.x - p.x;
    let dy = target.y - p.y;
    let ax = if dx >= 0 {
        dx
    } else {
        -dx
    };
    let ay = if dy >= 0 {
        dy
    } else {
        -dy
    };
    let len = ax + ay;
    if len == 0 {
        return *p;
    }
    proof {
        lemma_l1_component(dx as int, len as int);
        lemma_l1_component(dy as int, len as int);
    }
    let nx = div_i64(dx * 1000, len);
    let ny = div_i64(dy * 1000, len);
    let sx = div_i64(nx * 2, 25);
    let sy = div_i64(ny * 2, 25);
    proof {
        lemma_small_step(nx as int);
        lemma_small_step(ny as int);
    }
    translate_bounded(p, &Vector { x: sx, y: sy })
}

proof fn lemma_l1_component(d: int, len: int)
    requires
        len > 0,
        abs(d) <= len,
        abs(d) <= 2 * MAX_COORD,
    ensures
        -1000 <= div_tz(d * UNIT, len) <= 1000,
{
    let m = abs(d) * 1000;
    assert(m / len <= 1000) by (nonlinear_arith)
        requires
            0 <= m <= len * 1000,
            len > 0,
    ;
    assert(m / len >= 0) by (nonlinear_arith)
        requires
            0 <= m,
            len > 0,
    ;
    assert(d * 1000 == m || d * 1000 == -m);
}

proof fn lemma_small_step(n: int)
    requires
        -1000 <= n <= 1000,
    ensures
        -80 <= div_tz(n * 2, 25) <= 80,
{
    let m = abs(n * 2);
    assert(m / 25 <= 80) by (nonlinear_arith)
        requires
            0 <= m <= 2000,
    ;
    assert(m / 25 >= 0) by (nonlinear_arith)
        requires
            0 <= m,
    ;
}

/// Lets every enemy, in order, step toward `target` unless the step would
/// crowd another enemy.
pub fn walk_enemies(enemies: &mut Vec<Enemy>, target: &Point)
    requires
        enemies_ok(old(enemies)@),
        point_ok(*target),
    ensures
        enemies_ok(final(enemies)@),
        final(enemies)@ == walk(old(enemies)@, *target, old(enemies)@.len()),
{
    let n = enemies.len();
    let mut i: usize = 0;
    while i < n
        invariant
            i <= n,
            n == old(enemies)@.len(),
            enemies@.len() == n,
            enemies_ok(enemies@),
            point_ok(*target),
            enemies@ == walk(old(enemies)@, *target, i as nat),
        decreases n - i,
    {
        proof {
            assert(point_ok(enemies@[i as int].pos));
        }
        let np = step_enemy(&enemies[i].pos, target);
        if !has_collision(enemies, &np, i) {
            let e = Enemy { pos: np, color: enemies[i].color };
            enemies.set(i, e);
            proof {
                assert forall|j: int| 0 <= j < enemies@.len() implies point_ok(#[trigger] enemies@[j].pos) by {
                }
            }
        }
        i += 1;
    }
}

} // verus!
