use arena::game::{has_collision, player_has_collision, step_enemy, Color, Enemy, Gun, World};
use arena::math::Point;

fn blue(x: i64, y: i64) -> Enemy {
    Enemy { pos: Point::new(x, y), color: Color::Blue }
}

#[test]
fn new_world_has_ten_enemies_on_spawn_spots() {
    let w = World::new();
    assert_eq!(w.enemies_count(), 10);
    for i in 0..10 {
        let p = w.enemy(i).pos;
        let edge = |v: i64| v == 1000 || v == 49_000;
        let line = |v: i64| (0..=49_000).contains(&v) && v % 1000 == 0;
        assert!((edge(p.x) && line(p.y)) || (line(p.x) && edge(p.y)));
    }
    assert_eq!(w.get_player_pos(), Point::new(25_000, 25_000));
    assert_eq!(w.latest_heat(), Point::new(-10_000, -10_000));
    assert_eq!(w.get_scope(), 0);
}

#[test]
fn touching_enemy_ends_the_game() {
    let mut w = World::new();
    w.enemies = vec![blue(25_000, 25_500)];
    w.step();
    assert!(w.game_over);
    let before = w.enemies.clone();
    w.step();
    assert_eq!(w.enemies, before);
}

#[test]
fn shot_kills_nearest_enemy_on_the_line() {
    let mut w = World::new();
    w.enemies = vec![blue(35_000, 25_000), blue(30_000, 25_000)];
    w.set_gan_target(45_000, 25_000);
    w.set_firing(true);
    w.step();
    assert_eq!(w.get_scope(), 1);
    assert_eq!(w.latest_heat(), Point::new(29_500, 25_000));
    assert_eq!(w.enemy(0).pos, Point::new(34_920, 25_000));
    assert!(w.enemies_count() == 2 || w.enemies_count() == 3);
    assert_eq!(w.player.gun.ticks_to_fire, 5);
}

#[test]
fn shot_does_not_reach_behind_the_player() {
    let mut w = World::new();
    w.enemies = vec![blue(20_000, 25_000)];
    w.set_gan_target(45_000, 25_000);
    w.set_firing(true);
    w.step();
    assert_eq!(w.get_scope(), 0);
    assert_eq!(w.latest_heat(), Point::new(-10_000, -10_000));
    assert_eq!(w.enemies_count(), 1);
}

#[test]
fn finished_game_stays_finished() {
    let mut w = World::new();
    w.enemies = vec![blue(25_000, 25_400)];
    w.step();
    assert!(w.game_over);
    let enemies = w.enemies.clone();
    let player = w.player;
    for _ in 0..3 {
        w.step();
    }
    assert_eq!(w.enemies, enemies);
    assert_eq!(w.player, player);
    assert_eq!(w.get_scope(), 0);
}

#[test]
fn player_moves_with_speed() {
    let mut w = World::new();
    w.enemies = vec![];
    w.set_player_speed(1000, -500);
    w.step();
    assert_eq!(w.get_player_pos(), Point::new(25_160, 24_920));
    w.set_player_pos(100, 200);
    assert_eq!(w.get_player_pos(), Point::new(100, 200));
}

#[test]
fn gun_counts_down() {
    let mut g = Gun { target: Point::new(0, 0), ticks_to_fire: 0 };
    assert!(g.can_fire());
    g.fire();
    assert_eq!(g.ticks_to_fire, 5);
    assert!(!g.can_fire());
    for _ in 0..7 {
        g.wait();
    }
    assert_eq!(g.ticks_to_fire, 0);
}

#[test]
fn enemy_steps_along_l1_direction() {
    assert_eq!(step_enemy(&Point::new(0, 0), &Point::new(1000, 1000)), Point::new(40, 40));
    assert_eq!(step_enemy(&Point::new(0, 0), &Point::new(-5000, 0)), Point::new(-80, 0));
    assert_eq!(step_enemy(&Point::new(7, 7), &Point::new(7, 7)), Point::new(7, 7));
}

#[test]
fn crowding_and_catching() {
    let es = vec![blue(0, 0), blue(5000, 0)];
    assert!(has_collision(&es, &Point::new(999, 0), 1));
    assert!(!has_collision(&es, &Point::new(999, 0), 0));
    assert!(!has_collision(&es, &Point::new(1000, 0), 1));
    assert!(player_has_collision(&Point::new(599, 0), &es));
    assert!(!player_has_collision(&Point::new(600, 0), &es));
    assert!(!player_has_collision(&Point::new(700, 0), &es));
}

#[test]
fn blocked_enemy_stays() {
    let mut w = World::new();
    w.enemies = vec![blue(30_000, 25_000), blue(29_000, 25_000)];
    w.set_player_pos(10_000, 25_000);
    w.step();
    assert_eq!(w.enemy(0).pos, Point::new(30_000, 25_000));
    assert_eq!(w.enemy(1).pos, Point::new(28_920, 25_000));
}
