use arena::ecs::systems::{
    clamp_coordinate, enemies_position_pass, gun_shot_pass, return_player_to_warzone, scope_pass, update_ttl,
    remove_by_ttl,
};
use arena::ecs::{
    Color, DeadByTtl, Enemy, EnemyKillEvent, EntityStore, Gun, Input, MainState, Player, Position, Record,
    Scope, Settings, Velocity,
};
use arena::math::{Point, Vector};

fn enemy_record(x: i64, y: i64, vx: i64, vy: i64, is_white: bool) -> Record {
    let mut r = Record::empty();
    r.enemy = Some(Enemy { radius: 500, max_speed: 4000 });
    r.position = Some(Position { point: Point::new(x, y) });
    r.velocity = Some(Velocity { velocity: Vector::new(vx, vy) });
    r.color = Some(Color { is_white, damage: 0 });
    r
}

fn quiet_world() -> MainState {
    let mut settings = Settings::new();
    settings.initial_enemies = 0;
    let mut state = MainState::with_settings(settings, 7);
    state.init();
    state
}

fn score(state: &MainState) -> u32 {
    state.store.records.iter().find_map(|r| r.scope.map(|s| s.scope)).unwrap()
}

#[test]
fn init_places_player_spawner_and_enemies() {
    let mut state = MainState::new();
    state.init();
    let records = &state.store.records;
    assert_eq!(records.len(), 12);
    assert_eq!(records[0].position.unwrap().point, Point::new(25_000, 20_000));
    assert_eq!(records[0].player.unwrap(), Player { max_speed: 6000, radius: 250 });
    assert_eq!(records[1].scope.unwrap().scope, 0);
    for r in &records[2..] {
        let p = r.position.unwrap().point;
        let on_edge = ((p.x == 0 || p.x == 50_000) && (0..=40_000).contains(&p.y))
            || ((p.y == 0 || p.y == 40_000) && (0..=50_000).contains(&p.x));
        assert!(on_edge);
        assert_eq!(r.color.unwrap().damage, 0);
    }
    let ids: Vec<u64> = records.iter().map(|r| r.entity).collect();
    assert_eq!(ids, (0..12).collect::<Vec<u64>>());
}

#[test]
fn twin_enemies_both_stay() {
    let mut store = EntityStore::new();
    store.create_entity(enemy_record(10_000, 10_000, 80, 0, true));
    store.create_entity(enemy_record(10_000, 10_000, 80, 0, true));
    enemies_position_pass(&mut store);
    for r in &store.records {
        assert_eq!(r.position.unwrap().point, Point::new(10_000, 10_000));
    }
}

#[test]
fn lone_enemy_moves_by_velocity() {
    let mut store = EntityStore::new();
    store.create_entity(enemy_record(10_000, 10_000, 80, -60, true));
    store.create_entity(enemy_record(20_000, 10_000, 0, 0, true));
    enemies_position_pass(&mut store);
    assert_eq!(store.records[0].position.unwrap().point, Point::new(10_080, 9_940));
    assert_eq!(store.records[1].position.unwrap().point, Point::new(20_000, 10_000));
}

#[test]
fn shot_hits_nearest_enemy_and_leaves_trace() {
    let mut state = quiet_world();
    state.store.create_entity(enemy_record(35_000, 20_000, 0, 0, false));
    state.set_shoot_force(1);
    state.set_shoot_point(Some(Point::new(45_000, 20_000)));
    state.step();
    let traces: Vec<_> = state.store.records.iter().filter_map(|r| r.trace).collect();
    assert_eq!(traces.len(), 1);
    assert_eq!(traces[0].from, Point::new(25_000, 20_000));
    assert_eq!(traces[0].to, Point::new(34_420, 20_000));
    let enemy = state
        .store
        .records
        .iter()
        .find(|r| r.position.map(|p| p.point) == Some(Point::new(34_920, 20_000)))
        .unwrap();
    assert_eq!(enemy.color.unwrap().damage, 1);
    assert!(state.store.records.iter().all(|r| r.shot.is_none()));
}

#[test]
fn missed_shot_trace_ends_at_aim_point() {
    let mut state = quiet_world();
    state.set_shoot_force(1);
    state.set_shoot_point(Some(Point::new(25_000, 39_000)));
    state.step();
    let traces: Vec<_> = state.store.records.iter().filter_map(|r| r.trace).collect();
    assert_eq!(traces.len(), 1);
    assert_eq!(traces[0].to, Point::new(25_000, 39_000));
}

#[test]
fn killing_an_enemy_scores_one() {
    let mut state = quiet_world();
    state.store.create_entity(enemy_record(35_000, 20_000, 0, 0, true));
    state.set_shoot_force(1);
    state.set_shoot_point(Some(Point::new(45_000, 20_000)));
    assert_eq!(score(&state), 0);
    state.step();
    assert_eq!(score(&state), 1);
    assert!(state
        .store
        .records
        .iter()
        .all(|r| r.position.map(|p| p.point) != Some(Point::new(34_920, 20_000))));
    assert!(state.store.records.iter().all(|r| r.kill_event.is_none()));
    state.set_shoot_point(None);
    state.step();
    assert_eq!(score(&state), 1);
}

#[test]
fn wrong_polarity_does_not_kill() {
    let mut state = quiet_world();
    state.store.create_entity(enemy_record(35_000, 20_000, 0, 0, false));
    state.set_shoot_force(5);
    state.set_shoot_point(Some(Point::new(45_000, 20_000)));
    state.step();
    assert_eq!(score(&state), 0);
}

#[test]
fn gun_reloads_between_shots() {
    let mut state = quiet_world();
    state.set_shoot_point(Some(Point::new(25_000, 39_000)));
    let mut fired = 0;
    for _ in 0..7 {
        let before = state.store.next_id;
        state.step();
        let created: Vec<_> = state.store.records.iter().filter(|r| r.entity >= before).collect();
        if created.iter().any(|r| r.trace.is_some()) {
            fired += 1;
        }
    }
    assert_eq!(fired, 2);
}

#[test]
fn touching_enemy_kills_player() {
    let mut state = quiet_world();
    state.store.create_entity(enemy_record(25_300, 20_000, 0, 0, true));
    state.step();
    assert!(state.store.records.iter().all(|r| r.player.is_none()));
}

#[test]
fn player_walks_at_top_speed() {
    let mut state = quiet_world();
    let mut d = Vector::new(1000, 0);
    state.set_player_direction(&mut d);
    state.step();
    assert_eq!(state.store.records[0].position.unwrap().point, Point::new(25_120, 20_000));
}

#[test]
fn long_direction_is_scaled_down() {
    let mut state = quiet_world();
    let mut d = Vector::new(3000, 4000);
    state.set_player_direction(&mut d);
    assert_eq!(d, Vector::new(600, 800));
    assert_eq!(state.input.player_direction, Vector::new(600, 800));
    let mut short = Vector::new(300, -400);
    state.set_player_direction(&mut short);
    assert_eq!(short, Vector::new(300, -400));
}

#[test]
fn player_is_clamped_inside_world() {
    assert_eq!(clamp_coordinate(-5000, 250, 50_000), 250);
    assert_eq!(clamp_coordinate(60_000, 250, 50_000), 49_750);
    assert_eq!(clamp_coordinate(1000, 250, 50_000), 1000);
    let mut store = EntityStore::new();
    let mut p = Record::empty();
    p.player = Some(Player { max_speed: 6000, radius: 250 });
    p.position = Some(Position { point: Point::new(-100, 45_000) });
    store.create_entity(p);
    return_player_to_warzone(&mut store, &Settings::new());
    assert_eq!(store.records[0].position.unwrap().point, Point::new(250, 39_750));
}

#[test]
fn countdown_expires_entities() {
    let mut store = EntityStore::new();
    let mut t = Record::empty();
    t.ttl = Some(DeadByTtl { ttl: 2 });
    store.create_entity(t);
    update_ttl(&mut store);
    remove_by_ttl(&mut store);
    store.maintain();
    assert_eq!(store.records.len(), 1);
    assert_eq!(store.records[0].ttl.unwrap().ttl, 1);
    update_ttl(&mut store);
    remove_by_ttl(&mut store);
    store.maintain();
    assert!(store.records.is_empty());
}

#[test]
fn scope_counts_kill_events() {
    let mut store = EntityStore::new();
    let mut s = Record::empty();
    s.scope = Some(Scope { scope: 4 });
    store.create_entity(s);
    for _ in 0..3 {
        let mut k = Record::empty();
        k.kill_event = Some(EnemyKillEvent);
        store.create_entity(k);
    }
    scope_pass(&mut store);
    assert_eq!(store.records[0].scope.unwrap().scope, 7);
    store.maintain();
    assert_eq!(store.records.len(), 1);
}

#[test]
fn delete_marks_and_maintain_removes() {
    let mut store = EntityStore::new();
    for i in 0..4 {
        store.create_entity(enemy_record(i * 2000, 0, 0, 0, true));
    }
    store.delete(2);
    assert!(store.records[2].doomed);
    assert_eq!(store.records.len(), 4);
    store.maintain();
    let ids: Vec<u64> = store.records.iter().map(|r| r.entity).collect();
    assert_eq!(ids, vec![0, 1, 3]);
}

#[test]
fn spawner_keeps_enemy_count_up() {
    let mut state = quiet_world();
    state.set_shoot_point(None);
    for _ in 0..3 {
        state.step();
    }
    let enemies = state.store.records.iter().filter(|r| r.enemy.is_some()).count();
    assert_eq!(enemies, 3);
}

#[test]
fn gun_below_zero_reloads_without_firing() {
    let mut store = EntityStore::new();
    let mut g = Record::empty();
    g.gun = Some(Gun { tick_to_reload: -1 });
    g.position = Some(Position { point: Point::new(1000, 1000) });
    store.create_entity(g);
    let input = Input {
        player_direction: Vector::new(0, 0),
        shoot_point: Some(Point::new(5000, 1000)),
        shoot_force: 1,
    };
    let settings = Settings::new();
    gun_shot_pass(&mut store, &input, &settings);
    assert_eq!(store.records.len(), 1);
    assert_eq!(store.records[0].gun.unwrap().tick_to_reload, 5);
    store.records[0].gun = Some(Gun { tick_to_reload: 0 });
    gun_shot_pass(&mut store, &input, &settings);
    assert_eq!(store.records.len(), 2);
    assert_eq!(store.records[1].shot.unwrap().to, Point::new(5000, 1000));
}

#[test]
fn enemy_killed_this_tick_still_kills_the_player() {
    let mut state = quiet_world();
    state.store.create_entity(enemy_record(25_600, 20_000, 0, 0, true));
    state.set_shoot_force(1);
    state.set_shoot_point(Some(Point::new(45_000, 20_000)));
    state.step();
    assert_eq!(score(&state), 1);
    assert!(state.store.records.iter().all(|r| r.player.is_none()));
}
