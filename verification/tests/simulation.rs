use brick_breaker::config::Config;
use brick_breaker::geometry::{isqrt, normalized_dir, Vec2i};
use brick_breaker::state::{GameOver, GameState, InputFrame, Sim};
use brick_breaker::store::{Ball, Brick, Entity, EntityData, EntityStore, Kind, Paddle, PowerUp};
use brick_breaker::systems::{
    ball_brick_collision, ball_movement, ball_paddle_collision, cleanup_game_entities,
    confine_ball, confine_paddle, paddle_collect_power_up, paddle_movement, power_up_fall,
    spawn_bricks, update_ball_direction, SoundLog,
};

fn idle() -> InputFrame {
    InputFrame { left: false, right: false, confirm: false, restart: false, quit: false }
}

fn ball_at(x: i64, y: i64, dx: i64, dy: i64) -> Entity {
    Entity { pos: Vec2i { x, y }, data: EntityData::BallData(Ball { direction: Vec2i { x: dx, y: dy } }) }
}

fn brick_at(x: i64, y: i64, hp: u8) -> Entity {
    Entity { pos: Vec2i { x, y }, data: EntityData::BrickData(Brick { hp }) }
}

fn paddle_at(x: i64, y: i64) -> Entity {
    Entity { pos: Vec2i { x, y }, data: EntityData::PaddleData(Paddle {}) }
}

fn power_up_at(x: i64, y: i64) -> Entity {
    Entity { pos: Vec2i { x, y }, data: EntityData::PowerUpData(PowerUp {}) }
}

fn norm_sq_of(store: &EntityStore, i: usize) -> i64 {
    match &store.slots[i] {
        Some(e) => match &e.data {
            EntityData::BallData(b) => b.direction.x * b.direction.x + b.direction.y * b.direction.y,
            _ => panic!("not a ball"),
        },
        _ => panic!("empty slot"),
    }
}

#[test]
fn isqrt_small_values() {
    assert_eq!(isqrt(0), 0);
    assert_eq!(isqrt(3), 1);
    assert_eq!(isqrt(4), 2);
    assert_eq!(isqrt(999_999), 999);
    assert_eq!(isqrt(1_000_000), 1000);
    assert_eq!(isqrt(2_000_000), 1414);
}

#[test]
fn normalized_dir_axis() {
    let d = normalized_dir(0);
    assert_eq!(d.x, 0);
    assert_eq!(d.y, 1000);
}

#[test]
fn normalized_dir_diagonal_is_near_unit() {
    let d = normalized_dir(1000);
    assert_eq!(d.x, 707);
    assert_eq!(d.y, 707);
    let n = d.x * d.x + d.y * d.y;
    assert!(995_999 <= n && n <= 1_002_000);
}

#[test]
fn ball_movement_advances_by_direction_speed_dt() {
    let cfg = Config::standard();
    let mut store = EntityStore::new();
    store.create(ball_at(0, 0, 707, 707));
    ball_movement(&mut store, &cfg, 16);
    // 707 * 250 * 16 / 1_000_000 = 2
    match &store.slots[0] {
        Some(e) => {
            assert_eq!(e.pos.x, 2);
            assert_eq!(e.pos.y, 2);
        },
        None => panic!("ball vanished"),
    }
}

#[test]
fn paddle_movement_axis_cancels() {
    let cfg = Config::standard();
    let mut store = EntityStore::new();
    store.create(paddle_at(10, -250));
    paddle_movement(&mut store, &cfg, true, true, 1000);
    match &store.slots[0] {
        Some(e) => assert_eq!(e.pos.x, 10),
        None => panic!("paddle vanished"),
    }
    paddle_movement(&mut store, &cfg, false, true, 1000);
    match &store.slots[0] {
        Some(e) => assert_eq!(e.pos.x, 510),
        None => panic!("paddle vanished"),
    }
}

#[test]
fn confine_paddle_clamps_to_field() {
    let cfg = Config::standard();
    let mut store = EntityStore::new();
    store.create(paddle_at(600, -250));
    confine_paddle(&mut store, &cfg);
    // 800 / 2 - 120 / 2 = 340
    match &store.slots[0] {
        Some(e) => assert_eq!(e.pos.x, 340),
        None => panic!("paddle vanished"),
    }
}

#[test]
fn confinement_clamps_and_reflects_at_side() {
    // An 800x600 field and a 60-unit ball: the side bound is 800/2 - 30.
    let mut cfg = Config::standard();
    cfg.ball_w = 60;
    cfg.ball_h = 60;
    let mut store = EntityStore::new();
    store.create(ball_at(750, 0, 707, 707));
    confine_ball(&mut store, &cfg);
    match &store.slots[0] {
        Some(e) => {
            assert_eq!(e.pos.x, 370);
            assert_eq!(e.pos.y, 0);
        },
        None => panic!("ball vanished"),
    }
    update_ball_direction(&mut store, &cfg);
    match &store.slots[0] {
        Some(e) => match &e.data {
            EntityData::BallData(b) => {
                assert_eq!(b.direction.x, -707);
                assert_eq!(b.direction.y, 707);
            },
            _ => panic!("not a ball"),
        },
        None => panic!("ball vanished"),
    }
}

#[test]
fn ball_below_bottom_is_destroyed_same_tick() {
    let cfg = Config::standard();
    let mut store = EntityStore::new();
    // the bottom bound is -600/2 + 15 = -285
    store.create(ball_at(0, -286, 0, -1000));
    store.create(ball_at(0, -285, 0, -1000));
    confine_ball(&mut store, &cfg);
    assert!(store.slots[0].is_none());
    assert!(store.slots[1].is_some());
}

#[test]
fn power_up_falls_and_despawns_below_field() {
    let cfg = Config::standard();
    let mut store = EntityStore::new();
    store.create(power_up_at(5, 100));
    store.create(power_up_at(0, -200));
    power_up_fall(&mut store, &cfg, 1000);
    // 150 units per second for one second
    match &store.slots[0] {
        Some(e) => {
            assert_eq!(e.pos.x, 5);
            assert_eq!(e.pos.y, -50);
        },
        None => panic!("power-up vanished"),
    }
    // -200 - 150 = -350 lies below -300: gone
    assert!(store.slots[1].is_none());
}

#[test]
fn paddle_bounce_reflects_downward_ball() {
    let cfg = Config::standard();
    let mut store = EntityStore::new();
    let mut sounds = SoundLog { impacts: 0, breaks: 0 };
    store.create(paddle_at(0, -250));
    // combined half-extents: (30+120)/2 = 75 in x, (30+30)/2 = 30 in y
    store.create(ball_at(10, -230, 0, -1000));
    ball_paddle_collision(&mut store, &cfg, &mut sounds);
    match &store.slots[1] {
        Some(e) => match &e.data {
            EntityData::BallData(b) => {
                assert_eq!(b.direction.y, 1000);
                // pushed out upward by 30 - |20| = 10
                assert_eq!(e.pos.y, -220);
            },
            _ => panic!("not a ball"),
        },
        None => panic!("ball vanished"),
    }
    assert_eq!(sounds.impacts, 1);
    assert_eq!(sounds.breaks, 0);
    // an upward-moving ball is left alone
    ball_paddle_collision(&mut store, &cfg, &mut sounds);
    assert_eq!(sounds.impacts, 1);
}

#[test]
fn brick_takes_damage_then_breaks_for_ten_points() {
    let cfg = Config::standard();
    let mut store = EntityStore::new();
    let mut score: u32 = 0;
    let mut sounds = SoundLog { impacts: 0, breaks: 0 };
    store.create(brick_at(0, 0, 2));
    store.create(ball_at(0, 20, 0, -1000));
    ball_brick_collision(&mut store, &cfg, &mut score, &mut sounds);
    // vertical overlap 10 is smaller than horizontal 55: vertical bounce
    match &store.slots[0] {
        Some(e) => match &e.data {
            EntityData::BrickData(b) => assert_eq!(b.hp, 1),
            _ => panic!("not a brick"),
        },
        None => panic!("brick destroyed too early"),
    }
    match &store.slots[1] {
        Some(e) => match &e.data {
            EntityData::BallData(b) => {
                assert_eq!(b.direction.y, 1000);
                assert_eq!(e.pos.y, 30);
            },
            _ => panic!("not a ball"),
        },
        None => panic!("ball vanished"),
    }
    assert_eq!(score, 0);
    assert_eq!(sounds.impacts, 1);
    assert_eq!(sounds.breaks, 0);
    // put the ball back onto the brick and finish it off
    store.slots[1] = Some(ball_at(0, 20, 0, -1000));
    ball_brick_collision(&mut store, &cfg, &mut score, &mut sounds);
    assert!(store.slots[0].is_none());
    assert_eq!(score, 10);
    assert_eq!(sounds.breaks, 1);
    assert_eq!(sounds.impacts, 2);
    // a power-up may have dropped at the brick's former position
    if store.slots.len() > 2 {
        match &store.slots[2] {
            Some(e) => {
                assert!(matches!(e.data, EntityData::PowerUpData(_)));
                assert_eq!(e.pos.x, 0);
                assert_eq!(e.pos.y, 0);
            },
            None => panic!("appended slot empty"),
        }
    }
}

#[test]
fn collected_power_up_spawns_upward_ball() {
    let cfg = Config::standard();
    let mut store = EntityStore::new();
    store.create(paddle_at(0, -250));
    store.create(power_up_at(10, -245));
    paddle_collect_power_up(&mut store, &cfg);
    assert!(store.slots[1].is_none());
    assert_eq!(store.slots.len(), 3);
    match &store.slots[2] {
        Some(e) => match &e.data {
            EntityData::BallData(b) => {
                assert_eq!(e.pos.x, 0);
                assert_eq!(e.pos.y, -210);
                assert!(b.direction.y > 0);
                assert!(b.direction.x >= 0);
                let n = norm_sq_of(&store, 2);
                assert!(995_999 <= n && n <= 1_002_000);
            },
            _ => panic!("not a ball"),
        },
        None => panic!("no ball spawned"),
    }
}

#[test]
fn brick_grid_has_eight_columns_on_standard_field() {
    let cfg = Config::standard();
    let mut store = EntityStore::new();
    spawn_bricks(&mut store, &cfg);
    // floor(800 / 90) = 8 columns, 10 rows
    assert_eq!(store.slots.len(), 80);
    assert_eq!(store.count(Kind::BrickKind), 80);
    // top-left brick, hp 2 in the top rows
    match &store.slots[0] {
        Some(e) => match &e.data {
            EntityData::BrickData(b) => {
                assert_eq!(b.hp, 2);
                assert_eq!(e.pos.x, -400 + 40 + 10);
                assert_eq!(e.pos.y, 300 - 15 - 10);
            },
            _ => panic!("not a brick"),
        },
        None => panic!("missing brick"),
    }
    // a brick in row 4 has one hit point
    match &store.slots[4 * 8] {
        Some(e) => match &e.data {
            EntityData::BrickData(b) => assert_eq!(b.hp, 1),
            _ => panic!("not a brick"),
        },
        None => panic!("missing brick"),
    }
}

#[test]
fn cleanup_twice_leaves_nothing_twice() {
    let mut store = EntityStore::new();
    store.create(paddle_at(0, -250));
    store.create(ball_at(0, 0, 0, 1000));
    store.create(brick_at(0, 100, 1));
    store.create(power_up_at(0, 50));
    cleanup_game_entities(&mut store);
    assert_eq!(store.slots.len(), 0);
    cleanup_game_entities(&mut store);
    assert_eq!(store.slots.len(), 0);
}

#[test]
fn confirm_starts_play_with_full_set() {
    let mut sim = Sim::new(Config::standard());
    sim.start_game(false);
    assert_eq!(sim.state, GameState::Start);
    sim.start_game(true);
    assert_eq!(sim.state, GameState::Playing);
    assert_eq!(sim.score, 0);
    assert_eq!(sim.store.count(Kind::PaddleKind), 1);
    assert_eq!(sim.store.count(Kind::BallKind), 1);
    assert_eq!(sim.store.count(Kind::BrickKind), 80);
    assert_eq!(sim.store.count(Kind::PowerUpKind), 0);
}

#[test]
fn last_ball_lost_fires_outcome_with_score() {
    let mut sim = Sim::new(Config::standard());
    sim.state = GameState::Playing;
    sim.score = 120;
    sim.store.create(paddle_at(0, -250));
    sim.store.create(ball_at(0, -286, 0, -1000));
    let exit = sim.step(&idle(), 0);
    assert!(!exit);
    assert_eq!(sim.state, GameState::GameOver);
    assert_eq!(sim.last_outcome, Some(GameOver { score: 120 }));
    assert_eq!(sim.score, 120);
    assert_eq!(sim.store.slots.len(), 0);
}

#[test]
fn restart_resets_score_and_respawns_everything() {
    let mut sim = Sim::new(Config::standard());
    sim.state = GameState::Playing;
    sim.score = 120;
    sim.store.create(paddle_at(0, -250));
    sim.store.create(ball_at(0, -286, 0, -1000));
    sim.step(&idle(), 0);
    assert_eq!(sim.state, GameState::GameOver);
    let restart = InputFrame { restart: true, ..idle() };
    sim.step(&restart, 16);
    assert_eq!(sim.state, GameState::Playing);
    assert_eq!(sim.score, 0);
    assert_eq!(sim.store.count(Kind::PaddleKind), 1);
    assert_eq!(sim.store.count(Kind::BallKind), 1);
    assert_eq!(sim.store.count(Kind::BrickKind), 80);
    assert_eq!(sim.store.count(Kind::PowerUpKind), 0);
}

#[test]
fn quit_exits_in_any_state() {
    let mut sim = Sim::new(Config::standard());
    let quit = InputFrame { quit: true, ..idle() };
    assert!(sim.step(&quit, 16));
    assert_eq!(sim.state, GameState::Start);
}

#[test]
fn score_reports_once_per_change() {
    let mut sim = Sim::new(Config::standard());
    assert_eq!(sim.update_score(), Some(0));
    assert_eq!(sim.update_score(), None);
    sim.score = 50;
    assert_eq!(sim.update_score(), Some(50));
    assert_eq!(sim.update_score(), None);
}

#[test]
fn ticks_keep_ball_directions_near_unit() {
    let mut sim = Sim::new(Config::standard());
    sim.start_game(true);
    for _ in 0..300 {
        sim.step(&InputFrame { right: true, ..idle() }, 16);
        if sim.state != GameState::Playing {
            break;
        }
        for i in 0..sim.store.slots.len() {
            if let Some(e) = &sim.store.slots[i] {
                if let EntityData::BallData(b) = &e.data {
                    let n = b.direction.x * b.direction.x + b.direction.y * b.direction.y;
                    assert!(995_999 <= n && n <= 1_002_000);
                }
                if let EntityData::PaddleData(_) = &e.data {
                    assert!(-340 <= e.pos.x && e.pos.x <= 340);
                }
            }
        }
    }
}

#[test]
fn corner_ball_reflects_both_axes_same_tick() {
    let cfg = Config::standard();
    let mut store = EntityStore::new();
    // the side bound is 400 - 15 = 385 and the top bound 300 - 15 = 285
    store.create(ball_at(385, 285, 707, 707));
    update_ball_direction(&mut store, &cfg);
    match &store.slots[0] {
        Some(e) => match &e.data {
            EntityData::BallData(b) => {
                assert_eq!(b.direction.x, -707);
                assert_eq!(b.direction.y, -707);
            },
            _ => panic!("not a ball"),
        },
        None => panic!("ball vanished"),
    }
}

#[test]
fn equal_overlaps_resolve_to_the_vertical_bounce() {
    let cfg = Config::standard();
    let mut store = EntityStore::new();
    let mut score: u32 = 0;
    let mut sounds = SoundLog { impacts: 0, breaks: 0 };
    store.create(brick_at(0, 0, 2));
    // overlaps: 55 - |30| = 25 in x and 30 - |5| = 25 in y: the tie takes
    // the vertical branch
    store.create(ball_at(30, 5, 0, -1000));
    ball_brick_collision(&mut store, &cfg, &mut score, &mut sounds);
    match &store.slots[1] {
        Some(e) => match &e.data {
            EntityData::BallData(b) => {
                assert_eq!(b.direction.x, 0);
                assert_eq!(b.direction.y, 1000);
                assert_eq!(e.pos.x, 30);
                assert_eq!(e.pos.y, 30);
            },
            _ => panic!("not a ball"),
        },
        None => panic!("ball vanished"),
    }
}

#[test]
fn downward_ball_onto_last_brick_scores_and_bounces_up() {
    let cfg = Config::standard();
    let mut store = EntityStore::new();
    let mut score: u32 = 120;
    let mut sounds = SoundLog { impacts: 0, breaks: 0 };
    store.create(ball_at(0, 0, 600, -800));
    store.create(brick_at(0, -20, 1));
    ball_brick_collision(&mut store, &cfg, &mut score, &mut sounds);
    // horizontal overlap 55 is not smaller than vertical 10: vertical
    // branch, pushed out upward by 10
    match &store.slots[0] {
        Some(e) => match &e.data {
            EntityData::BallData(b) => {
                assert_eq!(b.direction.x, 600);
                assert_eq!(b.direction.y, 800);
                assert_eq!(e.pos.x, 0);
                assert_eq!(e.pos.y, 10);
            },
            _ => panic!("not a ball"),
        },
        None => panic!("ball vanished"),
    }
    assert!(store.slots[1].is_none());
    assert_eq!(score, 130);
    assert_eq!(sounds.impacts, 1);
    assert_eq!(sounds.breaks, 1);
}
