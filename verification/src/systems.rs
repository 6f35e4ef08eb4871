//! The per-tick simulation stages: movement, confinement, direction
//! reflection, collision resolution and cleanup. Each stage describes the
//! store after the call slot by slot, so that the tick driver and the
//! whole-game invariants follow from the stage contracts alone.

use vstd::prelude::*;
use crate::geometry::{Vec2i, div_trunc, near_unit, norm_sq, lemma_near_unit_bounds, lemma_neg_sq};
use crate::geometry::{div_trunc_exec, half, clamp_i, abs_i};
use crate::store::{
    Ball, Brick, Entity, EntityData, EntityStore, Kind, Paddle, PowerUp,
    count_kind, entities_wf, is_kind, positions_within, slot_pos_within, slot_wf,
};
use crate::config::{Config, COLL_BOUND, MAX_DT, POS_BOUND, STEP_BOUND};
use crate::store::{
    count_kind_to, lemma_count_agree, lemma_count_all_kind, lemma_count_bounds,
    lemma_count_eq_pointwise,
    lemma_count_member, lemma_count_skip_nonkind, lemma_count_unique, lemma_count_update,
};

verus! {

// ===== movement steps =====

/// Horizontal input axis: right minus left, in {-1, 0, +1}.
pub open spec fn axis_of(left: bool, right: bool) -> int {
    (if right {
        1int
    } else {
        0int
    }) - (if left {
        1int
    } else {
        0int
    })
}

/// Paddle movement this tick: axis * speed * dt, with dt in milliseconds.
pub open spec fn paddle_step(cfg: Config, left: bool, right: bool, dt: int) -> int {
    div_trunc(axis_of(left, right) * cfg.paddle_speed * dt, 1000)
}

/// Ball movement along one axis: direction component (scaled by 1000)
/// times speed times dt in milliseconds.
pub open spec fn ball_step(d: int, speed: int, dt: int) -> int {
    div_trunc(d * speed * dt, 1_000_000)
}

/// Distance a power-up falls this tick.
pub open spec fn power_up_step(cfg: Config, dt: int) -> int {
    div_trunc(cfg.power_up_speed * dt, 1000)
}

fn paddle_step_exec(cfg: &Config, left: bool, right: bool, dt: i64) -> (r: i64)
    requires
        cfg.wf(),
        0 <= dt <= MAX_DT,
    ensures
        r == paddle_step(*cfg, left, right, dt as int),
        -STEP_BOUND <= r <= STEP_BOUND,
{
    let axis: i64 = (if right {
        1i64
    } else {
        0i64
    }) - (if left {
        1i64
    } else {
        0i64
    });
    proof {
        assert(-1_000_000 <= axis * cfg.paddle_speed <= 1_000_000) by (nonlinear_arith)
            requires
                -1 <= axis <= 1,
                0 <= cfg.paddle_speed <= 1_000_000,
        ;
    }
    let m: i64 = axis * cfg.paddle_speed;
    proof {
        assert(-1_000_000_000_000_000 <= m * dt <= 1_000_000_000_000_000) by (nonlinear_arith)
            requires
                -1_000_000 <= m <= 1_000_000,
                0 <= dt <= 1_000_000_000,
        ;
    }
    let p: i64 = m * dt;
    div_trunc_exec(p, 1000)
}

fn ball_step_exec(d: i64, speed: i64, dt: i64) -> (r: i64)
    requires
        -2000 <= d <= 2000,
        0 <= speed <= 1_000_000,
        0 <= dt <= MAX_DT,
    ensures
        r == ball_step(d as int, speed as int, dt as int),
        -STEP_BOUND <= r <= STEP_BOUND,
{
    proof {
        assert(-2_000_000_000 <= d * speed <= 2_000_000_000) by (nonlinear_arith)
            requires
                -2000 <= d <= 2000,
                0 <= speed <= 1_000_000,
        ;
    }
    let m: i64 = d * speed;
    proof {
        assert(-2_000_000_000_000_000_000 <= m * dt <= 2_000_000_000_000_000_000)
            by (nonlinear_arith)
            requires
                -2_000_000_000 <= m <= 2_000_000_000,
                0 <= dt <= 1_000_000_000,
        ;
    }
    let p: i64 = m * dt;
    div_trunc_exec(p, 1_000_000)
}

fn power_up_step_exec(cfg: &Config, dt: i64) -> (r: i64)
    requires
        cfg.wf(),
        0 <= dt <= MAX_DT,
    ensures
        r == power_up_step(*cfg, dt as int),
        0 <= r <= STEP_BOUND,
{
    proof {
        assert(0 <= cfg.power_up_speed * dt <= 1_000_000_000_000_000) by (nonlinear_arith)
            requires
                0 <= cfg.power_up_speed <= 1_000_000,
                0 <= dt <= 1_000_000_000,
        ;
    }
    let p: i64 = cfg.power_up_speed * dt;
    div_trunc_exec(p, 1000)
}

// ===== movement stage =====

/// What one slot becomes under paddle movement.
pub open spec fn paddle_moved_slot(
    s: Option<Entity>,
    cfg: Config,
    left: bool,
    right: bool,
    dt: int,
) -> Option<Entity> {
    match s {
        Some(e) => match e.data {
            EntityData::PaddleData(_) => Some(
                Entity {
                    pos: Vec2i { x: (e.pos.x + paddle_step(cfg, left, right, dt)) as i64, y: e.pos.y },
                    data: e.data,
                },
            ),
            _ => s,
        },
        None => None,
    }
}

/// Moves every paddle horizontally by the input axis times the paddle
/// speed times the elapsed time; nothing else changes.
pub fn paddle_movement(
    store: &mut EntityStore,
    cfg: &Config,
    left: bool,
    right: bool,
    dt_ms: i64,
)
    requires
        cfg.wf(),
        0 <= dt_ms <= MAX_DT,
        positions_within(old(store)@, POS_BOUND as int),
    ensures
        final(store)@.len() == old(store)@.len(),
        forall|i: int|
            0 <= i < old(store)@.len() ==> final(store)@[i] == paddle_moved_slot(
                old(store)@[i],
                *cfg,
                left,
                right,
                dt_ms as int,
            ),
        forall|b: int|
            #[trigger] positions_within(old(store)@, b) && 0 <= b <= POS_BOUND
                ==> positions_within(final(store)@, b + STEP_BOUND),
        entities_wf(old(store)@) ==> entities_wf(final(store)@),
{
    let ghost s0 = store@;
    let delta = paddle_step_exec(cfg, left, right, dt_ms);
    let end = store.len();
    let mut i: usize = 0;
    while i < end
        invariant
            end == s0.len(),
            store@.len() == s0.len(),
            0 <= i <= end,
            cfg.wf(),
            0 <= dt_ms <= MAX_DT,
            positions_within(s0, POS_BOUND as int),
            delta == paddle_step(*cfg, left, right, dt_ms as int),
            -STEP_BOUND <= delta <= STEP_BOUND,
            forall|j: int|
                0 <= j < i ==> store@[j] == paddle_moved_slot(s0[j], *cfg, left, right, dt_ms as int),
            forall|j: int| i <= j < end ==> store@[j] == s0[j],
        decreases end - i,
    {
        let s = store.slots[i];
        match s {
            Some(e) => match e.data {
                EntityData::PaddleData(_) => {
                    assert(s0[i as int] == s);
                    let new_e = Entity {
                        pos: Vec2i { x: e.pos.x + delta, y: e.pos.y },
                        data: e.data,
                    };
                    store.slots[i] = Some(new_e);
                },
                _ => {},
            },
            None => {},
        }
        i = i + 1;
    }
    proof {
        assert forall|b: int|
            #[trigger] positions_within(s0, b) && 0 <= b <= POS_BOUND implies positions_within(
            store@,
            b + STEP_BOUND,
        ) by {
            assert forall|j: int|
                0 <= j < store@.len() implies slot_pos_within(#[trigger] store@[j], b + STEP_BOUND) by {
                assert(slot_pos_within(s0[j], b));
            }
        }
        if entities_wf(s0) {
            assert forall|j: int| 0 <= j < store@.len() implies slot_wf(#[trigger] store@[j]) by {
                assert(slot_wf(s0[j]));
            }
        }
    }
}

/// The movement of a ball with a near-unit direction is bounded.
proof fn lemma_ball_step_bound(d: int, speed: int, dt: int)
    requires
        -2000 <= d <= 2000,
        0 <= speed <= 1_000_000,
        0 <= dt <= MAX_DT,
    ensures
        -STEP_BOUND <= ball_step(d, speed, dt) <= STEP_BOUND,
{
    assert(-2_000_000_000_000_000_000 <= d * speed * dt <= 2_000_000_000_000_000_000)
        by (nonlinear_arith)
        requires
            -2000 <= d <= 2000,
            0 <= speed <= 1_000_000,
            0 <= dt <= 1_000_000_000,
    ;
    let p = d * speed * dt;
    if p >= 0 {
        assert(0 <= p / 1_000_000 <= 2_000_000_000_000) by (nonlinear_arith)
            requires
                0 <= p <= 2_000_000_000_000_000_000,
        ;
    } else {
        assert(0 <= (-p) / 1_000_000 <= 2_000_000_000_000) by (nonlinear_arith)
            requires
                0 <= -p <= 2_000_000_000_000_000_000,
        ;
    }
}

/// What one slot becomes under ball movement.
pub open spec fn ball_moved_slot(s: Option<Entity>, cfg: Config, dt: int) -> Option<Entity> {
    match s {
        Some(e) => match e.data {
            EntityData::BallData(b) => Some(
                Entity {
                    pos: Vec2i {
                        x: (e.pos.x + ball_step(b.direction.x as int, cfg.ball_speed as int, dt)) as i64,
                        y: (e.pos.y + ball_step(b.direction.y as int, cfg.ball_speed as int, dt)) as i64,
                    },
                    data: e.data,
                },
            ),
            _ => s,
        },
        None => None,
    }
}

/// Advances every ball by its direction times the ball speed times the
/// elapsed time; nothing else changes.
pub fn ball_movement(store: &mut EntityStore, cfg: &Config, dt_ms: i64)
    requires
        cfg.wf(),
        0 <= dt_ms <= MAX_DT,
        positions_within(old(store)@, POS_BOUND as int),
        entities_wf(old(store)@),
    ensures
        final(store)@.len() == old(store)@.len(),
        forall|i: int|
            0 <= i < old(store)@.len() ==> final(store)@[i] == ball_moved_slot(
                old(store)@[i],
                *cfg,
                dt_ms as int,
            ),
        forall|b: int|
            #[trigger] positions_within(old(store)@, b) && 0 <= b <= POS_BOUND
                ==> positions_within(final(store)@, b + STEP_BOUND),
        entities_wf(final(store)@),
{
    let ghost s0 = store@;
    let end = store.len();
    let mut i: usize = 0;
    while i < end
        invariant
            end == s0.len(),
            store@.len() == s0.len(),
            0 <= i <= end,
            cfg.wf(),
            0 <= dt_ms <= MAX_DT,
            positions_within(s0, POS_BOUND as int),
            entities_wf(s0),
            forall|j: int| 0 <= j < i ==> store@[j] == ball_moved_slot(s0[j], *cfg, dt_ms as int),
            forall|j: int| i <= j < end ==> store@[j] == s0[j],
        decreases end - i,
    {
        let s = store.slots[i];
        match s {
            Some(e) => match e.data {
                EntityData::BallData(b) => {
                    proof {
                        assert(slot_wf(s0[i as int]));
                        lemma_near_unit_bounds(b.direction);
                        assert(slot_pos_within(s0[i as int], POS_BOUND as int));
                    }
                    let dx = ball_step_exec(b.direction.x, cfg.ball_speed, dt_ms);
                    let dy = ball_step_exec(b.direction.y, cfg.ball_speed, dt_ms);
                    let new_e = Entity {
                        pos: Vec2i { x: e.pos.x + dx, y: e.pos.y + dy },
                        data: e.data,
                    };
                    store.slots[i] = Some(new_e);
                },
                _ => {},
            },
            None => {},
        }
        i = i + 1;
    }
    proof {
        assert forall|b: int|
            #[trigger] positions_within(s0, b) && 0 <= b <= POS_BOUND implies positions_within(
            store@,
            b + STEP_BOUND,
        ) by {
            assert forall|j: int|
                0 <= j < store@.len() implies slot_pos_within(#[trigger] store@[j], b + STEP_BOUND) by {
            assert(store@[j] == ball_moved_slot(s0[j], *cfg, dt_ms as int));
            assert(slot_pos_within(s0[j], b));
            assert(slot_wf(s0[j]));
            match s0[j] {
                Some(e) => match e.data {
                    EntityData::BallData(b) => {
                        lemma_near_unit_bounds(b.direction);
                        lemma_ball_step_bound(
                            b.direction.x as int,
                            cfg.ball_speed as int,
                            dt_ms as int,
                        );
                        lemma_ball_step_bound(
                            b.direction.y as int,
                            cfg.ball_speed as int,
                            dt_ms as int,
                        );
                    },
                    _ => {},
                },
                None => {},
            }
            }
        }
        assert forall|j: int| 0 <= j < store@.len() implies slot_wf(#[trigger] store@[j]) by {
            assert(slot_wf(s0[j]));
        }
    }
}

/// What one slot becomes when power-ups fall: one below the bottom of the
/// field can never be collected again and is despawned to keep the store
/// bounded.
pub open spec fn power_up_fallen_slot(s: Option<Entity>, cfg: Config, dt: int) -> Option<Entity> {
    match s {
        Some(e) => match e.data {
            EntityData::PowerUpData(_) => {
                let y2 = e.pos.y - power_up_step(cfg, dt);
                if y2 < -(cfg.field_h / 2) {
                    None
                } else {
                    Some(Entity { pos: Vec2i { x: e.pos.x, y: y2 as i64 }, data: e.data })
                }
            },
            _ => s,
        },
        None => None,
    }
}

/// Lowers every power-up by the power-up speed times the elapsed time and
/// despawns the ones that have left the field below; nothing else changes.
pub fn power_up_fall(store: &mut EntityStore, cfg: &Config, dt_ms: i64)
    requires
        cfg.wf(),
        0 <= dt_ms <= MAX_DT,
        positions_within(old(store)@, POS_BOUND as int),
    ensures
        final(store)@.len() == old(store)@.len(),
        forall|i: int|
            0 <= i < old(store)@.len() ==> final(store)@[i] == power_up_fallen_slot(
                old(store)@[i],
                *cfg,
                dt_ms as int,
            ),
        forall|b: int|
            #[trigger] positions_within(old(store)@, b) && 0 <= b <= POS_BOUND
                ==> positions_within(final(store)@, b + STEP_BOUND),
        entities_wf(old(store)@) ==> entities_wf(final(store)@),
{
    let ghost s0 = store@;
    let delta = power_up_step_exec(cfg, dt_ms);
    let bottom = -half(cfg.field_h);
    let end = store.len();
    let mut i: usize = 0;
    while i < end
        invariant
            end == s0.len(),
            store@.len() == s0.len(),
            0 <= i <= end,
            cfg.wf(),
            0 <= dt_ms <= MAX_DT,
            positions_within(s0, POS_BOUND as int),
            delta == power_up_step(*cfg, dt_ms as int),
            0 <= delta <= STEP_BOUND,
            bottom == -(cfg.field_h / 2),
            forall|j: int| 0 <= j < i ==> store@[j] == power_up_fallen_slot(s0[j], *cfg, dt_ms as int),
            forall|j: int| i <= j < end ==> store@[j] == s0[j],
        decreases end - i,
    {
        let s = store.slots[i];
        match s {
            Some(e) => match e.data {
                EntityData::PowerUpData(_) => {
                    assert(slot_pos_within(s0[i as int], POS_BOUND as int));
                    let y2 = e.pos.y - delta;
                    if y2 < bottom {
                        store.slots[i] = None;
                    } else {
                        store.slots[i] = Some(
                            Entity { pos: Vec2i { x: e.pos.x, y: y2 }, data: e.data },
                        );
                    }
                },
                _ => {},
            },
            None => {},
        }
        i = i + 1;
    }
    proof {
        assert forall|b: int|
            #[trigger] positions_within(s0, b) && 0 <= b <= POS_BOUND implies positions_within(
            store@,
            b + STEP_BOUND,
        ) by {
            assert forall|j: int|
                0 <= j < store@.len() implies slot_pos_within(#[trigger] store@[j], b + STEP_BOUND) by {
                assert(store@[j] == power_up_fallen_slot(s0[j], *cfg, dt_ms as int));
                assert(slot_pos_within(s0[j], b));
                assert(0 <= power_up_step(*cfg, dt_ms as int) <= STEP_BOUND);
            }
        }
        if entities_wf(s0) {
            assert forall|j: int| 0 <= j < store@.len() implies slot_wf(#[trigger] store@[j]) by {
                assert(slot_wf(s0[j]));
            }
        }
    }
}

// ===== confinement stage =====

pub open spec fn paddle_x_min(cfg: Config) -> int {
    -(cfg.field_w / 2) + cfg.paddle_w / 2
}

pub open spec fn paddle_x_max(cfg: Config) -> int {
    cfg.field_w / 2 - cfg.paddle_w / 2
}

pub open spec fn ball_x_min(cfg: Config) -> int {
    -(cfg.field_w / 2) + cfg.ball_w / 2
}

pub open spec fn ball_x_max(cfg: Config) -> int {
    cfg.field_w / 2 - cfg.ball_w / 2
}

pub open spec fn ball_y_min(cfg: Config) -> int {
    -(cfg.field_h / 2) + cfg.ball_h / 2
}

pub open spec fn ball_y_max(cfg: Config) -> int {
    cfg.field_h / 2 - cfg.ball_h / 2
}

/// What one slot becomes under paddle confinement.
pub open spec fn paddle_confined_slot(s: Option<Entity>, cfg: Config) -> Option<Entity> {
    match s {
        Some(e) => match e.data {
            EntityData::PaddleData(_) => Some(
                Entity {
                    pos: Vec2i {
                        x: clamp_i(e.pos.x as int, paddle_x_min(cfg), paddle_x_max(cfg)) as i64,
                        y: e.pos.y,
                    },
                    data: e.data,
                },
            ),
            _ => s,
        },
        None => None,
    }
}

/// Clamps every paddle to the horizontal play-field bounds; nothing else
/// changes.
pub fn confine_paddle(store: &mut EntityStore, cfg: &Config)
    requires
        cfg.wf(),
    ensures
        final(store)@.len() == old(store)@.len(),
        forall|i: int|
            0 <= i < old(store)@.len() ==> final(store)@[i] == paddle_confined_slot(
                old(store)@[i],
                *cfg,
            ),
        entities_wf(old(store)@) ==> entities_wf(final(store)@),
{
    let ghost s0 = store@;
    let x_min = -half(cfg.field_w) + half(cfg.paddle_w);
    let x_max = half(cfg.field_w) - half(cfg.paddle_w);
    let end = store.len();
    let mut i: usize = 0;
    while i < end
        invariant
            end == s0.len(),
            store@.len() == s0.len(),
            0 <= i <= end,
            cfg.wf(),
            x_min == paddle_x_min(*cfg),
            x_max == paddle_x_max(*cfg),
            forall|j: int| 0 <= j < i ==> store@[j] == paddle_confined_slot(s0[j], *cfg),
            forall|j: int| i <= j < end ==> store@[j] == s0[j],
        decreases end - i,
    {
        let s = store.slots[i];
        match s {
            Some(e) => match e.data {
                EntityData::PaddleData(_) => {
                    let x2 = if e.pos.x < x_min {
                        x_min
                    } else if e.pos.x > x_max {
                        x_max
                    } else {
                        e.pos.x
                    };
                    store.slots[i] = Some(
                        Entity { pos: Vec2i { x: x2, y: e.pos.y }, data: e.data },
                    );
                },
                _ => {},
            },
            None => {},
        }
        i = i + 1;
    }
    proof {
        if entities_wf(s0) {
            assert forall|j: int| 0 <= j < store@.len() implies slot_wf(#[trigger] store@[j]) by {
                assert(slot_wf(s0[j]));
            }
        }
    }
}

/// What one slot becomes under ball confinement: the ball is clamped to the
/// horizontal bounds, destroyed when it has fallen below the bottom bound,
/// and clamped at the top bound.
pub open spec fn ball_confined_slot(s: Option<Entity>, cfg: Config) -> Option<Entity> {
    match s {
        Some(e) => match e.data {
            EntityData::BallData(_) => {
                let x2 = clamp_i(e.pos.x as int, ball_x_min(cfg), ball_x_max(cfg));
                if e.pos.y < ball_y_min(cfg) {
                    None
                } else if e.pos.y > ball_y_max(cfg) {
                    Some(
                        Entity {
                            pos: Vec2i { x: x2 as i64, y: ball_y_max(cfg) as i64 },
                            data: e.data,
                        },
                    )
                } else {
                    Some(Entity { pos: Vec2i { x: x2 as i64, y: e.pos.y }, data: e.data })
                }
            },
            _ => s,
        },
        None => None,
    }
}

/// Confines every ball to the field: the sides clamp, the top clamps, and
/// a ball below the bottom bound is destroyed within this same tick.
pub fn confine_ball(store: &mut EntityStore, cfg: &Config)
    requires
        cfg.wf(),
    ensures
        final(store)@.len() == old(store)@.len(),
        forall|i: int|
            0 <= i < old(store)@.len() ==> final(store)@[i] == ball_confined_slot(
                old(store)@[i],
                *cfg,
            ),
        entities_wf(old(store)@) ==> entities_wf(final(store)@),
{
    let ghost s0 = store@;
    let x_min = -half(cfg.field_w) + half(cfg.ball_w);
    let x_max = half(cfg.field_w) - half(cfg.ball_w);
    let y_min = -half(cfg.field_h) + half(cfg.ball_h);
    let y_max = half(cfg.field_h) - half(cfg.ball_h);
    let end = store.len();
    let mut i: usize = 0;
    while i < end
        invariant
            end == s0.len(),
            store@.len() == s0.len(),
            0 <= i <= end,
            cfg.wf(),
            x_min == ball_x_min(*cfg),
            x_max == ball_x_max(*cfg),
            y_min == ball_y_min(*cfg),
            y_max == ball_y_max(*cfg),
            forall|j: int| 0 <= j < i ==> store@[j] == ball_confined_slot(s0[j], *cfg),
            forall|j: int| i <= j < end ==> store@[j] == s0[j],
        decreases end - i,
    {
        let s = store.slots[i];
        match s {
            Some(e) => match e.data {
                EntityData::BallData(_) => {
                    let x2 = if e.pos.x < x_min {
                        x_min
                    } else if e.pos.x > x_max {
                        x_max
                    } else {
                        e.pos.x
                    };
                    if e.pos.y < y_min {
                        store.slots[i] = None;
                    } else if e.pos.y > y_max {
                        store.slots[i] = Some(
                            Entity { pos: Vec2i { x: x2, y: y_max }, data: e.data },
                        );
                    } else {
                        store.slots[i] = Some(
                            Entity { pos: Vec2i { x: x2, y: e.pos.y }, data: e.data },
                        );
                    }
                },
                _ => {},
            },
            None => {},
        }
        i = i + 1;
    }
    proof {
        if entities_wf(s0) {
            assert forall|j: int| 0 <= j < store@.len() implies slot_wf(#[trigger] store@[j]) by {
                assert(slot_wf(s0[j]));
            }
        }
    }
}

// ===== direction reflection =====

/// The direction with the chosen components negated.
pub open spec fn flipped(d: Vec2i, fx: bool, fy: bool) -> Vec2i {
    Vec2i {
        x: if fx {
            (-d.x) as i64
        } else {
            d.x
        },
        y: if fy {
            (-d.y) as i64
        } else {
            d.y
        },
    }
}

/// What one slot becomes under direction reflection: a ball at or beyond a
/// horizontal bound reverses its horizontal direction, one at or beyond a
/// vertical bound reverses its vertical direction; a ball in a corner
/// reverses both in the same tick.
pub open spec fn reflected_slot(s: Option<Entity>, cfg: Config) -> Option<Entity> {
    match s {
        Some(e) => match e.data {
            EntityData::BallData(b) => {
                let fx = e.pos.x <= ball_x_min(cfg) || e.pos.x >= ball_x_max(cfg);
                let fy = e.pos.y <= ball_y_min(cfg) || e.pos.y >= ball_y_max(cfg);
                Some(
                    Entity {
                        pos: e.pos,
                        data: EntityData::BallData(Ball { direction: flipped(b.direction, fx, fy) }),
                    },
                )
            },
            _ => s,
        },
        None => None,
    }
}

/// Flipping components of a near-unit direction keeps it near-unit.
pub proof fn lemma_flipped_near_unit(d: Vec2i, fx: bool, fy: bool)
    requires
        near_unit(d),
    ensures
        near_unit(flipped(d, fx, fy)),
        norm_sq(flipped(d, fx, fy)) == norm_sq(d),
{
    lemma_near_unit_bounds(d);
    lemma_neg_sq(d.x as int);
    lemma_neg_sq(d.y as int);
}

/// Reverses the direction of every ball standing at or beyond a field
/// bound; positions and everything else are unchanged.
pub fn update_ball_direction(store: &mut EntityStore, cfg: &Config)
    requires
        cfg.wf(),
        entities_wf(old(store)@),
    ensures
        final(store)@.len() == old(store)@.len(),
        forall|i: int|
            0 <= i < old(store)@.len() ==> final(store)@[i] == reflected_slot(old(store)@[i], *cfg),
        entities_wf(final(store)@),
{
    let ghost s0 = store@;
    let x_min = -half(cfg.field_w) + half(cfg.ball_w);
    let x_max = half(cfg.field_w) - half(cfg.ball_w);
    let y_min = -half(cfg.field_h) + half(cfg.ball_h);
    let y_max = half(cfg.field_h) - half(cfg.ball_h);
    let end = store.len();
    let mut i: usize = 0;
    while i < end
        invariant
            end == s0.len(),
            store@.len() == s0.len(),
            0 <= i <= end,
            cfg.wf(),
            entities_wf(s0),
            x_min == ball_x_min(*cfg),
            x_max == ball_x_max(*cfg),
            y_min == ball_y_min(*cfg),
            y_max == ball_y_max(*cfg),
            forall|j: int| 0 <= j < i ==> store@[j] == reflected_slot(s0[j], *cfg),
            forall|j: int| i <= j < end ==> store@[j] == s0[j],
        decreases end - i,
    {
        let s = store.slots[i];
        match s {
            Some(e) => match e.data {
                EntityData::BallData(b) => {
                    proof {
                        assert(slot_wf(s0[i as int]));
                        lemma_near_unit_bounds(b.direction);
                    }
                    let fx = e.pos.x <= x_min || e.pos.x >= x_max;
                    let fy = e.pos.y <= y_min || e.pos.y >= y_max;
                    let nx = if fx {
                        -b.direction.x
                    } else {
                        b.direction.x
                    };
                    let ny = if fy {
                        -b.direction.y
                    } else {
                        b.direction.y
                    };
                    store.slots[i] = Some(
                        Entity {
                            pos: e.pos,
                            data: EntityData::BallData(
                                Ball { direction: Vec2i { x: nx, y: ny } },
                            ),
                        },
                    );
                },
                _ => {},
            },
            None => {},
        }
        i = i + 1;
    }
    proof {
        assert forall|j: int| 0 <= j < store@.len() implies slot_wf(#[trigger] store@[j]) by {
            assert(slot_wf(s0[j]));
            match s0[j] {
                Some(e) => match e.data {
                    EntityData::BallData(b) => {
                        let fx = e.pos.x <= ball_x_min(*cfg) || e.pos.x >= ball_x_max(*cfg);
                        let fy = e.pos.y <= ball_y_min(*cfg) || e.pos.y >= ball_y_max(*cfg);
                        lemma_flipped_near_unit(b.direction, fx, fy);
                    },
                    _ => {},
                },
                None => {},
            }
        }
    }
}

// ===== collision stage: ball and paddle =====

/// Sound effects raised during a tick, for the host to play: one impact
/// per collision, one break per destroyed brick.
#[derive(Clone, Copy, PartialEq, Eq, Structural, Debug)]
pub struct SoundLog {
    pub impacts: u64,
    pub breaks: u64,
}

pub open spec fn slot_pos(s: Option<Entity>) -> Vec2i {
    match s {
        Some(e) => e.pos,
        None => Vec2i { x: 0, y: 0 },
    }
}

/// The index of the (unique) entity of kind `k`.
pub open spec fn kind_index(s: Seq<Option<Entity>>, k: Kind) -> int {
    choose|i: int| 0 <= i < s.len() && is_kind(#[trigger] s[i], k)
}

/// The position of the paddle.
pub open spec fn the_paddle_pos(s: Seq<Option<Entity>>) -> Vec2i {
    slot_pos(s[kind_index(s, Kind::PaddleKind)])
}

/// A ball overlaps the paddle (by combined half-extents) while moving
/// downward; only then does the paddle deflect it.
pub open spec fn is_paddle_hit(s: Option<Entity>, cfg: Config, p: Vec2i) -> bool {
    match s {
        Some(e) => match e.data {
            EntityData::BallData(b) => abs_i(e.pos.x - p.x) <= cfg.ball_w / 2 + cfg.paddle_w / 2
                && abs_i(e.pos.y - p.y) <= cfg.ball_h / 2 + cfg.paddle_h / 2 && b.direction.y < 0,
            _ => false,
        },
        None => false,
    }
}

/// What one slot becomes under the paddle bounce: a hit ball reverses its
/// vertical direction and is pushed out upward by the overlap amount.
pub open spec fn paddle_bounce_slot(s: Option<Entity>, cfg: Config, p: Vec2i) -> Option<Entity> {
    if is_paddle_hit(s, cfg, p) {
        match s {
            Some(e) => match e.data {
                EntityData::BallData(b) => {
                    let overlap_y = cfg.ball_h / 2 + cfg.paddle_h / 2 - abs_i(e.pos.y - p.y);
                    Some(
                        Entity {
                            pos: Vec2i { x: e.pos.x, y: (e.pos.y + overlap_y) as i64 },
                            data: EntityData::BallData(
                                Ball { direction: flipped(b.direction, false, true) },
                            ),
                        },
                    )
                },
                _ => s,
            },
            None => None,
        }
    } else {
        s
    }
}

/// Number of balls the paddle deflects this tick, among the first `i`
/// slots.
pub open spec fn count_paddle_hits_to(s: Seq<Option<Entity>>, cfg: Config, p: Vec2i, i: int) -> int
    decreases i,
{
    if i <= 0 {
        0
    } else {
        count_paddle_hits_to(s, cfg, p, i - 1) + if is_paddle_hit(s[i - 1], cfg, p) {
            1int
        } else {
            0int
        }
    }
}

pub open spec fn count_paddle_hits(s: Seq<Option<Entity>>, cfg: Config, p: Vec2i) -> int {
    count_paddle_hits_to(s, cfg, p, s.len() as int)
}

/// Finds a slot holding an entity of kind `k`, if any lives.
pub fn find_kind(store: &EntityStore, k: Kind) -> (r: Option<usize>)
    ensures
        match r {
            Some(h) => h < store@.len() && is_kind(store@[h as int], k),
            None => count_kind(store@, k) == 0,
        },
{
    let end = store.len();
    let mut i: usize = 0;
    while i < end
        invariant
            0 <= i <= end,
            end == store@.len(),
            count_kind_to(store@, k, i as int) == 0,
        decreases end - i,
    {
        match &store.slots[i] {
            Some(e) => {
                let ek = match e.data {
                    EntityData::BallData(_) => Kind::BallKind,
                    EntityData::PaddleData(_) => Kind::PaddleKind,
                    EntityData::BrickData(_) => Kind::BrickKind,
                    EntityData::PowerUpData(_) => Kind::PowerUpKind,
                };
                if ek == k {
                    return Some(i);
                }
            },
            None => {},
        }
        i = i + 1;
    }
    None
}

/// Deflects every downward-moving ball that overlaps the paddle: its
/// vertical direction reverses and it is pushed out upward by the overlap
/// amount, with one impact sound per deflected ball per frame.
pub fn ball_paddle_collision(store: &mut EntityStore, cfg: &Config, sounds: &mut SoundLog)
    requires
        cfg.wf(),
        entities_wf(old(store)@),
        positions_within(old(store)@, COLL_BOUND as int),
        count_kind(old(store)@, Kind::PaddleKind) == 1,
        old(sounds).impacts <= 1_000_000_000_000_000_000,
        old(store)@.len() <= 1_000_000_000,
    ensures
        final(store)@.len() == old(store)@.len(),
        forall|i: int|
            0 <= i < old(store)@.len() ==> final(store)@[i] == paddle_bounce_slot(
                old(store)@[i],
                *cfg,
                the_paddle_pos(old(store)@),
            ),
        entities_wf(final(store)@),
        forall|b: int|
            #[trigger] positions_within(old(store)@, b) && 2_000_000 <= b <= COLL_BOUND
                ==> positions_within(final(store)@, b + 2_000_000),
        final(sounds).impacts == old(sounds).impacts + count_paddle_hits(
            old(store)@,
            *cfg,
            the_paddle_pos(old(store)@),
        ),
        final(sounds).impacts <= old(sounds).impacts + old(store)@.len(),
        final(sounds).breaks == old(sounds).breaks,
{
    let ghost s0 = store@;
    let ghost imp0 = sounds.impacts;
    let h = match find_kind(store, Kind::PaddleKind) {
        Some(h) => h,
        None => {
            proof {
                assert(false);
            }
            0
        },
    };
    proof {
        assert(is_kind(s0[h as int], Kind::PaddleKind));
        let ki = kind_index(s0, Kind::PaddleKind);
        assert(0 <= ki < s0.len() && is_kind(s0[ki], Kind::PaddleKind));
        lemma_count_unique(s0, Kind::PaddleKind, ki, h as int);
    }
    let p = match &store.slots[h] {
        Some(e) => e.pos,
        None => {
            proof {
                assert(false);
            }
            Vec2i { x: 0, y: 0 }
        },
    };
    assert(p == the_paddle_pos(s0));
    proof {
        assert(slot_pos_within(s0[h as int], COLL_BOUND as int));
    }
    let cx = half(cfg.ball_w) + half(cfg.paddle_w);
    let cy = half(cfg.ball_h) + half(cfg.paddle_h);
    let end = store.len();
    let mut i: usize = 0;
    while i < end
        invariant
            end == s0.len(),
            store@.len() == s0.len(),
            0 <= i <= end,
            cfg.wf(),
            entities_wf(s0),
            positions_within(s0, COLL_BOUND as int),
            imp0 <= 1_000_000_000_000_000_000,
            end <= 1_000_000_000,
            p == the_paddle_pos(s0),
            -COLL_BOUND <= p.x <= COLL_BOUND,
            -COLL_BOUND <= p.y <= COLL_BOUND,
            cx == cfg.ball_w / 2 + cfg.paddle_w / 2,
            cy == cfg.ball_h / 2 + cfg.paddle_h / 2,
            sounds.impacts == imp0 + count_paddle_hits_to(s0, *cfg, p, i as int),
            sounds.impacts <= imp0 + i,
            sounds.breaks == old(sounds).breaks,
            forall|j: int| 0 <= j < i ==> store@[j] == paddle_bounce_slot(s0[j], *cfg, p),
            forall|j: int| i <= j < end ==> store@[j] == s0[j],
        decreases end - i,
    {
        let s = store.slots[i];
        match s {
            Some(e) => match e.data {
                EntityData::BallData(b) => {
                    proof {
                        assert(slot_pos_within(s0[i as int], COLL_BOUND as int));
                        assert(slot_wf(s0[i as int]));
                        lemma_near_unit_bounds(b.direction);
                    }
                    let dx = e.pos.x - p.x;
                    let dy = e.pos.y - p.y;
                    let adx = if dx < 0 {
                        -dx
                    } else {
                        dx
                    };
                    let ady = if dy < 0 {
                        -dy
                    } else {
                        dy
                    };
                    if adx <= cx && ady <= cy && b.direction.y < 0 {
                        let overlap_y = cy - ady;
                        proof {
                            lemma_flipped_near_unit(b.direction, false, true);
                        }
                        store.slots[i] = Some(
                            Entity {
                                pos: Vec2i { x: e.pos.x, y: e.pos.y + overlap_y },
                                data: EntityData::BallData(
                                    Ball { direction: Vec2i { x: b.direction.x, y: -b.direction.y } },
                                ),
                            },
                        );
                        sounds.impacts = sounds.impacts + 1;
                    }
                },
                _ => {},
            },
            None => {},
        }
        i = i + 1;
    }
    proof {
        assert forall|j: int| 0 <= j < store@.len() implies slot_wf(#[trigger] store@[j]) by {
            assert(store@[j] == paddle_bounce_slot(s0[j], *cfg, p));
            assert(slot_wf(s0[j]));
            match s0[j] {
                Some(e) => match e.data {
                    EntityData::BallData(b) => {
                        lemma_flipped_near_unit(b.direction, false, true);
                    },
                    _ => {},
                },
                None => {},
            }
        }
        assert forall|b: int|
            #[trigger] positions_within(s0, b) && 2_000_000 <= b <= COLL_BOUND implies positions_within(
            store@,
            b + 2_000_000,
        ) by {
            assert forall|j: int|
                0 <= j < store@.len() implies slot_pos_within(#[trigger] store@[j], b + 2_000_000) by {
                assert(store@[j] == paddle_bounce_slot(s0[j], *cfg, p));
                assert(slot_pos_within(s0[j], b));
            }
        }
    }
}

// ===== collision stage: ball and brick =====

/// A ball at `bp` overlaps a brick at `kp` in both axes.
pub open spec fn bricks_overlap(bp: Vec2i, kp: Vec2i, cfg: Config) -> bool {
    cfg.ball_w / 2 + cfg.brick_w / 2 - abs_i(bp.x - kp.x) > 0 && cfg.ball_h / 2 + cfg.brick_h / 2
        - abs_i(bp.y - kp.y) > 0
}

/// A brick slot was hit: it kept its position and lost hit points, or it
/// reached zero and was destroyed.
pub open spec fn brick_damaged(s_old: Option<Entity>, s_new: Option<Entity>) -> bool {
    match s_old {
        Some(e) => match e.data {
            EntityData::BrickData(br) => match s_new {
                None => true,
                Some(e2) => match e2.data {
                    EntityData::BrickData(br2) => e2.pos == e.pos && 1 <= br2.hp < br.hp,
                    _ => false,
                },
            },
            _ => false,
        },
        None => false,
    }
}

/// A ball slot was deflected by a brick: it moved by at most the combined
/// half-extents and each direction component kept its magnitude.
pub open spec fn brick_bounced_ball(s_old: Option<Entity>, s_new: Option<Entity>, cfg: Config) -> bool {
    match s_old {
        Some(e) => match e.data {
            EntityData::BallData(b) => match s_new {
                Some(e2) => match e2.data {
                    EntityData::BallData(b2) => abs_i(e2.pos.x - e.pos.x) <= cfg.ball_w / 2
                        + cfg.brick_w / 2 && abs_i(e2.pos.y - e.pos.y) <= cfg.ball_h / 2
                        + cfg.brick_h / 2 && (b2.direction.x == b.direction.x || b2.direction.x
                        == -b.direction.x) && (b2.direction.y == b.direction.y || b2.direction.y
                        == -b.direction.y),
                    _ => false,
                },
                None => false,
            },
            _ => false,
        },
        None => false,
    }
}

/// How one slot may change across the brick-collision stage: bricks are
/// unchanged or damaged by an overlapping ball; balls are unchanged or
/// resolved exactly once against some brick, reflecting off the axis of
/// smaller overlap; everything else is untouched.
pub open spec fn brick_stage_slot_rel(
    olds: Seq<Option<Entity>>,
    news: Seq<Option<Entity>>,
    i: int,
    cfg: Config,
) -> bool {
    match olds[i] {
        None => news[i] is None,
        Some(e) => match e.data {
            EntityData::BallData(_) => news[i] == olds[i] || (brick_bounced_ball(
                olds[i],
                news[i],
                cfg,
            ) && exists|w: int|
                0 <= w < olds.len() && is_kind(#[trigger] olds[w], Kind::BrickKind)
                    && brick_hit_resolution(olds[i], news[i], slot_pos(olds[w]), cfg)),
            EntityData::BrickData(_) => news[i] == olds[i] || (brick_damaged(olds[i], news[i])
                && exists|w: int|
                    0 <= w < olds.len() && is_kind(#[trigger] olds[w], Kind::BallKind)
                        && bricks_overlap(slot_pos(olds[w]), e.pos, cfg)),
            _ => news[i] == olds[i],
        },
    }
}

/// A slot appended during the brick-collision stage: a power-up dropped at
/// the position of a brick destroyed in the same stage.
pub open spec fn spawned_power_up_ok(
    olds: Seq<Option<Entity>>,
    news: Seq<Option<Entity>>,
    i: int,
) -> bool {
    exists|j: int|
        0 <= j < olds.len() && is_kind(#[trigger] olds[j], Kind::BrickKind) && news[j] is None
            && news[i] == Some(Entity { pos: slot_pos(olds[j]), data: EntityData::PowerUpData(PowerUp {}) })
}

// ===== whole-store views of the deterministic stages =====

pub open spec fn paddle_moved_view(
    s: Seq<Option<Entity>>,
    cfg: Config,
    left: bool,
    right: bool,
    dt: int,
) -> Seq<Option<Entity>> {
    Seq::new(s.len(), |i: int| paddle_moved_slot(s[i], cfg, left, right, dt))
}

pub open spec fn ball_moved_view(s: Seq<Option<Entity>>, cfg: Config, dt: int) -> Seq<
    Option<Entity>,
> {
    Seq::new(s.len(), |i: int| ball_moved_slot(s[i], cfg, dt))
}

pub open spec fn power_up_fallen_view(s: Seq<Option<Entity>>, cfg: Config, dt: int) -> Seq<
    Option<Entity>,
> {
    Seq::new(s.len(), |i: int| power_up_fallen_slot(s[i], cfg, dt))
}

pub open spec fn paddle_confined_view(s: Seq<Option<Entity>>, cfg: Config) -> Seq<Option<Entity>> {
    Seq::new(s.len(), |i: int| paddle_confined_slot(s[i], cfg))
}

pub open spec fn ball_confined_view(s: Seq<Option<Entity>>, cfg: Config) -> Seq<Option<Entity>> {
    Seq::new(s.len(), |i: int| ball_confined_slot(s[i], cfg))
}

pub open spec fn reflected_view(s: Seq<Option<Entity>>, cfg: Config) -> Seq<Option<Entity>> {
    Seq::new(s.len(), |i: int| reflected_slot(s[i], cfg))
}

pub open spec fn paddle_bounce_view(s: Seq<Option<Entity>>, cfg: Config) -> Seq<Option<Entity>> {
    Seq::new(s.len(), |i: int| paddle_bounce_slot(s[i], cfg, the_paddle_pos(s)))
}

/// The store after the deterministic stages of one tick, in order:
/// movement of the paddle, the balls and the power-ups, confinement of
/// the paddle and the balls, direction reflection, and the paddle bounce.
pub open spec fn pre_collision_view(
    s: Seq<Option<Entity>>,
    cfg: Config,
    left: bool,
    right: bool,
    dt: int,
) -> Seq<Option<Entity>> {
    paddle_bounce_view(
        reflected_view(
            ball_confined_view(
                paddle_confined_view(
                    power_up_fallen_view(
                        ball_moved_view(paddle_moved_view(s, cfg, left, right, dt), cfg, dt),
                        cfg,
                        dt,
                    ),
                    cfg,
                ),
                cfg,
            ),
            cfg,
        ),
        cfg,
    )
}

/// The hit points a slot contributes: a brick's counter, zero for
/// anything else.
pub open spec fn hp_of(s: Option<Entity>) -> int {
    match s {
        Some(e) => match e.data {
            EntityData::BrickData(br) => br.hp as int,
            _ => 0,
        },
        None => 0,
    }
}

/// Total brick hit points among the first `i` slots.
pub open spec fn total_brick_hp_to(s: Seq<Option<Entity>>, i: int) -> int
    decreases i,
{
    if i <= 0 {
        0
    } else {
        total_brick_hp_to(s, i - 1) + hp_of(s[i - 1])
    }
}

/// A ball slot the stage resolved: its entry changed. A resolution always
/// moves the ball (the push-out is positive), so a resolved ball never
/// equals its old value.
pub open spec fn is_resolved_ball(
    olds: Seq<Option<Entity>>,
    news: Seq<Option<Entity>>,
    i: int,
) -> bool {
    is_kind(olds[i], Kind::BallKind) && news[i] != olds[i]
}

/// Number of resolved balls among the first `i` slots.
pub open spec fn count_resolved_to(
    olds: Seq<Option<Entity>>,
    news: Seq<Option<Entity>>,
    i: int,
) -> int
    decreases i,
{
    if i <= 0 {
        0
    } else {
        count_resolved_to(olds, news, i - 1) + if is_resolved_ball(olds, news, i - 1) {
            1int
        } else {
            0int
        }
    }
}

/// The exact outcome of resolving the ball in `s_old` against a brick at
/// `kpos`: both overlaps are positive, the ball reflects off the axis of
/// the smaller overlap (a tie takes the vertical branch), and it is
/// pushed out along that axis by the overlap amount, away from the brick.
pub open spec fn brick_hit_resolution(
    s_old: Option<Entity>,
    s_new: Option<Entity>,
    kpos: Vec2i,
    cfg: Config,
) -> bool {
    match s_old {
        Some(e) => match e.data {
            EntityData::BallData(b) => {
                let dx = e.pos.x - kpos.x;
                let dy = e.pos.y - kpos.y;
                let ox = cfg.ball_w / 2 + cfg.brick_w / 2 - abs_i(dx);
                let oy = cfg.ball_h / 2 + cfg.brick_h / 2 - abs_i(dy);
                &&& ox > 0
                &&& oy > 0
                &&& s_new == (if ox < oy {
                    Some(
                        Entity {
                            pos: Vec2i {
                                x: (e.pos.x + (if dx < 0 {
                                    -ox
                                } else {
                                    ox
                                })) as i64,
                                y: e.pos.y,
                            },
                            data: EntityData::BallData(
                                Ball { direction: flipped(b.direction, true, false) },
                            ),
                        },
                    )
                } else {
                    Some(
                        Entity {
                            pos: Vec2i {
                                x: e.pos.x,
                                y: (e.pos.y + (if dy < 0 {
                                    -oy
                                } else {
                                    oy
                                })) as i64,
                            },
                            data: EntityData::BallData(
                                Ball { direction: flipped(b.direction, false, true) },
                            ),
                        },
                    )
                })
            },
            _ => false,
        },
        None => false,
    }
}

/// Total hit points look only at the slots below `i`.
proof fn lemma_hp_agree(s1: Seq<Option<Entity>>, s2: Seq<Option<Entity>>, i: int)
    requires
        0 <= i <= s1.len(),
        i <= s2.len(),
        forall|j: int| 0 <= j < i ==> s1[j] == s2[j],
    ensures
        total_brick_hp_to(s1, i) == total_brick_hp_to(s2, i),
    decreases i,
{
    if i > 0 {
        lemma_hp_agree(s1, s2, i - 1);
    }
}

/// How the total hit points change when one slot is overwritten.
proof fn lemma_hp_update(s: Seq<Option<Entity>>, j: int, v: Option<Entity>, i: int)
    requires
        0 <= j < s.len(),
        0 <= i <= s.len(),
    ensures
        total_brick_hp_to(s.update(j, v), i) == total_brick_hp_to(s, i) + if j < i {
            hp_of(v) - hp_of(s[j])
        } else {
            0int
        },
    decreases i,
{
    if i > 0 {
        lemma_hp_update(s, j, v, i - 1);
    }
}

/// A stage that resolves no ball counts zero resolutions.
proof fn lemma_resolved_none(olds: Seq<Option<Entity>>, news: Seq<Option<Entity>>, i: int)
    requires
        forall|k: int| 0 <= k < i ==> !(#[trigger] is_resolved_ball(olds, news, k)),
    ensures
        count_resolved_to(olds, news, i) == 0,
    decreases i,
{
    if i > 0 {
        lemma_resolved_none(olds, news, i - 1);
        assert(!is_resolved_ball(olds, news, i - 1));
    }
}

/// Two result stores that agree on resolution everywhere but one slot
/// count the same resolutions up to that slot's own contribution.
proof fn lemma_resolved_except(
    olds: Seq<Option<Entity>>,
    n1: Seq<Option<Entity>>,
    n2: Seq<Option<Entity>>,
    i: int,
    t: int,
)
    requires
        forall|k: int|
            0 <= k < i && k != t ==> ((#[trigger] is_resolved_ball(olds, n1, k))
                <==> is_resolved_ball(olds, n2, k)),
    ensures
        count_resolved_to(olds, n2, i) - count_resolved_to(olds, n1, i) == if 0 <= t < i {
            (if is_resolved_ball(olds, n2, t) {
                1int
            } else {
                0int
            }) - (if is_resolved_ball(olds, n1, t) {
                1int
            } else {
                0int
            })
        } else {
            0int
        },
    decreases i,
{
    if i > 0 {
        lemma_resolved_except(olds, n1, n2, i - 1, t);
        if i - 1 != t {
            assert(is_resolved_ball(olds, n1, i - 1) <==> is_resolved_ball(olds, n2, i - 1));
        }
    }
}

/// Scans the bricks for the ball in slot `bi` and resolves its first
/// overlap, as one ball's share of the brick-collision stage: the brick
/// loses a hit point, the ball reflects off the axis of smaller overlap
/// and is pushed out, and a destroyed brick scores, sounds the break and
/// may drop a power-up.
fn ball_scan_bricks(
    store: &mut EntityStore,
    cfg: &Config,
    bi: usize,
    old_len: usize,
    score: &mut u32,
    sounds: &mut SoundLog,
)
    requires
        cfg.wf(),
        entities_wf(old(store)@),
        positions_within(old(store)@, COLL_BOUND + 2_000_000),
        bi < old_len <= old(store)@.len(),
        old(store)@.len() <= 4_000_000_000,
        is_kind(old(store)@[bi as int], Kind::BallKind),
        *old(score) + 10 * count_kind_to(old(store)@, Kind::BrickKind, old_len as int) <= u32::MAX,
        old(sounds).impacts <= 2_000_000_000_000_000_000,
        old(sounds).breaks <= 2_000_000_000_000_000_000,
    ensures
        old(store)@.len() <= final(store)@.len() <= old(store)@.len() + 1,
        final(store)@[bi as int] == old(store)@[bi as int] || (brick_bounced_ball(
            old(store)@[bi as int],
            final(store)@[bi as int],
            *cfg,
        ) && exists|j: int|
            0 <= j < old_len && is_kind(#[trigger] old(store)@[j], Kind::BrickKind)
                && brick_hit_resolution(
                old(store)@[bi as int],
                final(store)@[bi as int],
                slot_pos(old(store)@[j]),
                *cfg,
            )),
        final(store)@[bi as int] == old(store)@[bi as int] ==> final(store)@ == old(store)@
            && (forall|j: int|
            0 <= j < old_len && is_kind(#[trigger] old(store)@[j], Kind::BrickKind)
                ==> !bricks_overlap(
                slot_pos(old(store)@[bi as int]),
                slot_pos(old(store)@[j]),
                *cfg,
            )),
        final(sounds).impacts - old(sounds).impacts == (if final(store)@[bi as int]
            == old(store)@[bi as int] {
            0int
        } else {
            1int
        }),
        total_brick_hp_to(old(store)@, old_len as int) - total_brick_hp_to(
            final(store)@,
            old_len as int,
        ) == final(sounds).impacts - old(sounds).impacts,
        forall|j: int|
            0 <= j < old(store)@.len() && j != bi ==> (final(store)@[j] == old(store)@[j] || (
            brick_damaged(#[trigger] old(store)@[j], final(store)@[j]) && bricks_overlap(
                slot_pos(old(store)@[bi as int]),
                slot_pos(old(store)@[j]),
                *cfg,
            ) && j < old_len)),
        final(store)@.len() > old(store)@.len() ==> spawned_power_up_ok(
            old(store)@,
            final(store)@,
            old(store)@.len() as int,
        ),
        final(store)@.len() > old(store)@.len() ==> count_kind_to(
            final(store)@,
            Kind::BrickKind,
            old_len as int,
        ) == count_kind_to(old(store)@, Kind::BrickKind, old_len as int) - 1,
        0 <= count_kind_to(old(store)@, Kind::BrickKind, old_len as int) - count_kind_to(
            final(store)@,
            Kind::BrickKind,
            old_len as int,
        ) <= 1,
        *final(score) == *old(score) + 10 * (count_kind_to(
            old(store)@,
            Kind::BrickKind,
            old_len as int,
        ) - count_kind_to(final(store)@, Kind::BrickKind, old_len as int)),
        final(sounds).breaks == old(sounds).breaks + (count_kind_to(
            old(store)@,
            Kind::BrickKind,
            old_len as int,
        ) - count_kind_to(final(store)@, Kind::BrickKind, old_len as int)),
        old(sounds).impacts <= final(sounds).impacts <= old(sounds).impacts + 1,
        entities_wf(final(store)@),
{
    let ghost s0 = store@;
    let (bpos, bdir) = match &store.slots[bi] {
        Some(e) => match e.data {
            EntityData::BallData(b) => (e.pos, b.direction),
            _ => {
                proof {
                    assert(false);
                }
                (Vec2i { x: 0, y: 0 }, Vec2i { x: 0, y: 0 })
            },
        },
        None => {
            proof {
                assert(false);
            }
            (Vec2i { x: 0, y: 0 }, Vec2i { x: 0, y: 0 })
        },
    };
    proof {
        assert(slot_wf(s0[bi as int]));
        assert(slot_pos_within(s0[bi as int], COLL_BOUND + 2_000_000));
        lemma_near_unit_bounds(bdir);
    }
    let cx = half(cfg.ball_w) + half(cfg.brick_w);
    let cy = half(cfg.ball_h) + half(cfg.brick_h);
    let mut j: usize = 0;
    while j < old_len
        invariant
            store@ == s0,
            s0 == old(store)@,
            *score == *old(score),
            *sounds == *old(sounds),
            0 <= j <= old_len <= s0.len(),
            cfg.wf(),
            entities_wf(s0),
            positions_within(s0, COLL_BOUND + 2_000_000),
            s0.len() <= 4_000_000_000,
            bi < old_len,
            is_kind(s0[bi as int], Kind::BallKind),
            bpos == slot_pos(s0[bi as int]),
            match s0[bi as int] {
                Some(e) => e.data == EntityData::BallData(Ball { direction: bdir }),
                None => false,
            },
            near_unit(bdir),
            -1001 <= bdir.x <= 1001,
            -1001 <= bdir.y <= 1001,
            -(COLL_BOUND + 2_000_000) <= bpos.x <= COLL_BOUND + 2_000_000,
            -(COLL_BOUND + 2_000_000) <= bpos.y <= COLL_BOUND + 2_000_000,
            cx == cfg.ball_w / 2 + cfg.brick_w / 2,
            cy == cfg.ball_h / 2 + cfg.brick_h / 2,
            0 <= cx <= 1_000_000,
            0 <= cy <= 1_000_000,
            *old(score) + 10 * count_kind_to(s0, Kind::BrickKind, old_len as int) <= u32::MAX,
            old(sounds).impacts <= 2_000_000_000_000_000_000,
            old(sounds).breaks <= 2_000_000_000_000_000_000,
            forall|j2: int|
                0 <= j2 < j ==> !(is_kind(#[trigger] s0[j2], Kind::BrickKind) && bricks_overlap(
                    bpos,
                    slot_pos(s0[j2]),
                    *cfg,
                )),
        decreases old_len - j,
    {
        let hit_brick = match &store.slots[j] {
            Some(e2) => match e2.data {
                EntityData::BrickData(br) => {
                    if br.hp > 0 {
                        Some((e2.pos, br.hp))
                    } else {
                        None
                    }
                },
                _ => None,
            },
            None => None,
        };
        match hit_brick {
            Some((kpos, hp)) => {
                proof {
                    assert(slot_pos_within(s0[j as int], COLL_BOUND + 2_000_000));
                }
                let dx = bpos.x - kpos.x;
                let dy = bpos.y - kpos.y;
                let adx = if dx < 0 {
                    -dx
                } else {
                    dx
                };
                let ady = if dy < 0 {
                    -dy
                } else {
                    dy
                };
                let ox = cx - adx;
                let oy = cy - ady;
                if !(ox > 0 && oy > 0) {
                    proof {
                        assert(!bricks_overlap(bpos, kpos, *cfg));
                    }
                } else {
                    proof {
                        assert(bi != j);
                        assert(bricks_overlap(bpos, kpos, *cfg));
                        lemma_count_member(s0, Kind::BrickKind, j as int, old_len as int);
                    }
                    // reflect the ball off the axis of smaller overlap
                    let new_ball = if ox < oy {
                        proof {
                            lemma_flipped_near_unit(bdir, true, false);
                        }
                        Entity {
                            pos: Vec2i {
                                x: if dx < 0 {
                                    bpos.x - ox
                                } else {
                                    bpos.x + ox
                                },
                                y: bpos.y,
                            },
                            data: EntityData::BallData(
                                Ball { direction: Vec2i { x: -bdir.x, y: bdir.y } },
                            ),
                        }
                    } else {
                        proof {
                            lemma_flipped_near_unit(bdir, false, true);
                        }
                        Entity {
                            pos: Vec2i {
                                x: bpos.x,
                                y: if dy < 0 {
                                    bpos.y - oy
                                } else {
                                    bpos.y + oy
                                },
                            },
                            data: EntityData::BallData(
                                Ball { direction: Vec2i { x: bdir.x, y: -bdir.y } },
                            ),
                        }
                    };
                    proof {
                        assert(new_ball.pos.x != bpos.x || new_ball.pos.y != bpos.y);
                        assert(Some(new_ball) != s0[bi as int]);
                        assert(brick_hit_resolution(s0[bi as int], Some(new_ball), kpos, *cfg));
                    }
                    store.slots[bi] = Some(new_ball);
                    proof {
                        lemma_count_update(
                            s0,
                            Kind::BrickKind,
                            bi as int,
                            Some(new_ball),
                            old_len as int,
                        );
                        lemma_hp_update(s0, bi as int, Some(new_ball), old_len as int);
                    }
                    sounds.impacts = sounds.impacts + 1;
                    let ghost s1 = store@;
                    if hp == 1 {
                        // destroyed: score, break sound, possible drop
                        store.slots[j] = None;
                        proof {
                            lemma_count_update(s1, Kind::BrickKind, j as int, None, old_len as int);
                            lemma_hp_update(s1, j as int, None, old_len as int);
                        }
                        sounds.breaks = sounds.breaks + 1;
                        *score = *score + 10;
                        let roll: u32 = rand::random::<u32>() % 1000;
                        if roll < crate::config::DROP_THRESHOLD {
                            let ghost s2 = store@;
                            let pu = Entity { pos: kpos, data: EntityData::PowerUpData(PowerUp {}) };
                            store.create(pu);
                            proof {
                                lemma_count_agree(store@, s2, Kind::BrickKind, old_len as int);
                                lemma_hp_agree(store@, s2, old_len as int);
                                assert(spawned_power_up_ok(s0, store@, s0.len() as int)) by {
                                    assert(is_kind(s0[j as int], Kind::BrickKind));
                                    assert(store@[j as int] is None);
                                    assert(store@[s0.len() as int] == Some(pu));
                                }
                            }
                        }
                    } else {
                        store.slots[j] = Some(
                            Entity { pos: kpos, data: EntityData::BrickData(Brick { hp: hp - 1 }) },
                        );
                        proof {
                            lemma_count_update(
                                s1,
                                Kind::BrickKind,
                                j as int,
                                store@[j as int],
                                old_len as int,
                            );
                            lemma_hp_update(s1, j as int, store@[j as int], old_len as int);
                            lemma_count_bounds(store@, Kind::BrickKind, old_len as int);
                        }
                    }
                    proof {
                        assert(entities_wf(store@)) by {
                            assert forall|m: int| 0 <= m < store@.len() implies slot_wf(
                                #[trigger] store@[m],
                            ) by {
                                if 0 <= m < s0.len() && m != bi && m != j {
                                    assert(store@[m] == s0[m]);
                                    assert(slot_wf(s0[m]));
                                }
                            }
                        }
                        lemma_count_bounds(store@, Kind::BrickKind, old_len as int);
                        lemma_count_bounds(s0, Kind::BrickKind, old_len as int);
                    }
                    return ;
                }
            },
            None => {
                proof {
                    assert(!is_kind(s0[j as int], Kind::BrickKind)) by {
                        assert(slot_wf(s0[j as int]));
                    }
                }
            },
        }
        j = j + 1;
    }
    proof {
        lemma_count_bounds(s0, Kind::BrickKind, old_len as int);
    }
}

/// Resolves ball-brick collisions: each ball hits at most the first
/// overlapping brick this tick, the brick loses one hit point, and the
/// ball reflects off the axis of smaller overlap and is pushed out. A
/// brick reaching zero hit points is destroyed in the same tick, awards
/// ten points, sounds the break, and drops a power-up with a 0.9 chance.
#[verifier::rlimit(60)]
pub fn ball_brick_collision(
    store: &mut EntityStore,
    cfg: &Config,
    score: &mut u32,
    sounds: &mut SoundLog,
)
    requires
        cfg.wf(),
        entities_wf(old(store)@),
        positions_within(old(store)@, COLL_BOUND as int),
        old(store)@.len() <= 1_000_000_000,
        *old(score) + 10 * count_kind(old(store)@, Kind::BrickKind) <= u32::MAX,
        old(sounds).impacts <= 1_000_000_000_000_000_000,
        old(sounds).breaks <= 1_000_000_000_000_000_000,
    ensures
        old(store)@.len() <= final(store)@.len(),
        final(store)@.len() <= old(store)@.len() + (count_kind(old(store)@, Kind::BrickKind)
            - count_kind(final(store)@, Kind::BrickKind)),
        forall|i: int|
            0 <= i < old(store)@.len() ==> brick_stage_slot_rel(old(store)@, final(store)@, i, *cfg),
        forall|i: int|
            old(store)@.len() <= i < final(store)@.len() ==> spawned_power_up_ok(
                old(store)@,
                final(store)@,
                i,
            ),
        0 <= count_kind(final(store)@, Kind::BrickKind) <= count_kind(old(store)@, Kind::BrickKind),
        *final(score) == *old(score) + 10 * (count_kind(old(store)@, Kind::BrickKind) - count_kind(
            final(store)@,
            Kind::BrickKind,
        )),
        final(sounds).breaks == old(sounds).breaks + (count_kind(old(store)@, Kind::BrickKind)
            - count_kind(final(store)@, Kind::BrickKind)),
        old(sounds).impacts <= final(sounds).impacts <= old(sounds).impacts + count_kind(
            old(store)@,
            Kind::BallKind,
        ),
        count_kind(final(store)@, Kind::BallKind) == count_kind(old(store)@, Kind::BallKind),
        count_kind(final(store)@, Kind::PaddleKind) == count_kind(old(store)@, Kind::PaddleKind),
        count_kind(final(store)@, Kind::PowerUpKind) == count_kind(old(store)@, Kind::PowerUpKind)
            + (final(store)@.len() - old(store)@.len()),
        entities_wf(final(store)@),
        forall|b: int|
            #[trigger] positions_within(old(store)@, b) && 2_000_000 <= b <= COLL_BOUND
                ==> positions_within(final(store)@, b + 2_000_000),
        forall|i: int, j: int|
            #![trigger old(store)@[i], final(store)@[j]]
            0 <= i < old(store)@.len() && 0 <= j < old(store)@.len() && is_kind(
                old(store)@[i],
                Kind::BallKind,
            ) && final(store)@[i] == old(store)@[i] && is_kind(final(store)@[j], Kind::BrickKind)
                ==> !bricks_overlap(slot_pos(old(store)@[i]), slot_pos(final(store)@[j]), *cfg),
        final(sounds).impacts - old(sounds).impacts == count_resolved_to(
            old(store)@,
            final(store)@,
            old(store)@.len() as int,
        ),
        total_brick_hp_to(old(store)@, old(store)@.len() as int) - total_brick_hp_to(
            final(store)@,
            old(store)@.len() as int,
        ) == final(sounds).impacts - old(sounds).impacts,
{
    let ghost s0 = store@;
    let ghost sc0 = *score;
    let ghost imp0 = sounds.impacts;
    let ghost brk0 = sounds.breaks;
    let old_len = store.len();
    proof {
        lemma_count_bounds(s0, Kind::BrickKind, old_len as int);
        lemma_resolved_none(s0, s0, old_len as int);
    }
    let mut bi: usize = 0;
    while bi < old_len
        invariant
            s0 == old(store)@,
            sc0 == *old(score),
            imp0 == old(sounds).impacts,
            brk0 == old(sounds).breaks,
            0 <= bi <= old_len,
            old_len == s0.len(),
            old_len <= 1_000_000_000,
            cfg.wf(),
            entities_wf(store@),
            entities_wf(s0),
            positions_within(s0, COLL_BOUND as int),
            positions_within(store@, COLL_BOUND + 2_000_000),
            s0.len() <= store@.len(),
            store@.len() <= s0.len() + (count_kind_to(s0, Kind::BrickKind, old_len as int)
                - count_kind_to(store@, Kind::BrickKind, old_len as int)),
            forall|q: int| 0 <= q < old_len ==> brick_stage_slot_rel(s0, store@, q, *cfg),
            forall|q: int|
                bi <= q < old_len && is_kind(#[trigger] s0[q], Kind::BallKind) ==> store@[q]
                    == s0[q],
            forall|q: int|
                old_len <= q < store@.len() ==> spawned_power_up_ok(s0, store@, q),
            0 <= count_kind_to(store@, Kind::BrickKind, old_len as int) <= count_kind_to(
                s0,
                Kind::BrickKind,
                old_len as int,
            ),
            *score == sc0 + 10 * (count_kind_to(s0, Kind::BrickKind, old_len as int)
                - count_kind_to(store@, Kind::BrickKind, old_len as int)),
            sounds.breaks == brk0 + (count_kind_to(s0, Kind::BrickKind, old_len as int)
                - count_kind_to(store@, Kind::BrickKind, old_len as int)),
            imp0 <= sounds.impacts,
            sounds.impacts <= imp0 + count_kind_to(s0, Kind::BallKind, bi as int),
            sounds.impacts - imp0 == count_resolved_to(s0, store@, old_len as int),
            total_brick_hp_to(s0, old_len as int) - total_brick_hp_to(store@, old_len as int)
                == sounds.impacts - imp0,
            forall|i2: int, j2: int|
                #![trigger s0[i2], store@[j2]]
                0 <= i2 < bi && 0 <= j2 < old_len && is_kind(s0[i2], Kind::BallKind) && store@[i2]
                    == s0[i2] && is_kind(store@[j2], Kind::BrickKind) ==> !bricks_overlap(
                    slot_pos(s0[i2]),
                    slot_pos(store@[j2]),
                    *cfg,
                ),
            sc0 + 10 * count_kind_to(s0, Kind::BrickKind, old_len as int) <= u32::MAX,
            imp0 <= 1_000_000_000_000_000_000,
            brk0 <= 1_000_000_000_000_000_000,
        decreases old_len - bi,
    {
        let is_ball = match &store.slots[bi] {
            Some(e) => match e.data {
                EntityData::BallData(_) => true,
                _ => false,
            },
            None => false,
        };
        proof {
            assert(brick_stage_slot_rel(s0, store@, bi as int, *cfg));
            lemma_count_bounds(s0, Kind::BallKind, bi as int);
        }
        if is_ball {
            proof {
                assert(is_kind(s0[bi as int], Kind::BallKind));
                assert(store@[bi as int] == s0[bi as int]);
            }
            let ghost sk = store@;
            let ghost sck = *score;
            let ghost impk = sounds.impacts;
            let ghost brkk = sounds.breaks;
            ball_scan_bricks(store, cfg, bi, old_len, score, sounds);
            proof {
                // the slot relation to the stage entry still holds everywhere
                assert forall|q: int|
                    0 <= q < old_len implies brick_stage_slot_rel(s0, store@, q, *cfg) by {
                    assert(brick_stage_slot_rel(s0, sk, q, *cfg));
                    if q != bi && store@[q] != sk[q] {
                        assert(brick_damaged(sk[q], store@[q]));
                        assert(is_kind(s0[bi as int], Kind::BallKind));
                        assert(bricks_overlap(slot_pos(s0[bi as int]), slot_pos(s0[q]), *cfg));
                    }
                    if q == bi && store@[bi as int] != sk[bi as int] {
                        let jw = choose|j2: int|
                            0 <= j2 < old_len && is_kind(#[trigger] sk[j2], Kind::BrickKind)
                                && brick_hit_resolution(
                                sk[bi as int],
                                store@[bi as int],
                                slot_pos(sk[j2]),
                                *cfg,
                            );
                        assert(brick_stage_slot_rel(s0, sk, jw, *cfg));
                        assert(is_kind(s0[jw], Kind::BrickKind));
                        assert(slot_pos(sk[jw]) == slot_pos(s0[jw]));
                        assert(brick_hit_resolution(
                            s0[bi as int],
                            store@[bi as int],
                            slot_pos(s0[jw]),
                            *cfg,
                        ));
                    }
                }
                // the paddle deflects a ball exactly when it resolves, so
                // the impact counter tracks the resolved count and the
                // removed hit points
                assert forall|k: int|
                    0 <= k < old_len && k != bi implies ((#[trigger] is_resolved_ball(s0, sk, k))
                        <==> is_resolved_ball(s0, store@, k)) by {
                    if is_kind(s0[k], Kind::BallKind) {
                        assert(brick_stage_slot_rel(s0, sk, k, *cfg));
                        assert(store@[k] == sk[k]);
                    }
                }
                lemma_resolved_except(s0, sk, store@, old_len as int, bi as int);
                assert(!is_resolved_ball(s0, sk, bi as int));
                // every ball that ended this call unchanged still faces no
                // overlapping live brick
                assert forall|i2: int, j2: int|
                    #![trigger s0[i2], store@[j2]]
                    0 <= i2 < bi + 1 && 0 <= j2 < old_len && is_kind(s0[i2], Kind::BallKind)
                        && store@[i2] == s0[i2] && is_kind(store@[j2], Kind::BrickKind)
                        implies !bricks_overlap(slot_pos(s0[i2]), slot_pos(store@[j2]), *cfg) by {
                    assert(is_kind(sk[j2], Kind::BrickKind) && slot_pos(sk[j2]) == slot_pos(
                        store@[j2],
                    )) by {
                        if store@[j2] != sk[j2] {
                            assert(brick_damaged(sk[j2], store@[j2]));
                        }
                    }
                    if i2 < bi {
                        assert(store@[i2] == sk[i2]);
                    } else {
                        assert(store@[bi as int] == sk[bi as int]);
                        assert(store@ == sk);
                    }
                }
                // balls not yet processed are still untouched
                assert forall|q: int|
                    bi + 1 <= q < old_len && is_kind(#[trigger] s0[q], Kind::BallKind)
                        implies store@[q] == s0[q] by {
                    assert(sk[q] == s0[q]);
                }
                // every appended slot is a dropped power-up
                assert forall|q: int|
                    old_len <= q < store@.len() implies spawned_power_up_ok(s0, store@, q) by {
                    if q < sk.len() {
                        assert(spawned_power_up_ok(s0, sk, q));
                        let jw = choose|j: int|
                            0 <= j < s0.len() && is_kind(#[trigger] s0[j], Kind::BrickKind)
                                && sk[j] is None && sk[q] == Some(
                                Entity {
                                    pos: slot_pos(s0[j]),
                                    data: EntityData::PowerUpData(PowerUp {}),
                                },
                            );
                        assert(store@[jw] == sk[jw]);
                        assert(store@[q] == sk[q]);
                        assert(is_kind(s0[jw], Kind::BrickKind) && store@[jw] is None && store@[q]
                            == Some(
                            Entity {
                                pos: slot_pos(s0[jw]),
                                data: EntityData::PowerUpData(PowerUp {}),
                            },
                        ));
                    } else {
                        assert(q == sk.len());
                        assert(spawned_power_up_ok(sk, store@, q));
                        let jw = choose|j: int|
                            0 <= j < sk.len() && is_kind(#[trigger] sk[j], Kind::BrickKind)
                                && store@[j] is None && store@[q] == Some(
                                Entity {
                                    pos: slot_pos(sk[j]),
                                    data: EntityData::PowerUpData(PowerUp {}),
                                },
                            );
                        assert(brick_stage_slot_rel(s0, sk, jw, *cfg));
                        assert(is_kind(s0[jw], Kind::BrickKind) && slot_pos(sk[jw]) == slot_pos(
                            s0[jw],
                        ));
                        assert(is_kind(s0[jw], Kind::BrickKind) && store@[jw] is None && store@[q]
                            == Some(
                            Entity {
                                pos: slot_pos(s0[jw]),
                                data: EntityData::PowerUpData(PowerUp {}),
                            },
                        ));
                    }
                }
                // positions stay within the working bound
                assert forall|q: int|
                    0 <= q < store@.len() implies slot_pos_within(
                    #[trigger] store@[q],
                    COLL_BOUND + 2_000_000,
                ) by {
                    if q < old_len {
                        assert(brick_stage_slot_rel(s0, store@, q, *cfg));
                        assert(slot_pos_within(s0[q], COLL_BOUND as int));
                    } else {
                        assert(spawned_power_up_ok(s0, store@, q));
                        let jw = choose|j: int|
                            0 <= j < s0.len() && is_kind(#[trigger] s0[j], Kind::BrickKind)
                                && store@[j] is None && store@[q] == Some(
                                Entity {
                                    pos: slot_pos(s0[j]),
                                    data: EntityData::PowerUpData(PowerUp {}),
                                },
                            );
                        assert(slot_pos_within(s0[jw], COLL_BOUND as int));
                    }
                }
                assert(count_kind_to(s0, Kind::BallKind, bi + 1) == count_kind_to(
                    s0,
                    Kind::BallKind,
                    bi as int,
                ) + 1);
                lemma_count_bounds(store@, Kind::BrickKind, old_len as int);
            }
        }
        bi = bi + 1;
    }
    proof {
        // nothing appended is a brick, a ball or a paddle
        assert forall|q: int|
            old_len <= q < store@.len() implies !is_kind(#[trigger] store@[q], Kind::BrickKind)
                && !is_kind(store@[q], Kind::BallKind) && !is_kind(store@[q], Kind::PaddleKind)
                && is_kind(store@[q], Kind::PowerUpKind) by {
            assert(spawned_power_up_ok(s0, store@, q));
            let jw = choose|j: int|
                0 <= j < s0.len() && is_kind(#[trigger] s0[j], Kind::BrickKind) && store@[j] is None
                    && store@[q] == Some(
                    Entity { pos: slot_pos(s0[j]), data: EntityData::PowerUpData(PowerUp {}) },
                );
            assert(store@[q] == Some(
                Entity { pos: slot_pos(s0[jw]), data: EntityData::PowerUpData(PowerUp {}) },
            ));
        }
        lemma_count_skip_nonkind(store@, Kind::BrickKind, old_len as int, store@.len() as int);
        lemma_count_skip_nonkind(store@, Kind::BallKind, old_len as int, store@.len() as int);
        lemma_count_skip_nonkind(store@, Kind::PaddleKind, old_len as int, store@.len() as int);
        // kinds are preserved slot by slot below the old length
        assert forall|q: int|
            0 <= q < old_len implies (is_kind(#[trigger] s0[q], Kind::BallKind) <==> is_kind(
            #[trigger] store@[q],
            Kind::BallKind,
        )) && (is_kind(s0[q], Kind::PaddleKind) <==> is_kind(store@[q], Kind::PaddleKind)) && (
        is_kind(s0[q], Kind::PowerUpKind) <==> is_kind(store@[q], Kind::PowerUpKind)) by {
            assert(brick_stage_slot_rel(s0, store@, q, *cfg));
        }
        lemma_count_eq_pointwise(s0, store@, Kind::BallKind, old_len as int);
        lemma_count_eq_pointwise(s0, store@, Kind::PaddleKind, old_len as int);
        lemma_count_eq_pointwise(s0, store@, Kind::PowerUpKind, old_len as int);
        lemma_count_all_kind(store@, Kind::PowerUpKind, old_len as int, store@.len() as int);
        lemma_count_bounds(store@, Kind::BrickKind, old_len as int);
        // positions for any resting bound the caller tracked
        assert forall|b: int|
            #[trigger] positions_within(s0, b) && 2_000_000 <= b <= COLL_BOUND
                implies positions_within(store@, b + 2_000_000) by {
            assert forall|q: int|
                0 <= q < store@.len() implies slot_pos_within(#[trigger] store@[q], b + 2_000_000) by {
                if q < old_len {
                    assert(brick_stage_slot_rel(s0, store@, q, *cfg));
                    assert(slot_pos_within(s0[q], b));
                } else {
                    assert(spawned_power_up_ok(s0, store@, q));
                    let jw = choose|j: int|
                        0 <= j < s0.len() && is_kind(#[trigger] s0[j], Kind::BrickKind) && store@[j]
                            is None && store@[q] == Some(
                            Entity {
                                pos: slot_pos(s0[j]),
                                data: EntityData::PowerUpData(PowerUp {}),
                            },
                        );
                    assert(slot_pos_within(s0[jw], b));
                }
            }
        }
    }
}

// ===== collision stage: paddle and power-up =====

/// A power-up lies within the paddle's own half-extents of the paddle (the
/// power-up counts as a point): the paddle collects it.
pub open spec fn power_up_collected(s: Option<Entity>, cfg: Config, p: Vec2i) -> bool {
    match s {
        Some(e) => match e.data {
            EntityData::PowerUpData(_) => abs_i(e.pos.x - p.x) <= cfg.paddle_w / 2 && abs_i(
                e.pos.y - p.y,
            ) <= cfg.paddle_h / 2,
            _ => false,
        },
        None => false,
    }
}

/// What one slot becomes under collection: a collected power-up is
/// destroyed, everything else is untouched.
pub open spec fn collect_slot(s: Option<Entity>, cfg: Config, p: Vec2i) -> Option<Entity> {
    if power_up_collected(s, cfg, p) {
        None
    } else {
        s
    }
}

/// Number of power-ups collected this tick among the first `i` slots.
pub open spec fn count_collected_to(s: Seq<Option<Entity>>, cfg: Config, p: Vec2i, i: int) -> int
    decreases i,
{
    if i <= 0 {
        0
    } else {
        count_collected_to(s, cfg, p, i - 1) + if power_up_collected(s[i - 1], cfg, p) {
            1int
        } else {
            0int
        }
    }
}

pub open spec fn count_collected(s: Seq<Option<Entity>>, cfg: Config, p: Vec2i) -> int {
    count_collected_to(s, cfg, p, s.len() as int)
}

/// A slot appended during collection: a fresh ball launched just above the
/// paddle, with a near-unit direction pointing up and rightward.
pub open spec fn spawned_ball_ok(news: Seq<Option<Entity>>, i: int, p: Vec2i) -> bool {
    match news[i] {
        Some(e) => e.pos == (Vec2i { x: p.x, y: (p.y + 40) as i64 }) && match e.data {
            EntityData::BallData(b) => near_unit(b.direction) && b.direction.y > 0
                && b.direction.x >= 0,
            _ => false,
        },
        None => false,
    }
}

/// The collected count is never negative.
pub proof fn lemma_collected_nonneg(s: Seq<Option<Entity>>, cfg: Config, p: Vec2i, i: int)
    ensures
        count_collected_to(s, cfg, p, i) >= 0,
    decreases i,
{
    if i > 0 {
        lemma_collected_nonneg(s, cfg, p, i - 1);
    }
}

/// Collection removes exactly the collected power-ups from the count.
proof fn lemma_collect_counts(
    s0: Seq<Option<Entity>>,
    s1: Seq<Option<Entity>>,
    cfg: Config,
    p: Vec2i,
    i: int,
)
    requires
        0 <= i <= s0.len(),
        i <= s1.len(),
        forall|j: int| 0 <= j < i ==> s1[j] == collect_slot(#[trigger] s0[j], cfg, p),
    ensures
        count_kind_to(s1, Kind::PowerUpKind, i) == count_kind_to(s0, Kind::PowerUpKind, i)
            - count_collected_to(s0, cfg, p, i),
    decreases i,
{
    if i > 0 {
        lemma_collect_counts(s0, s1, cfg, p, i - 1);
    }
}

/// Collects every power-up overlapping the paddle: the power-up is
/// destroyed and a new ball launches at the paddle's position, 40 units
/// up, with a randomised rightward horizontal direction and a full unit
/// upward, scaled to near-unit length.
#[verifier::rlimit(60)]
pub fn paddle_collect_power_up(store: &mut EntityStore, cfg: &Config)
    requires
        cfg.wf(),
        entities_wf(old(store)@),
        positions_within(old(store)@, COLL_BOUND as int),
        count_kind(old(store)@, Kind::PaddleKind) == 1,
        old(store)@.len() <= 1_000_000_000,
    ensures
        final(store)@.len() == old(store)@.len() + count_collected(
            old(store)@,
            *cfg,
            the_paddle_pos(old(store)@),
        ),
        forall|i: int|
            0 <= i < old(store)@.len() ==> final(store)@[i] == collect_slot(
                old(store)@[i],
                *cfg,
                the_paddle_pos(old(store)@),
            ),
        forall|i: int|
            old(store)@.len() <= i < final(store)@.len() ==> spawned_ball_ok(
                final(store)@,
                i,
                the_paddle_pos(old(store)@),
            ),
        count_kind(final(store)@, Kind::BallKind) == count_kind(old(store)@, Kind::BallKind)
            + count_collected(old(store)@, *cfg, the_paddle_pos(old(store)@)),
        count_kind(final(store)@, Kind::PaddleKind) == count_kind(old(store)@, Kind::PaddleKind),
        count_kind(final(store)@, Kind::BrickKind) == count_kind(old(store)@, Kind::BrickKind),
        count_kind(final(store)@, Kind::PowerUpKind) == count_kind(old(store)@, Kind::PowerUpKind)
            - (final(store)@.len() - old(store)@.len()),
        entities_wf(final(store)@),
        forall|b: int|
            #[trigger] positions_within(old(store)@, b) && 2_000_000 <= b <= COLL_BOUND
                ==> positions_within(final(store)@, b + 2_000_000),
{
    let ghost s0 = store@;
    let h = match find_kind(store, Kind::PaddleKind) {
        Some(h) => h,
        None => {
            proof {
                assert(false);
            }
            0
        },
    };
    proof {
        assert(is_kind(s0[h as int], Kind::PaddleKind));
        let ki = kind_index(s0, Kind::PaddleKind);
        assert(0 <= ki < s0.len() && is_kind(s0[ki], Kind::PaddleKind));
        lemma_count_unique(s0, Kind::PaddleKind, ki, h as int);
    }
    let p = match &store.slots[h] {
        Some(e) => e.pos,
        None => {
            proof {
                assert(false);
            }
            Vec2i { x: 0, y: 0 }
        },
    };
    assert(p == the_paddle_pos(s0));
    proof {
        assert(slot_pos_within(s0[h as int], COLL_BOUND as int));
    }
    let hx = half(cfg.paddle_w);
    let hy = half(cfg.paddle_h);
    let old_len = store.len();
    let mut i: usize = 0;
    while i < old_len
        invariant
            s0 == old(store)@,
            0 <= i <= old_len,
            old_len == s0.len(),
            old_len <= 1_000_000_000,
            cfg.wf(),
            entities_wf(s0),
            entities_wf(store@),
            positions_within(s0, COLL_BOUND as int),
            p == the_paddle_pos(s0),
            -COLL_BOUND <= p.x <= COLL_BOUND,
            -COLL_BOUND <= p.y <= COLL_BOUND,
            hx == cfg.paddle_w / 2,
            hy == cfg.paddle_h / 2,
            old_len <= store@.len(),
            store@.len() == old_len + count_collected_to(s0, *cfg, p, i as int),
            forall|j: int| 0 <= j < i ==> store@[j] == collect_slot(s0[j], *cfg, p),
            forall|j: int| i <= j < old_len ==> store@[j] == s0[j],
            forall|j: int| old_len <= j < store@.len() ==> spawned_ball_ok(store@, j, p),
        decreases old_len - i,
    {
        let collected = match &store.slots[i] {
            Some(e) => match e.data {
                EntityData::PowerUpData(_) => {
                    proof {
                        assert(slot_pos_within(s0[i as int], COLL_BOUND as int));
                    }
                    let dx = e.pos.x - p.x;
                    let dy = e.pos.y - p.y;
                    let adx = if dx < 0 {
                        -dx
                    } else {
                        dx
                    };
                    let ady = if dy < 0 {
                        -dy
                    } else {
                        dy
                    };
                    adx <= hx && ady <= hy
                },
                _ => false,
            },
            None => false,
        };
        let ghost before = store@;
        if collected {
            store.slots[i] = None;
            let rx: u32 = rand::random::<u32>() % 1000;
            let dir = crate::geometry::normalized_dir(rx as i64);
            let ball = Entity {
                pos: Vec2i { x: p.x, y: p.y + 40 },
                data: EntityData::BallData(Ball { direction: dir }),
            };
            store.create(ball);
            proof {
                assert forall|j: int|
                    old_len <= j < store@.len() implies spawned_ball_ok(store@, j, p) by {
                    if j < store@.len() - 1 {
                        assert(spawned_ball_ok(before, j, p));
                        assert(store@[j] == before.update(i as int, None)[j]);
                    } else {
                        assert(store@[j] == Some(ball));
                    }
                }
                assert forall|m: int| 0 <= m < store@.len() implies slot_wf(
                    #[trigger] store@[m],
                ) by {
                    if m < old_len && m != i {
                        assert(store@[m] == before[m]);
                    } else if old_len <= m < store@.len() {
                        assert(spawned_ball_ok(store@, m, p));
                    }
                }
            }
        }
        i = i + 1;
    }
    proof {
        // counts: the prefix keeps every kind but the collected power-ups,
        // and everything appended is a ball
        assert forall|q: int|
            0 <= q < old_len implies (is_kind(#[trigger] s0[q], Kind::BallKind) <==> is_kind(
            #[trigger] store@[q],
            Kind::BallKind,
        )) && (is_kind(s0[q], Kind::PaddleKind) <==> is_kind(store@[q], Kind::PaddleKind)) && (
        is_kind(s0[q], Kind::BrickKind) <==> is_kind(store@[q], Kind::BrickKind)) by {
            assert(store@[q] == collect_slot(s0[q], *cfg, p));
        }
        lemma_count_eq_pointwise(s0, store@, Kind::BallKind, old_len as int);
        lemma_count_eq_pointwise(s0, store@, Kind::PaddleKind, old_len as int);
        lemma_count_eq_pointwise(s0, store@, Kind::BrickKind, old_len as int);
        assert forall|q: int|
            old_len <= q < store@.len() implies is_kind(#[trigger] store@[q], Kind::BallKind)
                && !is_kind(store@[q], Kind::PaddleKind) && !is_kind(store@[q], Kind::BrickKind)
                && !is_kind(store@[q], Kind::PowerUpKind) by {
            assert(spawned_ball_ok(store@, q, p));
        }
        lemma_count_all_kind(store@, Kind::BallKind, old_len as int, store@.len() as int);
        lemma_count_skip_nonkind(store@, Kind::PaddleKind, old_len as int, store@.len() as int);
        lemma_count_skip_nonkind(store@, Kind::BrickKind, old_len as int, store@.len() as int);
        lemma_count_skip_nonkind(store@, Kind::PowerUpKind, old_len as int, store@.len() as int);
        lemma_collect_counts(s0, store@, *cfg, p, old_len as int);
        // positions for any resting bound the caller tracked
        assert forall|b: int|
            #[trigger] positions_within(s0, b) && 2_000_000 <= b <= COLL_BOUND
                implies positions_within(store@, b + 2_000_000) by {
            assert forall|q: int|
                0 <= q < store@.len() implies slot_pos_within(#[trigger] store@[q], b + 2_000_000) by {
                if q < old_len {
                    assert(store@[q] == collect_slot(s0[q], *cfg, p));
                    assert(slot_pos_within(s0[q], b));
                } else {
                    assert(spawned_ball_ok(store@, q, p));
                    assert(slot_pos_within(s0[kind_index(s0, Kind::PaddleKind)], b));
                }
            }
        }
    }
}

// ===== spawning =====

/// Columns in the brick grid: as many bricks with one gutter each as fit
/// across the field.
pub open spec fn brick_cols(cfg: Config) -> int {
    cfg.field_w as int / (cfg.brick_w + 10)
}

pub open spec fn brick_grid_x(cfg: Config, c: int) -> int {
    -(cfg.field_w / 2) + cfg.brick_w / 2 + 10 + c * (cfg.brick_w + 10)
}

pub open spec fn brick_grid_y(cfg: Config, r: int) -> int {
    cfg.field_h / 2 - cfg.brick_h / 2 - 10 - r * (cfg.brick_h + 10)
}

/// Hit points by row: the top four rows take two hits, the rest one.
pub open spec fn brick_grid_hp(r: int) -> u8 {
    if r < 4 {
        2u8
    } else {
        1u8
    }
}

/// The brick standing at row `r`, column `c` of a fresh grid.
pub open spec fn grid_brick(cfg: Config, r: int, c: int) -> Entity {
    Entity {
        pos: Vec2i { x: brick_grid_x(cfg, c) as i64, y: brick_grid_y(cfg, r) as i64 },
        data: EntityData::BrickData(Brick { hp: brick_grid_hp(r) }),
    }
}

/// Spawns the paddle at the bottom of the field, centred.
pub fn spawn_paddle(store: &mut EntityStore, cfg: &Config)
    requires
        cfg.wf(),
    ensures
        final(store)@ == old(store)@.push(
            Some(
                Entity {
                    pos: Vec2i { x: 0, y: (-(cfg.field_h / 2) + 50) as i64 },
                    data: EntityData::PaddleData(Paddle {}),
                },
            ),
        ),
{
    let y = -half(cfg.field_h) + 50;
    store.create(Entity { pos: Vec2i { x: 0, y }, data: EntityData::PaddleData(Paddle {}) });
}

/// Spawns one ball near the bottom of the field, launched upward with a
/// randomised rightward horizontal component, scaled to near-unit length.
pub fn spawn_ball(store: &mut EntityStore, cfg: &Config)
    requires
        cfg.wf(),
    ensures
        final(store)@.len() == old(store)@.len() + 1,
        forall|i: int| 0 <= i < old(store)@.len() ==> final(store)@[i] == old(store)@[i],
        match final(store)@[old(store)@.len() as int] {
            Some(e) => e.pos == (Vec2i { x: 0, y: (-(cfg.field_h / 2) + 80) as i64 }) && match e.data {
                EntityData::BallData(b) => near_unit(b.direction) && b.direction.y > 0
                    && b.direction.x >= 0,
                _ => false,
            },
            None => false,
        },
{
    let y = -half(cfg.field_h) + 80;
    let rx: u32 = rand::random::<u32>() % 1000;
    let dir = crate::geometry::normalized_dir(rx as i64);
    store.create(
        Entity { pos: Vec2i { x: 0, y }, data: EntityData::BallData(Ball { direction: dir }) },
    );
}

/// Spawns the brick grid: ten rows, `brick_cols` columns, anchored at the
/// top left with a ten-unit gutter, a ten-unit pitch between cells, and
/// two hit points in the top four rows.
#[verifier::rlimit(60)]
pub fn spawn_bricks(store: &mut EntityStore, cfg: &Config)
    requires
        cfg.wf(),
        old(store)@.len() <= 1_000_000_000,
    ensures
        final(store)@.len() == old(store)@.len() + 10 * brick_cols(*cfg),
        forall|i: int| 0 <= i < old(store)@.len() ==> final(store)@[i] == old(store)@[i],
        forall|r: int, c: int|
            0 <= r < 10 && 0 <= c < brick_cols(*cfg) ==> final(store)@[old(store)@.len() + r
                * brick_cols(*cfg) + c] == Some(#[trigger] grid_brick(*cfg, r, c)),
        forall|i: int|
            old(store)@.len() <= i < final(store)@.len() ==> is_kind(
                #[trigger] final(store)@[i],
                Kind::BrickKind,
            ) && slot_pos_within(final(store)@[i], 10_000_000) && slot_wf(final(store)@[i]),
{
    let ghost s0 = store@;
    let old_len = store.len();
    let cols_i: i64 = {
        let d = cfg.brick_w + 10;
        ((cfg.field_w as u64) / (d as u64)) as i64
    };
    let cols: usize = cols_i as usize;
    proof {
        assert(cols == brick_cols(*cfg));
        assert(0 <= cols <= 1_000_000);
    }
    let start_x = -half(cfg.field_w) + half(cfg.brick_w) + 10;
    let start_y = half(cfg.field_h) - half(cfg.brick_h) - 10;
    let pitch_x = cfg.brick_w + 10;
    let pitch_y = cfg.brick_h + 10;
    let mut row: usize = 0;
    while row < 10
        invariant
            s0 == old(store)@,
            old_len == s0.len(),
            old_len <= 1_000_000_000,
            cfg.wf(),
            0 <= row <= 10,
            cols == brick_cols(*cfg),
            0 <= cols <= 1_000_000,
            start_x == -(cfg.field_w / 2) + cfg.brick_w / 2 + 10,
            start_y == cfg.field_h / 2 - cfg.brick_h / 2 - 10,
            pitch_x == cfg.brick_w + 10,
            pitch_y == cfg.brick_h + 10,
            store@.len() == old_len + row * cols,
            forall|i: int| 0 <= i < old_len ==> store@[i] == s0[i],
            forall|r: int, c: int|
                0 <= r < row && 0 <= c < cols ==> store@[old_len + r * cols + c] == Some(
                    #[trigger] grid_brick(*cfg, r, c),
                ),
            forall|i: int|
                old_len <= i < store@.len() ==> is_kind(#[trigger] store@[i], Kind::BrickKind)
                    && slot_pos_within(store@[i], 10_000_000) && slot_wf(store@[i]),
        decreases 10 - row,
    {
        let hp: u8 = if row < 4 {
            2
        } else {
            1
        };
        proof {
            assert(0 <= (row as i64) * pitch_y <= 9_000_100) by (nonlinear_arith)
                requires
                    0 <= row < 10,
                    0 < pitch_y <= 1_000_010,
            ;
        }
        let y = start_y - (row as i64) * pitch_y;
        let mut col: usize = 0;
        while col < cols
            invariant
                s0 == old(store)@,
                old_len == s0.len(),
                old_len <= 1_000_000_000,
                cfg.wf(),
                0 <= row < 10,
                0 <= col <= cols,
                cols == brick_cols(*cfg),
                0 <= cols <= 1_000_000,
                start_x == -(cfg.field_w / 2) + cfg.brick_w / 2 + 10,
                start_y == cfg.field_h / 2 - cfg.brick_h / 2 - 10,
                pitch_x == cfg.brick_w + 10,
                pitch_y == cfg.brick_h + 10,
                hp == brick_grid_hp(row as int),
                y == brick_grid_y(*cfg, row as int),
                store@.len() == old_len + row * cols + col,
                forall|i: int| 0 <= i < old_len ==> store@[i] == s0[i],
                forall|r: int, c: int|
                    0 <= r < row && 0 <= c < cols ==> store@[old_len + r * cols + c] == Some(
                        #[trigger] grid_brick(*cfg, r, c),
                    ),
                forall|c: int|
                    0 <= c < col ==> store@[old_len + row * cols + c] == Some(
                        #[trigger] grid_brick(*cfg, row as int, c),
                    ),
                forall|i: int|
                    old_len <= i < store@.len() ==> is_kind(#[trigger] store@[i], Kind::BrickKind)
                        && slot_pos_within(store@[i], 10_000_000) && slot_wf(store@[i]),
                -9_000_100 <= (row as i64) * pitch_y <= 9_000_100,
                y == brick_grid_y(*cfg, row as int),
            decreases cols - col,
        {
            proof {
                assert((cols as i64) * pitch_x <= cfg.field_w) by (nonlinear_arith)
                    requires
                        cols == cfg.field_w as int / (pitch_x as int),
                        pitch_x >= 1,
                        cfg.field_w >= 0,
                        0 <= cols <= 1_000_000,
                ;
                assert(0 <= (col as int) * (pitch_x as int) && (col as int) * (pitch_x as int)
                    + pitch_x <= (cols as int) * (pitch_x as int)) by (nonlinear_arith)
                    requires
                        0 <= (col as int) < (cols as int),
                        1 <= (pitch_x as int),
                ;
                assert(row * cols + cols <= 10_000_000) by (nonlinear_arith)
                    requires
                        0 <= row < 10,
                        0 <= cols <= 1_000_000,
                ;
            }
            let x = start_x + (col as i64) * pitch_x;
            store.create(
                Entity {
                    pos: Vec2i { x, y },
                    data: EntityData::BrickData(Brick { hp }),
                },
            );
            proof {
                assert forall|r: int, c: int|
                    0 <= r < row && 0 <= c < cols implies store@[old_len + r * cols + c] == Some(
                    #[trigger] grid_brick(*cfg, r, c),
                ) by {
                    assert(r * cols + c < row * cols + col) by (nonlinear_arith)
                        requires
                            0 <= r < row,
                            0 <= c < cols,
                            0 <= col,
                            cols >= 1,
                    ;
                }
            }
            col = col + 1;
        }
        proof {
            assert(row * cols + cols == (row + 1) * cols) by (nonlinear_arith);
            assert forall|r: int, c: int|
                0 <= r < row + 1 && 0 <= c < cols implies store@[old_len + r * cols + c] == Some(
                #[trigger] grid_brick(*cfg, r, c),
            ) by {
                if r == row {
                    assert(store@[old_len + row * cols + c] == Some(
                        grid_brick(*cfg, row as int, c),
                    ));
                }
            }
        }
        row = row + 1;
    }
}

// ===== cleanup =====

/// Destroys all paddles, balls, bricks and power-ups: the single cleanup
/// run both when leaving play and immediately before re-entering it, so a
/// re-entry always starts from a clean slate. Running it twice in a row
/// changes nothing the second time. Once every slot is free the arena is
/// compacted, so handles start afresh in the next session.
pub fn cleanup_game_entities(store: &mut EntityStore)
    ensures
        final(store)@.len() == 0,
        entities_wf(final(store)@),
        count_kind(final(store)@, Kind::BallKind) == 0,
        count_kind(final(store)@, Kind::PaddleKind) == 0,
        count_kind(final(store)@, Kind::BrickKind) == 0,
        count_kind(final(store)@, Kind::PowerUpKind) == 0,
{
    let ghost s0 = store@;
    let end = store.len();
    let mut i: usize = 0;
    while i < end
        invariant
            end == s0.len(),
            store@.len() == s0.len(),
            0 <= i <= end,
            forall|j: int| 0 <= j < i ==> store@[j] is None,
            forall|j: int| i <= j < end ==> store@[j] == s0[j],
        decreases end - i,
    {
        let s = store.slots[i];
        match s {
            Some(e) => {
                match e.data {
                    EntityData::PaddleData(_) => {
                        store.slots[i] = None;
                    },
                    EntityData::BallData(_) => {
                        store.slots[i] = None;
                    },
                    EntityData::BrickData(_) => {
                        store.slots[i] = None;
                    },
                    EntityData::PowerUpData(_) => {
                        store.slots[i] = None;
                    },
                }
            },
            None => {},
        }
        i = i + 1;
    }
    store.slots.clear();
}

} // verus!
