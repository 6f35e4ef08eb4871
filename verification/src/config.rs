//! The fixed parameters of a play session: field dimensions, entity sizes
//! and speeds, all in integer game units (speeds in units per second,
//! elapsed time in milliseconds).

use vstd::prelude::*;

verus! {

/// Largest accepted field dimension, entity size or speed.
pub const MAX_DIM: i64 = 1_000_000;

/// Largest accepted elapsed time for one tick, in milliseconds.
pub const MAX_DT: i64 = 1_000_000_000;

/// Positions are kept within this bound of the origin; it leaves room for
/// the largest possible movement step without nearing the integer limits.
pub const POS_BOUND: i64 = 1_000_000_000_000_000;

/// Largest distance any movement stage can cover in one tick.
pub const STEP_BOUND: i64 = 3_000_000_000_000;

/// Positions the collision stages accept; leaves the movement stages room
/// above `POS_BOUND` and stays far from the integer limits.
pub const COLL_BOUND: i64 = 1_100_000_000_000_000;

/// Every entity rests within this bound between ticks: the field is at
/// most `MAX_DIM` wide and high, and one tick's collisions push a confined
/// ball by a few combined extents at most.
pub const REST_BOUND: i64 = 10_000_000;

/// Points awarded for destroying a brick.
pub const BRICK_SCORE: u32 = 10;

/// A power-up drops from a destroyed brick when a uniform roll out of
/// 1000 falls below this threshold (a 0.9 chance).
pub const DROP_THRESHOLD: u32 = 900;

/// Number of brick rows in the grid.
pub const BRICK_ROWS: usize = 10;

/// Gutter between bricks and around the grid, in units.
pub const BRICK_GAP: i64 = 10;

#[derive(Clone, Copy, PartialEq, Eq, Structural, Debug)]
pub struct Config {
    pub field_w: i64,
    pub field_h: i64,
    pub paddle_w: i64,
    pub paddle_h: i64,
    pub paddle_speed: i64,
    pub ball_w: i64,
    pub ball_h: i64,
    pub ball_speed: i64,
    pub brick_w: i64,
    pub brick_h: i64,
    pub power_up_speed: i64,
}

impl Config {
    /// Dimensions are positive and bounded; every entity fits in the field.
    pub open spec fn wf(self) -> bool {
        &&& 0 < self.field_w <= MAX_DIM
        &&& 0 < self.field_h <= MAX_DIM
        &&& 0 < self.paddle_w <= self.field_w
        &&& 0 < self.paddle_h <= self.field_h
        &&& 0 < self.ball_w <= self.field_w
        &&& 0 < self.ball_h <= self.field_h
        &&& 0 < self.brick_w <= self.field_w
        &&& 0 < self.brick_h <= self.field_h
        &&& 0 <= self.paddle_speed <= MAX_DIM
        &&& 0 <= self.ball_speed <= MAX_DIM
        &&& 0 <= self.power_up_speed <= MAX_DIM
    }

    /// The parameters the game ships with.
    pub fn standard() -> (c: Config)
        ensures
            c.wf(),
            c == (Config {
                field_w: 800,
                field_h: 600,
                paddle_w: 120,
                paddle_h: 30,
                paddle_speed: 500,
                ball_w: 30,
                ball_h: 30,
                ball_speed: 250,
                brick_w: 80,
                brick_h: 30,
                power_up_speed: 150,
            }),
    {
        Config {
            field_w: 800,
            field_h: 600,
            paddle_w: 120,
            paddle_h: 30,
            paddle_speed: 500,
            ball_w: 30,
            ball_h: 30,
            ball_speed: 250,
            brick_w: 80,
            brick_h: 30,
            power_up_speed: 150,
        }
    }
}

} // verus!
