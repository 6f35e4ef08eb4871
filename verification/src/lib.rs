//! Core of a brick-breaker arcade game: an entity store, the per-tick
//! simulation stages (movement, confinement, collision), the game-state
//! machine and the score tracker. Positions and velocities are integers;
//! ball directions are vectors scaled by a fixed factor, so that "unit
//! length" becomes a tight bound on the squared norm.

pub mod config;
pub mod geometry;
pub mod rng;
pub mod state;
pub mod store;
pub mod systems;

pub use geometry::Vec2i;
pub use store::{Ball, Brick, Paddle, PowerUp, EntityStore, Entity, EntityData, Kind};
