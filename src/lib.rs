//! A brick-breaker game engine in fixed-point arithmetic: collision
//! resolution, entity lifecycle, level layouts and the game state machine.
//!
//! Lengths are counted in thousandths of a pixel, time in microseconds, and
//! directions as vectors whose unit length is `geometry::VEL_ONE`.

pub mod geometry;
pub mod collision;
pub mod random;
pub mod player;
pub mod block;
pub mod ball;
pub mod powerup;
pub mod layout;
pub mod board;
pub mod game;
