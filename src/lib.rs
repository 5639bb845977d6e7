//! A tick-based 2D arena simulation: a player moves inside a rectangular world,
//! shoots at enemies that steer toward it, and scores a point for every kill.
//!
//! All geometry is fixed point: one world unit is `math::UNIT` coordinate units.

pub mod ecs;
pub mod game;
pub mod math;
mod random;
