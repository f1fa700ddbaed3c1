//! Continuous collision detection and event-driven resolution for moving
//! circular bodies and static walls in the plane.
//!
//! All quantities are integers: positions in length units, velocities in
//! length units per tick, and times in ticks.  An application chooses how
//! many units and ticks make up one of its own metres and seconds.
pub mod geometry;
pub mod ball;
pub mod wall;
pub mod advance;
pub mod collision;
pub mod simulation;
pub mod world_gen;
