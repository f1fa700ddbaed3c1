//! The contact engine: shapes, the narrow-phase solver, contact resolution,
//! and the per-frame scheduler.
pub mod collidable;
pub mod solvers;
pub mod colliders;
pub mod event_queue;
pub mod buckets;
pub mod collision;
