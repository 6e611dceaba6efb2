//! Locomotion and camera-rig core of a top-down action game, in fixed point.
//!
//! Lengths are millimetres, speeds millimetres per second, times
//! microseconds, angles binary angle units (`FULL_TURN` to a revolution),
//! and dimensionless fractions and rates are scaled by `UNIT`.
pub mod math;
pub mod input;
pub mod player;
pub mod camera;
pub mod rig;
