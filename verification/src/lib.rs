//! Core logic of a small real-time interactive 2D loop: an input state
//! tracker, a damped bounded-velocity physics step for a player-controlled
//! entity, and a behavior-tree animation interpreter driving a scene of
//! visual entities.
//!
//! All quantities are fixed-point integers: positions, scales, opacities and
//! rotations are in thousandths of a scene unit (milli-units), and times are
//! in milliseconds. Rendering, windowing and asset loading are external
//! collaborators and live outside this crate.

pub mod bounds;
pub mod input;
pub mod physics;
pub mod entity;
pub mod easing;
pub mod behavior;
pub mod interp;
pub mod scene;

pub use bounds::defined_min;
pub use bounds::defined_max;
pub use bounds::clamp_between;
