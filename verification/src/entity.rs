//! A scene entity: a positioned, rotatable, scalable, opacity-bearing visual
//! object. The visual content itself is an external, shared, immutable handle
//! and is not represented here.

use vstd::prelude::*;

verus! {

/// Magnitude bound on every coordinate-like field, in milli-units. Animation
/// moves saturate at this bound, so entity fields always stay within it.
pub const VAL_LIMIT: i64 = 1_000_000_000_000;

/// Full opacity, in thousandths.
pub const OPACITY_FULL: i64 = 1000;

/// Unit scale, in thousandths.
pub const SCALE_UNIT: i64 = 1000;

/// A renderable object: position, rotation, per-axis scale and opacity, all
/// fixed-point milli-values.
#[derive(Clone, Copy, PartialEq, Eq, Structural, Debug)]
pub struct Entity {
    /// Horizontal position, milli-units.
    pub x: i64,
    /// Vertical position, milli-units.
    pub y: i64,
    /// Rotation, milli-degrees.
    pub rotation: i64,
    /// Horizontal scale, thousandths.
    pub sx: i64,
    /// Vertical scale, thousandths.
    pub sy: i64,
    /// Opacity, thousandths, always within `[0, OPACITY_FULL]`.
    pub opacity: i64,
}

impl Entity {
    /// Every field within the coordinate bound, and the opacity within
    /// `[0, OPACITY_FULL]`.
    pub open spec fn wf(self) -> bool {
        &&& -VAL_LIMIT <= self.x <= VAL_LIMIT
        &&& -VAL_LIMIT <= self.y <= VAL_LIMIT
        &&& -VAL_LIMIT <= self.rotation <= VAL_LIMIT
        &&& -VAL_LIMIT <= self.sx <= VAL_LIMIT
        &&& -VAL_LIMIT <= self.sy <= VAL_LIMIT
        &&& 0 <= self.opacity <= OPACITY_FULL
    }

    /// A fresh entity at `(x, y)`: unrotated, unit scale, fully opaque.
    pub fn new(x: i64, y: i64) -> (r: Entity)
        requires
            -VAL_LIMIT <= x <= VAL_LIMIT,
            -VAL_LIMIT <= y <= VAL_LIMIT,
        ensures
            r == (Entity { x, y, rotation: 0, sx: SCALE_UNIT, sy: SCALE_UNIT, opacity: OPACITY_FULL }),
            r.wf(),
    {
        Entity { x, y, rotation: 0, sx: SCALE_UNIT, sy: SCALE_UNIT, opacity: OPACITY_FULL }
    }
}

} // verus!
