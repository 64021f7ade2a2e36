//! Point lights: a position, an intensity and a color.

use crate::fixed::COORD_MAX;
use crate::pixel::Color;
use crate::vector::{in_range, Vector};
use vstd::prelude::*;

verus! {

/// An immutable point light.  `intensity` is a raw fixed-point factor.
#[derive(Clone, Copy, Debug, PartialEq, Eq, Structural)]
pub struct Lightsource {
    pub position: Vector,
    pub intensity: i64,
    pub color: Color,
}

/// The light stands at a scene coordinate.
pub open spec fn wf_light(l: Lightsource) -> bool {
    in_range(l.position@, COORD_MAX as int) && 0 <= l.intensity
}

impl Lightsource {
    /// A white light at the given position.
    pub fn new(position: &Vector, intensity: i64) -> (l: Lightsource)
        requires
            0 <= intensity,
        ensures
            l.position == *position,
            l.intensity == intensity,
            l.color.r == 255 && l.color.g == 255 && l.color.b == 255,
    {
        Lightsource { position: *position, intensity, color: Color::white() }
    }
}

} // verus!
