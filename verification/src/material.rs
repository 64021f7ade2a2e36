//! Surface materials: a color, a reflectivity factor in `[0, 1]` and a
//! specularity flag.

use crate::fixed::SCALE;
use crate::pixel::Color;
use vstd::prelude::*;

verus! {

/// The material attached to a shape.  `reflectivity` is a raw fixed-point
/// factor between `0` and `SCALE` (that is, between zero and one).
#[derive(Clone, Copy, Debug, PartialEq, Eq, Structural)]
pub struct Material {
    pub reflectivity: i64,
    pub color: Color,
    pub is_specular: bool,
}

/// The reflectivity factor lies between zero and one.
pub open spec fn wf_material(m: Material) -> bool {
    0 <= m.reflectivity <= SCALE
}

impl Material {
    /// A material from its parts.
    pub fn new(reflectivity: i64, color: Color, is_specular: bool) -> (m: Material)
        requires
            0 <= reflectivity <= SCALE,
        ensures
            m.reflectivity == reflectivity,
            m.color == color,
            m.is_specular == is_specular,
            wf_material(m),
    {
        Material { reflectivity, color, is_specular }
    }

    /// A white specular material with reflectivity four fifths.
    pub fn default() -> (m: Material)
        ensures
            m.reflectivity == 4 * (SCALE / 5),
            m.color.r == 255 && m.color.g == 255 && m.color.b == 255,
            m.is_specular,
            wf_material(m),
    {
        Material { reflectivity: SCALE / 5 * 4, color: Color::white(), is_specular: true }
    }

    /// A specular material of the given color with reflectivity four
    /// fifths.
    pub fn new_color(r: u8, g: u8, b: u8) -> (m: Material)
        ensures
            m.reflectivity == 4 * (SCALE / 5),
            m.color.r == r && m.color.g == g && m.color.b == b,
            m.is_specular,
            wf_material(m),
    {
        Material { reflectivity: SCALE / 5 * 4, color: Color { r, g, b }, is_specular: true }
    }

    /// A material of the given color, reflectivity and specularity.
    pub fn new_color_ref(r: u8, g: u8, b: u8, refl: i64, is_specular: bool) -> (m: Material)
        requires
            0 <= refl <= SCALE,
        ensures
            m.reflectivity == refl,
            m.color.r == r && m.color.g == g && m.color.b == b,
            m.is_specular == is_specular,
            wf_material(m),
    {
        Material { reflectivity: refl, color: Color { r, g, b }, is_specular }
    }
}

} // verus!
