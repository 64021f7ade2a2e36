//! Rays: an origin and a (not necessarily unit) direction.

use crate::fixed::{div_trunc, div_wide, mul_wide, COORD_MAX, DIR_MAX, SCALE};
use crate::vector::{in_range, norm2, v_cross, v_len, v_sub, Vec3, Vector};
use vstd::prelude::*;

verus! {

/// A ray cast from `start_position` along `direction`.
#[derive(Clone, Copy, Debug, PartialEq, Eq, Structural)]
pub struct Ray {
    pub start_position: Vector,
    pub direction: Vector,
}

/// A ray whose origin is a scene coordinate and whose direction is the
/// difference of two scene coordinates.
pub open spec fn wf_ray(ray: Ray) -> bool {
    in_range(ray.start_position@, COORD_MAX as int) && in_range(ray.direction@, DIR_MAX as int)
}

/// Raw distance from `p` to the line that carries the ray:
/// `|direction x (p - start)| / |direction|`.
pub open spec fn dist_to_line(ray: Ray, p: Vec3) -> int {
    div_trunc(
        v_len(v_cross(ray.direction@, v_sub(p, ray.start_position@))) * SCALE,
        v_len(ray.direction@),
    )
}

impl Ray {
    /// A ray with the given origin and direction.
    pub fn new(start_position: &Vector, direction: &Vector) -> (r: Ray)
        ensures
            r.start_position == *start_position,
            r.direction == *direction,
    {
        Ray { start_position: *start_position, direction: *direction }
    }

    /// A ray with zero origin and zero direction.
    pub fn new_empty() -> (r: Ray)
        ensures
            r.start_position@.x == 0 && r.start_position@.y == 0 && r.start_position@.z == 0,
            r.direction@.x == 0 && r.direction@.y == 0 && r.direction@.z == 0,
    {
        Ray { start_position: Vector::new(), direction: Vector::new() }
    }

    /// Raw distance between `point` and the line that carries the ray,
    /// kept wide so that no bound on the quotient is needed.
    pub fn distance_to_point_wide(&self, point: Vector) -> (r: i128)
        requires
            wf_ray(*self),
            in_range(point@, COORD_MAX as int),
            norm2(self.direction@) > 0,
        ensures
            r == dist_to_line(*self, point@),
            0 <= r,
    {
        let start_to_point = point.sub(self.start_position);
        let cross = self.direction.mul(start_to_point);
        let cross_len = cross.distance();
        let dir_len = self.direction.distance();
        proof {
            crate::fixed::lemma_sqrt_floor_is_sqrt(norm2(self.direction@));
            assert(v_len(self.direction@) >= 1) by (nonlinear_arith)
                requires
                    crate::fixed::is_sqrt(norm2(self.direction@), v_len(self.direction@))
                        && norm2(self.direction@) > 0;
            vstd::arithmetic::div_mod::lemma_div_pos_is_pos(
                v_len(v_cross(self.direction@, v_sub(point@, self.start_position@))) * (
                SCALE as int),
                v_len(self.direction@),
            );
        }
        let wide = mul_wide(cross_len, SCALE);
        div_wide(wide, dir_len as i128)
    }

    /// Raw distance between `point` and the line that carries the ray
    /// (zero when the line passes through the point).
    pub fn distance_to_point(&self, point: Vector) -> (r: i64)
        requires
            wf_ray(*self),
            in_range(point@, COORD_MAX as int),
            norm2(self.direction@) > 0,
            dist_to_line(*self, point@) <= i64::MAX,
        ensures
            r == dist_to_line(*self, point@),
            0 <= r,
    {
        let start_to_point = point.sub(self.start_position);
        let cross = self.direction.mul(start_to_point);
        let cross_len = cross.distance();
        let dir_len = self.direction.distance();
        proof {
            crate::fixed::lemma_sqrt_floor_is_sqrt(norm2(self.direction@));
            assert(v_len(self.direction@) >= 1) by (nonlinear_arith)
                requires
                    crate::fixed::is_sqrt(norm2(self.direction@), v_len(self.direction@))
                        && norm2(self.direction@) > 0;
            crate::fixed::lemma_div_trunc_le(
                v_len(v_cross(self.direction@, v_sub(point@, self.start_position@))) * (
                SCALE as int),
                v_len(self.direction@),
            );
            vstd::arithmetic::div_mod::lemma_div_pos_is_pos(
                v_len(v_cross(self.direction@, v_sub(point@, self.start_position@))) * (
                SCALE as int),
                v_len(self.direction@),
            );
        }
        let wide = mul_wide(cross_len, SCALE);
        let q = div_wide(wide, dir_len as i128);
        q as i64
    }
}

} // verus!
