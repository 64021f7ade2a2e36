//! Three-component vectors in fixed-point arithmetic.
//!
//! A `Vector` holds raw `i64` components; its mathematical view is a
//! `Vec3` of unbounded integers, and every operation has an exact integer
//! specification built from `div_trunc` and `sqrt_floor`.

use crate::fixed::{
    div_trunc, div_wide, is_sqrt, isqrt_i128, lemma_div_trunc_bound, lemma_mul_bound,
    lemma_sqrt_floor_is_sqrt, lemma_sqrt_floor_le, mul_wide, sqrt_floor, DIR_MAX, SCALE,
};
use vstd::prelude::*;

verus! {

/// The mathematical view of a `Vector`: unbounded integer raw components.
pub struct Vec3 {
    pub x: int,
    pub y: int,
    pub z: int,
}

/// Every component has magnitude at most `m`.
pub open spec fn in_range(v: Vec3, m: int) -> bool {
    -m <= v.x <= m && -m <= v.y <= m && -m <= v.z <= m
}

/// Componentwise sum.
pub open spec fn v_add(a: Vec3, b: Vec3) -> Vec3 {
    Vec3 { x: a.x + b.x, y: a.y + b.y, z: a.z + b.z }
}

/// Componentwise difference.
pub open spec fn v_sub(a: Vec3, b: Vec3) -> Vec3 {
    Vec3 { x: a.x - b.x, y: a.y - b.y, z: a.z - b.z }
}

/// Scalar multiple by a raw factor, truncated toward zero.
pub open spec fn v_scale(a: Vec3, t: int) -> Vec3 {
    Vec3 {
        x: div_trunc(a.x * t, SCALE as int),
        y: div_trunc(a.y * t, SCALE as int),
        z: div_trunc(a.z * t, SCALE as int),
    }
}

/// Cross product; each component is scaled back down once.
pub open spec fn v_cross(a: Vec3, b: Vec3) -> Vec3 {
    Vec3 {
        x: div_trunc(a.y * b.z - a.z * b.y, SCALE as int),
        y: div_trunc(a.z * b.x - a.x * b.z, SCALE as int),
        z: div_trunc(a.x * b.y - a.y * b.x, SCALE as int),
    }
}

/// Dot product, scaled back down once.
pub open spec fn v_dot(a: Vec3, b: Vec3) -> int {
    div_trunc(a.x * b.x + a.y * b.y + a.z * b.z, SCALE as int)
}

/// Sum of the squared raw components (in squared raw units).
pub open spec fn norm2(a: Vec3) -> int {
    a.x * a.x + a.y * a.y + a.z * a.z
}

/// Raw magnitude: the integer square root of the squared raw magnitude.
pub open spec fn v_len(a: Vec3) -> int {
    sqrt_floor(norm2(a))
}

/// The vector scaled to unit magnitude, truncated toward zero.
pub open spec fn v_unit(a: Vec3) -> Vec3 {
    Vec3 {
        x: div_trunc(a.x * SCALE, v_len(a)),
        y: div_trunc(a.y * SCALE, v_len(a)),
        z: div_trunc(a.z * SCALE, v_len(a)),
    }
}

/// Rotation about the x axis by an angle given as raw sine and cosine.
pub open spec fn v_rot_x(a: Vec3, s: int, c: int) -> Vec3 {
    Vec3 {
        x: a.x,
        y: div_trunc(a.y * c - a.z * s, SCALE as int),
        z: div_trunc(a.y * s + a.z * c, SCALE as int),
    }
}

/// Rotation about the y axis by an angle given as raw sine and cosine.
pub open spec fn v_rot_y(a: Vec3, s: int, c: int) -> Vec3 {
    Vec3 {
        x: div_trunc(a.x * c + a.z * s, SCALE as int),
        y: a.y,
        z: div_trunc(a.z * c - a.x * s, SCALE as int),
    }
}

/// Rotation about the z axis by an angle given as raw sine and cosine.
pub open spec fn v_rot_z(a: Vec3, s: int, c: int) -> Vec3 {
    Vec3 {
        x: div_trunc(a.x * c - a.y * s, SCALE as int),
        y: div_trunc(a.x * s + a.y * c, SCALE as int),
        z: a.z,
    }
}

/// A vector of three raw fixed-point components.
#[derive(Clone, Copy, Debug, PartialEq, Eq, Structural)]
pub struct Vector {
    pub x: i64,
    pub y: i64,
    pub z: i64,
}

impl View for Vector {
    type V = Vec3;

    open spec fn view(&self) -> Vec3 {
        Vec3 { x: self.x as int, y: self.y as int, z: self.z as int }
    }
}

/// The squared magnitude of a vector bounded by `m` is at most `3 * m * m`.
pub proof fn lemma_norm2_bound(a: Vec3, m: int)
    by (nonlinear_arith)
    requires
        in_range(a, m),
        0 <= m,
    ensures
        0 <= norm2(a) <= 3 * (m * m),
        0 <= a.x * a.x <= norm2(a),
        0 <= a.y * a.y <= norm2(a),
        0 <= a.z * a.z <= norm2(a),
{
}

/// Squared magnitude is symmetric in the difference's direction.
pub proof fn lemma_norm2_flip(a: Vec3, b: Vec3)
    ensures
        norm2(v_sub(a, b)) == norm2(v_sub(b, a)),
{
    assert((a.x - b.x) * (a.x - b.x) == (b.x - a.x) * (b.x - a.x)) by (nonlinear_arith);
    assert((a.y - b.y) * (a.y - b.y) == (b.y - a.y) * (b.y - a.y)) by (nonlinear_arith);
    assert((a.z - b.z) * (a.z - b.z) == (b.z - a.z) * (b.z - a.z)) by (nonlinear_arith);
}

/// Each component is bounded by the raw magnitude.
pub proof fn lemma_len_bounds_components(a: Vec3)
    requires
        0 <= norm2(a),
    ensures
        -v_len(a) <= a.x <= v_len(a),
        -v_len(a) <= a.y <= v_len(a),
        -v_len(a) <= a.z <= v_len(a),
        0 <= v_len(a),
{
    lemma_sqrt_floor_is_sqrt(norm2(a));
    assert(-v_len(a) <= a.x <= v_len(a) && -v_len(a) <= a.y <= v_len(a) && -v_len(a) <= a.z
        <= v_len(a)) by (nonlinear_arith)
        requires
            is_sqrt(norm2(a), v_len(a)) && norm2(a) == a.x * a.x + a.y * a.y + a.z * a.z;
}

/// A normalized vector has components of magnitude at most `SCALE`.
pub proof fn lemma_unit_in_range(a: Vec3)
    requires
        norm2(a) > 0,
    ensures
        in_range(v_unit(a), SCALE as int),
{
    lemma_len_bounds_components(a);
    lemma_sqrt_floor_is_sqrt(norm2(a));
    assert(v_len(a) >= 1) by (nonlinear_arith)
        requires
            is_sqrt(norm2(a), v_len(a)) && norm2(a) > 0;
    let d = v_len(a);
    assert(d * SCALE >= SCALE) by (nonlinear_arith)
        requires
            d >= 1 && SCALE > 0;
    assert(-(d * SCALE) <= a.x * SCALE <= d * SCALE) by (nonlinear_arith)
        requires
            -d <= a.x <= d && SCALE > 0;
    assert(-(d * SCALE) <= a.y * SCALE <= d * SCALE) by (nonlinear_arith)
        requires
            -d <= a.y <= d && SCALE > 0;
    assert(-(d * SCALE) <= a.z * SCALE <= d * SCALE) by (nonlinear_arith)
        requires
            -d <= a.z <= d && SCALE > 0;
    lemma_div_trunc_bound(a.x * SCALE, d, d * SCALE);
    lemma_div_trunc_bound(a.y * SCALE, d, d * SCALE);
    lemma_div_trunc_bound(a.z * SCALE, d, d * SCALE);
    assert((d * SCALE) / d == SCALE) by (nonlinear_arith)
        requires
            d >= 1;
}

impl Vector {
    /// The zero vector.
    pub fn new() -> (v: Vector)
        ensures
            v@.x == 0 && v@.y == 0 && v@.z == 0,
    {
        Vector { x: 0, y: 0, z: 0 }
    }

    /// Componentwise sum.
    pub fn add(self, rhs: Vector) -> (v: Vector)
        requires
            i64::MIN <= self@.x + rhs@.x <= i64::MAX,
            i64::MIN <= self@.y + rhs@.y <= i64::MAX,
            i64::MIN <= self@.z + rhs@.z <= i64::MAX,
        ensures
            v@ == v_add(self@, rhs@),
    {
        Vector { x: self.x + rhs.x, y: self.y + rhs.y, z: self.z + rhs.z }
    }

    /// Componentwise difference.
    pub fn sub(self, rhs: Vector) -> (v: Vector)
        requires
            i64::MIN <= self@.x - rhs@.x <= i64::MAX,
            i64::MIN <= self@.y - rhs@.y <= i64::MAX,
            i64::MIN <= self@.z - rhs@.z <= i64::MAX,
        ensures
            v@ == v_sub(self@, rhs@),
    {
        Vector { x: self.x - rhs.x, y: self.y - rhs.y, z: self.z - rhs.z }
    }

    /// Scalar multiple by a raw factor.
    pub fn mul_scalar(self, t: i64) -> (v: Vector)
        requires
            i64::MIN <= div_trunc(self@.x * t, SCALE as int) <= i64::MAX,
            i64::MIN <= div_trunc(self@.y * t, SCALE as int) <= i64::MAX,
            i64::MIN <= div_trunc(self@.z * t, SCALE as int) <= i64::MAX,
        ensures
            v@ == v_scale(self@, t as int),
    {
        let x = crate::fixed::div_scale(mul_wide(self.x, t));
        let y = crate::fixed::div_scale(mul_wide(self.y, t));
        let z = crate::fixed::div_scale(mul_wide(self.z, t));
        Vector { x: x as i64, y: y as i64, z: z as i64 }
    }

    /// Cross product.
    pub fn mul(self, rhs: Vector) -> (v: Vector)
        requires
            in_range(self@, DIR_MAX as int),
            in_range(rhs@, DIR_MAX as int),
        ensures
            v@ == v_cross(self@, rhs@),
            in_range(v@, 0x4000000000000000),
    {
        proof {
            lemma_cross_term_bounds(self@, rhs@);
        }
        let x = crate::fixed::div_scale(mul_wide(self.y, rhs.z) - mul_wide(self.z, rhs.y));
        let y = crate::fixed::div_scale(mul_wide(self.z, rhs.x) - mul_wide(self.x, rhs.z));
        let z = crate::fixed::div_scale(mul_wide(self.x, rhs.y) - mul_wide(self.y, rhs.x));
        Vector { x: x as i64, y: y as i64, z: z as i64 }
    }

    /// Dot product.
    pub fn dot(&self, other: Vector) -> (r: i64)
        requires
            in_range(self@, DIR_MAX as int),
            in_range(other@, DIR_MAX as int),
        ensures
            r == v_dot(self@, other@),
            -0xC00000000000000 <= r <= 0xC00000000000000,
    {
        proof {
            lemma_dot_term_bounds(self@, other@);
        }
        let s = mul_wide(self.x, other.x) + mul_wide(self.y, other.y) + mul_wide(
            self.z,
            other.z,
        );
        let r = crate::fixed::div_scale(s);
        r as i64
    }

    /// Raw magnitude of the vector.
    pub fn distance(&self) -> (r: i64)
        requires
            in_range(self@, 0x4000000000000000),
        ensures
            r == v_len(self@),
            0 <= r <= 0x6FFFFFFFFFFFFFFF,
    {
        proof {
            lemma_norm2_bound(self@, 0x4000000000000000);
            lemma_sqrt_floor_le(norm2(self@), 0x6FFFFFFFFFFFFFFF);
        }
        let n2 = mul_wide(self.x, self.x) + mul_wide(self.y, self.y) + mul_wide(
            self.z,
            self.z,
        );
        let r = isqrt_i128(n2);
        r as i64
    }

    /// The vector scaled to unit magnitude.  For inputs of at least one
    /// whole unit the result's magnitude is one up to a few quanta; for
    /// shorter inputs the truncated quotients are too coarse to promise
    /// that, and only the exact formula holds.
    pub fn normalized(&self) -> (v: Vector)
        requires
            in_range(self@, 0x4000000000000000),
            norm2(self@) > 0,
        ensures
            v@ == v_unit(self@),
            in_range(v@, SCALE as int),
            norm2(self@) >= SCALE * SCALE ==> SCALE * SCALE - 6 * SCALE <= norm2(v@) <= SCALE
                * SCALE + 3 * SCALE,
    {
        proof {
            lemma_norm2_bound(self@, 0x4000000000000000);
            lemma_unit_in_range(self@);
            lemma_len_bounds_components(self@);
            lemma_sqrt_floor_is_sqrt(norm2(self@));
            if norm2(self@) >= SCALE * SCALE {
                lemma_unit_magnitude_near_one(self@);
            }
        }
        let n2 = mul_wide(self.x, self.x) + mul_wide(self.y, self.y) + mul_wide(
            self.z,
            self.z,
        );
        let d = isqrt_i128(n2);
        let x = div_wide(mul_wide(self.x, SCALE), d);
        let y = div_wide(mul_wide(self.y, SCALE), d);
        let z = div_wide(mul_wide(self.z, SCALE), d);
        Vector { x: x as i64, y: y as i64, z: z as i64 }
    }

    /// Rotate in place about the x axis; the angle is given as raw sine
    /// and cosine values.
    pub fn rotate_x(&mut self, sin_a: i64, cos_a: i64)
        requires
            in_range(old(self)@, DIR_MAX as int),
            -SCALE <= sin_a <= SCALE,
            -SCALE <= cos_a <= SCALE,
        ensures
            final(self)@ == v_rot_x(old(self)@, sin_a as int, cos_a as int),
            in_range(final(self)@, 2 * DIR_MAX as int),
    {
        proof {
            lemma_rot_term_bounds(old(self)@, sin_a as int, cos_a as int);
        }
        let y = crate::fixed::div_scale(mul_wide(self.y, cos_a) - mul_wide(self.z, sin_a));
        let z = crate::fixed::div_scale(mul_wide(self.y, sin_a) + mul_wide(self.z, cos_a));
        self.y = y as i64;
        self.z = z as i64;
    }

    /// Rotate in place about the y axis; the angle is given as raw sine
    /// and cosine values.
    pub fn rotate_y(&mut self, sin_a: i64, cos_a: i64)
        requires
            in_range(old(self)@, DIR_MAX as int),
            -SCALE <= sin_a <= SCALE,
            -SCALE <= cos_a <= SCALE,
        ensures
            final(self)@ == v_rot_y(old(self)@, sin_a as int, cos_a as int),
            in_range(final(self)@, 2 * DIR_MAX as int),
    {
        proof {
            lemma_rot_term_bounds(old(self)@, sin_a as int, cos_a as int);
        }
        let x = crate::fixed::div_scale(mul_wide(self.x, cos_a) + mul_wide(self.z, sin_a));
        let z = crate::fixed::div_scale(mul_wide(self.z, cos_a) - mul_wide(self.x, sin_a));
        self.x = x as i64;
        self.z = z as i64;
    }

    /// Rotate in place about the z axis; the angle is given as raw sine
    /// and cosine values.
    pub fn rotate_z(&mut self, sin_a: i64, cos_a: i64)
        requires
            in_range(old(self)@, DIR_MAX as int),
            -SCALE <= sin_a <= SCALE,
            -SCALE <= cos_a <= SCALE,
        ensures
            final(self)@ == v_rot_z(old(self)@, sin_a as int, cos_a as int),
            in_range(final(self)@, 2 * DIR_MAX as int),
    {
        proof {
            lemma_rot_term_bounds(old(self)@, sin_a as int, cos_a as int);
        }
        let x = crate::fixed::div_scale(mul_wide(self.x, cos_a) - mul_wide(self.y, sin_a));
        let y = crate::fixed::div_scale(mul_wide(self.x, sin_a) + mul_wide(self.y, cos_a));
        self.x = x as i64;
        self.y = y as i64;
    }
}

/// One component of a truncated normalization: scaled back up by the raw
/// magnitude, its square sits within `2 |w_i| SCALE d` below the exact
/// square `(w_i SCALE)^2`.
proof fn lemma_unit_component(wi: int, d: int)
    requires
        1 <= d,
        -d <= wi <= d,
    ensures
        ({
            let u = div_trunc(wi * SCALE, d);
            (d * u) * (d * u) <= (wi * SCALE) * (wi * SCALE) && (d * u) * (d * u) >= (wi * SCALE)
                * (wi * SCALE) - 2 * ((if wi >= 0 {
                wi
            } else {
                -wi
            }) * SCALE) * d && -SCALE <= u <= SCALE
        }),
{
    let sc = SCALE as int;
    lemma_mul_bound(wi, sc, d, sc);
    lemma_div_trunc_bound(wi * sc, d, d * sc);
    assert((d * sc) / d == sc) by (nonlinear_arith)
        requires
            d >= 1 && sc >= 0;
    let u = div_trunc(wi * sc, d);
    if wi >= 0 {
        vstd::arithmetic::div_mod::lemma_fundamental_div_mod(wi * sc, d);
        let r = (wi * sc) % d;
        vstd::arithmetic::div_mod::lemma_mod_bound(wi * sc, d);
        vstd::arithmetic::div_mod::lemma_div_pos_is_pos(wi * sc, d);
        assert(wi * sc >= 0) by (nonlinear_arith)
            requires
                wi >= 0 && sc >= 0;
        assert(d * u == wi * sc - r) by (nonlinear_arith)
            requires
                wi * sc == d * ((wi * sc) / d) + r && u == (wi * sc) / d;
        assert((d * u) * (d * u) <= (wi * sc) * (wi * sc) && (d * u) * (d * u) >= (wi * sc) * (wi
            * sc) - 2 * (wi * sc) * d) by (nonlinear_arith)
            requires
                d * u == wi * sc - r && 0 <= r < d && 0 <= d * u && 0 <= wi * sc;
    } else {
        let m = -wi;
        vstd::arithmetic::div_mod::lemma_fundamental_div_mod(m * sc, d);
        let r = (m * sc) % d;
        vstd::arithmetic::div_mod::lemma_mod_bound(m * sc, d);
        vstd::arithmetic::div_mod::lemma_div_pos_is_pos(m * sc, d);
        assert(m * sc >= 0) by (nonlinear_arith)
            requires
                m >= 0 && sc >= 0;
        assert(m * sc == -(wi * sc)) by (nonlinear_arith)
            requires
                m == -wi;
        assert(d * (-u) == m * sc - r) by (nonlinear_arith)
            requires
                m * sc == d * ((m * sc) / d) + r && u == -((m * sc) / d);
        assert((d * u) * (d * u) <= (wi * sc) * (wi * sc) && (d * u) * (d * u) >= (wi * sc) * (wi
            * sc) - 2 * (m * sc) * d) by (nonlinear_arith)
            requires
                d * (-u) == m * sc - r && 0 <= r < d && 0 <= d * (-u) && 0 <= m * sc && m * sc
                    == -(wi * sc);
    }
}

/// Unit magnitude of a normalized vector, in exact integer terms: scaled
/// back up by the squared raw magnitude `d * d`, the squared magnitude of
/// `v_unit(w)` sits between `(SCALE d)^2 - 6 SCALE d^2` and
/// `(SCALE (d+1))^2`.
pub proof fn lemma_unit_magnitude(w: Vec3)
    requires
        norm2(w) > 0,
    ensures
        ({
            let u = v_unit(w);
            let d = v_len(w);
            (d * d) * norm2(u) <= (SCALE * SCALE) * ((d + 1) * (d + 1)) && (d * d) * norm2(u) >= (
            SCALE * SCALE) * (d * d) - 6 * SCALE * (d * d)
        }),
{
    let sc = SCALE as int;
    let d = v_len(w);
    let u = v_unit(w);
    lemma_sqrt_floor_is_sqrt(norm2(w));
    lemma_len_bounds_components(w);
    assert(d >= 1) by (nonlinear_arith)
        requires
            is_sqrt(norm2(w), d) && norm2(w) > 0;
    lemma_unit_component(w.x, d);
    lemma_unit_component(w.y, d);
    lemma_unit_component(w.z, d);
    let ax = if w.x >= 0 {
        w.x
    } else {
        -w.x
    };
    let ay = if w.y >= 0 {
        w.y
    } else {
        -w.y
    };
    let az = if w.z >= 0 {
        w.z
    } else {
        -w.z
    };
    assert((d * u.x) * (d * u.x) == (d * d) * (u.x * u.x)) by (nonlinear_arith);
    assert((d * u.y) * (d * u.y) == (d * d) * (u.y * u.y)) by (nonlinear_arith);
    assert((d * u.z) * (d * u.z) == (d * d) * (u.z * u.z)) by (nonlinear_arith);
    assert((d * d) * norm2(u) == (d * d) * (u.x * u.x) + (d * d) * (u.y * u.y) + (d * d) * (u.z
        * u.z)) by (nonlinear_arith)
        requires
            norm2(u) == u.x * u.x + u.y * u.y + u.z * u.z;
    assert((w.x * sc) * (w.x * sc) == (sc * sc) * (w.x * w.x)) by (nonlinear_arith);
    assert((w.y * sc) * (w.y * sc) == (sc * sc) * (w.y * w.y)) by (nonlinear_arith);
    assert((w.z * sc) * (w.z * sc) == (sc * sc) * (w.z * w.z)) by (nonlinear_arith);
    assert((sc * sc) * (w.x * w.x) + (sc * sc) * (w.y * w.y) + (sc * sc) * (w.z * w.z) == (sc
        * sc) * norm2(w)) by (nonlinear_arith)
        requires
            norm2(w) == w.x * w.x + w.y * w.y + w.z * w.z;
    assert((sc * sc) * norm2(w) <= (sc * sc) * ((d + 1) * (d + 1))) by (nonlinear_arith)
        requires
            norm2(w) < (d + 1) * (d + 1) && sc * sc >= 0;
    assert((sc * sc) * norm2(w) >= (sc * sc) * (d * d)) by (nonlinear_arith)
        requires
            norm2(w) >= d * d && sc * sc >= 0;
    assert(2 * (ax * sc) * d + 2 * (ay * sc) * d + 2 * (az * sc) * d <= 6 * sc * (d * d))
        by (nonlinear_arith)
        requires
            0 <= ax <= d && 0 <= ay <= d && 0 <= az <= d && sc >= 0 && d >= 1;
}

/// Unit magnitude of the normal of a vector at least one unit long: its
/// squared raw magnitude differs from an exact unit square by at most a
/// few quanta.
pub proof fn lemma_unit_magnitude_near_one(w: Vec3)
    requires
        norm2(w) >= SCALE * SCALE,
    ensures
        SCALE * SCALE - 6 * SCALE <= norm2(v_unit(w)) <= SCALE * SCALE + 3 * SCALE,
{
    let sc = SCALE as int;
    let d = v_len(w);
    let u = v_unit(w);
    lemma_sqrt_floor_is_sqrt(norm2(w));
    assert(norm2(w) > 0) by (nonlinear_arith)
        requires
            norm2(w) >= sc * sc && sc >= 1;
    lemma_unit_magnitude(w);
    assert(d >= sc) by (nonlinear_arith)
        requires
            is_sqrt(norm2(w), d) && norm2(w) >= sc * sc && sc >= 1;
    assert(norm2(u) <= sc * sc + 3 * sc) by (nonlinear_arith)
        requires
            (d * d) * norm2(u) <= (sc * sc) * ((d + 1) * (d + 1)) && d >= sc && sc >= 2;
    assert(norm2(u) >= sc * sc - 6 * sc) by (nonlinear_arith)
        requires
            (d * d) * norm2(u) >= (sc * sc) * (d * d) - 6 * sc * (d * d) && d >= 1;
}

/// A rotation by a raw sine and cosine at most doubles the component
/// bound of a vector.
pub proof fn lemma_rot_in_range(a: Vec3, s: int, c: int, m: int)
    requires
        in_range(a, m),
        0 <= m,
        -SCALE <= s <= SCALE,
        -SCALE <= c <= SCALE,
    ensures
        in_range(v_rot_x(a, s, c), 2 * m),
        in_range(v_rot_y(a, s, c), 2 * m),
        in_range(v_rot_z(a, s, c), 2 * m),
{
    let sc = SCALE as int;
    lemma_mul_bound(a.x, s, m, sc);
    lemma_mul_bound(a.x, c, m, sc);
    lemma_mul_bound(a.y, s, m, sc);
    lemma_mul_bound(a.y, c, m, sc);
    lemma_mul_bound(a.z, s, m, sc);
    lemma_mul_bound(a.z, c, m, sc);
    lemma_div_trunc_bound(a.y * c - a.z * s, sc, 2 * (m * sc));
    lemma_div_trunc_bound(a.y * s + a.z * c, sc, 2 * (m * sc));
    lemma_div_trunc_bound(a.x * c + a.z * s, sc, 2 * (m * sc));
    lemma_div_trunc_bound(a.z * c - a.x * s, sc, 2 * (m * sc));
    lemma_div_trunc_bound(a.x * c - a.y * s, sc, 2 * (m * sc));
    lemma_div_trunc_bound(a.x * s + a.y * c, sc, 2 * (m * sc));
    assert((2 * (m * sc)) / sc == 2 * m) by (nonlinear_arith)
        requires
            sc >= 1 && m >= 0;
}

/// Bounds for the intermediate terms of a cross product of two vectors
/// whose components are within `DIR_MAX`.
proof fn lemma_cross_term_bounds(a: Vec3, b: Vec3)
    requires
        in_range(a, DIR_MAX as int),
        in_range(b, DIR_MAX as int),
    ensures
        -0x800000000000000 <= div_trunc(a.y * b.z - a.z * b.y, SCALE as int)
            <= 0x800000000000000,
        -0x800000000000000 <= div_trunc(a.z * b.x - a.x * b.z, SCALE as int)
            <= 0x800000000000000,
        -0x800000000000000 <= div_trunc(a.x * b.y - a.y * b.x, SCALE as int)
            <= 0x800000000000000,
        -0x800000000000000000000 <= a.y * b.z - a.z * b.y <= 0x800000000000000000000,
        -0x800000000000000000000 <= a.z * b.x - a.x * b.z <= 0x800000000000000000000,
        -0x800000000000000000000 <= a.x * b.y - a.y * b.x <= 0x800000000000000000000,
        -0x400000000000000000000 <= a.y * b.z <= 0x400000000000000000000,
        -0x400000000000000000000 <= a.z * b.y <= 0x400000000000000000000,
        -0x400000000000000000000 <= a.z * b.x <= 0x400000000000000000000,
        -0x400000000000000000000 <= a.x * b.z <= 0x400000000000000000000,
        -0x400000000000000000000 <= a.x * b.y <= 0x400000000000000000000,
        -0x400000000000000000000 <= a.y * b.x <= 0x400000000000000000000,
{
    let m = DIR_MAX as int;
    let mm = m * m;
    lemma_mul_bound(a.x, b.x, m, m);
    lemma_mul_bound(a.x, b.y, m, m);
    lemma_mul_bound(a.x, b.z, m, m);
    lemma_mul_bound(a.y, b.x, m, m);
    lemma_mul_bound(a.y, b.y, m, m);
    lemma_mul_bound(a.y, b.z, m, m);
    lemma_mul_bound(a.z, b.x, m, m);
    lemma_mul_bound(a.z, b.y, m, m);
    lemma_mul_bound(a.z, b.z, m, m);
    assert(mm == 0x400000000000000000000);
    lemma_div_trunc_bound(a.y * b.z - a.z * b.y, SCALE as int, 2 * mm);
    lemma_div_trunc_bound(a.z * b.x - a.x * b.z, SCALE as int, 2 * mm);
    lemma_div_trunc_bound(a.x * b.y - a.y * b.x, SCALE as int, 2 * mm);
    assert((2 * mm) / (SCALE as int) == 0x800000000000000);
}

/// Bounds for the intermediate terms of a dot product of two vectors
/// whose components are within `DIR_MAX`.
proof fn lemma_dot_term_bounds(a: Vec3, b: Vec3)
    requires
        in_range(a, DIR_MAX as int),
        in_range(b, DIR_MAX as int),
    ensures
        -0xC00000000000000 <= v_dot(a, b) <= 0xC00000000000000,
        -0xC00000000000000000000 <= a.x * b.x + a.y * b.y + a.z * b.z
            <= 0xC00000000000000000000,
        -0x400000000000000000000 <= a.x * b.x <= 0x400000000000000000000,
        -0x400000000000000000000 <= a.y * b.y <= 0x400000000000000000000,
        -0x400000000000000000000 <= a.z * b.z <= 0x400000000000000000000,
{
    let m = DIR_MAX as int;
    let mm = m * m;
    lemma_mul_bound(a.x, b.x, m, m);
    lemma_mul_bound(a.y, b.y, m, m);
    lemma_mul_bound(a.z, b.z, m, m);
    assert(mm == 0x400000000000000000000);
    lemma_div_trunc_bound(a.x * b.x + a.y * b.y + a.z * b.z, SCALE as int, 3 * mm);
    assert((3 * mm) / (SCALE as int) == 0xC00000000000000);
}

/// Bounds for the intermediate terms of a rotation of a vector whose
/// components are within `DIR_MAX`, by sine and cosine within `SCALE`.
proof fn lemma_rot_term_bounds(a: Vec3, s: int, c: int)
    requires
        in_range(a, DIR_MAX as int),
        -SCALE <= s <= SCALE,
        -SCALE <= c <= SCALE,
    ensures
        -2 * DIR_MAX as int <= div_trunc(a.y * c - a.z * s, SCALE as int) <= 2 * DIR_MAX as int,
        -2 * DIR_MAX as int <= div_trunc(a.y * s + a.z * c, SCALE as int) <= 2 * DIR_MAX as int,
        -2 * DIR_MAX as int <= div_trunc(a.x * c + a.z * s, SCALE as int) <= 2 * DIR_MAX as int,
        -2 * DIR_MAX as int <= div_trunc(a.z * c - a.x * s, SCALE as int) <= 2 * DIR_MAX as int,
        -2 * DIR_MAX as int <= div_trunc(a.x * c - a.y * s, SCALE as int) <= 2 * DIR_MAX as int,
        -2 * DIR_MAX as int <= div_trunc(a.x * s + a.y * c, SCALE as int) <= 2 * DIR_MAX as int,
        -(DIR_MAX as int * SCALE as int) <= a.x * s <= DIR_MAX as int * SCALE as int,
        -(DIR_MAX as int * SCALE as int) <= a.x * c <= DIR_MAX as int * SCALE as int,
        -(DIR_MAX as int * SCALE as int) <= a.y * s <= DIR_MAX as int * SCALE as int,
        -(DIR_MAX as int * SCALE as int) <= a.y * c <= DIR_MAX as int * SCALE as int,
        -(DIR_MAX as int * SCALE as int) <= a.z * s <= DIR_MAX as int * SCALE as int,
        -(DIR_MAX as int * SCALE as int) <= a.z * c <= DIR_MAX as int * SCALE as int,
{
    let m = DIR_MAX as int;
    let sc = SCALE as int;
    lemma_mul_bound(a.x, s, m, sc);
    lemma_mul_bound(a.x, c, m, sc);
    lemma_mul_bound(a.y, s, m, sc);
    lemma_mul_bound(a.y, c, m, sc);
    lemma_mul_bound(a.z, s, m, sc);
    lemma_mul_bound(a.z, c, m, sc);
    lemma_div_trunc_bound(a.y * c - a.z * s, sc, 2 * (m * sc));
    lemma_div_trunc_bound(a.y * s + a.z * c, sc, 2 * (m * sc));
    lemma_div_trunc_bound(a.x * c + a.z * s, sc, 2 * (m * sc));
    lemma_div_trunc_bound(a.z * c - a.x * s, sc, 2 * (m * sc));
    lemma_div_trunc_bound(a.x * c - a.y * s, sc, 2 * (m * sc));
    lemma_div_trunc_bound(a.x * s + a.y * c, sc, 2 * (m * sc));
    assert((2 * (m * sc)) / sc == 2 * m) by (nonlinear_arith)
        requires
            sc >= 1 && m >= 0 && sc == SCALE as int && m == DIR_MAX as int;
}

} // verus!
