//! Shapes: a sphere and an axis-aligned horizontal plane ("rectangle"),
//! closed under a tagged union, each with an exact collision
//! specification.

use crate::fixed::{
    div_trunc, div_wide, is_sqrt, isqrt_i128, lemma_div_trunc_bound, lemma_div_trunc_le,
    lemma_mul_bound, lemma_sqrt_floor_is_sqrt, lemma_sqrt_floor_le, mul_wide, sqrt_floor,
    COORD_MAX, DIR_MAX, SCALE,
};
use crate::material::{wf_material, Material};
use crate::pixel::Color;
use crate::ray::{dist_to_line, wf_ray, Ray};
use crate::vector::{
    in_range, norm2, v_add, v_len, v_scale, v_sub, v_unit, Vec3, Vector,
};
use vstd::prelude::*;

verus! {

/// Tolerance on how far a queried point may stand from a sphere's surface
/// and still receive a normal vector.
pub const NORMAL_TOL: i64 = 1677;

/// Threshold on the rectangle's ray parameter: hits closer than this are
/// treated as grazing and rejected.
pub const PARAM_EPS: i64 = 167;

/// Largest accepted raw ray parameter for a sphere hit; beyond it the
/// intersection point could not be a scene coordinate anyway.
pub const T_LIMIT: i128 = 0x100000000000000000000;

/// Truncating division with a divisor of either sign.
pub open spec fn div_trunc_s(a: int, b: int) -> int {
    if b >= 0 {
        div_trunc(a, b)
    } else {
        div_trunc(-a, -b)
    }
}

/// A sphere given by its radius and center.
#[derive(Clone, Copy, Debug, PartialEq, Eq, Structural)]
pub struct Sphere {
    pub radius: i64,
    pub position: Vector,
    pub material: Material,
}

/// An axis-aligned horizontal plane through `first_corner` (the stored
/// extents do not limit it).
#[derive(Clone, Copy, Debug)]
pub struct Rectangle {
    pub first_corner: Vector,
    pub dimensions: (i64, i64),
    pub material: Material,
}

/// A shape of the scene.
#[derive(Clone, Copy, Debug)]
pub enum Shape {
    Sphere(Sphere),
    Rectangle(Rectangle),
}

/// The sphere has a positive radius and stands at a scene coordinate.
pub open spec fn wf_sphere(s: Sphere) -> bool {
    1 <= s.radius <= COORD_MAX && in_range(s.position@, COORD_MAX as int) && wf_material(
        s.material,
    )
}

/// The plane's corner is a scene coordinate.
pub open spec fn wf_rectangle(r: Rectangle) -> bool {
    in_range(r.first_corner@, COORD_MAX as int) && -COORD_MAX <= r.dimensions.0 <= COORD_MAX
        && -COORD_MAX <= r.dimensions.1 <= COORD_MAX && wf_material(r.material)
}

/// Well-formedness of a shape.
pub open spec fn wf_shape(s: Shape) -> bool {
    match s {
        Shape::Sphere(sp) => wf_sphere(sp),
        Shape::Rectangle(re) => wf_rectangle(re),
    }
}

/// The ray's carrying line passes within the sphere's radius of its
/// center (the cheap pre-check; it ignores the ray's orientation).
pub open spec fn sphere_can_collide(s: Sphere, ray: Ray) -> bool {
    norm2(ray.direction@) > 0 && dist_to_line(ray, s.position@) <= s.radius
}

/// The first intersection of the ray with the sphere, from the quadratic
/// for the ray parameter `t`: `None` when the pre-check fails, when the
/// discriminant is negative, when the hit lies behind the origin, or when
/// the hit could not be a scene coordinate.
pub open spec fn sphere_collision_point_spec(s: Sphere, ray: Ray) -> Option<Vec3> {
    if !sphere_can_collide(s, ray) {
        None
    } else {
        let o = ray.start_position@;
        let d = ray.direction@;
        let oc = v_sub(o, s.position@);
        let a = crate::vector::v_dot(d, d);
        let b = 2 * crate::vector::v_dot(oc, d);
        let c = crate::vector::v_dot(oc, oc) - div_trunc(s.radius * s.radius, SCALE as int);
        let delta = div_trunc(b * b, SCALE as int) - div_trunc(4 * (a * c), SCALE as int);
        if a <= 0 || delta < 0 {
            None
        } else {
            let sq = sqrt_floor(delta * SCALE);
            let t = div_trunc((-b - sq) * SCALE, 2 * a);
            if t < 0 || t > T_LIMIT {
                None
            } else {
                let p = v_add(o, v_scale(d, t));
                if in_range(p, COORD_MAX as int) {
                    Some(p)
                } else {
                    None
                }
            }
        }
    }
}

/// The outward normal of the sphere at a point on (or within tolerance
/// of) its surface.
pub open spec fn sphere_normal_spec(s: Sphere, p: Vec3) -> Option<Vec3> {
    if norm2(v_sub(p, s.position@)) == 0 || v_len(v_sub(s.position@, p)) - s.radius
        > NORMAL_TOL {
        None
    } else {
        Some(v_unit(v_sub(p, s.position@)))
    }
}

/// The raw ray parameter at which the ray meets the plane.
pub open spec fn rect_param_spec(r: Rectangle, ray: Ray) -> int {
    div_trunc_s(
        (r.first_corner@.y - ray.start_position@.y) * SCALE,
        ray.direction@.y,
    )
}

/// The ray crosses the plane in front of its origin, beyond the grazing
/// threshold.
pub open spec fn rect_can_collide(r: Rectangle, ray: Ray) -> bool {
    ray.direction@.y != 0 && rect_param_spec(r, ray) > PARAM_EPS
}

/// The intersection of the ray with the plane: `None` when the ray runs
/// parallel, hits behind the origin, or the hit could not be a scene
/// coordinate.
pub open spec fn rect_collision_point_spec(r: Rectangle, ray: Ray) -> Option<Vec3> {
    if !rect_can_collide(r, ray) {
        None
    } else {
        let p = v_add(ray.start_position@, v_scale(ray.direction@, rect_param_spec(r, ray)));
        if in_range(p, COORD_MAX as int) {
            Some(p)
        } else {
            None
        }
    }
}

/// Whether the pre-check of the shape accepts the ray.
pub open spec fn shape_can_collide(s: Shape, ray: Ray) -> bool {
    match s {
        Shape::Sphere(sp) => sphere_can_collide(sp, ray),
        Shape::Rectangle(re) => rect_can_collide(re, ray),
    }
}

/// The first intersection of the ray with the shape.
pub open spec fn shape_collision_point_spec(s: Shape, ray: Ray) -> Option<Vec3> {
    match s {
        Shape::Sphere(sp) => sphere_collision_point_spec(sp, ray),
        Shape::Rectangle(re) => rect_collision_point_spec(re, ray),
    }
}

/// The outward unit normal of the shape at a surface point.
pub open spec fn shape_normal_spec(s: Shape, p: Vec3) -> Option<Vec3> {
    match s {
        Shape::Sphere(sp) => sphere_normal_spec(sp, p),
        Shape::Rectangle(re) => Some(Vec3 { x: 0, y: -(SCALE as int), z: 0 }),
    }
}

impl Sphere {
    /// Whether the ray's carrying line passes within the radius of the
    /// center.
    pub fn can_collide(&self, ray: &Ray) -> (b: bool)
        requires
            wf_ray(*ray),
            wf_sphere(*self),
        ensures
            b == sphere_can_collide(*self, *ray),
    {
        proof {
            crate::vector::lemma_norm2_bound(ray.direction@, DIR_MAX as int);
        }
        let n2 = {
            let d = ray.direction;
            mul_wide(d.x, d.x) + mul_wide(d.y, d.y) + mul_wide(d.z, d.z)
        };
        if n2 == 0 {
            return false;
        }
        let dist = ray.distance_to_point_wide(self.position);
        dist <= self.radius as i128
    }

    /// The first intersection of the ray with the sphere.
    pub fn collision_point(&self, ray: &Ray) -> (r: Option<Vector>)
        requires
            wf_ray(*ray),
            wf_sphere(*self),
        ensures
            match r {
                Some(p) => sphere_collision_point_spec(*self, *ray) == Some(p@) && in_range(
                    p@,
                    COORD_MAX as int,
                ),
                None => sphere_collision_point_spec(*self, *ray) is None,
            },
    {
        if !self.can_collide(ray) {
            return None;
        }
        let o = ray.start_position;
        let d = ray.direction;
        let oc = o.sub(self.position);
        let a = d.dot(d);
        let b = 2 * oc.dot(d);
        let c = {
            let rr = div_wide(mul_wide(self.radius, self.radius), SCALE as i128);
            proof {
                lemma_mul_bound(self.radius as int, self.radius as int, COORD_MAX as int,
                    COORD_MAX as int);
                lemma_div_trunc_bound(
                    self.radius as int * self.radius as int,
                    SCALE as int,
                    COORD_MAX as int * COORD_MAX as int,
                );
            }
            oc.dot(oc) - (rr as i64)
        };
        let bb = {
            proof {
                lemma_mul_bound(b as int, b as int, 0x1800000000000000, 0x1800000000000000);
                lemma_div_trunc_bound(
                    b as int * b as int,
                    SCALE as int,
                    0x1800000000000000int * 0x1800000000000000,
                );
            }
            div_wide(mul_wide(b, b), SCALE as i128)
        };
        let ac4 = {
            proof {
                lemma_mul_bound(a as int, c as int, 0xC00000000000000, 0xD00000000000000);
                lemma_div_trunc_bound(
                    4 * (a as int * c as int),
                    SCALE as int,
                    4 * (0xC00000000000000int * 0xD00000000000000),
                );
            }
            let w = mul_wide(a, c);
            div_wide(4 * w, SCALE as i128)
        };
        let delta = bb - ac4;
        if a <= 0 || delta < 0 {
            return None;
        }
        let sq = isqrt_i128(delta * (SCALE as i128));
        proof {
            lemma_sqrt_floor_le(delta as int * SCALE as int, 0x800000000000000000);
        }
        let t = div_wide((-(b as i128) - sq) * (SCALE as i128), 2 * (a as i128));
        if t < 0 || t > T_LIMIT {
            return None;
        }
        let px = Self::point_component(o.x, d.x, t);
        let py = Self::point_component(o.y, d.y, t);
        let pz = Self::point_component(o.z, d.z, t);
        if px >= -(COORD_MAX as i128) && px <= COORD_MAX as i128 && py >= -(COORD_MAX as i128)
            && py <= COORD_MAX as i128 && pz >= -(COORD_MAX as i128) && pz
            <= COORD_MAX as i128 {
            Some(Vector { x: px as i64, y: py as i64, z: pz as i64 })
        } else {
            None
        }
    }

    /// One component of `origin + direction * t / SCALE`.
    fn point_component(o: i64, d: i64, t: i128) -> (r: i128)
        requires
            -(DIR_MAX as int) <= d <= DIR_MAX as int,
            0 <= t <= T_LIMIT,
        ensures
            r == o + div_trunc(d * t, SCALE as int),
    {
        proof {
            lemma_mul_bound(d as int, t as int, DIR_MAX as int, T_LIMIT as int);
            lemma_div_trunc_le((d * t) as int, SCALE as int);
        }
        let w = (d as i128) * t;
        let q = crate::fixed::div_scale(w);
        (o as i128) + q
    }

    /// The outward unit normal at a point on or near the surface.
    pub fn normal_at_point(&self, point: &Vector) -> (r: Option<Vector>)
        requires
            wf_sphere(*self),
            in_range(point@, COORD_MAX as int),
        ensures
            match r {
                Some(n) => sphere_normal_spec(*self, point@) == Some(n@) && in_range(
                    n@,
                    SCALE as int,
                ),
                None => sphere_normal_spec(*self, point@) is None,
            },
    {
        let to_point = point.sub(self.position);
        proof {
            crate::vector::lemma_norm2_bound(to_point@, DIR_MAX as int);
        }
        let n2 = mul_wide(to_point.x, to_point.x) + mul_wide(to_point.y, to_point.y)
            + mul_wide(to_point.z, to_point.z);
        if n2 == 0 {
            return None;
        }
        let center_to_point = self.position.sub(*point);
        let distance = center_to_point.distance();
        proof {
            assert(norm2(v_sub(self.position@, point@)) == norm2(
                v_sub(point@, self.position@),
            )) by (nonlinear_arith);
        }
        if distance - self.radius > NORMAL_TOL {
            None
        } else {
            Some(to_point.normalized())
        }
    }

    /// The "up" direction of the sphere.
    pub fn up_direction(&self) -> (v: Vector)
        ensures
            v@.x == 0 && v@.y == 0 && v@.z == SCALE,
    {
        Vector { x: 0, y: 0, z: SCALE }
    }

    /// The center of the sphere.
    pub fn position(&self) -> (v: Vector)
        ensures
            v == self.position,
    {
        self.position
    }

    /// The reflectivity factor of the surface.
    pub fn reflectivity(&self) -> (r: i64)
        ensures
            r == self.material.reflectivity,
    {
        self.material.reflectivity
    }

    /// The color of the surface.
    pub fn color(&self) -> (c: Color)
        ensures
            c == self.material.color,
    {
        self.material.color
    }

    /// Whether the surface is specular.
    pub fn is_specular(&self) -> (b: bool)
        ensures
            b == self.material.is_specular,
    {
        self.material.is_specular
    }
}

impl Rectangle {
    /// A plane from its corner, extents and material.
    pub fn new(first_corner: &Vector, dimensions: &(i64, i64), material: &Material) -> (r:
        Rectangle)
        ensures
            r.first_corner == *first_corner,
            r.dimensions == *dimensions,
            r.material == *material,
    {
        Rectangle {
            first_corner: *first_corner,
            dimensions: (dimensions.0, dimensions.1),
            material: *material,
        }
    }

    /// The raw ray parameter at which the ray meets the plane; requires a
    /// direction with a vertical component.
    fn param(&self, ray: &Ray) -> (t: i128)
        requires
            wf_ray(*ray),
            wf_rectangle(*self),
            ray.direction@.y != 0,
        ensures
            t == rect_param_spec(*self, *ray),
            -(DIR_MAX as int * SCALE as int) <= t <= DIR_MAX as int * SCALE as int,
    {
        let y_diff = self.first_corner.y - ray.start_position.y;
        let num = mul_wide(y_diff, SCALE);
        proof {
            lemma_mul_bound(y_diff as int, SCALE as int, DIR_MAX as int, SCALE as int);
            lemma_div_trunc_le(y_diff as int * SCALE as int, if ray.direction@.y >= 0 {
                ray.direction@.y
            } else {
                -ray.direction@.y
            });
            lemma_div_trunc_le(-(y_diff as int * SCALE as int), if ray.direction@.y >= 0 {
                ray.direction@.y
            } else {
                -ray.direction@.y
            });
        }
        if ray.direction.y > 0 {
            div_wide(num, ray.direction.y as i128)
        } else {
            div_wide(-num, -(ray.direction.y as i128))
        }
    }

    /// Whether the ray crosses the plane in front of its origin.
    pub fn can_collide(&self, ray: &Ray) -> (b: bool)
        requires
            wf_ray(*ray),
            wf_rectangle(*self),
        ensures
            b == rect_can_collide(*self, *ray),
    {
        if ray.direction.y == 0 {
            return false;
        }
        let t = self.param(ray);
        t > PARAM_EPS as i128
    }

    /// The intersection of the ray with the plane.
    pub fn collision_point(&self, ray: &Ray) -> (r: Option<Vector>)
        requires
            wf_ray(*ray),
            wf_rectangle(*self),
        ensures
            match r {
                Some(p) => rect_collision_point_spec(*self, *ray) == Some(p@) && in_range(
                    p@,
                    COORD_MAX as int,
                ),
                None => rect_collision_point_spec(*self, *ray) is None,
            },
    {
        if !self.can_collide(ray) {
            return None;
        }
        let t = self.param(ray);
        let o = ray.start_position;
        let d = ray.direction;
        let px = Self::plane_component(o.x, d.x, t);
        let py = Self::plane_component(o.y, d.y, t);
        let pz = Self::plane_component(o.z, d.z, t);
        if px >= -(COORD_MAX as i128) && px <= COORD_MAX as i128 && py >= -(COORD_MAX as i128)
            && py <= COORD_MAX as i128 && pz >= -(COORD_MAX as i128) && pz
            <= COORD_MAX as i128 {
            Some(Vector { x: px as i64, y: py as i64, z: pz as i64 })
        } else {
            None
        }
    }

    /// One component of `origin + direction * t / SCALE`.
    fn plane_component(o: i64, d: i64, t: i128) -> (r: i128)
        requires
            -(DIR_MAX as int) <= d <= DIR_MAX as int,
            -0x200000000000000000 <= t <= 0x200000000000000000,
        ensures
            r == o + div_trunc(d * t, SCALE as int),
    {
        proof {
            lemma_mul_bound(d as int, t as int, DIR_MAX as int, 0x200000000000000000);
            lemma_div_trunc_le((d * t) as int, SCALE as int);
        }
        let w = (d as i128) * t;
        let q = crate::fixed::div_scale(w);
        (o as i128) + q
    }

    /// The outward unit normal of the plane.
    pub fn normal_at_point(&self, _point: &Vector) -> (r: Option<Vector>)
        ensures
            match r {
                Some(n) => n@ == (Vec3 { x: 0, y: -(SCALE as int), z: 0 }),
                None => false,
            },
    {
        Some(Vector { x: 0, y: -SCALE, z: 0 })
    }

    /// The "up" direction of the plane.
    pub fn up_direction(&self) -> (v: Vector)
        ensures
            v@.x == 0 && v@.y == -SCALE && v@.z == 0,
    {
        Vector { x: 0, y: -SCALE, z: 0 }
    }

    /// The corner of the plane.
    pub fn position(&self) -> (v: Vector)
        ensures
            v == self.first_corner,
    {
        self.first_corner
    }

    /// The reflectivity factor of the surface.
    pub fn reflectivity(&self) -> (r: i64)
        ensures
            r == self.material.reflectivity,
    {
        self.material.reflectivity
    }

    /// The color of the surface.
    pub fn color(&self) -> (c: Color)
        ensures
            c == self.material.color,
    {
        self.material.color
    }

    /// Whether the surface is specular.
    pub fn is_specular(&self) -> (b: bool)
        ensures
            b == self.material.is_specular,
    {
        self.material.is_specular
    }
}

impl Shape {
    /// Whether the cheap pre-check accepts the ray.
    pub fn can_collide(&self, ray: &Ray) -> (b: bool)
        requires
            wf_ray(*ray),
            wf_shape(*self),
        ensures
            b == shape_can_collide(*self, *ray),
    {
        match self {
            Shape::Sphere(s) => s.can_collide(ray),
            Shape::Rectangle(r) => r.can_collide(ray),
        }
    }

    /// The first intersection of the ray with the shape.
    pub fn collision_point(&self, ray: &Ray) -> (r: Option<Vector>)
        requires
            wf_ray(*ray),
            wf_shape(*self),
        ensures
            match r {
                Some(p) => shape_collision_point_spec(*self, *ray) == Some(p@) && in_range(
                    p@,
                    COORD_MAX as int,
                ),
                None => shape_collision_point_spec(*self, *ray) is None,
            },
    {
        match self {
            Shape::Sphere(s) => s.collision_point(ray),
            Shape::Rectangle(r) => r.collision_point(ray),
        }
    }

    /// The outward unit normal of the shape at a surface point.
    pub fn normal_at_point(&self, point: &Vector) -> (r: Option<Vector>)
        requires
            wf_shape(*self),
            in_range(point@, COORD_MAX as int),
        ensures
            match r {
                Some(n) => shape_normal_spec(*self, point@) == Some(n@) && in_range(
                    n@,
                    SCALE as int,
                ),
                None => shape_normal_spec(*self, point@) is None,
            },
    {
        match self {
            Shape::Sphere(s) => s.normal_at_point(point),
            Shape::Rectangle(r) => r.normal_at_point(point),
        }
    }

    /// The reference position of the shape.
    pub fn position(&self) -> (v: Vector)
        ensures
            v == match *self {
                Shape::Sphere(s) => s.position,
                Shape::Rectangle(r) => r.first_corner,
            },
    {
        match self {
            Shape::Sphere(s) => s.position(),
            Shape::Rectangle(r) => r.position(),
        }
    }

    /// The material of the shape.
    pub fn material(&self) -> (m: Material)
        ensures
            m == shape_material(*self),
    {
        match self {
            Shape::Sphere(s) => s.material,
            Shape::Rectangle(r) => r.material,
        }
    }

    /// The reflectivity factor of the surface.
    pub fn reflectivity(&self) -> (r: i64)
        ensures
            r == shape_material(*self).reflectivity,
    {
        self.material().reflectivity
    }

    /// The color of the surface.
    pub fn color(&self) -> (c: Color)
        ensures
            c == shape_material(*self).color,
    {
        self.material().color
    }

    /// Whether the surface is specular.
    pub fn is_specular(&self) -> (b: bool)
        ensures
            b == shape_material(*self).is_specular,
    {
        self.material().is_specular
    }
}

/// A shape yields a collision point only when its pre-check accepts the
/// ray; a rejected pre-check always yields `None`.
pub proof fn lemma_collision_needs_can_collide(s: Shape, ray: Ray)
    ensures
        !shape_can_collide(s, ray) ==> shape_collision_point_spec(s, ray) is None,
        shape_collision_point_spec(s, ray) is Some ==> shape_can_collide(s, ray),
{
}

/// When the query of a sphere returns `None` although its pre-check
/// accepted the ray, the ray parameter of the first intersection is
/// negative (the hit lies strictly behind the origin), the quadratic is
/// degenerate or has no solution, or the hit could not be a scene
/// coordinate: together with `lemma_collision_needs_can_collide`, the
/// query is `None` exactly when the pre-check fails or no acceptable
/// forward hit exists.
pub proof fn lemma_sphere_collision_point_none(s: Sphere, ray: Ray)
    ensures
        ({
            let o = ray.start_position@;
            let d = ray.direction@;
            let oc = v_sub(o, s.position@);
            let a = crate::vector::v_dot(d, d);
            let b = 2 * crate::vector::v_dot(oc, d);
            let c = crate::vector::v_dot(oc, oc) - div_trunc(s.radius * s.radius, SCALE as int);
            let delta = div_trunc(b * b, SCALE as int) - div_trunc(4 * (a * c), SCALE as int);
            let t = div_trunc((-b - sqrt_floor(delta * SCALE)) * SCALE, 2 * a);
            let p = v_add(o, v_scale(d, t));
            sphere_collision_point_spec(s, ray) is None <==> (!sphere_can_collide(s, ray) || a
                <= 0 || delta < 0 || t < 0 || t > T_LIMIT || !in_range(p, COORD_MAX as int))
        }),
{
}

/// The query of the plane is `None` exactly when its pre-check rejects
/// the ray (the ray runs parallel to the plane or meets it behind the
/// origin) or the hit could not be a scene coordinate.
pub proof fn lemma_rect_collision_point_none(r: Rectangle, ray: Ray)
    ensures
        rect_collision_point_spec(r, ray) is None <==> (!rect_can_collide(r, ray) || !in_range(
            v_add(ray.start_position@, v_scale(ray.direction@, rect_param_spec(r, ray))),
            COORD_MAX as int,
        )),
{
}

/// One component of the surface reconstruction: scaled back up by the raw
/// magnitude, its square sits within `2 |w_i| SCALE d` below the exact
/// square `(w_i SCALE)^2`.
#[verifier::rlimit(100)]
proof fn lemma_reconstruct_component(wi: int, d: int, r: int, tol: int)
    requires
        1 <= d,
        -d <= wi <= d,
        0 <= r,
        -tol <= r - d <= tol,
        0 <= tol,
    ensures
        ({
            let n = div_trunc(wi * SCALE, d);
            let q = div_trunc(r * n, SCALE as int);
            -(tol + r / (SCALE as int) + 1) <= q - wi <= tol + r / (SCALE as int) + 1
        }),
{
    let sc = SCALE as int;
    let n = div_trunc(wi * sc, d);
    let q = div_trunc(r * n, sc);
    crate::fixed::lemma_div_trunc_err(wi * sc, d);
    crate::fixed::lemma_div_trunc_err(r * n, sc);
    assert(-(d * (sc - 1)) <= d * (r * n) - d * (sc * q) <= d * (sc - 1)) by (nonlinear_arith)
        requires
            -(sc - 1) <= r * n - sc * q <= sc - 1 && d >= 1;
    assert(-(r * (d - 1)) <= r * (wi * sc) - r * (d * n) <= r * (d - 1)) by (nonlinear_arith)
        requires
            -(d - 1) <= wi * sc - d * n <= d - 1 && r >= 0;
    assert(-(sc * (d * tol)) <= sc * (wi * r) - sc * (wi * d) <= sc * (d * tol))
        by (nonlinear_arith)
        requires
            -d <= wi <= d && -tol <= r - d <= tol && sc >= 0 && 0 <= tol;
    assert(d * (sc * q) - d * (sc * wi) == (d * (sc * q) - d * (r * n)) + (r * (d * n) - r * (wi
        * sc)) + (sc * (wi * r) - sc * (wi * d))) by (nonlinear_arith);
    assert(-(sc + r + sc * tol) <= sc * q - sc * wi <= sc + r + sc * tol) by (nonlinear_arith)
        requires
            -(d * (sc - 1)) <= d * (r * n) - d * (sc * q) <= d * (sc - 1),
            -(r * (d - 1)) <= r * (wi * sc) - r * (d * n) <= r * (d - 1),
            -(sc * (d * tol)) <= sc * (wi * r) - sc * (wi * d) <= sc * (d * tol),
            d * (sc * q) - d * (sc * wi) == (d * (sc * q) - d * (r * n)) + (r * (d * n) - r * (
            wi * sc)) + (sc * (wi * r) - sc * (wi * d)),
            d >= 1,
            r >= 0,
            sc >= 1,
            tol >= 0;
    vstd::arithmetic::div_mod::lemma_fundamental_div_mod(r, sc);
    vstd::arithmetic::div_mod::lemma_mod_bound(r, sc);
    assert(-(tol + r / sc + 1) <= q - wi <= tol + r / sc + 1) by (nonlinear_arith)
        requires
            -(sc + r + sc * tol) <= sc * q - sc * wi <= sc + r + sc * tol && r <= sc * (r / sc)
                + sc - 1 && 0 <= r / sc && sc >= 1 && tol >= 0;
}

/// Surface reconstruction: for a point within tolerance of the sphere's
/// surface, the center plus the radius times the reported normal lands,
/// component by component, within the tolerance plus the radius' own
/// quantization of the point.
pub proof fn lemma_normal_reconstructs_point(s: Sphere, p: Vec3)
    requires
        0 <= s.radius,
        norm2(v_sub(p, s.position@)) > 0,
        s.radius - NORMAL_TOL <= v_len(v_sub(p, s.position@)) <= s.radius + NORMAL_TOL,
    ensures
        sphere_normal_spec(s, p) == Some(v_unit(v_sub(p, s.position@))),
        ({
            let n = v_unit(v_sub(p, s.position@));
            let bound = NORMAL_TOL + s.radius / SCALE + 1;
            let qx = div_trunc(s.radius * n.x, SCALE as int);
            let qy = div_trunc(s.radius * n.y, SCALE as int);
            let qz = div_trunc(s.radius * n.z, SCALE as int);
            &&& -bound <= (s.position@.x + qx) - p.x <= bound
            &&& -bound <= (s.position@.y + qy) - p.y <= bound
            &&& -bound <= (s.position@.z + qz) - p.z <= bound
        }),
{
    let w = v_sub(p, s.position@);
    let d = v_len(w);
    crate::vector::lemma_norm2_flip(s.position@, p);
    crate::fixed::lemma_sqrt_floor_is_sqrt(norm2(w));
    crate::vector::lemma_len_bounds_components(w);
    assert(d >= 1) by (nonlinear_arith)
        requires
            crate::fixed::is_sqrt(norm2(w), d) && norm2(w) > 0;
    lemma_reconstruct_component(w.x, d, s.radius as int, NORMAL_TOL as int);
    lemma_reconstruct_component(w.y, d, s.radius as int, NORMAL_TOL as int);
    lemma_reconstruct_component(w.z, d, s.radius as int, NORMAL_TOL as int);
}

/// The plane's hit point sits on the plane: its height differs from the
/// corner's by at most one whole unit plus the direction's own
/// quantization.
pub proof fn lemma_rect_hit_on_plane(r: Rectangle, ray: Ray)
    requires
        rect_collision_point_spec(r, ray) is Some,
    ensures
        ({
            let p = rect_collision_point_spec(r, ray).unwrap();
            let dy = if ray.direction@.y >= 0 {
                ray.direction@.y
            } else {
                -ray.direction@.y
            };
            -(dy / (SCALE as int) + 1) <= p.y - r.first_corner@.y <= dy / (SCALE as int) + 1
        }),
{
    let sc = SCALE as int;
    let o = ray.start_position@.y;
    let cy = r.first_corner@.y;
    let dyr = ray.direction@.y;
    let d = if dyr >= 0 {
        dyr
    } else {
        -dyr
    };
    let a = (cy - o) * sc;
    let ap = if dyr >= 0 {
        a
    } else {
        -a
    };
    let t = rect_param_spec(r, ray);
    assert(t == div_trunc(ap, d));
    crate::fixed::lemma_div_trunc_err(ap, d);
    assert(-(d - 1) <= dyr * t - a <= d - 1) by (nonlinear_arith)
        requires
            -(d - 1) <= ap - d * t <= d - 1 && (dyr >= 0 ==> d == dyr && ap == a) && (dyr < 0
                ==> d == -dyr && ap == -a);
    let q = div_trunc(dyr * t, sc);
    crate::fixed::lemma_div_trunc_err(dyr * t, sc);
    let p = rect_collision_point_spec(r, ray).unwrap();
    assert(p.y == o + q);
    assert(sc * (p.y - cy) == (sc * q - dyr * t) + (dyr * t - a)) by (nonlinear_arith)
        requires
            p.y == o + q && a == (cy - o) * sc;
    vstd::arithmetic::div_mod::lemma_fundamental_div_mod(d, sc);
    vstd::arithmetic::div_mod::lemma_mod_bound(d, sc);
    assert(-(d / sc + 1) <= p.y - cy <= d / sc + 1) by (nonlinear_arith)
        requires
            -(sc - 1 + d - 1) <= sc * (p.y - cy) <= sc - 1 + d - 1 && d <= sc * (d / sc) + sc
                - 1 && 0 <= d / sc && sc >= 1;
}

/// The material of a shape.
pub open spec fn shape_material(s: Shape) -> Material {
    match s {
        Shape::Sphere(sp) => sp.material,
        Shape::Rectangle(re) => re.material,
    }
}

} // verus!
