//! The scene: an ordered list of shapes and lights, and the nearest-hit
//! query that every primary, scattered and shadow ray goes through.

use crate::fixed::COORD_MAX;
use crate::lightsource::{wf_light, Lightsource};
use crate::ray::{wf_ray, Ray};
use crate::shapes::{shape_can_collide, shape_collision_point_spec, wf_shape, Shape};
use crate::vector::{in_range, v_len, v_sub, Vec3, Vector};
use vstd::prelude::*;

verus! {

/// The collision query of one shape, gated by its cheap pre-check.
pub open spec fn shape_query(s: Shape, ray: Ray) -> Option<Vec3> {
    if shape_can_collide(s, ray) {
        shape_collision_point_spec(s, ray)
    } else {
        None
    }
}

/// Raw distance from the ray's origin to a hit point.
pub open spec fn hit_dist(ray: Ray, p: Vec3) -> int {
    v_len(v_sub(p, ray.start_position@))
}

/// The nearest hit among the first `n` shapes: the index and point of the
/// hit with the smallest raw distance from the ray's origin, the earliest
/// such shape on ties.
pub open spec fn nearest_hit_upto(shapes: Seq<Shape>, ray: Ray, n: int) -> Option<(int, Vec3)>
    decreases n,
{
    if n <= 0 {
        None
    } else {
        let prev = nearest_hit_upto(shapes, ray, n - 1);
        match shape_query(shapes[n - 1], ray) {
            Option::None => prev,
            Option::Some(p) => match prev {
                Option::None => Some(((n - 1) as int, p)),
                Option::Some(pr) => if hit_dist(ray, p) < hit_dist(ray, pr.1) {
                    Some(((n - 1) as int, p))
                } else {
                    prev
                },
            },
        }
    }
}

/// What the nearest hit means: the returned shape is hit at the returned
/// point, no shape is hit strictly closer, and among shapes hit at the
/// same distance the earliest index wins.
pub proof fn lemma_nearest_hit_props(shapes: Seq<Shape>, ray: Ray, n: int)
    requires
        0 <= n <= shapes.len(),
    ensures
        match nearest_hit_upto(shapes, ray, n) {
            Option::Some(pr) => {
                &&& 0 <= pr.0 < n
                &&& shape_query(shapes[pr.0], ray) == Some(pr.1)
                &&& forall|j: int|
                    0 <= j < n ==> match #[trigger] shape_query(shapes[j], ray) {
                        Option::Some(q) => hit_dist(ray, pr.1) <= hit_dist(ray, q) && (hit_dist(
                            ray,
                            pr.1,
                        ) == hit_dist(ray, q) ==> pr.0 <= j),
                        Option::None => true,
                    }
            },
            Option::None => forall|j: int|
                0 <= j < n ==> #[trigger] shape_query(shapes[j], ray) is None,
        },
    decreases n,
{
    if n > 0 {
        lemma_nearest_hit_props(shapes, ray, n - 1);
    }
}

/// Nearest-hit selection between two overlapping shapes: when the surface
/// of one is strictly closer along the ray it wins the query whichever of
/// the two was inserted first, and at exactly equal distances the
/// earlier-inserted shape wins.
pub proof fn lemma_nearest_hit_selection(a: Shape, b: Shape, ray: Ray, pa: Vec3, pb: Vec3)
    requires
        shape_query(a, ray) == Some(pa),
        shape_query(b, ray) == Some(pb),
    ensures
        hit_dist(ray, pa) < hit_dist(ray, pb) ==> nearest_hit_upto(seq![a, b], ray, 2) == Some(
            (0int, pa),
        ),
        hit_dist(ray, pa) < hit_dist(ray, pb) ==> nearest_hit_upto(seq![b, a], ray, 2) == Some(
            (1int, pa),
        ),
        hit_dist(ray, pa) == hit_dist(ray, pb) ==> nearest_hit_upto(seq![a, b], ray, 2) == Some(
            (0int, pa),
        ),
{
    let s1 = seq![a, b];
    let s2 = seq![b, a];
    assert(nearest_hit_upto(s1, ray, 0) is None);
    assert(nearest_hit_upto(s2, ray, 0) is None);
    assert(s1[0] == a && s1[1] == b && s2[0] == b && s2[1] == a);
    assert(nearest_hit_upto(s1, ray, 1) == Some((0int, pa)));
    assert(nearest_hit_upto(s2, ray, 1) == Some((0int, pb)));
}

/// The scene.  Shapes and lights are both kept in insertion order; the
/// order of the shapes breaks ties in the nearest-hit query.
pub struct World {
    pub shapes: Vec<Shape>,
    pub lights: Vec<Lightsource>,
}

/// Every shape and light of the scene is well formed.
pub open spec fn wf_world(w: World) -> bool {
    &&& forall|i: int| 0 <= i < w.shapes@.len() ==> wf_shape(#[trigger] w.shapes@[i])
    &&& forall|i: int| 0 <= i < w.lights@.len() ==> wf_light(#[trigger] w.lights@[i])
}

impl World {
    /// An empty scene.
    pub fn new() -> (w: World)
        ensures
            w.shapes@.len() == 0,
            w.lights@.len() == 0,
            wf_world(w),
    {
        World { shapes: Vec::new(), lights: Vec::new() }
    }

    /// Append a shape; insertion order is significant for tie-breaks.
    pub fn add_shape(&mut self, shape: Shape)
        requires
            wf_shape(shape),
        ensures
            final(self).shapes@ == old(self).shapes@.push(shape),
            final(self).lights@ == old(self).lights@,
            wf_world(*old(self)) ==> wf_world(*final(self)),
    {
        self.shapes.push(shape);
    }

    /// Append a light.
    pub fn add_light(&mut self, light: Lightsource)
        requires
            wf_light(light),
        ensures
            final(self).lights@ == old(self).lights@.push(light),
            final(self).shapes@ == old(self).shapes@,
            wf_world(*old(self)) ==> wf_world(*final(self)),
    {
        self.lights.push(light);
    }

    /// The nearest shape hit by the ray, with the hit point: the index
    /// minimizes the raw distance from the ray's origin, the earliest
    /// shape on ties, or `None` when no shape is hit.
    pub fn item_that_collide(&self, ray: &Ray) -> (r: Option<(usize, Vector)>)
        requires
            wf_world(*self),
            wf_ray(*ray),
        ensures
            match r {
                Some(ip) => {
                    &&& 0 <= ip.0 < self.shapes@.len()
                    &&& nearest_hit_upto(self.shapes@, *ray, self.shapes@.len() as int) == Some(
                        (ip.0 as int, ip.1@),
                    )
                    &&& in_range(ip.1@, COORD_MAX as int)
                },
                None => nearest_hit_upto(self.shapes@, *ray, self.shapes@.len() as int)
                    is None,
            },
    {
        let mut best: Option<(usize, Vector)> = None;
        let mut best_dist: i64 = 0;
        let n = self.shapes.len();
        let mut i: usize = 0;
        while i < n
            invariant
                0 <= i <= n,
                n == self.shapes@.len(),
                wf_world(*self),
                wf_ray(*ray),
                match best {
                    Some(ip) => {
                        &&& 0 <= ip.0 < i
                        &&& nearest_hit_upto(self.shapes@, *ray, i as int) == Some(
                            (ip.0 as int, ip.1@),
                        )
                        &&& in_range(ip.1@, COORD_MAX as int)
                        &&& best_dist == hit_dist(*ray, ip.1@)
                    },
                    None => nearest_hit_upto(self.shapes@, *ray, i as int) is None,
                },
            decreases n - i,
        {
            let shape = self.shapes[i];
            if shape.can_collide(ray) {
                if let Some(collision_point) = shape.collision_point(ray) {
                    let d = collision_point.sub(ray.start_position).distance();
                    match best {
                        None => {
                            best = Some((i, collision_point));
                            best_dist = d;
                        },
                        Some(_) => {
                            if d < best_dist {
                                best = Some((i, collision_point));
                                best_dist = d;
                            }
                        },
                    }
                }
            }
            i = i + 1;
        }
        best
    }
}

} // verus!
