//! The render scheduler: a pixel buffer and a chunk cursor.  Each step
//! renders one rectangular tile, building one bounded ray tree per pixel,
//! aggregating its color bottom-up, and pruning it again.

use crate::fixed::{div_trunc, COORD_MAX, DIR_MAX, SCALE};
use crate::lambertian::{wf_lambertian, Lambertian};
use crate::lightsource::Lightsource;
use crate::pixel::{color_add, color_modulate, color_scale, Color, Pixel};
use crate::ray::{wf_ray, Ray};
use crate::raytree::{
    count_live, depth_of, in_subtree, live, node_at, wf_arena, NodeId, RayArena,
};
use crate::shapes::{shape_material, shape_normal_spec, Shape};
use crate::vector::{in_range, norm2, v_dot, v_len, v_rot_y, v_unit, Vec3, Vector};
use crate::world::{nearest_hit_upto, wf_world, World};
use vstd::prelude::*;

verus! {

/// Progress report of the scheduler.
#[derive(Debug, Eq, PartialEq, Copy, Clone, Structural)]
pub enum UpdateStatus {
    NotFinished,
    Finished,
    AboutToExit,
}

/// The black color.
pub open spec fn black() -> Color {
    Color { r: 0, g: 0, b: 0 }
}

/// The white color.
pub open spec fn white() -> Color {
    Color { r: 255, g: 255, b: 255 }
}

/// The sky color written to pixels whose primary ray hits nothing.
pub open spec fn sky() -> Color {
    Color { r: 128, g: 218, b: 235 }
}

/// The exec-level difference of two vectors (the raw values are assumed
/// to stay in range).
pub open spec fn vector_sub(a: Vector, b: Vector) -> Vector {
    Vector { x: (a@.x - b@.x) as i64, y: (a@.y - b@.y) as i64, z: (a@.z - b@.z) as i64 }
}

/// The vector with the given view (assumed in range).
pub open spec fn vec_of(p: Vec3) -> Vector {
    Vector { x: p.x as i64, y: p.y as i64, z: p.z as i64 }
}

/// What one light adds at a hit point: nothing when the shadow ray from
/// the point toward the light hits any shape or is degenerate; otherwise
/// the light's color, weighted by the cosine of its angle with the
/// surface normal, modulated by the surface color and its reflectivity.
pub open spec fn light_term(
    shapes: Seq<Shape>,
    light: Lightsource,
    point: Vector,
    normal: Vector,
    scolor: Color,
    srefl: i64,
) -> Color {
    let dir = vector_sub(light.position, point);
    let sray = Ray { start_position: point, direction: dir };
    if nearest_hit_upto(shapes, sray, shapes.len() as int) is Some {
        black()
    } else if norm2(dir@) == 0 {
        black()
    } else {
        let angle = v_dot(v_unit(dir@), normal@);
        if angle > 0 {
            color_scale(color_modulate(color_scale(light.color, angle), scolor), srefl as int)
        } else {
            black()
        }
    }
}

/// The light terms of the first `k` lights, accumulated with saturation.
pub open spec fn direct_light_fold(
    shapes: Seq<Shape>,
    lights: Seq<Lightsource>,
    point: Vector,
    normal: Vector,
    scolor: Color,
    srefl: i64,
    k: int,
) -> Color
    decreases k,
{
    if k <= 0 {
        black()
    } else {
        color_add(
            direct_light_fold(shapes, lights, point, normal, scolor, srefl, k - 1),
            light_term(shapes, lights[k - 1], point, normal, scolor, srefl),
        )
    }
}

/// The direct lighting a ray collects: black when it hits nothing or the
/// hit point offers no normal; otherwise the saturating sum of every
/// light's term at the hit point.
pub open spec fn direct_light_spec(
    shapes: Seq<Shape>,
    lights: Seq<Lightsource>,
    ray: Ray,
) -> Color {
    match nearest_hit_upto(shapes, ray, shapes.len() as int) {
        Option::None => black(),
        Option::Some(ip) => {
            let pv = vec_of(ip.1);
            match shape_normal_spec(shapes[ip.0], ip.1) {
                Option::None => black(),
                Option::Some(nv) => direct_light_fold(
                    shapes,
                    lights,
                    pv,
                    vec_of(nv),
                    shape_material(shapes[ip.0]).color,
                    shape_material(shapes[ip.0]).reflectivity,
                    lights.len() as int,
                ),
            }
        },
    }
}

/// The color of a node of the sample tree: its own direct lighting, plus
/// every child's color weighted by the raw magnitude of the child's ray
/// direction and by one over the base sample count, accumulated with
/// saturation.  The fuel mirrors the bounded recursion.
pub open spec fn node_color_spec(
    nodes: Seq<Option<crate::raytree::RayNode>>,
    shapes: Seq<Shape>,
    lights: Seq<Lightsource>,
    id: int,
    m_inv: int,
    fuel: nat,
) -> Color
    decreases fuel, 0nat,
{
    if !live(nodes, id) {
        white()
    } else {
        let base = direct_light_spec(shapes, lights, node_at(nodes, id).ray);
        let kids = node_at(nodes, id).child@;
        if kids.len() == 0 || fuel == 0 {
            base
        } else {
            node_color_fold(nodes, shapes, lights, kids, m_inv, (fuel - 1) as nat, base)
        }
    }
}

/// Fold of the weighted child colors over a child list.
pub open spec fn node_color_fold(
    nodes: Seq<Option<crate::raytree::RayNode>>,
    shapes: Seq<Shape>,
    lights: Seq<Lightsource>,
    kids: Seq<u32>,
    m_inv: int,
    fuel: nat,
    acc: Color,
) -> Color
    decreases fuel, kids.len() + 1,
{
    if kids.len() == 0 {
        acc
    } else {
        let c = kids[0] as int;
        let acc2 = if live(nodes, c) {
            color_add(
                acc,
                color_scale(
                    color_scale(
                        node_color_spec(nodes, shapes, lights, c, m_inv, fuel),
                        v_len(node_at(nodes, c).ray.direction@),
                    ),
                    m_inv,
                ),
            )
        } else {
            acc
        };
        node_color_fold(nodes, shapes, lights, kids.drop_first(), m_inv, fuel, acc2)
    }
}

/// Every node of the arena carries a well-formed ray.
pub open spec fn rays_wf(nodes: Seq<Option<crate::raytree::RayNode>>) -> bool {
    forall|j: int| #[trigger] live(nodes, j) ==> wf_ray(node_at(nodes, j).ray)
}

/// The render driver: pixel buffer, camera frame, sampler, one reusable
/// arena, and the chunk cursor.
pub struct Camera {
    pub buffer: Vec<Pixel>,
    pub starting_point: Vector,
    pub direction: Vector,
    pub lambertian: Lambertian,
    pub arena: RayArena,
    pub chunk_num: u32,
    pub total_num_of_rays: u64,
    pub width: u32,
    pub height: u32,
    pub width_chunk: u32,
    pub height_chunk: u32,
    pub num_of_reflected_rays: usize,
    pub scattered_rays_falloff: i64,
    pub rot_y_table: Vec<(i64, i64)>,
    pub rot_x_table: Vec<(i64, i64)>,
}

/// How many tiles cover the image.
pub open spec fn total_chunks(c: Camera) -> int {
    (c.width as int / c.width_chunk as int) * (c.height as int / c.height_chunk as int)
}

/// The camera invariant: the buffer covers the image, the image splits
/// exactly into tiles, the rotation tables carry one raw sine and cosine
/// per pixel column and row, and the scene frame is in range.
pub open spec fn wf_camera(c: Camera) -> bool {
    &&& c.buffer@.len() == c.width as int * c.height as int
    &&& c.width as int * c.height as int <= usize::MAX
    &&& 1 <= c.width_chunk
    &&& 1 <= c.height_chunk
    &&& c.width as int % c.width_chunk as int == 0
    &&& c.height as int % c.height_chunk as int == 0
    &&& total_chunks(c) <= u32::MAX
    &&& in_range(c.starting_point@, COORD_MAX as int)
    &&& in_range(c.direction@, SCALE as int)
    &&& c.rot_y_table@.len() == c.width
    &&& c.rot_x_table@.len() == c.height
    &&& forall|k: int|
        0 <= k < c.rot_y_table@.len() ==> -SCALE <= (#[trigger] c.rot_y_table@[k]).0 <= SCALE
            && -SCALE <= c.rot_y_table@[k].1 <= SCALE
    &&& forall|k: int|
        0 <= k < c.rot_x_table@.len() ==> -SCALE <= (#[trigger] c.rot_x_table@[k]).0 <= SCALE
            && -SCALE <= c.rot_x_table@[k].1 <= SCALE
    &&& 1 <= c.num_of_reflected_rays <= 65536
    &&& 1 <= c.scattered_rays_falloff
    &&& wf_arena(c.arena)
    &&& rays_wf(c.arena.nodes@)
    &&& wf_lambertian(c.lambertian)
}

impl Camera {
    /// A camera over a black image, its cursor on the first tile.
    ///
    /// The rotation tables hold, for every pixel column and row, the raw
    /// sine and cosine of the angle by which the camera's forward
    /// direction turns to reach that pixel (derived from the field of
    /// view outside this module).
    pub fn new(
        width: u32,
        height: u32,
        width_chunk: u32,
        height_chunk: u32,
        starting_point: Vector,
        direction: Vector,
        num_of_reflected_rays: usize,
        max_ray_depth: u32,
        scattered_rays_falloff: i64,
        rot_y_table: Vec<(i64, i64)>,
        rot_x_table: Vec<(i64, i64)>,
    ) -> (c: Camera)
        requires
            width as int * height as int <= usize::MAX,
            1 <= width_chunk,
            1 <= height_chunk,
            width as int % width_chunk as int == 0,
            height as int % height_chunk as int == 0,
            (width as int / width_chunk as int) * (height as int / height_chunk as int)
                <= u32::MAX,
            in_range(starting_point@, COORD_MAX as int),
            in_range(direction@, SCALE as int),
            rot_y_table@.len() == width,
            rot_x_table@.len() == height,
            forall|k: int|
                0 <= k < rot_y_table@.len() ==> -SCALE <= (#[trigger] rot_y_table@[k]).0 <= SCALE
                    && -SCALE <= rot_y_table@[k].1 <= SCALE,
            forall|k: int|
                0 <= k < rot_x_table@.len() ==> -SCALE <= (#[trigger] rot_x_table@[k]).0 <= SCALE
                    && -SCALE <= rot_x_table@[k].1 <= SCALE,
            1 <= num_of_reflected_rays <= 65536,
            1 <= scattered_rays_falloff,
        ensures
            wf_camera(c),
            c.chunk_num == 0,
            c.total_num_of_rays == 0,
            c.width == width && c.height == height,
            c.width_chunk == width_chunk && c.height_chunk == height_chunk,
            c.starting_point == starting_point,
            c.direction == direction,
            c.num_of_reflected_rays == num_of_reflected_rays,
            c.scattered_rays_falloff == scattered_rays_falloff,
            c.arena.max_recursion_depth == max_ray_depth,
            c.lambertian.vectors@.len() == num_of_reflected_rays,
            forall|i: int|
                0 <= i < c.buffer@.len() ==> (#[trigger] c.buffer@[i]).color == black(),
    {
        let n = (width as u64 * height as u64) as usize;
        let buffer = vec![Pixel::new(); n];
        Camera {
            buffer,
            starting_point,
            direction,
            lambertian: Lambertian::new(num_of_reflected_rays),
            arena: RayArena::new(max_ray_depth),
            chunk_num: 0,
            total_num_of_rays: 0,
            width,
            height,
            width_chunk,
            height_chunk,
            num_of_reflected_rays,
            scattered_rays_falloff,
            rot_y_table,
            rot_x_table,
        }
    }

    /// Progress so far: `Finished` once the cursor has covered every
    /// tile, `NotFinished` before that.  (Whether the surrounding program
    /// wants to exit is its own affair.)
    pub fn update(&self) -> (r: UpdateStatus)
        requires
            wf_camera(*self),
        ensures
            r == (if total_chunks(*self) <= self.chunk_num as int {
                UpdateStatus::Finished
            } else {
                UpdateStatus::NotFinished
            }),
    {
        if (self.width / self.width_chunk) * (self.height / self.height_chunk)
            <= self.chunk_num {
            UpdateStatus::Finished
        } else {
            UpdateStatus::NotFinished
        }
    }

    /// The direct lighting collected by a ray, as `direct_light_spec`
    /// states it.
    fn direct_light(&self, world: &World, ray: &Ray) -> (c: Color)
        requires
            wf_world(*world),
            wf_ray(*ray),
        ensures
            c == direct_light_spec(world.shapes@, world.lights@, *ray),
    {
        let hit = match world.item_that_collide(ray) {
            Some(h) => h,
            None => {
                return Color::new();
            },
        };
        let (index, collision_point) = hit;
        let shape = world.shapes[index];
        let normal = match shape.normal_at_point(&collision_point) {
            Some(n) => n,
            None => {
                return Color::new();
            },
        };
        let scolor = shape.color();
        let srefl = shape.reflectivity();
        proof {
            assert(collision_point == vec_of(nearest_hit_upto(
                world.shapes@,
                *ray,
                world.shapes@.len() as int,
            ).unwrap().1));
        }
        let n_lights = world.lights.len();
        let mut result = Color::new();
        let mut k: usize = 0;
        while k < n_lights
            invariant
                wf_world(*world),
                wf_ray(*ray),
                n_lights == world.lights@.len(),
                0 <= k <= n_lights,
                in_range(collision_point@, COORD_MAX as int),
                in_range(normal@, SCALE as int),
                0 <= srefl,
                result == direct_light_fold(
                    world.shapes@,
                    world.lights@,
                    collision_point,
                    normal,
                    scolor,
                    srefl,
                    k as int,
                ),
            decreases n_lights - k,
        {
            let light = world.lights[k];
            proof {
                assert(crate::lightsource::wf_light(world.lights@[k as int]));
            }
            let dirv = light.position.sub(collision_point);
            proof {
                assert(dirv == vector_sub(light.position, collision_point));
            }
            let shadow_ray = Ray::new(&collision_point, &dirv);
            proof {
                assert(shadow_ray == (Ray {
                    start_position: collision_point,
                    direction: vector_sub(light.position, collision_point),
                }));
            }
            if world.item_that_collide(&shadow_ray).is_none() {
                proof {
                    crate::vector::lemma_norm2_bound(dirv@, DIR_MAX as int);
                }
                let n2 = crate::fixed::mul_wide(dirv.x, dirv.x) + crate::fixed::mul_wide(
                    dirv.y,
                    dirv.y,
                ) + crate::fixed::mul_wide(dirv.z, dirv.z);
                if n2 != 0 {
                    let angle = dirv.normalized().dot(normal);
                    if angle > 0 {
                        result = result.add(light.color.mul(angle).mul_color(scolor).mul(srefl));
                    }
                }
            }
            k = k + 1;
        }
        result
    }

    /// The aggregated color of the node `id` of the arena, as
    /// `node_color_spec` states it (white for a handle that names no live
    /// node, mirroring the synthetic root).
    pub fn calculate_node_color(&self, world: &World, id: NodeId) -> (c: Color)
        requires
            wf_world(*world),
            wf_arena(self.arena),
            rays_wf(self.arena.nodes@),
            1 <= self.num_of_reflected_rays <= 65536,
        ensures
            c == match id {
                NodeId::Parent(n) => node_color_spec(
                    self.arena.nodes@,
                    world.shapes@,
                    world.lights@,
                    n as int,
                    div_trunc(SCALE as int, self.num_of_reflected_rays as int),
                    (self.arena.max_recursion_depth + 1) as nat,
                ),
                _ => white(),
            },
    {
        match id {
            NodeId::Parent(n) => {
                let m_inv = SCALE / (self.num_of_reflected_rays as i64);
                let fuel = self.arena.max_recursion_depth as u64 + 1;
                self.node_color_rec(world, n, m_inv, fuel)
            },
            _ => Color::white(),
        }
    }

    /// Bottom-up color aggregation with an explicit fuel that mirrors the
    /// specification.
    fn node_color_rec(&self, world: &World, id: u32, m_inv: i64, fuel: u64) -> (c: Color)
        requires
            wf_world(*world),
            wf_arena(self.arena),
            rays_wf(self.arena.nodes@),
            0 <= m_inv,
        ensures
            c == node_color_spec(
                self.arena.nodes@,
                world.shapes@,
                world.lights@,
                id as int,
                m_inv as int,
                fuel as nat,
            ),
        decreases fuel,
    {
        let node = match self.arena.get_node(NodeId::Parent(id)) {
            Some(n) => n,
            None => {
                return Color::white();
            },
        };
        let base = self.direct_light(world, &node.ray);
        if node.child.len() == 0 || fuel == 0 {
            return base;
        }
        let ghost kids = node_at(self.arena.nodes@, id as int).child@;
        let ghost inner = (fuel - 1) as nat;
        let mut result = base;
        let mut k: usize = 0;
        proof {
            assert(kids.skip(0) =~= kids);
        }
        while k < node.child.len()
            invariant
                wf_world(*world),
                wf_arena(self.arena),
                rays_wf(self.arena.nodes@),
                0 <= m_inv,
                live(self.arena.nodes@, id as int),
                node == node_at(self.arena.nodes@, id as int),
                kids == node_at(self.arena.nodes@, id as int).child@,
                inner == (fuel - 1) as nat,
                fuel >= 1,
                0 <= k <= kids.len(),
                node_color_fold(
                    self.arena.nodes@,
                    world.shapes@,
                    world.lights@,
                    kids.skip(k as int),
                    m_inv as int,
                    inner,
                    result,
                ) == node_color_fold(
                    self.arena.nodes@,
                    world.shapes@,
                    world.lights@,
                    kids,
                    m_inv as int,
                    inner,
                    base,
                ),
            decreases kids.len() - k,
        {
            let c = node.child[k];
            proof {
                assert(kids.skip(k as int)[0] == kids[k as int]);
                assert(kids.skip(k as int).drop_first() =~= kids.skip(k as int + 1));
            }
            match self.arena.get_node(NodeId::Parent(c)) {
                Some(child_node) => {
                    let dist = child_node.ray.direction.distance();
                    let child_color = self.node_color_rec(world, c, m_inv, fuel - 1);
                    result = result.add(child_color.mul(dist).mul(m_inv));
                },
                None => {
                },
            }
            k = k + 1;
        }
        proof {
            assert(kids.skip(kids.len() as int) =~= Seq::<u32>::empty());
        }
        result
    }

    /// Build the scatter tree below the node `id`: where the node's ray
    /// hits a shape, cast one child ray per scatter offset (their number
    /// decaying with depth by the falloff factor) from the hit point
    /// along the surface normal plus the offset, and recurse.  Nodes at
    /// the depth bound stay leaves.  Existing nodes keep their id,
    /// parent, ray and depth.
    pub fn shoot_reflected_rays(&mut self, world: &World, offsets: &Vec<Vector>, id: NodeId)
        requires
            wf_world(*world),
            wf_arena(old(self).arena),
            rays_wf(old(self).arena.nodes@),
            forall|k: int|
                0 <= k < offsets@.len() ==> in_range((#[trigger] offsets@[k])@, SCALE as int),
            1 <= old(self).num_of_reflected_rays <= 65536,
            1 <= old(self).scattered_rays_falloff,
        ensures
            wf_arena(final(self).arena),
            rays_wf(final(self).arena.nodes@),
            final(self).arena.max_recursion_depth == old(self).arena.max_recursion_depth,
            grows_preserving(old(self).arena.nodes@, final(self).arena.nodes@),
            final(self).buffer@ == old(self).buffer@,
            final(self).chunk_num == old(self).chunk_num,
            final(self).total_num_of_rays == old(self).total_num_of_rays,
            final(self).starting_point == old(self).starting_point,
            final(self).direction == old(self).direction,
            final(self).lambertian == old(self).lambertian,
            final(self).width == old(self).width,
            final(self).height == old(self).height,
            final(self).width_chunk == old(self).width_chunk,
            final(self).height_chunk == old(self).height_chunk,
            final(self).num_of_reflected_rays == old(self).num_of_reflected_rays,
            final(self).scattered_rays_falloff == old(self).scattered_rays_falloff,
            final(self).rot_y_table == old(self).rot_y_table,
            final(self).rot_x_table == old(self).rot_x_table,
            expansion_post(
                old(self).arena.nodes@,
                final(self).arena.nodes@,
                old(self).arena.max_recursion_depth,
                world.shapes@,
                offsets@,
                old(self).num_of_reflected_rays as int,
                old(self).scattered_rays_falloff as int,
                id,
            ),
    {
        let m = self.num_of_reflected_rays;
        let falloff = self.scattered_rays_falloff;
        expand_rays(&mut self.arena, world, offsets, m, falloff, id);
    }

    /// The direct lighting at a node's hit point (black for a handle that
    /// names no live node).
    pub fn calculate_last_node_color(&self, world: &World, id: NodeId) -> (c: Color)
        requires
            wf_world(*world),
            wf_arena(self.arena),
            rays_wf(self.arena.nodes@),
        ensures
            c == match id {
                NodeId::Parent(n) => if live(self.arena.nodes@, n as int) {
                    direct_light_spec(
                        world.shapes@,
                        world.lights@,
                        node_at(self.arena.nodes@, n as int).ray,
                    )
                } else {
                    black()
                },
                _ => black(),
            },
    {
        let node = match self.arena.get_node(id) {
            Some(n) => n,
            None => {
                return Color::new();
            },
        };
        self.direct_light(world, &node.ray)
    }
}

/// Tiles per pixel row.
pub open spec fn chunks_per_row(c: Camera) -> int {
    c.width as int / c.width_chunk as int
}

/// Leftmost pixel column of the current tile.
pub open spec fn tile_x0(c: Camera) -> int {
    c.width_chunk as int * (c.chunk_num as int % chunks_per_row(c))
}

/// Topmost pixel row of the current tile.
pub open spec fn tile_y0(c: Camera) -> int {
    c.height_chunk as int * (c.chunk_num as int / chunks_per_row(c))
}

/// The primary ray of the pixel (px, py): the camera's forward
/// direction turned by the pixel column's angle about the vertical axis
/// and then by the pixel row's angle about the horizontal axis, cast
/// from the camera's position.
pub open spec fn pixel_ray(c: Camera, px: int, py: int) -> Ray {
    let ry = c.rot_y_table@[px];
    let rx = c.rot_x_table@[py];
    let d1 = v_rot_y(c.direction@, ry.0 as int, ry.1 as int);
    let d2 = crate::vector::v_rot_x(d1, rx.0 as int, rx.1 as int);
    Ray { start_position: c.starting_point, direction: vec_of(d2) }
}

/// The pixel's primary ray hits nothing of the scene.
pub open spec fn pixel_misses(c: Camera, shapes: Seq<Shape>, px: int, py: int) -> bool {
    nearest_hit_upto(shapes, pixel_ray(c, px, py), shapes.len() as int) is None
}

/// One witness of how a color was traced from a ray: a well-formed
/// sample tree whose root carries the ray at depth zero, fully expanded
/// against the scene with the given sampler and falloff, and whose
/// bottom-up aggregate is the color.
pub open spec fn ray_witness(
    nodes: Seq<Option<crate::raytree::RayNode>>,
    root: int,
    max: u32,
    shapes: Seq<Shape>,
    lights: Seq<Lightsource>,
    offsets: Seq<Vector>,
    m: int,
    falloff: int,
    ray: Ray,
    color: Color,
) -> bool {
    &&& crate::raytree::wf_nodes(nodes, max)
    &&& rays_wf(nodes)
    &&& live(nodes, root)
    &&& node_at(nodes, root).recursion_depth == 0
    &&& node_at(nodes, root).ray == ray
    &&& expanded(nodes, max, shapes, offsets, m, falloff, root, max as nat)
    &&& color == node_color_spec(
        nodes,
        shapes,
        lights,
        root,
        div_trunc(SCALE as int, m),
        (max + 1) as nat,
    )
}

/// The color came from tracing the ray: some sample tree witnesses it.
pub open spec fn traced_ray(
    max: u32,
    shapes: Seq<Shape>,
    lights: Seq<Lightsource>,
    offsets: Seq<Vector>,
    m: int,
    falloff: int,
    ray: Ray,
    color: Color,
) -> bool {
    exists|nodes: Seq<Option<crate::raytree::RayNode>>, root: int|
        #[trigger] ray_witness(nodes, root, max, shapes, lights, offsets, m, falloff, ray, color)
}

/// The pixel's color came from tracing its primary ray with the camera's
/// own depth bound, sampler and falloff.
pub open spec fn traced_pixel(
    c0: Camera,
    shapes: Seq<Shape>,
    lights: Seq<Lightsource>,
    px: int,
    py: int,
    p: Pixel,
) -> bool {
    traced_ray(
        c0.arena.max_recursion_depth,
        shapes,
        lights,
        c0.lambertian.vectors@,
        c0.num_of_reflected_rays as int,
        c0.scattered_rays_falloff as int,
        pixel_ray(c0, px, py),
        p.color,
    )
}

/// The pixel (px, py) lies outside the tile that the cursor of `c`
/// names.
pub open spec fn outside_tile(c: Camera, px: int, py: int) -> bool {
    !(tile_x0(c) <= px < tile_x0(c) + c.width_chunk as int && tile_y0(c) <= py < tile_y0(c)
        + c.height_chunk as int)
}

/// The configuration of both cameras is the same: everything but the
/// buffer, the arena's nodes, the cursor and the ray counter.
pub open spec fn same_config(a: Camera, b: Camera) -> bool {
    &&& b.starting_point == a.starting_point
    &&& b.direction == a.direction
    &&& b.lambertian == a.lambertian
    &&& b.arena.max_recursion_depth == a.arena.max_recursion_depth
    &&& b.width == a.width
    &&& b.height == a.height
    &&& b.width_chunk == a.width_chunk
    &&& b.height_chunk == a.height_chunk
    &&& b.num_of_reflected_rays == a.num_of_reflected_rays
    &&& b.scattered_rays_falloff == a.scattered_rays_falloff
    &&& b.rot_y_table == a.rot_y_table
    &&& b.rot_x_table == a.rot_x_table
    &&& b.buffer@.len() == a.buffer@.len()
}

/// Distinct pixels of one image have distinct buffer indices.
proof fn lemma_pixel_index(w: int, h: int, x1: int, y1: int, x2: int, y2: int)
    by (nonlinear_arith)
    requires
        0 <= x1 < w,
        0 <= x2 < w,
        0 <= y1 < h,
        0 <= y2 < h,
    ensures
        0 <= x1 + y1 * w < h * w,
        (x1 + y1 * w == x2 + y2 * w) ==> (x1 == x2 && y1 == y2),
{
}

impl Camera {
    /// Trace one primary ray through the scene into a color: grow the
    /// sample tree from a fresh root, aggregate it bottom-up, and prune
    /// it again, leaving the arena empty of live nodes.
    fn render_hit_pixel(&mut self, world: &World, ray: Ray) -> (c: Color)
        requires
            wf_camera(*old(self)),
            wf_world(*world),
            wf_ray(ray),
            forall|j: int| !(#[trigger] live(old(self).arena.nodes@, j)),
        ensures
            wf_camera(*final(self)),
            same_config(*old(self), *final(self)),
            final(self).buffer@ == old(self).buffer@,
            final(self).chunk_num == old(self).chunk_num,
            forall|j: int| !(#[trigger] live(final(self).arena.nodes@, j)),
            final(self).total_num_of_rays >= old(self).total_num_of_rays,
            old(self).arena.nodes@.len() <= final(self).arena.nodes@.len(),
            final(self).arena.nodes@.len() < 0xFFFFFFFE ==> traced_ray(
                old(self).arena.max_recursion_depth,
                world.shapes@,
                world.lights@,
                old(self).lambertian.vectors@,
                old(self).num_of_reflected_rays as int,
                old(self).scattered_rays_falloff as int,
                ray,
                c,
            ),
    {
        let ghost pre_add = self.arena.nodes@;
        let node_id = self.arena.add_node(NodeId::Root, &ray);
        proof {
            assert(rays_wf(self.arena.nodes@)) by {
                assert forall|j: int| #[trigger] live(self.arena.nodes@, j) implies wf_ray(
                    node_at(self.arena.nodes@, j).ray,
                ) by {
                    if j < pre_add.len() {
                        assert(self.arena.nodes@[j] == pre_add[j]);
                        assert(live(pre_add, j));
                    } else {
                        assert(node_at(self.arena.nodes@, j).ray == ray);
                    }
                }
            }
        }
        let ghost post_add = self.arena.nodes@;
        let offsets = self.lambertian.get_offsets().clone();
        proof {
            assert(offsets@ =~= self.lambertian.vectors@) by {
                assert forall|k: int|
                    0 <= k < offsets@.len() implies offsets@[k] == self.lambertian.vectors@[k]
                    by {
                    assert(cloned::<Vector>(self.lambertian.vectors[k], offsets[k]));
                }
            }
            assert forall|k: int| 0 <= k < offsets@.len() implies in_range(
                (#[trigger] offsets@[k])@,
                SCALE as int,
            ) by {
                assert(crate::lambertian::near_unit(self.lambertian.vectors@[k]@));
            }
        }
        self.shoot_reflected_rays(world, &offsets, node_id);
        let ghost post_expand = self.arena.nodes@;
        let c = self.calculate_node_color(world, node_id);
        let n = self.arena.num_nodes();
        if self.total_num_of_rays <= u64::MAX - (n as u64) {
            self.total_num_of_rays = self.total_num_of_rays + n as u64;
        } else {
            self.total_num_of_rays = u64::MAX;
        }
        let ghost pre_remove = self.arena.nodes@;
        self.arena.remove_node_with_childs(node_id);
        proof {
            assert(rays_wf(self.arena.nodes@)) by {
                assert forall|j: int| #[trigger] live(self.arena.nodes@, j) implies wf_ray(
                    node_at(self.arena.nodes@, j).ray,
                ) by {
                    match node_id {
                        NodeId::Parent(nn) => {
                            if live(pre_remove, nn as int) {
                                assert(live(pre_remove, j));
                                assert(crate::raytree::retained(
                                    pre_remove,
                                    self.arena.nodes@,
                                    nn as int,
                                    j,
                                ));
                            } else {
                                assert(self.arena.nodes@ == pre_remove);
                            }
                        },
                        _ => {
                            assert(self.arena.nodes@ == pre_remove);
                        },
                    }
                }
            }
            assert(pre_remove == post_expand);
            match node_id {
                NodeId::Parent(rootid) => {
                    // before this ray nothing lived, so the pre-removal
                    // arena is exactly the root's subtree
                    assert(live(post_add, rootid as int));
                    assert(node_at(post_add, rootid as int).recursion_depth == 0);
                    assert(node_at(post_add, rootid as int).ray == ray);
                    assert forall|j: int| #[trigger] live(post_add, j) implies j
                        == rootid as int by {
                        if j < pre_add.len() {
                            assert(post_add[j] == pre_add[j]);
                            assert(live(pre_add, j));
                        }
                    }
                    assert(live(post_expand, rootid as int));
                    assert(node_at(post_expand, rootid as int).recursion_depth == 0);
                    assert(node_at(post_expand, rootid as int).ray == ray);
                    assert forall|j: int| #[trigger] live(post_expand, j) implies in_subtree(
                        post_expand,
                        rootid as int,
                        j,
                    ) by {
                        if live(post_add, j) {
                            assert(j == rootid as int);
                        }
                    }
                    // after pruning, nothing lives
                    assert forall|j: int| !(#[trigger] live(self.arena.nodes@, j)) by {
                        if live(self.arena.nodes@, j) {
                            assert(live(post_expand, j));
                            assert(!in_subtree(post_expand, rootid as int, j));
                        }
                    }
                    // with room in the arena, the pre-removal state
                    // witnesses how the color was traced
                    if post_expand.len() < 0xFFFFFFFE {
                        assert(offsets@ == old(self).lambertian.vectors@);
                        assert(expanded(
                            post_expand,
                            old(self).arena.max_recursion_depth,
                            world.shapes@,
                            old(self).lambertian.vectors@,
                            old(self).num_of_reflected_rays as int,
                            old(self).scattered_rays_falloff as int,
                            rootid as int,
                            old(self).arena.max_recursion_depth as nat,
                        )) by {
                            let mx = old(self).arena.max_recursion_depth;
                            if mx > 0 {
                                match nearest_hit_upto(
                                    world.shapes@,
                                    ray,
                                    world.shapes@.len() as int,
                                ) {
                                    Option::None => {
                                        assert(post_expand == post_add);
                                    },
                                    Option::Some(ip) => {
                                        match shape_normal_spec(world.shapes@[ip.0], ip.1) {
                                            Option::None => {
                                                assert(post_expand == post_add);
                                            },
                                            Option::Some(nv) => {},
                                        }
                                    },
                                }
                            }
                        }
                        assert(ray_witness(
                            post_expand,
                            rootid as int,
                            old(self).arena.max_recursion_depth,
                            world.shapes@,
                            world.lights@,
                            old(self).lambertian.vectors@,
                            old(self).num_of_reflected_rays as int,
                            old(self).scattered_rays_falloff as int,
                            ray,
                            c,
                        ));
                    } else {
                        assert(self.arena.nodes@.len() == 0xFFFFFFFE);
                    }
                },
                _ => {
                    // out of ids: the arena is full and stays untouched
                    assert(self.arena.nodes@ == pre_add);
                    assert(self.arena.nodes@.len() == 0xFFFFFFFE);
                },
            }
        }
        c
    }

    /// Render the tile under the cursor: for each of its pixels, cast the
    /// primary ray (the camera direction turned by the pixel's column and
    /// row angles); where it hits nothing, write the sky color; where it
    /// hits, grow the sample tree from the primary ray, aggregate its
    /// color bottom-up, write that, and prune the tree.  Then advance the
    /// cursor.  Pixels outside the tile keep their color.
    #[verifier::rlimit(100)]
    pub fn shoot_primary_rays(&mut self, world: &World)
        requires
            wf_camera(*old(self)),
            wf_world(*world),
            old(self).chunk_num < total_chunks(*old(self)),
        ensures
            wf_camera(*final(self)),
            same_config(*old(self), *final(self)),
            final(self).chunk_num == old(self).chunk_num + 1,
            forall|px: int, py: int|
                0 <= px < old(self).width && 0 <= py < old(self).height && outside_tile(
                    *old(self),
                    px,
                    py,
                ) ==> final(self).buffer@[px + py * old(self).width as int] == #[trigger] old(
                    self,
                ).buffer@[px + py * old(self).width as int],
            forall|px: int, py: int|
                0 <= px < old(self).width && 0 <= py < old(self).height && !outside_tile(
                    *old(self),
                    px,
                    py,
                ) && #[trigger] pixel_misses(*old(self), world.shapes@, px, py)
                    ==> final(self).buffer@[px + py * old(self).width as int] == (Pixel {
                    color: sky(),
                }),
            final(self).total_num_of_rays >= old(self).total_num_of_rays,
            count_live(final(self).arena.nodes@) == 0,
            final(self).arena.nodes@.len() < 0xFFFFFFFE ==> forall|px: int, py: int|
                0 <= px < old(self).width && 0 <= py < old(self).height && !outside_tile(
                    *old(self),
                    px,
                    py,
                ) && !(#[trigger] pixel_misses(*old(self), world.shapes@, px, py))
                    ==> traced_pixel(
                    *old(self),
                    world.shapes@,
                    world.lights@,
                    px,
                    py,
                    final(self).buffer@[px + py * old(self).width as int],
                ),
    {
        self.arena.nodes.clear();
        proof {
            assert forall|j: int| !(#[trigger] live(self.arena.nodes@, j)) by {}
        }
        let per_row = self.width / self.width_chunk;
        proof {
            let tc = total_chunks(*old(self));
            let qx = old(self).width as int / old(self).width_chunk as int;
            let qy = old(self).height as int / old(self).height_chunk as int;
            assert(per_row > 0) by {
                if per_row == 0 {
                    assert(tc == 0) by (nonlinear_arith)
                        requires
                            tc == qx * qy && qx == 0;
                }
            }
        }
        let chunk_x = self.chunk_num % per_row;
        let chunk_y = self.chunk_num / per_row;
        proof {
            let w = self.width as int;
            let cw = self.width_chunk as int;
            let h = self.height as int;
            let ch = self.height_chunk as int;
            vstd::arithmetic::div_mod::lemma_fundamental_div_mod(w, cw);
            vstd::arithmetic::div_mod::lemma_fundamental_div_mod(h, ch);
            assert(chunk_y < h / ch) by (nonlinear_arith)
                requires
                    self.chunk_num < (w / cw) * (h / ch) && chunk_y == self.chunk_num as int / (w
                        / cw) && w / cw > 0;
            assert(cw * chunk_x + cw <= w) by (nonlinear_arith)
                requires
                    0 <= chunk_x <= w / cw - 1 && cw >= 1 && w == cw * (w / cw),
            ;
            assert(ch * chunk_y + ch <= h) by (nonlinear_arith)
                requires
                    0 <= chunk_y <= h / ch - 1 && ch >= 1 && h == ch * (h / ch),
            ;
        }
        let start_x = self.width_chunk * chunk_x;
        let end_x = start_x + self.width_chunk;
        let start_y = self.height_chunk * chunk_y;
        let end_y = start_y + self.height_chunk;
        proof {
            assert(start_x == tile_x0(*old(self)));
            assert(start_y == tile_y0(*old(self)));
        }
        let ghost cam0 = *old(self);
        let mut x = start_x;
        while x < end_x
            invariant
                wf_world(*world),
                wf_camera(*self),
                same_config(cam0, *self),
                self.chunk_num == cam0.chunk_num,
                start_x == tile_x0(cam0),
                start_y == tile_y0(cam0),
                end_x == start_x + cam0.width_chunk,
                end_y == start_y + cam0.height_chunk,
                end_x <= cam0.width,
                end_y <= cam0.height,
                start_x <= x <= end_x,
                forall|px: int, py: int|
                    0 <= px < cam0.width && 0 <= py < cam0.height && outside_tile(cam0, px, py)
                        ==> self.buffer@[px + py * cam0.width as int] == #[trigger] cam0.buffer@[
                        px + py * cam0.width as int],
                forall|px: int, py: int|
                    0 <= px < cam0.width && 0 <= py < cam0.height && !outside_tile(cam0, px, py)
                        && #[trigger] pixel_misses(cam0, world.shapes@, px, py) && px < x
                        ==> self.buffer@[px + py * cam0.width as int] == (Pixel {
                        color: sky(),
                    }),
                forall|j: int| !(#[trigger] live(self.arena.nodes@, j)),
                self.total_num_of_rays >= cam0.total_num_of_rays,
                self.arena.nodes@.len() == 0xFFFFFFFE || (forall|px: int, py: int|
                    0 <= px < cam0.width && 0 <= py < cam0.height && !outside_tile(cam0, px, py)
                        && !(#[trigger] pixel_misses(cam0, world.shapes@, px, py)) && px < x
                        ==> traced_pixel(
                        cam0,
                        world.shapes@,
                        world.lights@,
                        px,
                        py,
                        self.buffer@[px + py * cam0.width as int],
                    )),
            decreases end_x - x,
        {
            let mut y = start_y;
            while y < end_y
                invariant
                    wf_world(*world),
                    wf_camera(*self),
                    same_config(cam0, *self),
                    self.chunk_num == cam0.chunk_num,
                    start_x == tile_x0(cam0),
                    start_y == tile_y0(cam0),
                    end_x == start_x + cam0.width_chunk,
                    end_y == start_y + cam0.height_chunk,
                    end_x <= cam0.width,
                    end_y <= cam0.height,
                    start_x <= x < end_x,
                    start_y <= y <= end_y,
                    forall|px: int, py: int|
                        0 <= px < cam0.width && 0 <= py < cam0.height && outside_tile(
                            cam0,
                            px,
                            py,
                        ) ==> self.buffer@[px + py * cam0.width as int] == #[trigger] cam0
                            .buffer@[px + py * cam0.width as int],
                    forall|px: int, py: int|
                        0 <= px < cam0.width && 0 <= py < cam0.height && !outside_tile(
                            cam0,
                            px,
                            py,
                        ) && #[trigger] pixel_misses(cam0, world.shapes@, px, py) && (px < x
                            || (px == x && py < y)) ==> self.buffer@[px + py
                            * cam0.width as int] == (Pixel { color: sky() }),
                    forall|j: int| !(#[trigger] live(self.arena.nodes@, j)),
                    self.total_num_of_rays >= cam0.total_num_of_rays,
                    self.arena.nodes@.len() == 0xFFFFFFFE || (forall|px: int, py: int|
                        0 <= px < cam0.width && 0 <= py < cam0.height && !outside_tile(
                            cam0,
                            px,
                            py,
                        ) && !(#[trigger] pixel_misses(cam0, world.shapes@, px, py)) && (px < x
                            || (px == x && py < y)) ==> traced_pixel(
                            cam0,
                            world.shapes@,
                            world.lights@,
                            px,
                            py,
                            self.buffer@[px + py * cam0.width as int],
                        )),
                decreases end_y - y,
            {
                let rot_y = self.rot_y_table[x as usize];
                let rot_x = self.rot_x_table[y as usize];
                let mut ray_direction = self.direction;
                ray_direction.rotate_y(rot_y.0, rot_y.1);
                proof {
                    crate::vector::lemma_rot_in_range(
                        self.direction@,
                        rot_y.0 as int,
                        rot_y.1 as int,
                        SCALE as int,
                    );
                }
                ray_direction.rotate_x(rot_x.0, rot_x.1);
                proof {
                    crate::vector::lemma_rot_in_range(
                        v_rot_y(self.direction@, rot_y.0 as int, rot_y.1 as int),
                        rot_x.0 as int,
                        rot_x.1 as int,
                        2 * SCALE as int,
                    );
                }
                let ray = Ray::new(&self.starting_point, &ray_direction);
                proof {
                    assert(ray == pixel_ray(cam0, x as int, y as int));
                }
                let primary_hit = world.item_that_collide(&ray);
                let color: Color;
                if primary_hit.is_some() {
                    proof {
                        assert(wf_ray(ray));
                    }
                    color = self.render_hit_pixel(world, ray);
                } else {
                    color = Color { r: 128, g: 218, b: 235 };
                }
                proof {
                    lemma_pixel_index(
                        cam0.width as int,
                        cam0.height as int,
                        x as int,
                        y as int,
                        x as int,
                        y as int,
                    );
                }
                proof {
                    assert(x < cam0.width);
                    assert(y < cam0.height);
                    assert(self.width == cam0.width);
                    assert(self.buffer@.len() == cam0.width as int * cam0.height as int);
                    assert(0 <= x as int + (y as int) * (cam0.width as int));
                    assert(x as int + (y as int) * (cam0.width as int) < (cam0.height as int)
                        * (cam0.width as int));
                }
                let idx = (x as usize) + (y as usize) * (self.width as usize);
                let ghost pre_buf = self.buffer@;
                self.buffer[idx] = Pixel { color };
                proof {
                    assert forall|px: int, py: int|
                        0 <= px < cam0.width && 0 <= py < cam0.height && outside_tile(
                            cam0,
                            px,
                            py,
                        ) implies self.buffer@[px + py * cam0.width as int] == #[trigger] cam0
                        .buffer@[px + py * cam0.width as int] by {
                        lemma_pixel_index(
                            cam0.width as int,
                            cam0.height as int,
                            px,
                            py,
                            x as int,
                            y as int,
                        );
                        assert(px + py * cam0.width as int != idx);
                        assert(self.buffer@[px + py * cam0.width as int] == pre_buf[px + py
                            * cam0.width as int]);
                    }
                    assert forall|px: int, py: int|
                        0 <= px < cam0.width && 0 <= py < cam0.height && !outside_tile(
                            cam0,
                            px,
                            py,
                        ) && #[trigger] pixel_misses(cam0, world.shapes@, px, py) && (px < x
                            || (px == x && py < y + 1)) implies self.buffer@[px + py
                        * cam0.width as int] == (Pixel { color: sky() }) by {
                        if px == x && py == y {
                            assert(self.buffer@[idx as int] == (Pixel { color: sky() }));
                        } else {
                            lemma_pixel_index(
                                cam0.width as int,
                                cam0.height as int,
                                px,
                                py,
                                x as int,
                                y as int,
                            );
                            assert(self.buffer@[px + py * cam0.width as int] == pre_buf[px + py
                                * cam0.width as int]);
                        }
                    }
                    if self.arena.nodes@.len() < 0xFFFFFFFE {
                        assert forall|px: int, py: int|
                            0 <= px < cam0.width && 0 <= py < cam0.height && !outside_tile(
                                cam0,
                                px,
                                py,
                            ) && !(#[trigger] pixel_misses(cam0, world.shapes@, px, py)) && (px
                            < x || (px == x && py < y + 1)) implies traced_pixel(
                            cam0,
                            world.shapes@,
                            world.lights@,
                            px,
                            py,
                            self.buffer@[px + py * cam0.width as int],
                        ) by {
                            if px == x && py == y {
                                assert(self.buffer@[idx as int] == (Pixel { color }));
                                assert(traced_pixel(
                                    cam0,
                                    world.shapes@,
                                    world.lights@,
                                    px,
                                    py,
                                    Pixel { color },
                                ));
                            } else {
                                lemma_pixel_index(
                                    cam0.width as int,
                                    cam0.height as int,
                                    px,
                                    py,
                                    x as int,
                                    y as int,
                                );
                                assert(self.buffer@[px + py * cam0.width as int] == pre_buf[px
                                    + py * cam0.width as int]);
                            }
                        }
                    }
                }
                y = y + 1;
            }
            x = x + 1;
        }
        proof {
            crate::raytree::lemma_count_live_none(self.arena.nodes@);
        }
        self.chunk_num = self.chunk_num + 1;
    }

    /// One cooperative unit of work: before the image is finished, render
    /// the tile under the cursor and advance it; afterwards do nothing.
    /// The report is `Finished` exactly when the cursor has covered the
    /// whole image, so the call that renders the last tile is the one
    /// that turns `NotFinished` into `Finished`, and later calls change
    /// nothing.
    pub fn step(&mut self, world: &World) -> (r: UpdateStatus)
        requires
            wf_camera(*old(self)),
            wf_world(*world),
        ensures
            wf_camera(*final(self)),
            same_config(*old(self), *final(self)),
            if total_chunks(*old(self)) <= old(self).chunk_num as int {
                r == UpdateStatus::Finished && *final(self) == *old(self)
            } else {
                &&& final(self).chunk_num == old(self).chunk_num + 1
                &&& r == (if total_chunks(*old(self)) <= old(self).chunk_num + 1 {
                    UpdateStatus::Finished
                } else {
                    UpdateStatus::NotFinished
                })
                &&& forall|px: int, py: int|
                    0 <= px < old(self).width && 0 <= py < old(self).height && outside_tile(
                        *old(self),
                        px,
                        py,
                    ) ==> final(self).buffer@[px + py * old(self).width as int]
                        == #[trigger] old(self).buffer@[px + py * old(self).width as int]
                &&& forall|px: int, py: int|
                    0 <= px < old(self).width && 0 <= py < old(self).height && !outside_tile(
                        *old(self),
                        px,
                        py,
                    ) && #[trigger] pixel_misses(*old(self), world.shapes@, px, py)
                        ==> final(self).buffer@[px + py * old(self).width as int] == (Pixel {
                        color: sky(),
                    })
                &&& final(self).total_num_of_rays >= old(self).total_num_of_rays
                &&& count_live(final(self).arena.nodes@) == 0
                &&& final(self).arena.nodes@.len() < 0xFFFFFFFE ==> forall|px: int, py: int|
                    0 <= px < old(self).width && 0 <= py < old(self).height && !outside_tile(
                        *old(self),
                        px,
                        py,
                    ) && !(#[trigger] pixel_misses(*old(self), world.shapes@, px, py))
                        ==> traced_pixel(
                        *old(self),
                        world.shapes@,
                        world.lights@,
                        px,
                        py,
                        final(self).buffer@[px + py * old(self).width as int],
                    )
            },
    {
        match self.update() {
            UpdateStatus::NotFinished => {
                self.shoot_primary_rays(world);
                if (self.width / self.width_chunk) * (self.height / self.height_chunk)
                    <= self.chunk_num {
                    UpdateStatus::Finished
                } else {
                    UpdateStatus::NotFinished
                }
            },
            _ => UpdateStatus::Finished,
        }
    }

    /// The frame buffer packed as one `0x00RRGGBB` word per pixel, in
    /// row-major order.
    pub fn to_u32_buffer(&self) -> (r: Vec<u32>)
        ensures
            r@.len() == self.buffer@.len(),
            forall|i: int|
                0 <= i < r@.len() ==> #[trigger] r@[i] == self.buffer@[i].color.r * 0x10000
                    + self.buffer@[i].color.g * 0x100 + self.buffer@[i].color.b,
    {
        let mut out: Vec<u32> = Vec::new();
        let mut i: usize = 0;
        while i < self.buffer.len()
            invariant
                0 <= i <= self.buffer@.len(),
                out@.len() == i,
                forall|k: int|
                    0 <= k < i ==> #[trigger] out@[k] == self.buffer@[k].color.r * 0x10000
                        + self.buffer@[k].color.g * 0x100 + self.buffer@[k].color.b,
            decreases self.buffer@.len() - i,
        {
            out.push(self.buffer[i].color.to_u32());
            i = i + 1;
        }
        out
    }

    /// The frame buffer as 8-bit RGB triplets in row-major order, ready
    /// for an external image encoder.
    pub fn image_buffer(&self) -> (r: Vec<u8>)
        requires
            3 * self.buffer@.len() <= usize::MAX,
        ensures
            r@.len() == 3 * self.buffer@.len(),
            forall|i: int|
                0 <= i < self.buffer@.len() ==> #[trigger] r@[3 * i] == self.buffer@[i].color.r
                    && r@[3 * i + 1] == self.buffer@[i].color.g && r@[3 * i + 2]
                    == self.buffer@[i].color.b,
    {
        let mut out: Vec<u8> = Vec::new();
        let mut i: usize = 0;
        while i < self.buffer.len()
            invariant
                0 <= i <= self.buffer@.len(),
                out@.len() == 3 * i,
                3 * self.buffer@.len() <= usize::MAX,
                forall|k: int|
                    0 <= k < i ==> #[trigger] out@[3 * k] == self.buffer@[k].color.r && out@[3 * k
                        + 1] == self.buffer@[k].color.g && out@[3 * k + 2]
                        == self.buffer@[k].color.b,
            decreases self.buffer@.len() - i,
        {
            let p = self.buffer[i];
            let ghost pre = out@;
            out.push(p.color.r);
            out.push(p.color.g);
            out.push(p.color.b);
            proof {
                assert forall|k: int| 0 <= k < i + 1 implies #[trigger] out@[3 * k]
                    == self.buffer@[k].color.r && out@[3 * k + 1] == self.buffer@[k].color.g
                    && out@[3 * k + 2] == self.buffer@[k].color.b by {
                    if k < i {
                        assert(out@[3 * k] == pre[3 * k]);
                        assert(out@[3 * k + 1] == pre[3 * k + 1]);
                        assert(out@[3 * k + 2] == pre[3 * k + 2]);
                    } else {
                        assert(out@[3 * k] == p.color.r);
                        assert(out@[3 * k + 1] == p.color.g);
                        assert(out@[3 * k + 2] == p.color.b);
                    }
                }
            }
            i = i + 1;
        }
        out
    }
}

/// The arena `fin` holds every node of `orig`, with the same id, parent,
/// ray and depth (child lists may have grown), and possibly more.
pub open spec fn grows_preserving(
    orig: Seq<Option<crate::raytree::RayNode>>,
    fin: Seq<Option<crate::raytree::RayNode>>,
) -> bool {
    &&& orig.len() <= fin.len()
    &&& forall|j: int|
        #[trigger] live(orig, j) ==> live(fin, j) && node_at(fin, j).id == node_at(orig, j).id
            && node_at(fin, j).parent == node_at(orig, j).parent && node_at(fin, j).ray
            == node_at(orig, j).ray && node_at(fin, j).recursion_depth == node_at(
            orig,
            j,
        ).recursion_depth
}

/// Growth with preservation composes.
proof fn lemma_grows_trans(
    a: Seq<Option<crate::raytree::RayNode>>,
    b: Seq<Option<crate::raytree::RayNode>>,
    c: Seq<Option<crate::raytree::RayNode>>,
)
    requires
        grows_preserving(a, b),
        grows_preserving(b, c),
    ensures
        grows_preserving(a, c),
{
    assert forall|j: int| #[trigger] live(a, j) implies live(c, j) && node_at(c, j).id == node_at(
        a,
        j,
    ).id && node_at(c, j).parent == node_at(a, j).parent && node_at(c, j).ray == node_at(
        a,
        j,
    ).ray && node_at(c, j).recursion_depth == node_at(a, j).recursion_depth by {
        assert(live(b, j));
    }
}

/// The exec-level sum of two vectors (the raw values are assumed to stay
/// in range).
pub open spec fn vector_add(a: Vector, b: Vector) -> Vector {
    Vector { x: (a@.x + b@.x) as i64, y: (a@.y + b@.y) as i64, z: (a@.z + b@.z) as i64 }
}

/// How many scatter rays a node at the given depth casts: the base count
/// at depth zero, the falloff-divided count afterwards, one entry beyond
/// the computed number, never more than the offset list holds.
pub open spec fn branch_count(m: int, depth: int, falloff: int, n_offsets: int) -> int {
    let num = if depth == 0 {
        m
    } else {
        div_trunc(m * SCALE, (depth + 1) * falloff)
    };
    if num < n_offsets {
        num + 1
    } else {
        n_offsets
    }
}

/// The arena `fin` extends `orig`: every old node survives with its
/// fields, and every old child list is a prefix of its new one.
pub open spec fn extends_arena(
    orig: Seq<Option<crate::raytree::RayNode>>,
    fin: Seq<Option<crate::raytree::RayNode>>,
) -> bool {
    &&& grows_preserving(orig, fin)
    &&& forall|j: int|
        #[trigger] live(orig, j) ==> node_at(orig, j).child@.is_prefix_of(
            node_at(fin, j).child@,
        )
}

/// Extension composes.
proof fn lemma_extends_trans(
    a: Seq<Option<crate::raytree::RayNode>>,
    b: Seq<Option<crate::raytree::RayNode>>,
    c: Seq<Option<crate::raytree::RayNode>>,
)
    requires
        extends_arena(a, b),
        extends_arena(b, c),
    ensures
        extends_arena(a, c),
{
    lemma_grows_trans(a, b, c);
    assert forall|j: int| #[trigger] live(a, j) implies node_at(a, j).child@.is_prefix_of(
        node_at(c, j).child@,
    ) by {
        assert(live(b, j));
        let ca = node_at(a, j).child@;
        let cb = node_at(b, j).child@;
        let cc = node_at(c, j).child@;
        assert(ca =~= cc.subrange(0, ca.len() as int)) by {
            assert(ca =~= cb.subrange(0, ca.len() as int));
            assert(cb =~= cc.subrange(0, cb.len() as int));
        }
    }
}

/// Subtree membership survives growth that preserves parents and depths.
proof fn lemma_subtree_grows(
    a: Seq<Option<crate::raytree::RayNode>>,
    b: Seq<Option<crate::raytree::RayNode>>,
    root: int,
    j: int,
)
    requires
        grows_preserving(a, b),
        in_subtree(a, root, j),
    ensures
        in_subtree(b, root, j),
    decreases depth_of(a, j),
{
    if j != root {
        match node_at(a, j).parent {
            NodeId::Parent(p) => {
                lemma_subtree_grows(a, b, root, p as int);
            },
            _ => {},
        }
    }
}

/// `count` children of the node `id`, starting at position `k0` of its
/// child list, carry the scatter rays of the hit at `p` with surface
/// normal `nv`: the k-th starts at the hit point along the normal plus
/// the k-th offset, sits one level deeper, and is itself expanded.
pub open spec fn scatter_children_at(
    nodes: Seq<Option<crate::raytree::RayNode>>,
    max: u32,
    shapes: Seq<Shape>,
    offsets: Seq<Vector>,
    m: int,
    falloff: int,
    id: int,
    p: Vec3,
    nv: Vec3,
    k0: int,
    count: int,
    fuel: nat,
) -> bool
    decreases fuel, 1nat,
{
    let n = node_at(nodes, id);
    &&& 0 <= k0
    &&& k0 + count <= n.child@.len()
    &&& forall|k: int|
        0 <= k < count ==> {
            let c = (#[trigger] n.child@[k0 + k]) as int;
            &&& live(nodes, c)
            &&& node_at(nodes, c).ray.start_position == vec_of(p)
            &&& node_at(nodes, c).ray.direction == vector_add(vec_of(nv), offsets[k])
            &&& node_at(nodes, c).recursion_depth == n.recursion_depth + 1
            &&& expanded(nodes, max, shapes, offsets, m, falloff, c, fuel)
        }
}

/// The node `id` is fully expanded: while it lives below the depth bound
/// and its ray hits a shape that offers a normal, the last `branch_count`
/// entries of its child list carry the scatter rays of that hit, each
/// itself expanded one level down.
pub open spec fn expanded(
    nodes: Seq<Option<crate::raytree::RayNode>>,
    max: u32,
    shapes: Seq<Shape>,
    offsets: Seq<Vector>,
    m: int,
    falloff: int,
    id: int,
    fuel: nat,
) -> bool
    decreases fuel, 0nat,
{
    live(nodes, id) ==> {
        let n = node_at(nodes, id);
        if n.recursion_depth >= max {
            true
        } else {
            match nearest_hit_upto(shapes, n.ray, shapes.len() as int) {
                Option::None => true,
                Option::Some(ip) => match shape_normal_spec(shapes[ip.0], ip.1) {
                    Option::None => true,
                    Option::Some(nv) => {
                        let bc = branch_count(
                            m,
                            n.recursion_depth as int,
                            falloff,
                            offsets.len() as int,
                        );
                        fuel > 0 && n.child@.len() >= bc && scatter_children_at(
                            nodes,
                            max,
                            shapes,
                            offsets,
                            m,
                            falloff,
                            id,
                            ip.1,
                            nv,
                            n.child@.len() - bc,
                            bc,
                            (fuel - 1) as nat,
                        )
                    },
                },
            }
        }
    }
}

/// Expansion is stable under growth that changes the child list of at
/// most one node outside the expanded subtree.
proof fn lemma_expanded_stable(
    a: Seq<Option<crate::raytree::RayNode>>,
    b: Seq<Option<crate::raytree::RayNode>>,
    max: u32,
    shapes: Seq<Shape>,
    offsets: Seq<Vector>,
    m: int,
    falloff: int,
    id: int,
    changed: int,
    fuel: nat,
)
    requires
        crate::raytree::wf_nodes(a, max),
        grows_preserving(a, b),
        live(a, id),
        !in_subtree(a, id, changed),
        forall|j: int|
            #[trigger] live(a, j) && j != changed ==> node_at(b, j).child@ == node_at(
                a,
                j,
            ).child@,
        expanded(a, max, shapes, offsets, m, falloff, id, fuel),
    ensures
        expanded(b, max, shapes, offsets, m, falloff, id, fuel),
    decreases fuel,
{
    let n = node_at(a, id);
    assert(live(b, id));
    assert(in_subtree(a, id, id));
    assert(id != changed);
    assert(node_at(b, id).child@ == n.child@);
    assert(node_at(b, id).recursion_depth == n.recursion_depth && node_at(b, id).ray == n.ray);
    if n.recursion_depth < max {
        match nearest_hit_upto(shapes, n.ray, shapes.len() as int) {
            Option::None => {},
            Option::Some(ip) => match shape_normal_spec(shapes[ip.0], ip.1) {
                Option::None => {},
                Option::Some(nv) => {
                    let bc = branch_count(
                        m,
                        n.recursion_depth as int,
                        falloff,
                        offsets.len() as int,
                    );
                    let inner = (fuel - 1) as nat;
                    let k0 = n.child@.len() - bc;
                    assert(scatter_children_at(a, max, shapes, offsets, m, falloff, id, ip.1,
                        nv, k0, bc, inner));
                    assert(crate::raytree::wf_at(a, max, id));
                    assert forall|k: int| 0 <= k < bc implies {
                        let c = (#[trigger] node_at(b, id).child@[k0 + k]) as int;
                        &&& live(b, c)
                        &&& node_at(b, c).ray.start_position == vec_of(ip.1)
                        &&& node_at(b, c).ray.direction == vector_add(vec_of(nv), offsets[k])
                        &&& node_at(b, c).recursion_depth == node_at(b, id).recursion_depth + 1
                        &&& expanded(b, max, shapes, offsets, m, falloff, c, inner)
                    } by {
                        assert(node_at(b, id).child@[k0 + k] == n.child@[k0 + k]);
                        let c = n.child@[k0 + k] as int;
                        assert(live(a, c) && node_at(a, c).ray.start_position == vec_of(ip.1)
                            && node_at(a, c).ray.direction == vector_add(vec_of(nv), offsets[k])
                            && node_at(a, c).recursion_depth == n.recursion_depth + 1 && expanded(
                            a,
                            max,
                            shapes,
                            offsets,
                            m,
                            falloff,
                            c,
                            inner,
                        ));
                        assert(node_at(a, c).parent == NodeId::Parent(id as u32));
                        assert(!in_subtree(a, c, changed)) by {
                            if in_subtree(a, c, changed) {
                                crate::raytree::lemma_child_in_subtree(a, max, id, c);
                                crate::raytree::lemma_subtree_trans(a, id, c, changed);
                            }
                        }
                        lemma_expanded_stable(a, b, max, shapes, offsets, m, falloff, c,
                            changed, inner);
                    }
                    assert(scatter_children_at(b, max, shapes, offsets, m, falloff, id, ip.1,
                        nv, k0, bc, inner));
                },
            },
        }
    }
}

/// Extension is reflexive.
proof fn lemma_extends_refl(nodes: Seq<Option<crate::raytree::RayNode>>)
    ensures
        extends_arena(nodes, nodes),
{
    assert forall|j: int| #[trigger] live(nodes, j) implies node_at(nodes, j).child@.is_prefix_of(
        node_at(nodes, j).child@,
    ) by {
        assert(node_at(nodes, j).child@ =~= node_at(nodes, j).child@.subrange(
            0,
            node_at(nodes, j).child@.len() as int,
        ));
    }
}

/// What the scatter expansion guarantees of the arena, relative to the
/// state it started from: the arena only extends; no old node but the
/// target gains children; every new node sits in the target's subtree;
/// a dead, depth-bounded or missing target leaves the arena untouched;
/// and a hit target gains exactly its branch count of children and is
/// fully expanded (unless the arena ran out of ids, which the final
/// length betrays).
pub open spec fn expansion_post(
    orig: Seq<Option<crate::raytree::RayNode>>,
    fin: Seq<Option<crate::raytree::RayNode>>,
    max: u32,
    shapes: Seq<Shape>,
    offsets: Seq<Vector>,
    m: int,
    falloff: int,
    id: NodeId,
) -> bool {
    match id {
        NodeId::Parent(nid) => {
            &&& extends_arena(orig, fin)
            &&& forall|j: int|
                #[trigger] live(orig, j) && j != nid as int ==> node_at(fin, j).child@ == node_at(
                    orig,
                    j,
                ).child@
            &&& forall|j: int|
                #[trigger] live(fin, j) && !live(orig, j) ==> in_subtree(fin, nid as int, j)
            &&& if !live(orig, nid as int) {
                fin == orig
            } else {
                let n0 = node_at(orig, nid as int);
                if n0.recursion_depth >= max {
                    fin == orig
                } else {
                    match nearest_hit_upto(shapes, n0.ray, shapes.len() as int) {
                        Option::None => fin == orig,
                        Option::Some(ip) => match shape_normal_spec(shapes[ip.0], ip.1) {
                            Option::None => fin == orig,
                            Option::Some(nv) => fin.len() < 0xFFFFFFFE ==> {
                                &&& node_at(fin, nid as int).child@.len() == n0.child@.len()
                                    + branch_count(
                                    m,
                                    n0.recursion_depth as int,
                                    falloff,
                                    offsets.len() as int,
                                )
                                &&& expanded(
                                    fin,
                                    max,
                                    shapes,
                                    offsets,
                                    m,
                                    falloff,
                                    nid as int,
                                    (max - n0.recursion_depth) as nat,
                                )
                            },
                        },
                    }
                }
            }
        },
        _ => fin == orig,
    }
}

/// The recursive scatter expansion over one arena.
fn expand_rays(
    arena: &mut RayArena,
    world: &World,
    offsets: &Vec<Vector>,
    m: usize,
    falloff: i64,
    id: NodeId,
)
    requires
        wf_world(*world),
        wf_arena(*old(arena)),
        rays_wf(old(arena).nodes@),
        forall|k: int|
            0 <= k < offsets@.len() ==> in_range((#[trigger] offsets@[k])@, SCALE as int),
        1 <= m <= 65536,
        1 <= falloff,
    ensures
        wf_arena(*final(arena)),
        rays_wf(final(arena).nodes@),
        final(arena).max_recursion_depth == old(arena).max_recursion_depth,
        grows_preserving(old(arena).nodes@, final(arena).nodes@),
        expansion_post(
            old(arena).nodes@,
            final(arena).nodes@,
            old(arena).max_recursion_depth,
            world.shapes@,
            offsets@,
            m as int,
            falloff as int,
            id,
        ),
    decreases (match id {
        NodeId::Parent(nid) => old(arena).max_recursion_depth + 1 - depth_of(
            old(arena).nodes@,
            nid as int,
        ),
        _ => 0,
    }),
{
    proof {
        lemma_extends_refl(old(arena).nodes@);
    }
    let (depth, ray) = match arena.get_node(id) {
        Some(n) => (n.recursion_depth, n.ray),
        None => {
            return ;
        },
    };
    let ghost nid = match id {
        NodeId::Parent(n) => n as int,
        _ => 0,
    };
    proof {
        assert(live(arena.nodes@, nid));
        assert(crate::raytree::wf_at(arena.nodes@, arena.max_recursion_depth, nid));
    }
    if depth >= arena.max_recursion_depth {
        return ;
    }
    let hit = match world.item_that_collide(&ray) {
        Some(h) => h,
        None => {
            return ;
        },
    };
    let (index, collision_point) = hit;
    let normal = match {
        let shape = world.shapes[index];
        shape.normal_at_point(&collision_point)
    } {
        Some(n) => n,
        None => {
            return ;
        },
    };
    let ghost hit_ip = nearest_hit_upto(world.shapes@, ray, world.shapes@.len() as int).unwrap();
    let ghost nvv = shape_normal_spec(world.shapes@[hit_ip.0], hit_ip.1).unwrap();
    proof {
        assert(collision_point == vec_of(hit_ip.1));
        assert(normal == vec_of(nvv));
    }
    let num: u64 = if depth == 0 {
        m as u64
    } else {
        proof {
            crate::fixed::lemma_mul_bound(
                depth as int + 1,
                falloff as int,
                0x100000000,
                0x7FFFFFFFFFFFFFFF,
            );
            assert((depth as int + 1) * (falloff as int) >= 1) by (nonlinear_arith)
                requires
                    depth as int + 1 >= 1 && falloff as int >= 1;
            crate::fixed::lemma_mul_bound(m as int, SCALE as int, 65536, SCALE as int);
            assert(m as int * (SCALE as int) >= 0) by (nonlinear_arith)
                requires
                    m as int >= 0 && SCALE as int >= 0;
        }
        let denom: i128 = (depth as i128 + 1) * (falloff as i128);
        let wide: i128 = (m as i128) * (SCALE as i128);
        proof {
            vstd::arithmetic::div_mod::lemma_div_pos_is_pos(wide as int, denom as int);
            vstd::arithmetic::div_mod::lemma_div_nonincreasing(wide as int, denom as int);
        }
        let q = crate::fixed::div_wide(wide, denom);
        q as u64
    };
    let bound: usize = if num < offsets.len() as u64 {
        (num + 1) as usize
    } else {
        offsets.len()
    };
    let ghost orig = arena.nodes@;
    let ghost max = arena.max_recursion_depth;
    let ghost old_clen = node_at(orig, nid).child@.len() as int;
    let ghost inner_fuel = (max - depth - 1) as nat;
    proof {
        assert(bound == branch_count(m as int, depth as int, falloff as int, offsets@.len() as int));
    }
    let mut k: usize = 0;
    while k < bound
        invariant
            orig == old(arena).nodes@,
            max == old(arena).max_recursion_depth,
            id == NodeId::Parent(nid as u32),
            0 <= nid < 0xFFFFFFFF,
            wf_world(*world),
            forall|kk: int|
                0 <= kk < offsets@.len() ==> in_range((#[trigger] offsets@[kk])@, SCALE as int),
            1 <= m <= 65536,
            1 <= falloff,
            bound <= offsets@.len(),
            bound == branch_count(m as int, depth as int, falloff as int, offsets@.len() as int),
            0 <= k <= bound,
            wf_arena(*arena),
            rays_wf(arena.nodes@),
            arena.max_recursion_depth == max,
            wf_arena(*old(arena)),
            live(orig, nid),
            depth == node_at(orig, nid).recursion_depth,
            depth < max,
            old_clen == node_at(orig, nid).child@.len(),
            inner_fuel == (max - depth - 1) as nat,
            in_range(collision_point@, COORD_MAX as int),
            in_range(normal@, SCALE as int),
            collision_point == vec_of(hit_ip.1),
            normal == vec_of(nvv),
            nearest_hit_upto(world.shapes@, node_at(orig, nid).ray, world.shapes@.len() as int)
                == Some(hit_ip),
            shape_normal_spec(world.shapes@[hit_ip.0], hit_ip.1) == Some(nvv),
            grows_preserving(orig, arena.nodes@),
            extends_arena(orig, arena.nodes@),
            forall|j: int|
                #[trigger] live(orig, j) && j != nid ==> node_at(arena.nodes@, j).child@
                    == node_at(orig, j).child@,
            forall|j: int|
                #[trigger] live(arena.nodes@, j) && !live(orig, j) ==> in_subtree(
                    arena.nodes@,
                    nid,
                    j,
                ),
            arena.nodes@.len() == 0xFFFFFFFE || (node_at(arena.nodes@, nid).child@.len()
                == old_clen + k && scatter_children_at(
                arena.nodes@,
                max,
                world.shapes@,
                offsets@,
                m as int,
                falloff as int,
                nid,
                hit_ip.1,
                nvv,
                old_clen,
                k as int,
                inner_fuel,
            )),
        decreases bound - k,
    {
        proof {
            assert(live(arena.nodes@, nid));
            assert(node_at(arena.nodes@, nid).recursion_depth == depth);
        }
        let offset = offsets[k];
        let new_direction = normal.add(offset);
        let new_ray = Ray::new(&collision_point, &new_direction);
        let ghost pre_add = arena.nodes@;
        let new_id = arena.add_node(id, &new_ray);
        proof {
            assert(rays_wf(arena.nodes@)) by {
                assert forall|j: int| #[trigger] live(arena.nodes@, j) implies wf_ray(
                    node_at(arena.nodes@, j).ray,
                ) by {
                    if j < pre_add.len() && j != nid {
                        assert(arena.nodes@[j] == pre_add[j]);
                        assert(live(pre_add, j));
                    } else if j == nid {
                        assert(live(pre_add, j));
                        assert(node_at(arena.nodes@, j).ray == node_at(pre_add, j).ray);
                    } else {
                        assert(node_at(arena.nodes@, j).ray == new_ray);
                    }
                }
            }
        }
        if let NodeId::Parent(nn) = new_id {
            proof {
                let cur = arena.nodes@;
                assert(nn as int == pre_add.len());
                assert(live(cur, nn as int));
                assert(depth_of(cur, nn as int) == depth + 1);
                // the arena only grew by the new leaf
                assert(grows_preserving(pre_add, cur));
                assert(extends_arena(pre_add, cur)) by {
                    assert forall|j: int| #[trigger] live(pre_add, j) implies node_at(
                        pre_add,
                        j,
                    ).child@.is_prefix_of(node_at(cur, j).child@) by {
                        if j == nid {
                            assert(node_at(cur, j).child@ == node_at(pre_add, j).child@.push(
                                nn,
                            ));
                            assert(node_at(pre_add, j).child@ =~= node_at(cur, j)
                                .child@.subrange(0, node_at(pre_add, j).child@.len() as int));
                        } else {
                            assert(cur[j] == pre_add[j]);
                            assert(node_at(pre_add, j).child@ =~= node_at(cur, j)
                                .child@.subrange(0, node_at(pre_add, j).child@.len() as int));
                        }
                    }
                }
                lemma_extends_trans(orig, pre_add, cur);
                lemma_grows_trans(orig, pre_add, cur);
                // old nodes other than the target keep their lists
                assert forall|j: int| #[trigger] live(orig, j) && j != nid implies node_at(
                    cur,
                    j,
                ).child@ == node_at(orig, j).child@ by {
                    assert(live(pre_add, j));
                    assert(cur[j] == pre_add[j]);
                }
                // every new node lies in the target's subtree
                crate::raytree::lemma_child_in_subtree(cur, max, nid, nn as int);
                assert forall|j: int| #[trigger] live(cur, j) && !live(orig, j) implies
                    in_subtree(cur, nid, j) by {
                    if j != nn as int {
                        assert(live(pre_add, j));
                        assert(in_subtree(pre_add, nid, j));
                        lemma_subtree_grows(pre_add, cur, nid, j);
                    }
                }
                // the target's list grew by the new child, in position
                if pre_add.len() < 0xFFFFFFFE && node_at(pre_add, nid).child@.len() == old_clen
                    + k {
                    assert(node_at(cur, nid).child@.len() == old_clen + k + 1);
                    assert(node_at(cur, nid).child@[old_clen + k] == nn);
                }
                // previously built children stay expanded: only the
                // target's list changed, and the target is no descendant
                // of a deeper node
                assert forall|kk: int|
                    0 <= kk < k && node_at(pre_add, nid).child@.len() == old_clen + k
                        && scatter_children_at(pre_add, max, world.shapes@, offsets@, m as int,
                        falloff as int, nid, hit_ip.1, nvv, old_clen, k as int, inner_fuel)
                        implies {
                        let c = (#[trigger] node_at(cur, nid).child@[old_clen + kk]) as int;
                        &&& live(cur, c)
                        &&& node_at(cur, c).ray.start_position == vec_of(hit_ip.1)
                        &&& node_at(cur, c).ray.direction == vector_add(vec_of(nvv), offsets@[kk])
                        &&& node_at(cur, c).recursion_depth == node_at(cur, nid).recursion_depth
                            + 1
                        &&& expanded(cur, max, world.shapes@, offsets@, m as int, falloff as int,
                            c, inner_fuel)
                    } by {
                    assert(node_at(cur, nid).child@[old_clen + kk] == node_at(pre_add, nid)
                        .child@[old_clen + kk]);
                    let c = node_at(pre_add, nid).child@[old_clen + kk] as int;
                    assert(live(pre_add, c) && node_at(pre_add, c).recursion_depth == depth + 1);
                    assert(!in_subtree(pre_add, c, nid)) by {
                        if in_subtree(pre_add, c, nid) {
                            crate::raytree::lemma_subtree_depth(pre_add, c, nid);
                        }
                    }
                    lemma_expanded_stable(pre_add, cur, max, world.shapes@, offsets@, m as int,
                        falloff as int, c, nid, inner_fuel);
                }
            }
            let ghost pre_rec = arena.nodes@;
            expand_rays(arena, world, offsets, m, falloff, new_id);
            proof {
                let cur = arena.nodes@;
                lemma_grows_trans(orig, pre_rec, cur);
                lemma_extends_trans(orig, pre_rec, cur);
                assert(live(cur, nn as int) && node_at(cur, nn as int).recursion_depth == depth
                    + 1);
                // the target's list was not touched by the recursion
                assert(nid != nn as int);
                assert(node_at(cur, nid).child@ == node_at(pre_rec, nid).child@);
                assert forall|j: int| #[trigger] live(orig, j) && j != nid implies node_at(
                    cur,
                    j,
                ).child@ == node_at(orig, j).child@ by {
                    assert(live(pre_rec, j));
                    assert(j != nn as int);
                }
                // new nodes of the recursion lie under the new child,
                // hence under the target
                crate::raytree::lemma_child_in_subtree(cur, max, nid, nn as int);
                assert forall|j: int| #[trigger] live(cur, j) && !live(orig, j) implies
                    in_subtree(cur, nid, j) by {
                    if live(pre_rec, j) {
                        assert(in_subtree(pre_rec, nid, j));
                        lemma_subtree_grows(pre_rec, cur, nid, j);
                    } else {
                        assert(in_subtree(cur, nn as int, j));
                        crate::raytree::lemma_subtree_trans(cur, nid, nn as int, j);
                    }
                }
                // carry the built-children account, unless the arena
                // filled up (then it stays full)
                if cur.len() == 0xFFFFFFFE || pre_add.len() >= 0xFFFFFFFE || pre_rec.len()
                    == 0xFFFFFFFE {
                    assert(cur.len() == 0xFFFFFFFE);
                } else {
                    assert(node_at(pre_add, nid).child@.len() == old_clen + k);
                    assert(node_at(cur, nid).child@.len() == old_clen + k + 1);
                    assert(node_at(cur, nid).child@[old_clen + k] == nn);
                    // the new child is itself expanded, whatever the
                    // recursion found
                    assert(expanded(cur, max, world.shapes@, offsets@, m as int, falloff as int,
                        nn as int, inner_fuel)) by {
                        let n1 = node_at(pre_rec, nn as int);
                        if n1.recursion_depth >= max {
                            assert(cur == pre_rec);
                        } else {
                            match nearest_hit_upto(world.shapes@, n1.ray,
                                world.shapes@.len() as int) {
                                Option::None => {
                                    assert(cur == pre_rec);
                                },
                                Option::Some(ip2) => {
                                    match shape_normal_spec(world.shapes@[ip2.0], ip2.1) {
                                        Option::None => {
                                            assert(cur == pre_rec);
                                        },
                                        Option::Some(nv2) => {
                                            assert(inner_fuel == (max - n1.recursion_depth
                                                as int) as nat);
                                        },
                                    }
                                },
                            }
                        }
                    }
                    // earlier children stay expanded: the recursion only
                    // touched the new child and nodes below it
                    assert forall|kk: int| 0 <= kk < k implies {
                        let c = (#[trigger] node_at(cur, nid).child@[old_clen + kk]) as int;
                        &&& live(cur, c)
                        &&& node_at(cur, c).ray.start_position == vec_of(hit_ip.1)
                        &&& node_at(cur, c).ray.direction == vector_add(vec_of(nvv), offsets@[kk])
                        &&& node_at(cur, c).recursion_depth == node_at(cur, nid).recursion_depth
                            + 1
                        &&& expanded(cur, max, world.shapes@, offsets@, m as int, falloff as int,
                            c, inner_fuel)
                    } by {
                        assert(node_at(cur, nid).child@[old_clen + kk] == node_at(pre_rec, nid)
                            .child@[old_clen + kk]);
                        let c = node_at(pre_rec, nid).child@[old_clen + kk] as int;
                        assert(live(pre_rec, c) && node_at(pre_rec, c).recursion_depth == depth
                            + 1);
                        assert(!in_subtree(pre_rec, c, nn as int)) by {
                            if in_subtree(pre_rec, c, nn as int) {
                                assert(node_at(pre_rec, nn as int).parent == NodeId::Parent(
                                    nid as u32,
                                ));
                                assert(in_subtree(pre_rec, c, nid));
                                crate::raytree::lemma_subtree_depth(pre_rec, c, nid);
                            }
                        }
                        assert forall|j: int| #[trigger] live(pre_rec, j) && j != nn as int
                            implies node_at(cur, j).child@ == node_at(pre_rec, j).child@ by {}
                        lemma_expanded_stable(pre_rec, cur, max, world.shapes@, offsets@,
                            m as int, falloff as int, c, nn as int, inner_fuel);
                    }
                    assert(scatter_children_at(cur, max, world.shapes@, offsets@, m as int,
                        falloff as int, nid, hit_ip.1, nvv, old_clen, k + 1 as int, inner_fuel));
                }
            }
        } else {
            proof {
                // the arena is out of ids: it stays that way
                assert(arena.nodes@ == pre_add);
                assert(pre_add.len() >= 0xFFFFFFFE);
                assert(arena.nodes@.len() == 0xFFFFFFFE);
            }
            let ghost pre_rec = arena.nodes@;
            expand_rays(arena, world, offsets, m, falloff, new_id);
            proof {
                assert(arena.nodes@ == pre_rec);
                lemma_extends_trans(orig, pre_add, arena.nodes@);
                lemma_grows_trans(orig, pre_add, arena.nodes@);
            }
        }
        k = k + 1;
    }
    proof {
        if arena.nodes@.len() < 0xFFFFFFFE {
            let fin = arena.nodes@;
            assert(node_at(fin, nid).child@.len() == old_clen + bound);
            assert(expanded(fin, max, world.shapes@, offsets@, m as int, falloff as int, nid, (
            max - depth) as nat)) by {
                assert(live(fin, nid));
                assert(node_at(fin, nid).recursion_depth == depth);
                assert(node_at(fin, nid).ray == node_at(orig, nid).ray);
                assert(node_at(fin, nid).child@.len() - bound == old_clen);
                assert((((max - depth) as nat) - 1) as nat == inner_fuel);
            }
        }
    }
}

} // verus!
