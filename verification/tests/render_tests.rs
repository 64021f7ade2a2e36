use nrtrt::camera::{Camera, UpdateStatus};
use nrtrt::raytree::NodeId;
use nrtrt::lightsource::Lightsource;
use nrtrt::material::Material;
use nrtrt::shapes::{Shape, Sphere};
use nrtrt::vector::Vector;
use nrtrt::world::World;
use nrtrt::SCALE;

fn fx(v: f64) -> i64 {
    (v * SCALE as f64).round() as i64
}

fn vec(x: f64, y: f64, z: f64) -> Vector {
    Vector { x: fx(x), y: fx(y), z: fx(z) }
}

/// A 1x1 camera at the origin looking straight along -z, no scatter
/// recursion.
fn pinhole_camera() -> Camera {
    Camera::new(
        1,
        1,
        1,
        1,
        vec(0.0, 0.0, 0.0),
        vec(0.0, 0.0, -1.0),
        4,
        0,
        SCALE / 2,
        vec![(0, SCALE)],
        vec![(0, SCALE)],
    )
}

fn white_sphere_world(light_position: Vector) -> World {
    let mut world = World::new();
    world.add_shape(Shape::Sphere(Sphere {
        radius: fx(2.0),
        position: vec(0.0, 0.0, -10.0),
        material: Material::new_color_ref(255, 255, 255, SCALE, false),
    }));
    world.add_light(Lightsource::new(&light_position, SCALE));
    world
}

/// A primary ray straight at an unobstructed lit sphere gives a white-ish
/// pixel: equal channels, strictly above zero.
#[test]
fn lit_sphere_gives_bright_gray_pixel() {
    let mut camera = pinhole_camera();
    let world = white_sphere_world(vec(0.0, 0.0, 0.0));
    let status = camera.step(&world);
    assert_eq!(status, UpdateStatus::Finished);
    let pixels = camera.to_u32_buffer();
    assert_eq!(pixels.len(), 1);
    let r = (pixels[0] >> 16) & 255;
    let g = (pixels[0] >> 8) & 255;
    let b = pixels[0] & 255;
    assert_eq!(r, g);
    assert_eq!(g, b);
    assert!(r > 0);
}

/// The same scene with the light behind the sphere (fully occluded from
/// the hit point) gives a black pixel.
#[test]
fn occluded_light_gives_black_pixel() {
    let mut camera = pinhole_camera();
    let world = white_sphere_world(vec(0.0, 0.0, -20.0));
    let status = camera.step(&world);
    assert_eq!(status, UpdateStatus::Finished);
    let pixels = camera.to_u32_buffer();
    assert_eq!(pixels.len(), 1);
    assert_eq!(pixels[0], 0);
}

/// For a W x H image with T x T tiles, exactly (W/T) * (H/T) steps turn
/// the scheduler from NotFinished to Finished, and later steps change
/// nothing.
#[test]
fn step_finishes_after_exactly_all_tiles() {
    let mut camera = Camera::new(
        4,
        4,
        2,
        2,
        vec(0.0, 0.0, 0.0),
        vec(0.0, 0.0, -1.0),
        1,
        0,
        SCALE / 2,
        vec![(0, SCALE); 4],
        vec![(0, SCALE); 4],
    );
    let world = World::new();
    let total = (4 / 2) * (4 / 2);
    for i in 0..total {
        assert_eq!(camera.update(), UpdateStatus::NotFinished);
        let status = camera.step(&world);
        if i + 1 < total {
            assert_eq!(status, UpdateStatus::NotFinished);
        } else {
            assert_eq!(status, UpdateStatus::Finished);
        }
    }
    assert_eq!(camera.update(), UpdateStatus::Finished);
    let before = camera.to_u32_buffer();
    assert_eq!(camera.step(&world), UpdateStatus::Finished);
    let after = camera.to_u32_buffer();
    assert_eq!(before, after);
    // an empty scene paints the whole image in the sky color
    for p in after.iter() {
        assert_eq!(*p, (128 << 16) | (218 << 8) | 235);
    }
}

/// The exported RGB triplets match the packed pixel words.
#[test]
fn image_buffer_matches_pixels() {
    let mut camera = pinhole_camera();
    let world = white_sphere_world(vec(0.0, 0.0, 0.0));
    camera.step(&world);
    let packed = camera.to_u32_buffer();
    let bytes = camera.image_buffer();
    assert_eq!(bytes.len(), 3 * packed.len());
    for (i, p) in packed.iter().enumerate() {
        assert_eq!(bytes[3 * i] as u32, (p >> 16) & 255);
        assert_eq!(bytes[3 * i + 1] as u32, (p >> 8) & 255);
        assert_eq!(bytes[3 * i + 2] as u32, p & 255);
    }
}

/// Scatter expansion respects the depth bound: after expanding a world
/// with one hit surface at depth bound one, the tree holds the root and
/// its direct children only.
#[test]
fn expansion_respects_depth_bound() {
    let mut camera = Camera::new(
        1,
        1,
        1,
        1,
        vec(0.0, 0.0, 0.0),
        vec(0.0, 0.0, -1.0),
        4,
        1,
        SCALE / 2,
        vec![(0, SCALE)],
        vec![(0, SCALE)],
    );
    let world = white_sphere_world(vec(0.0, 0.0, 0.0));
    camera.step(&world);
    // exactly 1 root + 4 children at depth 1, each a leaf
    assert_eq!(camera.total_num_of_rays, 5);
    // the per-pixel tree is pruned again: no live node remains
    assert_eq!(camera.arena.num_nodes(), 0);
}

/// The direct lighting of the root node alone: lit from the front it is
/// bright, occluded it is black.
#[test]
fn direct_light_at_node() {
    let mut camera = pinhole_camera();

    let lit = white_sphere_world(vec(0.0, 0.0, 0.0));
    camera.step(&lit);
    let ray = nrtrt::ray::Ray::new(&vec(0.0, 0.0, 0.0), &vec(0.0, 0.0, -1.0));
    let root = camera.arena.add_node(NodeId::Root, &ray);
    let bright = camera.calculate_last_node_color(&lit, root);
    assert!(bright.r > 0 && bright.r == bright.g && bright.g == bright.b);

    let dark_world = white_sphere_world(vec(0.0, 0.0, -20.0));
    let dark = camera.calculate_last_node_color(&dark_world, root);
    assert_eq!((dark.r, dark.g, dark.b), (0, 0, 0));

    // a handle that names no node lights nothing
    let none = camera.calculate_last_node_color(&lit, NodeId::Invalid);
    assert_eq!((none.r, none.g, none.b), (0, 0, 0));
}
