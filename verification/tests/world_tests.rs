use nrtrt::material::Material;
use nrtrt::ray::Ray;
use nrtrt::shapes::{Shape, Sphere};
use nrtrt::vector::Vector;
use nrtrt::world::World;
use nrtrt::SCALE;

fn fx(v: f64) -> i64 {
    (v * SCALE as f64).round() as i64
}

fn vec(x: f64, y: f64, z: f64) -> Vector {
    Vector { x: fx(x), y: fx(y), z: fx(z) }
}

fn sphere_at(x: f64, r: f64) -> Shape {
    Shape::Sphere(Sphere {
        radius: fx(r),
        position: vec(x, 0.0, 0.0),
        material: Material::default(),
    })
}

/// The strictly closer of two overlapping shapes wins the nearest-hit
/// query, whichever was inserted first.
#[test]
fn nearest_hit_prefers_closer_shape() {
    let ray = Ray::new(&vec(0.0, 0.0, 0.0), &vec(1.0, 0.0, 0.0));

    // near sphere first
    let mut world = World::new();
    world.add_shape(sphere_at(5.0, 1.0));
    world.add_shape(sphere_at(10.0, 1.0));
    let (index, point) = world.item_that_collide(&ray).unwrap();
    assert_eq!(index, 0);
    assert!((point.x - fx(4.0)).abs() <= 16);

    // near sphere second
    let mut world = World::new();
    world.add_shape(sphere_at(10.0, 1.0));
    world.add_shape(sphere_at(5.0, 1.0));
    let (index, point) = world.item_that_collide(&ray).unwrap();
    assert_eq!(index, 1);
    assert!((point.x - fx(4.0)).abs() <= 16);
}

/// At exactly equal distances the earlier-inserted shape wins.
#[test]
fn nearest_hit_tie_prefers_earlier_shape() {
    let ray = Ray::new(&vec(0.0, 0.0, 0.0), &vec(1.0, 0.0, 0.0));

    let mut world = World::new();
    world.add_shape(sphere_at(5.0, 1.0));
    world.add_shape(sphere_at(5.0, 1.0));
    let (index, _point) = world.item_that_collide(&ray).unwrap();
    assert_eq!(index, 0);
}

#[test]
fn nearest_hit_misses_when_nothing_is_hit() {
    let ray = Ray::new(&vec(0.0, 0.0, 0.0), &vec(0.0, 1.0, 0.0));
    let mut world = World::new();
    world.add_shape(sphere_at(5.0, 1.0));
    assert!(world.item_that_collide(&ray).is_none());
}
