use nrtrt::material::Material;
use nrtrt::ray::Ray;
use nrtrt::shapes::{Rectangle, Sphere};
use nrtrt::vector::Vector;
use nrtrt::SCALE;

fn fx(v: f64) -> i64 {
    (v * SCALE as f64).round() as i64
}

fn to_f(raw: i64) -> f64 {
    raw as f64 / SCALE as f64
}

fn vec(x: f64, y: f64, z: f64) -> Vector {
    Vector { x: fx(x), y: fx(y), z: fx(z) }
}

fn assert_close(got: f64, want: f64, tol: f64) {
    assert!(
        (got - want).abs() <= tol,
        "got {} but wanted {} (tolerance {})",
        got,
        want,
        tol
    );
}

#[test]
fn sphere_can_collide() {
    let ray = Ray::new(&vec(-1.0, 0.0, -1.0), &vec(1.0, 1.0, 1.0));

    let position = vec(0.0, 0.0, 0.0);
    let sphere_small = Sphere { radius: fx(0.5), position, material: Material::default() };
    let sphere_just_big_enough =
        Sphere { radius: fx(1.0), position, material: Material::default() };
    let sphere_huge = Sphere { radius: fx(5.0), position, material: Material::default() };

    assert_eq!(true, sphere_just_big_enough.can_collide(&ray));
    assert_eq!(true, sphere_huge.can_collide(&ray));
    assert_eq!(false, sphere_small.can_collide(&ray));
}

#[test]
fn sphere_can_collide_inside_on_border() {
    let ray = Ray::new(&vec(1.0, 0.0, 0.0), &vec(-1.0, 0.0, 0.0));

    let sphere_on_border =
        Sphere { radius: fx(1.0), position: vec(0.0, 0.0, 0.0), material: Material::default() };
    let sphere_inside =
        Sphere { radius: fx(2.0), position: vec(0.0, 0.0, 0.0), material: Material::default() };
    assert_eq!(true, sphere_on_border.can_collide(&ray));
    assert_eq!(true, sphere_inside.can_collide(&ray));
}

#[test]
fn sphere_collision_point() {
    let ray = Ray::new(&vec(-1.0, 1.0, 1.0), &vec(1.0, 0.0, 0.0));

    let sphere =
        Sphere { radius: fx(2.0), position: vec(10.0, 0.0, 0.0), material: Material::default() };
    let result = sphere.collision_point(&ray);
    match result {
        Some(point) => {
            assert_close(to_f(point.x), 8.585786, 1e-6);
            assert_close(to_f(point.y), 1.0, 1e-6);
            assert_close(to_f(point.z), 1.0, 1e-6);
        },
        None => panic!(),
    };
}

#[test]
fn sphere_normal_at_point() {
    let sphere =
        Sphere { radius: fx(1.0), position: vec(0.0, 0.0, 0.0), material: Material::default() };

    let point = vec(
        std::f64::consts::FRAC_1_SQRT_2,
        std::f64::consts::FRAC_1_SQRT_2,
        0.0,
    );
    let normal = sphere.normal_at_point(&point).unwrap();
    //Because the shape is a sphere and its located in (0,0,0), the normal
    //Vector is the same as the point vector.
    assert_close(to_f(normal.x), to_f(point.x), 1e-6);
    assert_close(to_f(normal.y), to_f(point.y), 1e-6);
    assert_close(to_f(normal.z), to_f(point.z), 1e-6);
}

#[test]
fn shapes_can_collide() {
    let ray = Ray {
        start_position: vec(-1.0, 0.0, -1.0),
        direction: vec(1.0, 1.0, 1.0),
    };

    let position = vec(0.0, 0.0, 0.0);
    let sphere_small = Sphere { radius: fx(0.5), position, material: Material::default() };
    let sphere_just_big_enough =
        Sphere { radius: fx(1.0), position, material: Material::default() };
    let sphere_huge = Sphere { radius: fx(5.0), position, material: Material::default() };

    assert_eq!(true, sphere_just_big_enough.can_collide(&ray));
    assert_eq!(true, sphere_huge.can_collide(&ray));
    assert_eq!(false, sphere_small.can_collide(&ray));
}

#[test]
fn shapes_can_collide_inside_on_border() {
    let ray = Ray {
        start_position: vec(1.0, 0.0, 0.0),
        direction: vec(-1.0, 0.0, 0.0),
    };
    let sphere_on_border =
        Sphere { radius: fx(1.0), position: vec(0.0, 0.0, 0.0), material: Material::default() };
    let sphere_inside =
        Sphere { radius: fx(2.0), position: vec(0.0, 0.0, 0.0), material: Material::default() };
    assert_eq!(true, sphere_on_border.can_collide(&ray));
    assert_eq!(true, sphere_inside.can_collide(&ray));
}

#[test]
fn shapes_collision_point() {
    let ray = Ray {
        start_position: vec(-1.0, 1.0, 1.0),
        direction: vec(1.0, 0.0, 0.0),
    };

    let sphere =
        Sphere { radius: fx(2.0), position: vec(10.0, 0.0, 0.0), material: Material::default() };
    let result = sphere.collision_point(&ray);
    match result {
        Some(point) => {
            assert_close(to_f(point.x), 8.585786, 1e-6);
            assert_close(to_f(point.y), 1.0, 1e-6);
            assert_close(to_f(point.z), 1.0, 1e-6);
        },
        None => panic!(),
    };
}

fn get_rectangle() -> Rectangle {
    Rectangle::new(&vec(0.0, 0.0, 0.0), &(fx(100.0), fx(100.0)), &Material::default())
}

fn get_ray() -> Ray {
    Ray::new(&vec(10.0, 10.0, 10.0), &vec(2.0, -1.0, 3.0))
}

#[test]
fn rectangle_can_collide() {
    let rect = get_rectangle();
    let mut ray = get_ray();
    assert_eq!(rect.can_collide(&ray), true);
    ray.direction.y = fx(1.0);
    assert_eq!(rect.can_collide(&ray), false);
    ray.start_position.y = fx(-10.0);
    assert_eq!(rect.can_collide(&ray), true);
}

#[test]
fn rectangle_collision_point() {
    let rect = get_rectangle();
    let ray = get_ray();
    let collision_point = rect.collision_point(&ray).unwrap();
    assert_close(to_f(collision_point.x), 30.0, 1e-6);
    assert_close(to_f(collision_point.y), 0.0, 1e-6);
    assert_close(to_f(collision_point.z), 40.0, 1e-6);
}

#[test]
fn sphere_normal_reconstructs_surface_point() {
    let sphere =
        Sphere { radius: fx(2.0), position: vec(1.0, -1.0, 3.0), material: Material::default() };
    // a point on the surface: center + (1.2, 1.6, 0), with 1.2^2 + 1.6^2 = 2^2
    let point = vec(2.2, 0.6, 3.0);
    let normal = sphere.normal_at_point(&point).unwrap();
    // center + radius * normal lands back on the point, within the
    // surface tolerance plus a few quanta
    let magnitude =
        (to_f(normal.x).powi(2) + to_f(normal.y).powi(2) + to_f(normal.z).powi(2)).sqrt();
    assert_close(magnitude, 1.0, 1e-6);
    let rebuilt = (
        to_f(sphere.position.x) + 2.0 * to_f(normal.x),
        to_f(sphere.position.y) + 2.0 * to_f(normal.y),
        to_f(sphere.position.z) + 2.0 * to_f(normal.z),
    );
    assert_close(rebuilt.0, to_f(point.x), 1e-3);
    assert_close(rebuilt.1, to_f(point.y), 1e-3);
    assert_close(rebuilt.2, to_f(point.z), 1e-3);
}
