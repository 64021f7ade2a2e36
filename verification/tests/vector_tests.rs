use nrtrt::ray::Ray;
use nrtrt::vector::Vector;
use nrtrt::SCALE;

fn fx(v: f64) -> i64 {
    (v * SCALE as f64).round() as i64
}

fn to_f(raw: i64) -> f64 {
    raw as f64 / SCALE as f64
}

fn vec(x: f64, y: f64, z: f64) -> Vector {
    Vector { x: fx(x), y: fx(y), z: fx(z) }
}

fn assert_close(got: f64, want: f64, tol: f64) {
    assert!(
        (got - want).abs() <= tol,
        "got {} but wanted {} (tolerance {})",
        got,
        want,
        tol
    );
}

fn get_test_vectors() -> (Vector, Vector) {
    (vec(2.1, 3.4, 5.7), vec(-2.2, 4.9, 7.4))
}

#[test]
fn add() {
    let (vec_a, vec_b) = get_test_vectors();

    let result_vec = vec_a.add(vec_b);
    assert_close(to_f(result_vec.x), -0.1, 1e-6);
    assert_close(to_f(result_vec.y), 8.3, 1e-6);
    assert_close(to_f(result_vec.z), 13.1, 1e-6);
}

#[test]
fn sub() {
    let (vec_a, vec_b) = get_test_vectors();

    let result_vec = vec_a.sub(vec_b);
    assert_close(to_f(result_vec.x), 4.3, 1e-6);
    assert_close(to_f(result_vec.y), -1.5, 1e-6);
    assert_close(to_f(result_vec.z), -1.7, 1e-6);
}

#[test]
fn mul_scalar() {
    let (vec_a, _vec_b) = get_test_vectors();

    let result_vec = vec_a.mul_scalar(fx(7.0));
    assert_close(to_f(result_vec.x), 14.7, 1e-5);
    assert_close(to_f(result_vec.y), 23.8, 1e-5);
    assert_close(to_f(result_vec.z), 39.9, 1e-5);
}

#[test]
fn mul_cross() {
    let (vec_a, vec_b) = get_test_vectors();

    let result_vec = vec_a.mul(vec_b);
    assert_close(to_f(result_vec.x), -2.77, 1e-5);
    assert_close(to_f(result_vec.y), -28.08, 1e-5);
    assert_close(to_f(result_vec.z), 17.77, 1e-5);
}

#[test]
fn distance() {
    let (vec_a, _vec_b) = get_test_vectors();

    let distance = vec_a.distance();
    assert_close(to_f(distance), 6.9613, 1e-4);
}

#[test]
fn rotate() {
    let (mut vec_a, _vec_b) = get_test_vectors();

    let a45 = 45f64.to_radians();
    vec_a.rotate_x(fx(a45.sin()), fx(a45.cos()));
    assert_close(to_f(vec_a.x), 2.1, 1e-5);
    assert_close(to_f(vec_a.y), -1.626345, 1e-5);
    assert_close(to_f(vec_a.z), 6.434671, 1e-5);

    let am30 = (-30f64).to_radians();
    vec_a.rotate_y(fx(am30.sin()), fx(am30.cos()));
    assert_close(to_f(vec_a.x), -1.398682, 1e-5);
    assert_close(to_f(vec_a.y), -1.626345, 1e-5);
    assert_close(to_f(vec_a.z), 6.622590, 1e-5);

    let a120 = 120f64.to_radians();
    vec_a.rotate_z(fx(a120.sin()), fx(a120.cos()));
    assert_close(to_f(vec_a.x), 2.107798, 1e-5);
    assert_close(to_f(vec_a.y), -0.398121, 1e-5);
    assert_close(to_f(vec_a.z), 6.622590, 1e-5);
}

#[test]
fn normalized_is_unit() {
    let v = vec(3.0, -4.0, 12.0);
    let u = v.normalized();
    let mag = (to_f(u.x).powi(2) + to_f(u.y).powi(2) + to_f(u.z).powi(2)).sqrt();
    assert_close(mag, 1.0, 1e-6);
}

#[test]
fn distance_to_point() {
    let start_position = vec(1.0, 2.0, 3.0);
    let direction = vec(-1.0, -0.5, 7.0);
    let ray = Ray::new(&start_position, &direction);

    let point = vec(5.0, 4.0, 7.0);
    let distance = ray.distance_to_point(point);
    assert_close(to_f(distance), 5.047042, 1e-6);
}
