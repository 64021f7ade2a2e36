use nrtrt::lambertian::Lambertian;
use nrtrt::SCALE;

#[test]
fn generate_vectors() {
    let lambertian = Lambertian::new(100);
    assert_eq!(100, lambertian.get_offsets().len());
    for offset in lambertian.get_offsets().iter() {
        let distance = (offset.x as f64).hypot(offset.y as f64).hypot(offset.z as f64)
            / SCALE as f64;
        assert!(
            (1.0 - distance).abs() <= 1e-6,
            "offset magnitude {} is not within 1e-6 of one",
            distance
        );
    }
}
