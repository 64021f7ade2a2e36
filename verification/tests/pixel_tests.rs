use nrtrt::pixel::Color;
use nrtrt::SCALE;

#[test]
fn to_u32() {
    let mut pixel = Color::new();
    assert_eq!(0, pixel.to_u32());

    pixel.r = 23;
    pixel.g = 242;
    pixel.b = 65;
    //--------------------------PADDING--_---R----_---G----_---B----
    let converted_pixel: u32 = 0b00000000_00010111_11110010_01000001;
    assert_eq!(converted_pixel, pixel.to_u32());
}

#[test]
fn color_add_saturates() {
    let a = Color { r: 200, g: 128, b: 255 };
    let b = Color { r: 100, g: 127, b: 1 };
    let c = a.add(b);
    assert_eq!(c.r, 255);
    assert_eq!(c.g, 255);
    assert_eq!(c.b, 255);

    let d = Color { r: 10, g: 20, b: 30 }.add(Color { r: 1, g: 2, b: 3 });
    assert_eq!((d.r, d.g, d.b), (11, 22, 33));
}

#[test]
fn color_add_assign_saturates() {
    let mut a = Color { r: 250, g: 5, b: 100 };
    a.add_assign(Color { r: 250, g: 5, b: 100 });
    assert_eq!((a.r, a.g, a.b), (255, 10, 200));
}

#[test]
fn color_mul_truncates_and_clamps() {
    let a = Color { r: 100, g: 3, b: 255 };
    // factor one half: channels truncate toward zero
    let half = a.mul(SCALE / 2);
    assert_eq!((half.r, half.g, half.b), (50, 1, 127));
    // factor two: channels clamp at the maximum
    let double = a.mul(2 * SCALE);
    assert_eq!((double.r, double.g, double.b), (200, 6, 255));
    // factor zero blanks the color
    let zero = a.mul(0);
    assert_eq!((zero.r, zero.g, zero.b), (0, 0, 0));
}

#[test]
fn color_mul_color_modulates() {
    let a = Color { r: 255, g: 128, b: 0 };
    let b = Color { r: 255, g: 255, b: 255 };
    let c = a.mul_color(b);
    assert_eq!((c.r, c.g, c.b), (255, 128, 0));
    let d = a.mul_color(Color { r: 51, g: 51, b: 51 });
    assert_eq!((d.r, d.g, d.b), (51, 25, 0));
}
