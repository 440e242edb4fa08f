use wirecube::pixel::{Color, Pixel, ALPHA_ONE};
use wirecube::vecs::{Vec2, Vec3, FIXED_ONE};

fn deg(d: i32) -> i32 {
    d * FIXED_ONE
}

#[test]
fn hsv_primary_hues() {
    assert_eq!(Color::from_hsv(deg(0), FIXED_ONE, FIXED_ONE), Color { r: 255, g: 0, b: 0 });
    assert_eq!(Color::from_hsv(deg(120), FIXED_ONE, FIXED_ONE), Color { r: 0, g: 255, b: 0 });
    assert_eq!(Color::from_hsv(deg(240), FIXED_ONE, FIXED_ONE), Color { r: 0, g: 0, b: 255 });
    assert_eq!(Color::from_hsv(deg(360), FIXED_ONE, FIXED_ONE), Color { r: 255, g: 0, b: 0 });
}

#[test]
fn hsv_secondary_hues() {
    assert_eq!(Color::from_hsv(deg(60), FIXED_ONE, FIXED_ONE), Color { r: 255, g: 255, b: 0 });
    assert_eq!(Color::from_hsv(deg(180), FIXED_ONE, FIXED_ONE), Color { r: 0, g: 255, b: 255 });
    assert_eq!(Color::from_hsv(deg(300), FIXED_ONE, FIXED_ONE), Color { r: 255, g: 0, b: 255 });
}

#[test]
fn hsv_inside_a_sector() {
    // hue 30: halfway through the red-to-yellow sector, green = round(127.5)
    assert_eq!(Color::from_hsv(deg(30), FIXED_ONE, FIXED_ONE), Color { r: 255, g: 128, b: 0 });
    // value 0.5, saturation 0.5, hue 0: red 0.5, others 0.25
    assert_eq!(
        Color::from_hsv(0, FIXED_ONE / 2, FIXED_ONE / 2),
        Color { r: 128, g: 64, b: 64 }
    );
}

#[test]
fn hsv_gray_without_saturation() {
    for hue in [0, 45, 90, 200, 359] {
        assert_eq!(Color::from_hsv(deg(hue), 0, FIXED_ONE / 2), Color { r: 128, g: 128, b: 128 });
        assert_eq!(Color::from_hsv(deg(hue), 0, FIXED_ONE), Color { r: 255, g: 255, b: 255 });
        assert_eq!(Color::from_hsv(deg(hue), 0, 0), Color { r: 0, g: 0, b: 0 });
    }
}

#[test]
fn hsv_clamps_inputs() {
    assert_eq!(Color::from_hsv(deg(400), FIXED_ONE, FIXED_ONE), Color { r: 255, g: 0, b: 0 });
    assert_eq!(Color::from_hsv(deg(-30), FIXED_ONE, FIXED_ONE), Color { r: 255, g: 0, b: 0 });
    assert_eq!(Color::from_hsv(deg(120), -FIXED_ONE, 2 * FIXED_ONE), Color { r: 255, g: 255, b: 255 });
    assert_eq!(Color::from_hsv(deg(120), 3 * FIXED_ONE, -5), Color { r: 0, g: 0, b: 0 });
}

#[test]
fn pixel_add_saturates_and_commutes() {
    let a = Pixel { color: Color { r: 200, g: 10, b: 0 }, alpha: ALPHA_ONE * 3 / 4 };
    let b = Pixel { color: Color { r: 100, g: 10, b: 255 }, alpha: ALPHA_ONE / 2 };
    let s = a.add(b);
    assert_eq!(s, Pixel { color: Color { r: 255, g: 20, b: 255 }, alpha: ALPHA_ONE });
    assert_eq!(s, b.add(a));
    let c = Pixel { color: Color { r: 1, g: 2, b: 3 }, alpha: 100 };
    let d = Pixel { color: Color { r: 4, g: 5, b: 6 }, alpha: 200 };
    assert_eq!(c.add(d), Pixel { color: Color { r: 5, g: 7, b: 9 }, alpha: 300 });
}

#[test]
fn pixel_constructors() {
    assert_eq!(Pixel::from_alpha(ALPHA_ONE * 2).alpha(), ALPHA_ONE);
    assert_eq!(Pixel::from_alpha(5).alpha(), 5);
    assert_eq!(Pixel::from_alpha(5).color, Color { r: 0, g: 0, b: 0 });
    let c = Color { r: 9, g: 8, b: 7 };
    assert_eq!(Pixel::from_color(c), Pixel { color: c, alpha: ALPHA_ONE });
}

#[test]
fn pixel_glyphs() {
    assert_eq!(Pixel::from_alpha(0).glyph(), ' ');
    assert_eq!(Pixel::from_alpha(ALPHA_ONE / 8 - 1).glyph(), ' ');
    assert_eq!(Pixel::from_alpha(ALPHA_ONE / 8).glyph(), '\u{2591}');
    assert_eq!(Pixel::from_alpha(ALPHA_ONE / 4).glyph(), '\u{2591}');
    assert_eq!(Pixel::from_alpha(ALPHA_ONE / 2).glyph(), '\u{2592}');
    assert_eq!(Pixel::from_alpha(ALPHA_ONE * 3 / 4).glyph(), '\u{2593}');
    assert_eq!(Pixel::from_alpha(ALPHA_ONE * 7 / 8).glyph(), '\u{2588}');
    assert_eq!(Pixel::from_alpha(ALPHA_ONE).glyph(), '\u{2588}');
}

#[test]
fn pixel_text_escapes() {
    let p = Pixel { color: Color { r: 255, g: 0, b: 7 }, alpha: ALPHA_ONE };
    let text: String = p.to_text().into_iter().collect();
    assert_eq!(text, "\u{1b}[38;2;255;0;7m\u{2588}\u{1b}[0m");
    let q = Pixel { color: Color { r: 10, g: 99, b: 100 }, alpha: 0 };
    let text: String = q.to_text().into_iter().collect();
    assert_eq!(text, "\u{1b}[38;2;10;99;100m \u{1b}[0m");
}

#[test]
fn vector_constructors() {
    let v = Vec3::from(1, 2, 3);
    assert_eq!((v.x, v.y, v.z), (1, 2, 3));
    let p = Vec2::from(-4, 5);
    assert_eq!((p.x, p.y), (-4, 5));
}
