use wirecube::pixel::{Color, Pixel, ALPHA_ONE};
use wirecube::screen::{Screen, WALL};
use wirecube::vecs::{Vec2, FIXED_ONE};

const BLANK: &str = "\u{1b}[38;2;0;0;0m \u{1b}[0m";

/// The normalized point whose grid cell on an 8 by 8 screen is `(col, row)`.
fn cell8(col: i32, row: i32) -> Vec2<i32> {
    Vec2::from(-FIXED_ONE + col * FIXED_ONE / 4, FIXED_ONE - row * FIXED_ONE / 4)
}

fn alpha_at(s: &Screen, x: usize, y: usize) -> u32 {
    s.pixel(x, y).unwrap().alpha()
}

fn changed_cells(s: &Screen) -> Vec<(usize, usize)> {
    let mut out = Vec::new();
    for y in 0..s.height() {
        for x in 0..s.width() {
            if s.pixel(x, y).unwrap() != Pixel::from_alpha(0) {
                out.push((x, y));
            }
        }
    }
    out
}

#[test]
fn new_screen_is_blank() {
    let s = Screen::new(5, 3);
    assert_eq!((s.width(), s.height()), (5, 3));
    assert!(changed_cells(&s).is_empty());
    assert_eq!(s.pixel(5, 0), None);
    assert_eq!(s.pixel(0, 3), None);
}

#[test]
fn projection_corners_and_center() {
    let s = Screen::new(90, 26);
    let p = s.project(Vec2::from(-FIXED_ONE, -FIXED_ONE));
    assert_eq!((p.x, p.y), (0, 26));
    let p = s.project(Vec2::from(FIXED_ONE, FIXED_ONE));
    assert_eq!((p.x, p.y), (90, 0));
    let p = s.project(Vec2::from(0, 0));
    assert_eq!((p.x, p.y), (45, 13));
    let p = s.project(Vec2::from(-FIXED_ONE + 1, -FIXED_ONE + 1));
    assert_eq!((p.x, p.y), (0, 25));
    let p = s.project(Vec2::from(FIXED_ONE - 1, FIXED_ONE - 1));
    assert_eq!((p.x, p.y), (89, 0));
}

#[test]
fn projection_off_screen_is_not_clamped() {
    let s = Screen::new(8, 8);
    let p = s.project(Vec2::from(-3 * FIXED_ONE, 3 * FIXED_ONE));
    assert_eq!((p.x, p.y), (-8, -8));
    let p = s.project(Vec2::from(-3 * FIXED_ONE - 1, -3 * FIXED_ONE));
    assert_eq!((p.x, p.y), (-9, 16));
}

#[test]
fn horizontal_line_coverage() {
    let mut s = Screen::new(8, 8);
    let red = Color { r: 200, g: 0, b: 0 };
    s.draw_line(Pixel::from_color(red), cell8(2, 4), cell8(6, 4));
    for x in 2..6 {
        assert_eq!(s.pixel(x, 4).unwrap(), Pixel { color: red, alpha: ALPHA_ONE / 2 });
    }
    // the end cell's center is at squared distance 1/2: touched with no coverage
    assert_eq!(s.pixel(6, 4).unwrap(), Pixel { color: red, alpha: 0 });
    assert_eq!(changed_cells(&s).len(), 5);
}

#[test]
fn diagonal_line_coverage() {
    let mut s = Screen::new(8, 8);
    s.draw_line(Pixel::from_alpha(ALPHA_ONE), cell8(1, 1), cell8(4, 4));
    // centers on the diagonal lie on the segment
    assert_eq!(alpha_at(&s, 1, 1), ALPHA_ONE);
    assert_eq!(alpha_at(&s, 3, 3), ALPHA_ONE);
    // neighbours off the diagonal: squared distance 1/2
    assert_eq!(alpha_at(&s, 2, 1), 0);
    assert_eq!(s.pixel(3, 1).unwrap(), Pixel::from_alpha(0));
}

#[test]
fn brush_alpha_caps_coverage() {
    let mut s = Screen::new(8, 8);
    s.draw_line(Pixel::from_alpha(ALPHA_ONE / 4), cell8(2, 4), cell8(6, 4));
    assert_eq!(alpha_at(&s, 3, 4), ALPHA_ONE / 4);
}

#[test]
fn degenerate_line_paints_one_cell() {
    let mut s = Screen::new(8, 8);
    let c = Color { r: 1, g: 2, b: 3 };
    s.draw_line(Pixel::from_color(c), cell8(3, 4), cell8(3, 4));
    assert_eq!(changed_cells(&s), vec![(3, 4)]);
    assert_eq!(s.pixel(3, 4).unwrap(), Pixel { color: c, alpha: 0 });
}

#[test]
fn overlapping_lines_accumulate() {
    let mut one = Screen::new(8, 8);
    one.draw_line(Pixel::from_alpha(ALPHA_ONE), cell8(2, 4), cell8(6, 4));
    let mut both = one.clone();
    both.draw_line(Pixel::from_alpha(ALPHA_ONE), cell8(3, 2), cell8(3, 6));
    let mut other = Screen::new(8, 8);
    other.draw_line(Pixel::from_alpha(ALPHA_ONE), cell8(3, 2), cell8(3, 6));
    // cell (3, 4) is at squared distance 1/4 from both lines
    assert_eq!(alpha_at(&one, 3, 4), ALPHA_ONE / 2);
    assert_eq!(alpha_at(&other, 3, 4), ALPHA_ONE / 2);
    assert_eq!(alpha_at(&both, 3, 4), ALPHA_ONE);
    assert!(both.pixel(3, 4).unwrap().glyph() != one.pixel(3, 4).unwrap().glyph());
}

#[test]
fn colors_blend_when_lines_overlap() {
    let mut s = Screen::new(8, 8);
    s.draw_line(Pixel::from_color(Color { r: 200, g: 0, b: 0 }), cell8(2, 4), cell8(6, 4));
    s.draw_line(Pixel::from_color(Color { r: 100, g: 50, b: 0 }), cell8(2, 4), cell8(6, 4));
    assert_eq!(s.pixel(3, 4).unwrap().color, Color { r: 255, g: 50, b: 0 });
}

#[test]
fn off_screen_ends_are_dropped() {
    let mut s = Screen::new(8, 8);
    s.draw_line(Pixel::from_alpha(ALPHA_ONE), Vec2::from(-4 * FIXED_ONE, 0), Vec2::from(4 * FIXED_ONE, 0));
    for x in 0..8 {
        assert_eq!(alpha_at(&s, x, 4), ALPHA_ONE / 2);
        assert_eq!(alpha_at(&s, x, 3), 0);
    }
    let mut t = Screen::new(8, 8);
    t.draw_line(Pixel::from_alpha(ALPHA_ONE), Vec2::from(i32::MIN, i32::MIN), Vec2::from(i32::MIN, i32::MAX));
    assert!(changed_cells(&t).is_empty());
}

#[test]
fn clear_resets_every_pixel() {
    let mut s = Screen::new(8, 8);
    s.draw_line(Pixel::from_alpha(ALPHA_ONE), cell8(0, 0), cell8(7, 7));
    assert!(!changed_cells(&s).is_empty());
    s.clear_context();
    assert!(changed_cells(&s).is_empty());
    assert_eq!((s.width(), s.height()), (8, 8));
}

#[test]
fn cleared_frame_is_wall_and_blank() {
    let mut s = Screen::new(4, 3);
    s.draw_line(Pixel::from_alpha(ALPHA_ONE), Vec2::from(-FIXED_ONE, 0), Vec2::from(FIXED_ONE, 0));
    s.clear_context();
    let text: String = s.render_text().into_iter().collect();
    let wall: String = std::iter::repeat(WALL).take(4).collect();
    let inner = format!("{WALL}{BLANK}{BLANK}{WALL}");
    assert_eq!(text, format!("{wall}\n{inner}\n{wall}\n"));
}

#[test]
fn frame_shows_drawn_pixels() {
    let mut s = Screen::new(8, 8);
    s.draw_line(Pixel::from_color(Color { r: 9, g: 0, b: 0 }), cell8(2, 4), cell8(6, 4));
    let text: String = s.render_text().into_iter().collect();
    let lines: Vec<&str> = text.split('\n').collect();
    assert_eq!(lines.len(), 9);
    assert!(lines[4].contains("\u{1b}[38;2;9;0;0m\u{2592}\u{1b}[0m"));
    assert!(lines[0].chars().all(|c| c == WALL));
}
