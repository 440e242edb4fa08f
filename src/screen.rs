use crate::pixel::{glyph_index, lemma_glyph_monotone, pixel_text, Color, Pixel, ALPHA_ONE};
use crate::vecs::{Vec2, FIXED_ONE};
use vstd::arithmetic::div_mod::{
    lemma_fundamental_div_mod, lemma_fundamental_div_mod_converse, lemma_mod_bound, lemma_mod_pos_bound, lemma_multiply_divide_le,
    lemma_multiply_divide_lt,
};
use vstd::prelude::*;

verus! {

/// Largest width or height of a screen. It keeps the exact rasterizer
/// arithmetic within 128-bit integers for every fixed-point input point.
pub const MAX_DIM: usize = 16384;

/// The glyph of the wall that frames the grid.
pub const WALL: char = '\u{2588}';

/// A pixel of no color and no coverage.
pub open spec fn blank() -> Pixel {
    Pixel { color: Color { r: 0, g: 0, b: 0 }, alpha: 0 }
}

/// Grid column of the normalized fixed-point abscissa `x` on a grid of
/// width `w`: `floor((x + 1) / 2 * w)`.
pub open spec fn grid_col(w: int, x: int) -> int {
    (x + FIXED_ONE) * w / (2 * FIXED_ONE)
}

/// Grid row of the normalized fixed-point ordinate `y` on a grid of height
/// `h`: `floor((1 - (y + 1) / 2) * h)`, so that rows grow downwards.
pub open spec fn grid_row(h: int, y: int) -> int {
    (FIXED_ONE - y) * h / (2 * FIXED_ONE)
}

/// Whether cell `(cx, cy)` lies in the bounding box of the grid segment
/// from `(x0, y0)` to `(x1, y1)`, bounds included.
pub open spec fn in_box(x0: int, y0: int, x1: int, y1: int, cx: int, cy: int) -> bool {
    &&& (x0 <= cx <= x1 || x1 <= cx <= x0)
    &&& (y0 <= cy <= y1 || y1 <= cy <= y0)
}

/// The parameter `t` of the point of the grid segment from `(x0, y0)` to
/// `(x1, y1)` closest to the center of cell `(cx, cy)`, as
/// `(numerator, denominator)`: the projection of the center onto the
/// segment's line, `((px - x0) dx + (py - y0) dy) / (dx^2 + dy^2)`,
/// clamped to `[0, 1]`, and 0 for a segment of no length.
pub open spec fn closest_t(x0: int, y0: int, x1: int, y1: int, cx: int, cy: int) -> (int, int) {
    let dx = x1 - x0;
    let dy = y1 - y0;
    let len = dx * dx + dy * dy;
    let dot = (2 * cx + 1 - 2 * x0) * dx + (2 * cy + 1 - 2 * y0) * dy;
    if len == 0 || dot <= 0 {
        (0, 1)
    } else if dot >= 2 * len {
        (1, 1)
    } else {
        (dot, 2 * len)
    }
}

/// Squared distance, as `(numerator, denominator)`, from the center
/// `(cx + 1/2, cy + 1/2)` of a cell to the point `(x0, y0) + t (dx, dy)` of
/// the grid segment, with `t` from `closest_t`.
pub open spec fn segment_dist(x0: int, y0: int, x1: int, y1: int, cx: int, cy: int) -> (int, int) {
    let t = closest_t(x0, y0, x1, y1, cx, cy);
    let ex = (2 * cx + 1 - 2 * x0) * t.1 - 2 * t.0 * (x1 - x0);
    let ey = (2 * cy + 1 - 2 * y0) * t.1 - 2 * t.0 * (y1 - y0);
    (ex * ex + ey * ey, 4 * t.1 * t.1)
}

/// Whether the line from `(x0, y0)` to `(x1, y1)` paints cell `(cx, cy)`:
/// the cell is in its bounding box and its center lies within squared
/// distance 1/2 of the segment.
pub open spec fn line_touches(x0: int, y0: int, x1: int, y1: int, cx: int, cy: int) -> bool {
    let d = segment_dist(x0, y0, x1, y1, cx, cy);
    in_box(x0, y0, x1, y1, cx, cy) && 2 * d.0 <= d.1
}

/// The coverage `1 - 2 dist`, in fixed point rounded down, capped at
/// `max_alpha`.
pub open spec fn coverage_of(n: int, d: int, max_alpha: u32) -> u32 {
    let c = ALPHA_ONE * (d - 2 * n) / d;
    if c > max_alpha {
        max_alpha
    } else {
        c as u32
    }
}

/// The coverage that the grid segment `seg` drawn with `brush` gives cell
/// `(cx, cy)`.
pub open spec fn line_coverage(brush: Pixel, seg: (int, int, int, int), cx: int, cy: int) -> u32 {
    let d = segment_dist(seg.0, seg.1, seg.2, seg.3, cx, cy);
    coverage_of(d.0, d.1, brush.alpha)
}

/// What drawing the grid segment from `(x0, y0)` to `(x1, y1)` with `brush`
/// (given as `seg`) makes of pixel `old` at cell `(cx, cy)`: a touched cell has blended into
/// it the brush's color with the line's coverage there; others stay.
pub open spec fn stroke(old: Pixel, brush: Pixel, seg: (int, int, int, int), cx: int, cy: int) -> Pixel {
    if line_touches(seg.0, seg.1, seg.2, seg.3, cx, cy) {
        old.blend(Pixel { color: brush.color, alpha: line_coverage(brush, seg, cx, cy) })
    } else {
        old
    }
}

/// A grid of pixels, stored row by row.
#[derive(Clone, Debug)]
pub struct Screen {
    width: usize,
    height: usize,
    pixels: Vec<Pixel>,
}

fn blank_pixels(n: usize) -> (r: Vec<Pixel>)
    ensures
        r@.len() == n,
        forall|i: int| 0 <= i < n ==> r@[i] == blank(),
{
    let mut v: Vec<Pixel> = Vec::new();
    let mut k: usize = 0;
    while k < n
        invariant
            k <= n,
            v@.len() == k,
            forall|i: int| 0 <= i < k ==> v@[i] == blank(),
        decreases n - k,
    {
        v.push(Pixel { color: Color { r: 0, g: 0, b: 0 }, alpha: 0 });
        k = k + 1;
    }
    v
}

impl Screen {
    /// The pixels, row by row.
    pub closed spec fn cells(&self) -> Seq<Pixel> {
        self.pixels@
    }

    /// Number of columns.
    pub closed spec fn cols(&self) -> nat {
        self.width as nat
    }

    /// Number of rows.
    pub closed spec fn rows(&self) -> nat {
        self.height as nat
    }

    /// Number of columns.
    pub fn width(&self) -> (r: usize)
        ensures
            r == self.cols(),
    {
        self.width
    }

    /// Number of rows.
    pub fn height(&self) -> (r: usize)
        ensures
            r == self.rows(),
    {
        self.height
    }

    /// The grid fits its bounds, holds one pixel per cell, and every
    /// pixel's coverage is in range.
    pub open spec fn wf(&self) -> bool {
        &&& self.cols() <= MAX_DIM
        &&& self.rows() <= MAX_DIM
        &&& self.cells().len() == self.cols() * self.rows()
        &&& forall|i: int| 0 <= i < self.cells().len() ==> (#[trigger] self.cells()[i]).wf()
    }

    /// The pixel of column `x` and row `y`.
    pub open spec fn cell(&self, x: int, y: int) -> Pixel {
        self.cells()[y * self.cols() + x]
    }

    /// Whether every pixel is blank.
    pub open spec fn is_clear(&self) -> bool {
        forall|i: int| 0 <= i < self.cells().len() ==> #[trigger] self.cells()[i] == blank()
    }

    /// A screen of the given size with every pixel blank.
    pub fn new(width: usize, height: usize) -> (r: Screen)
        requires
            width <= MAX_DIM,
            height <= MAX_DIM,
        ensures
            r.wf(),
            r.cols() == width,
            r.rows() == height,
            r.is_clear(),
    {
        proof {
            assert(width * height <= MAX_DIM * MAX_DIM) by (nonlinear_arith)
                requires
                    width <= MAX_DIM,
                    height <= MAX_DIM,
            ;
        }
        Screen { width, height, pixels: blank_pixels(width * height) }
    }

    /// Resets every pixel to blank.
    pub fn clear_context(&mut self)
        requires
            old(self).wf(),
        ensures
            final(self).wf(),
            final(self).cols() == old(self).cols(),
            final(self).rows() == old(self).rows(),
            final(self).is_clear(),
    {
        self.pixels = blank_pixels(self.pixels.len());
    }

    /// The pixel of column `x` and row `y`, if that cell is on the grid.
    pub fn pixel(&self, x: usize, y: usize) -> (r: Option<Pixel>)
        requires
            self.wf(),
        ensures
            r == (if x < self.cols() && y < self.rows() {
                Some(self.cell(x as int, y as int))
            } else {
                None::<Pixel>
            }),
    {
        if x < self.width && y < self.height {
            let n = self.pixels.len();
            proof {
                assert(y * self.width + x < self.width * self.height) by (nonlinear_arith)
                    requires
                        x < self.width,
                        y < self.height,
                ;
            }
            Some(self.pixels[y * self.width + x])
        } else {
            None
        }
    }
}


/// `n / d` rounded towards negative infinity.
fn floor_div(n: i64, d: i64) -> (r: i64)
    requires
        0 < d <= 0x20000,
        n > i64::MIN,
    ensures
        r == n / d,
{
    if n >= 0 {
        ((n as u64) / (d as u64)) as i64
    } else {
        let m: u64 = (-n) as u64;
        let q: u64 = (m + (d as u64 - 1)) / d as u64;
        proof {
            let x = (m + d - 1) as int;
            lemma_fundamental_div_mod(x, d as int);
            lemma_mod_pos_bound(x, d as int);
            assert(x < d * (m + 1)) by (nonlinear_arith)
                requires
                    x == m + d - 1,
                    m >= 1,
                    d >= 1,
            ;
            lemma_multiply_divide_lt(x, d as int, m + 1);
            assert(n == d * (-q) + (n + q * d)) by (nonlinear_arith);
            assert(q * d == d * q) by (nonlinear_arith);
            lemma_fundamental_div_mod_converse(n as int, d as int, -q, n + q * d);
        }
        -(q as i64)
    }
}

/// Any grid coordinate of a fixed-point point on a screen of at most
/// `MAX_DIM` cells a side lies strictly within `2^29` of zero.
proof fn lemma_grid_bound(k: int, v: int)
    requires
        0 <= k <= MAX_DIM,
        i32::MIN <= v <= i32::MAX,
    ensures
        -0x2000_0000 < grid_col(k, v) < 0x2000_0000,
        -0x2000_0000 < grid_row(k, v) < 0x2000_0000,
{
    let a = (v + FIXED_ONE) * k;
    let b = (FIXED_ONE - v) * k;
    assert(-0x2000_0000 * 0x10000 < a < 0x2000_0000 * 0x20000 - 0x20000) by (nonlinear_arith)
        requires
            a == (v + FIXED_ONE) * k,
            0 <= k <= MAX_DIM,
            i32::MIN <= v <= i32::MAX,
    ;
    assert(-0x2000_0000 * 0x10000 < b < 0x2000_0000 * 0x20000 - 0x20000) by (nonlinear_arith)
        requires
            b == (FIXED_ONE - v) * k,
            0 <= k <= MAX_DIM,
            i32::MIN <= v <= i32::MAX,
    ;
    lemma_fundamental_div_mod(a, 0x20000);
    lemma_fundamental_div_mod(b, 0x20000);
    lemma_mod_bound(a, 0x20000);
    lemma_mod_bound(b, 0x20000);
}

impl Screen {
    /// Maps a normalized fixed-point point, whose visible range is `[-1, 1]`
    /// on each axis, to grid indices; the y axis is flipped so that rows
    /// grow downwards. Points outside the visible range give indices off
    /// the grid; nothing is clamped.
    pub fn project(&self, p: Vec2<i32>) -> (r: Vec2<i64>)
        requires
            self.wf(),
        ensures
            r.x == grid_col(self.cols() as int, p.x as int),
            r.y == grid_row(self.rows() as int, p.y as int),
    {
        let one = FIXED_ONE as i64;
        let w = self.width as i64;
        let h = self.height as i64;
        proof {
            assert(-0x1_0000_0000 * MAX_DIM <= (p.x + one) * w <= 0x1_0000_0000 * MAX_DIM)
                by (nonlinear_arith)
                requires
                    0 <= w <= MAX_DIM,
                    i32::MIN <= p.x <= i32::MAX,
                    one == 65536,
            ;
            assert(-0x1_0000_0000 * MAX_DIM <= (one - p.y) * h <= 0x1_0000_0000 * MAX_DIM)
                by (nonlinear_arith)
                requires
                    0 <= h <= MAX_DIM,
                    i32::MIN <= p.y <= i32::MAX,
                    one == 65536,
            ;
        }
        let x = floor_div((p.x as i64 + one) * w, 2 * one);
        let y = floor_div((one - p.y as i64) * h, 2 * one);
        Vec2 { x, y }
    }
}


proof fn lemma_mul_bound(a: int, b: int, ba: int, bb: int)
    requires
        -ba < a < ba,
        -bb < b < bb,
    ensures
        -(ba * bb) < a * b < ba * bb,
{
    assert(-(ba * bb) < a * b < ba * bb) by (nonlinear_arith)
        requires
            -ba < a < ba,
            -bb < b < bb,
    ;
}

/// Inside the segment, the squared distance to the closest point is that
/// to the segment's line: `cross^2 / (4 len)`, scaled by `4 len`.
proof fn lemma_cross_form(x0: int, y0: int, x1: int, y1: int, cx: int, cy: int)
    requires
        ({
            let dx = x1 - x0;
            let dy = y1 - y0;
            let len = dx * dx + dy * dy;
            let dot = (2 * cx + 1 - 2 * x0) * dx + (2 * cy + 1 - 2 * y0) * dy;
            len > 0 && 0 < dot < 2 * len
        }),
    ensures
        ({
            let ux = 2 * cx + 1 - 2 * x0;
            let uy = 2 * cy + 1 - 2 * y0;
            let dx = x1 - x0;
            let dy = y1 - y0;
            let len = dx * dx + dy * dy;
            let cross = ux * dy - uy * dx;
            segment_dist(x0, y0, x1, y1, cx, cy) == ((4 * len) * (cross * cross), (4 * len) * (4 * len))
        }),
{
    let ux = 2 * cx + 1 - 2 * x0;
    let uy = 2 * cy + 1 - 2 * y0;
    let dx = x1 - x0;
    let dy = y1 - y0;
    let len = dx * dx + dy * dy;
    let dot = ux * dx + uy * dy;
    let cross = ux * dy - uy * dx;
    let ex = ux * (2 * len) - 2 * dot * dx;
    let ey = uy * (2 * len) - 2 * dot * dy;
    assert(ex == 2 * dy * cross) by (nonlinear_arith)
        requires
            ex == ux * (2 * len) - 2 * dot * dx,
            len == dx * dx + dy * dy,
            dot == ux * dx + uy * dy,
            cross == ux * dy - uy * dx,
    ;
    assert(ey == -2 * dx * cross) by (nonlinear_arith)
        requires
            ey == uy * (2 * len) - 2 * dot * dy,
            len == dx * dx + dy * dy,
            dot == ux * dx + uy * dy,
            cross == ux * dy - uy * dx,
    ;
    assert(ex * ex + ey * ey == (4 * len) * (cross * cross)) by (nonlinear_arith)
        requires
            ex == 2 * dy * cross,
            ey == -2 * dx * cross,
            len == dx * dx + dy * dy,
    ;
    assert(4 * (2 * len) * (2 * len) == (4 * len) * (4 * len)) by (nonlinear_arith);
}

/// Scaling a squared distance's numerator and denominator alike changes
/// neither whether the line reaches the cell nor the coverage it gives.
proof fn lemma_scaled_dist(n: int, d: int, k: int, max_alpha: u32)
    requires
        0 <= n,
        0 < d,
        0 < k,
    ensures
        (2 * (k * n) <= k * d) == (2 * n <= d),
        2 * n <= d ==> coverage_of(k * n, k * d, max_alpha) == coverage_of(n, d, max_alpha),
{
    assert((2 * (k * n) <= k * d) == (2 * n <= d)) by (nonlinear_arith)
        requires
            0 < k,
    ;
    if 2 * n <= d {
        let x = ALPHA_ONE * (d - 2 * n);
        lemma_fundamental_div_mod(x, d);
        lemma_mod_bound(x, d);
        let q = x / d;
        let r = x % d;
        assert(ALPHA_ONE * (k * d - 2 * (k * n)) == q * (k * d) + r * k && 0 <= r * k < k * d)
            by (nonlinear_arith)
            requires
                x == ALPHA_ONE * (d - 2 * n),
                x == d * q + r,
                0 <= r < d,
                0 < k,
        ;
        lemma_fundamental_div_mod_converse(ALPHA_ONE * (k * d - 2 * (k * n)), k * d, q, r * k);
    }
}

/// The coverage that the grid segment from `(x0, y0)` to `(x1, y1)` gives
/// cell `(cx, cy)`, capped at `max_alpha`, or `None` where the cell's center
/// is farther than the line's reach.
fn cell_coverage(x0: i64, y0: i64, x1: i64, y1: i64, cx: i64, cy: i64, max_alpha: u32) -> (r: Option<u32>)
    requires
        -0x2000_0000 < x0 < 0x2000_0000,
        -0x2000_0000 < y0 < 0x2000_0000,
        -0x2000_0000 < x1 < 0x2000_0000,
        -0x2000_0000 < y1 < 0x2000_0000,
        0 <= cx < MAX_DIM,
        0 <= cy < MAX_DIM,
    ensures
        ({
            let d = segment_dist(x0 as int, y0 as int, x1 as int, y1 as int, cx as int, cy as int);
            r == (if 2 * d.0 <= d.1 {
                Some(coverage_of(d.0, d.1, max_alpha))
            } else {
                None::<u32>
            })
        }),
{
    let ux: i128 = 2 * cx as i128 + 1 - 2 * x0 as i128;
    let uy: i128 = 2 * cy as i128 + 1 - 2 * y0 as i128;
    let dx: i128 = x1 as i128 - x0 as i128;
    let dy: i128 = y1 as i128 - y0 as i128;
    proof {
        lemma_mul_bound(ux as int, dx as int, 0x8000_0000, 0x4000_0000);
        lemma_mul_bound(uy as int, dy as int, 0x8000_0000, 0x4000_0000);
        lemma_mul_bound(ux as int, dy as int, 0x8000_0000, 0x4000_0000);
        lemma_mul_bound(uy as int, dx as int, 0x8000_0000, 0x4000_0000);
        lemma_mul_bound(dx as int, dx as int, 0x4000_0000, 0x4000_0000);
        lemma_mul_bound(dy as int, dy as int, 0x4000_0000, 0x4000_0000);
        lemma_mul_bound(ux as int, ux as int, 0x8000_0000, 0x8000_0000);
        lemma_mul_bound(uy as int, uy as int, 0x8000_0000, 0x8000_0000);
    }
    let len: i128 = dx * dx + dy * dy;
    let dot: i128 = ux * dx + uy * dy;
    let (n, d): (i128, i128) = if len == 0 || dot <= 0 {
        (ux * ux + uy * uy, 4)
    } else if dot >= 2 * len {
        let vx: i128 = ux - 2 * dx;
        let vy: i128 = uy - 2 * dy;
        proof {
            lemma_mul_bound(vx as int, vx as int, 0x1_0000_0000, 0x1_0000_0000);
            lemma_mul_bound(vy as int, vy as int, 0x1_0000_0000, 0x1_0000_0000);
        }
        (vx * vx + vy * vy, 4)
    } else {
        let cross: i128 = ux * dy - uy * dx;
        proof {
            lemma_mul_bound(cross as int, cross as int, 0x4000_0000_0000_0000, 0x4000_0000_0000_0000);
        }
        (cross * cross, 4 * len)
    };
    assert(n >= 0 && d > 0 && d < 0x8000_0000_0000_0000 && n < 0x1000_0000_0000_0000_0000_0000_0000_0000)
        by (nonlinear_arith)
        requires
            n == ux * ux + uy * uy || n == (ux - 2 * dx) * (ux - 2 * dx) + (uy - 2 * dy) * (uy - 2 * dy) || n == (ux * dy - uy * dx) * (ux * dy - uy * dx),
            d == 4 || d == 4 * len,
            len == dx * dx + dy * dy,
            d == 4 * len ==> len > 0,
            n < 0x1000_0000_0000_0000_0000_0000_0000_0000,
            len < 0x2000_0000_0000_0000,
    ;
    proof {
        if !(len == 0 || dot <= 0) && !(dot >= 2 * len) {
            lemma_cross_form(x0 as int, y0 as int, x1 as int, y1 as int, cx as int, cy as int);
            lemma_scaled_dist(n as int, d as int, 4 * len, max_alpha);
        } else if len == 0 || dot <= 0 {
            assert(closest_t(x0 as int, y0 as int, x1 as int, y1 as int, cx as int, cy as int) == (0int, 1int));
            assert(ux * 1 - 2 * 0 * dx == ux && uy * 1 - 2 * 0 * dy == uy) by (nonlinear_arith);
        } else {
            assert(closest_t(x0 as int, y0 as int, x1 as int, y1 as int, cx as int, cy as int) == (1int, 1int));
            assert(ux * 1 - 2 * 1 * dx == ux - 2 * dx && uy * 1 - 2 * 1 * dy == uy - 2 * dy) by (nonlinear_arith);
        }
    }
    if 2 * n <= d {
        let a: u128 = (ALPHA_ONE as u128) * ((d - 2 * n) as u128);
        proof {
            lemma_multiply_divide_le(a as int, d as int, ALPHA_ONE as int);
        }
        let c = (a / d as u128) as u32;
        if c > max_alpha {
            Some(max_alpha)
        } else {
            Some(c)
        }
    } else {
        None
    }
}


impl Screen {
    /// The grid end points `(x0, y0, x1, y1)` of the segment between two
    /// normalized fixed-point points.
    pub open spec fn grid_segment(&self, start: Vec2<i32>, end: Vec2<i32>) -> (int, int, int, int) {
        (
            grid_col(self.cols() as int, start.x as int),
            grid_row(self.rows() as int, start.y as int),
            grid_col(self.cols() as int, end.x as int),
            grid_row(self.rows() as int, end.y as int),
        )
    }

    /// Draws an anti-aliased line between two normalized fixed-point points.
    /// Both ends are projected onto the grid; every cell of the segment's
    /// bounding box whose center lies within squared distance 1/2 of the
    /// segment has blended into it the brush's color with coverage
    /// `1 - 2 dist`, capped at the brush's own coverage. Cells off the grid
    /// are left out.
    #[verifier::spinoff_prover]
    pub fn draw_line(&mut self, brightness: Pixel, start: Vec2<i32>, end: Vec2<i32>)
        requires
            old(self).wf(),
        ensures
            final(self).wf(),
            final(self).cols() == old(self).cols(),
            final(self).rows() == old(self).rows(),
            forall|i: int|
                0 <= i < final(self).cells().len() ==> #[trigger] final(self).cells()[i] == stroke(
                    old(self).cells()[i],
                    brightness,
                    old(self).grid_segment(start, end),
                    i % (old(self).cols() as int),
                    i / (old(self).cols() as int),
                ),
    {
        let a = self.project(start);
        let b = self.project(end);
        let w = self.width;
        let h = self.height;
        let ghost seg = self.grid_segment(start, end);
        let ghost old_cells = self.pixels@;
        proof {
            lemma_grid_bound(w as int, start.x as int);
            lemma_grid_bound(h as int, start.y as int);
            lemma_grid_bound(w as int, end.x as int);
            lemma_grid_bound(h as int, end.y as int);
        }
        if w == 0 || h == 0 {
            proof {
                assert(w * h == 0) by (nonlinear_arith)
                    requires
                        w == 0 || h == 0,
                ;
            }
            return;
        }
        let (x0, y0, x1, y1) = (a.x, a.y, b.x, b.y);
        let xmin = if x0 < x1 { x0 } else { x1 };
        let xmax = if x0 < x1 { x1 } else { x0 };
        let ymin = if y0 < y1 { y0 } else { y1 };
        let ymax = if y0 < y1 { y1 } else { y0 };
        let xlo: i64 = if xmin < 0 { 0 } else { xmin };
        let xhi: i64 = if xmax > w as i64 - 1 { w as i64 - 1 } else { xmax };
        let ylo: i64 = if ymin < 0 { 0 } else { ymin };
        let yhi: i64 = if ymax > h as i64 - 1 { h as i64 - 1 } else { ymax };
        proof {
            assert forall|i: int| 0 <= i < w * h implies 0 <= #[trigger] (i % (w as int)) < w && 0 <= i / (w as int) < h by {
                lemma_fundamental_div_mod(i, w as int);
                lemma_mod_bound(i, w as int);
                assert(i / (w as int) < h) by {
                    assert(w * h == h * w) by (nonlinear_arith);
                    lemma_multiply_divide_lt(i, w as int, h as int);
                }
                assert(i / (w as int) >= 0) by {
                    vstd::arithmetic::div_mod::lemma_div_pos_is_pos(i, w as int);
                }
            }
        }
        let total = self.pixels.len();
        let mut y: i64 = ylo;
        while y <= yhi
            invariant
                self.width == w,
                self.height == h,
                0 < w <= MAX_DIM,
                0 < h <= MAX_DIM,
                self.pixels@.len() == w * h,
                old_cells.len() == w * h,
                forall|i: int| 0 <= i < w * h ==> (#[trigger] old_cells[i]).wf(),
                seg == (x0 as int, y0 as int, x1 as int, y1 as int),
                xmin == (if x0 < x1 { x0 } else { x1 }),
                xmax == (if x0 < x1 { x1 } else { x0 }),
                ymin == (if y0 < y1 { y0 } else { y1 }),
                ymax == (if y0 < y1 { y1 } else { y0 }),
                xlo == (if xmin < 0 { 0 } else { xmin }),
                xhi == (if xmax > w - 1 { w - 1 } else { xmax as int }),
                ylo == (if ymin < 0 { 0 } else { ymin }),
                yhi == (if ymax > h - 1 { h - 1 } else { ymax as int }),
                -0x2000_0000 < x0 < 0x2000_0000,
                -0x2000_0000 < y0 < 0x2000_0000,
                -0x2000_0000 < x1 < 0x2000_0000,
                -0x2000_0000 < y1 < 0x2000_0000,
                ylo <= y,
                w * h <= usize::MAX,
                forall|i: int| 0 <= i < w * h ==> 0 <= #[trigger] (i % (w as int)) < w && 0 <= i / (w as int) < h,
                forall|i: int|
                    0 <= i < w * h ==> #[trigger] self.pixels@[i] == (if i / (w as int) < y {
                        stroke(old_cells[i], brightness, seg, i % (w as int), i / (w as int))
                    } else {
                        old_cells[i]
                    }),
            decreases yhi + 1 - y,
        {
            let mut x: i64 = xlo;
            while x <= xhi
                invariant
                    self.width == w,
                    self.height == h,
                    0 < w <= MAX_DIM,
                    0 < h <= MAX_DIM,
                    self.pixels@.len() == w * h,
                    old_cells.len() == w * h,
                    forall|i: int| 0 <= i < w * h ==> (#[trigger] old_cells[i]).wf(),
                    seg == (x0 as int, y0 as int, x1 as int, y1 as int),
                    xmin == (if x0 < x1 { x0 } else { x1 }),
                    xmax == (if x0 < x1 { x1 } else { x0 }),
                    xlo == (if xmin < 0 { 0 } else { xmin }),
                    xhi == (if xmax > w - 1 { w - 1 } else { xmax as int }),
                    ymin == (if y0 < y1 { y0 } else { y1 }),
                    ymax == (if y0 < y1 { y1 } else { y0 }),
                    ylo == (if ymin < 0 { 0 } else { ymin }),
                    yhi == (if ymax > h - 1 { h - 1 } else { ymax as int }),
                    ylo <= y <= yhi,
                    0 <= y < h,
                    w * h <= usize::MAX,
                    -0x2000_0000 < x0 < 0x2000_0000,
                    -0x2000_0000 < y0 < 0x2000_0000,
                    -0x2000_0000 < x1 < 0x2000_0000,
                    -0x2000_0000 < y1 < 0x2000_0000,
                    xlo <= x,
                    x <= xhi + 1 || x == xlo,
                    forall|i: int| 0 <= i < w * h ==> 0 <= #[trigger] (i % (w as int)) < w && 0 <= i / (w as int) < h,
                    forall|i: int|
                        0 <= i < w * h ==> #[trigger] self.pixels@[i] == (if i / (w as int) < y || (i / (w as int) == y && i % (w as int) < x) {
                            stroke(old_cells[i], brightness, seg, i % (w as int), i / (w as int))
                        } else {
                            old_cells[i]
                        }),
                decreases xhi + 1 - x,
            {
                proof {
                    assert(y * w + x < w * h) by (nonlinear_arith)
                        requires
                            0 <= x < w,
                            0 <= y < h,
                    ;
                    lemma_fundamental_div_mod_converse((y * w + x) as int, w as int, y as int, x as int);
                }
                let idx: usize = (y as usize) * w + x as usize;
                let ghost before = self.pixels@;
                assert(in_box(seg.0, seg.1, seg.2, seg.3, x as int, y as int));
                match cell_coverage(x0, y0, x1, y1, x, y, brightness.alpha) {
                    Some(c) => {
                        let p = self.pixels[idx].add(Pixel { color: brightness.color, alpha: c });
                        self.pixels.set(idx, p);
                    },
                    None => {},
                }
                proof {
                    assert(self.pixels@[idx as int] == stroke(old_cells[idx as int], brightness, seg, x as int, y as int));
                    assert forall|i: int| 0 <= i < w * h && i != idx implies #[trigger] self.pixels@[i] == before[i] by {
                    }
                    assert forall|i: int| 0 <= i < w * h && i / (w as int) == y && #[trigger] (i % (w as int)) == x implies i == idx by {
                        lemma_fundamental_div_mod(i, w as int);
                        assert((w as int) * (y as int) == (y as int) * (w as int)) by (nonlinear_arith);
                    }
                }
                x = x + 1;
            }
            y = y + 1;
        }
    }
}


impl Screen {
    /// Whether cell `(x, y)` is on the outermost ring of the grid.
    pub open spec fn on_border(&self, x: int, y: int) -> bool {
        y == 0 || y == self.rows() - 1 || x == 0 || x == self.cols() - 1
    }

    /// The text of cell `(x, y)`: the wall glyph on the border, the pixel's
    /// own text inside.
    pub open spec fn cell_text(&self, x: int, y: int) -> Seq<char> {
        if self.on_border(x, y) {
            seq![WALL]
        } else {
            pixel_text(self.cell(x, y))
        }
    }

    /// The text of the first `n` cells of row `y`.
    pub open spec fn row_text(&self, y: int, n: nat) -> Seq<char>
        decreases n,
    {
        if n == 0 {
            seq![]
        } else {
            self.row_text(y, (n - 1) as nat) + self.cell_text(n - 1, y)
        }
    }

    /// The text of the first `n` rows, each ended by a line break.
    pub open spec fn frame_text(&self, n: nat) -> Seq<char>
        decreases n,
    {
        if n == 0 {
            seq![]
        } else {
            self.frame_text((n - 1) as nat) + self.row_text(n - 1, self.cols()) + seq!['\n']
        }
    }

    /// The whole grid as text, one line per row, framed by the wall.
    pub fn render_text(&self) -> (r: Vec<char>)
        requires
            self.wf(),
        ensures
            r@ == self.frame_text(self.rows()),
    {
        let w = self.width;
        let h = self.height;
        let total = self.pixels.len();
        let mut out: Vec<char> = Vec::new();
        let mut y: usize = 0;
        while y < h
            invariant
                self.wf(),
                w == self.cols(),
                h == self.rows(),
                total == w * h,
                y <= h,
                out@ == self.frame_text(y as nat),
            decreases h - y,
        {
            let mut x: usize = 0;
            while x < w
                invariant
                    self.wf(),
                    w == self.cols(),
                    h == self.rows(),
                    total == w * h,
                    x <= w,
                    y < h,
                    out@ == self.frame_text(y as nat) + self.row_text(y as int, x as nat),
                decreases w - x,
            {
                if y == 0 || y == h - 1 || x == 0 || x == w - 1 {
                    out.push(WALL);
                } else {
                    proof {
                        assert(y * w + x < w * h) by (nonlinear_arith)
                            requires
                                x < w,
                                y < h,
                        ;
                    }
                    self.pixels[y * w + x].push_text(&mut out);
                }
                assert(out@ =~= self.frame_text(y as nat) + self.row_text(y as int, (x + 1) as nat));
                x = x + 1;
            }
            out.push('\n');
            assert(out@ =~= self.frame_text((y + 1) as nat));
            y = y + 1;
        }
        out
    }
}


/// A line from a grid cell to itself paints that cell alone.
pub proof fn lemma_degenerate_line(old: Pixel, brush: Pixel, x0: int, y0: int, cx: int, cy: int)
    ensures
        stroke(old, brush, (x0, y0, x0, y0), cx, cy) != old ==> cx == x0 && cy == y0,
        line_touches(x0, y0, x0, y0, cx, cy) ==> cx == x0 && cy == y0,
        line_touches(x0, y0, x0, y0, x0, y0),
{
    assert((x0 - x0) * (x0 - x0) + (y0 - y0) * (y0 - y0) == 0);
    assert(segment_dist(x0, y0, x0, y0, x0, y0) == (2int, 4int));
}

/// The corners and the center of the visible range land on the grid's
/// edges and middle, and every point of the visible range, its right and
/// bottom edges left out, lands on the grid.
pub proof fn lemma_projection(w: int, h: int, x: int, y: int)
    requires
        0 < w <= MAX_DIM,
        0 < h <= MAX_DIM,
        -FIXED_ONE <= x < FIXED_ONE,
        -FIXED_ONE < y <= FIXED_ONE,
    ensures
        grid_col(w, -FIXED_ONE) == 0,
        grid_row(h, -FIXED_ONE) == h,
        grid_col(w, FIXED_ONE as int) == w,
        grid_row(h, FIXED_ONE as int) == 0,
        grid_col(w, 0) == w / 2,
        grid_row(h, 0) == h / 2,
        0 <= grid_col(w, x) < w,
        0 <= grid_row(h, y) < h,
{
    let one = FIXED_ONE as int;
    assert(0 * w == 0) by (nonlinear_arith);
    assert((-FIXED_ONE) + FIXED_ONE == 0);
    vstd::arithmetic::div_mod::lemma_div_multiples_vanish(h, 2 * one);
    vstd::arithmetic::div_mod::lemma_div_multiples_vanish(w, 2 * one);
    assert((2 * one) * h == (FIXED_ONE - (-FIXED_ONE)) * h);
    assert((2 * one) * w == (FIXED_ONE + FIXED_ONE) * w);
    lemma_fundamental_div_mod(w, 2);
    lemma_fundamental_div_mod(h, 2);
    lemma_mod_bound(w, 2);
    lemma_mod_bound(h, 2);
    assert(one * w == (2 * one) * (w / 2) + one * (w % 2)) by (nonlinear_arith)
        requires
            w == 2 * (w / 2) + w % 2,
    ;
    assert(one * h == (2 * one) * (h / 2) + one * (h % 2)) by (nonlinear_arith)
        requires
            h == 2 * (h / 2) + h % 2,
    ;
    lemma_fundamental_div_mod_converse(one * w, 2 * one, w / 2, one * (w % 2));
    lemma_fundamental_div_mod_converse(one * h, 2 * one, h / 2, one * (h % 2));
    assert((0 + FIXED_ONE) * w == one * w);
    assert((FIXED_ONE - 0) * h == one * h);
    assert(0 <= (x + one) * w < (2 * one) * w) by (nonlinear_arith)
        requires
            -one <= x < one,
            0 < w,
    ;
    assert(0 <= (one - y) * h < (2 * one) * h) by (nonlinear_arith)
        requires
            -one < y <= one,
            0 < h,
    ;
    lemma_multiply_divide_lt((x + one) * w, 2 * one, w);
    lemma_multiply_divide_lt((one - y) * h, 2 * one, h);
    vstd::arithmetic::div_mod::lemma_div_pos_is_pos((x + one) * w, 2 * one);
    vstd::arithmetic::div_mod::lemma_div_pos_is_pos((one - y) * h, 2 * one);
}

/// The text of a blank pixel: black color and the empty glyph.
pub open spec fn blank_text() -> Seq<char> {
    seq!['\u{1b}', '[', '3', '8', ';', '2', ';', '0', ';', '0', ';', '0', 'm', ' ', '\u{1b}', '[', '0', 'm']
}

/// On a cleared screen every border cell shows the wall and every inner
/// cell shows the empty glyph in black.
pub proof fn lemma_clear_frame(s: Screen)
    requires
        s.wf(),
        s.is_clear(),
    ensures
        forall|x: int, y: int|
            0 <= x < s.cols() && 0 <= y < s.rows() ==> #[trigger] s.cell_text(x, y) == (if s.on_border(x, y) {
                seq![WALL]
            } else {
                blank_text()
            }),
{
    assert(pixel_text(blank()) =~= blank_text()) by {
        reveal_with_fuel(crate::pixel::decimal, 1);
    }
    assert forall|x: int, y: int| 0 <= x < s.cols() && 0 <= y < s.rows() implies #[trigger] s.cell_text(x, y) == (if s.on_border(x, y) {
        seq![WALL]
    } else {
        blank_text()
    }) by {
        let w = s.cols() as int;
        let h = s.rows() as int;
        assert(0 <= y * w + x < w * h) by (nonlinear_arith)
            requires
                0 <= x < w,
                0 <= y < h,
        ;
        assert(s.cells()[y * w + x] == blank());
    }
}

/// A cell that a second line also paints, with positive coverage, ends up
/// with at least the coverage and glyph density of either line alone, and
/// with strictly more coverage than the other line alone wherever that one
/// left the cell short of full coverage.
pub proof fn lemma_overlap(
    old: Pixel,
    b1: Pixel,
    s1: (int, int, int, int),
    b2: Pixel,
    s2: (int, int, int, int),
    cx: int,
    cy: int,
)
    requires
        old.wf(),
        line_touches(s1.0, s1.1, s1.2, s1.3, cx, cy),
        line_touches(s2.0, s2.1, s2.2, s2.3, cx, cy),
        line_coverage(b1, s1, cx, cy) > 0,
        line_coverage(b2, s2, cx, cy) > 0,
    ensures
        ({
            let one = stroke(old, b1, s1, cx, cy);
            let two = stroke(old, b2, s2, cx, cy);
            let both = stroke(one, b2, s2, cx, cy);
            &&& both.alpha >= one.alpha
            &&& both.alpha >= two.alpha
            &&& glyph_index(both.alpha) >= glyph_index(one.alpha)
            &&& glyph_index(both.alpha) >= glyph_index(two.alpha)
            &&& one.alpha < ALPHA_ONE ==> both.alpha > one.alpha
            &&& two.alpha < ALPHA_ONE ==> both.alpha > two.alpha
        }),
{
    let one = stroke(old, b1, s1, cx, cy);
    let two = stroke(old, b2, s2, cx, cy);
    let both = stroke(one, b2, s2, cx, cy);
    lemma_glyph_monotone(one.alpha, both.alpha);
    lemma_glyph_monotone(two.alpha, both.alpha);
}

} // verus!
