use crate::vecs::FIXED_ONE;
use vstd::arithmetic::div_mod::{
    lemma_div_is_ordered, lemma_fundamental_div_mod, lemma_fundamental_div_mod_converse,
    lemma_mod_bound, lemma_multiply_divide_lt,
};
use vstd::prelude::*;

verus! {

/// Coverage value that stands for full opacity: a pixel's alpha is a
/// fixed-point fraction `alpha / ALPHA_ONE`.
pub const ALPHA_ONE: u32 = 65536;

/// A color with three 8-bit channels.
#[derive(Clone, Copy, Debug, Default, PartialEq, Eq, Structural)]
pub struct Color {
    pub r: u8,
    pub g: u8,
    pub b: u8,
}

/// A color together with the coverage accumulated in one screen cell.
#[derive(Clone, Copy, Debug, Default, PartialEq, Eq, Structural)]
pub struct Pixel {
    pub color: Color,
    pub alpha: u32,
}

/// Addition of two channels that stops at 255 instead of wrapping.
pub open spec fn saturating_channel(a: u8, b: u8) -> u8 {
    if a + b > 255 { 255 } else { (a + b) as u8 }
}

/// Channel-wise saturating sum of two colors.
pub open spec fn color_sum(a: Color, b: Color) -> Color {
    Color {
        r: saturating_channel(a.r, b.r),
        g: saturating_channel(a.g, b.g),
        b: saturating_channel(a.b, b.b),
    }
}

/// Coverage clamped into `[0, ALPHA_ONE]`.
pub open spec fn clamp_alpha(a: int) -> u32 {
    if a > ALPHA_ONE { ALPHA_ONE } else if a < 0 { 0 } else { a as u32 }
}

/// Which of the five density glyphs a coverage value selects: the coverage
/// scaled to `0..=4` and rounded to the nearest index, halves upwards.
pub open spec fn glyph_index(alpha: u32) -> int {
    if alpha >= ALPHA_ONE {
        4
    } else {
        (4 * alpha + ALPHA_ONE / 2) / (ALPHA_ONE as int)
    }
}

/// The density glyphs, from empty to full.
pub open spec fn glyph_of(i: int) -> char {
    if i <= 0 {
        ' '
    } else if i == 1 {
        '\u{2591}'
    } else if i == 2 {
        '\u{2592}'
    } else if i == 3 {
        '\u{2593}'
    } else {
        '\u{2588}'
    }
}

/// The glyph drawn for the given coverage.
pub open spec fn glyph_for(alpha: u32) -> char {
    glyph_of(glyph_index(alpha))
}

impl Pixel {
    /// The alpha of a pixel never leaves `[0, ALPHA_ONE]`.
    pub open spec fn wf(&self) -> bool {
        self.alpha <= ALPHA_ONE
    }

    /// Additive blending of two pixels.
    pub open spec fn blend(self, other: Pixel) -> Pixel {
        Pixel {
            color: color_sum(self.color, other.color),
            alpha: clamp_alpha(self.alpha + other.alpha),
        }
    }

    /// A pixel of black color with the given coverage, clamped to full opacity.
    pub fn from_alpha(alpha: u32) -> (r: Pixel)
        ensures
            r.color == (Color { r: 0, g: 0, b: 0 }),
            r.alpha == clamp_alpha(alpha as int),
            r.wf(),
    {
        let a = if alpha > ALPHA_ONE { ALPHA_ONE } else { alpha };
        Pixel { color: Color { r: 0, g: 0, b: 0 }, alpha: a }
    }

    /// A fully opaque pixel of the given color.
    pub fn from_color(color: Color) -> (r: Pixel)
        ensures
            r.color == color,
            r.alpha == ALPHA_ONE,
            r.wf(),
    {
        Pixel { color, alpha: ALPHA_ONE }
    }

    /// The coverage of this pixel.
    pub fn alpha(&self) -> (r: u32)
        ensures
            r == self.alpha,
    {
        self.alpha
    }

    /// Blends `other` into this pixel: each color channel is added with
    /// saturation at 255, and the coverages are added and clamped to full.
    pub fn add(self, other: Pixel) -> (r: Pixel)
        ensures
            r == self.blend(other),
            r.wf(),
    {
        let sum: u64 = self.alpha as u64 + other.alpha as u64;
        let alpha = if sum > ALPHA_ONE as u64 { ALPHA_ONE } else { sum as u32 };
        Pixel {
            color: Color {
                r: self.color.r.saturating_add(other.color.r),
                g: self.color.g.saturating_add(other.color.g),
                b: self.color.b.saturating_add(other.color.b),
            },
            alpha,
        }
    }

    /// The density glyph for this pixel's coverage.
    pub fn glyph(&self) -> (r: char)
        ensures
            r == glyph_for(self.alpha),
    {
        let i: u64 = if self.alpha >= ALPHA_ONE {
            4
        } else {
            (4 * self.alpha as u64 + (ALPHA_ONE / 2) as u64) / ALPHA_ONE as u64
        };
        if i == 0 {
            ' '
        } else if i == 1 {
            '\u{2591}'
        } else if i == 2 {
            '\u{2592}'
        } else if i == 3 {
            '\u{2593}'
        } else {
            '\u{2588}'
        }
    }
}


/// The decimal digit `d` as a character.
pub open spec fn digit_char(d: nat) -> char {
    seq!['0', '1', '2', '3', '4', '5', '6', '7', '8', '9'][d as int]
}

/// The decimal notation of `n`, without leading zeros.
pub open spec fn decimal(n: nat) -> Seq<char>
    decreases n,
{
    if n < 10 {
        seq![digit_char(n)]
    } else {
        decimal(n / 10).push(digit_char(n % 10))
    }
}

/// The terminal text of a pixel: a truecolor foreground escape with its
/// color, its density glyph, and the reset escape.
pub open spec fn pixel_text(p: Pixel) -> Seq<char> {
    seq!['\u{1b}', '[', '3', '8', ';', '2', ';'] + decimal(p.color.r as nat) + seq![';']
        + decimal(p.color.g as nat) + seq![';'] + decimal(p.color.b as nat)
        + seq!['m', glyph_for(p.alpha), '\u{1b}', '[', '0', 'm']
}

fn digit(d: u8) -> (r: char)
    requires
        d < 10,
    ensures
        r == digit_char(d as nat),
{
    if d == 0 {
        '0'
    } else if d == 1 {
        '1'
    } else if d == 2 {
        '2'
    } else if d == 3 {
        '3'
    } else if d == 4 {
        '4'
    } else if d == 5 {
        '5'
    } else if d == 6 {
        '6'
    } else if d == 7 {
        '7'
    } else if d == 8 {
        '8'
    } else {
        '9'
    }
}

/// Appends the decimal notation of `n` to `out`.
pub fn push_decimal(n: u8, out: &mut Vec<char>)
    ensures
        final(out)@ == old(out)@ + decimal(n as nat),
{
    proof {
        reveal_with_fuel(decimal, 3);
    }
    if n >= 100 {
        out.push(digit(n / 100));
        out.push(digit((n / 10) % 10));
        out.push(digit(n % 10));
        assert(decimal(n as nat) =~= seq![
            digit_char((n / 100) as nat),
            digit_char(((n / 10) % 10) as nat),
            digit_char((n % 10) as nat),
        ]);
    } else if n >= 10 {
        out.push(digit(n / 10));
        out.push(digit(n % 10));
        assert(decimal(n as nat) =~= seq![digit_char((n / 10) as nat), digit_char((n % 10) as nat)]);
    } else {
        out.push(digit(n));
    }
    assert(final(out)@ =~= old(out)@ + decimal(n as nat));
}

impl Pixel {
    /// Appends the terminal text of this pixel to `out`.
    pub fn push_text(&self, out: &mut Vec<char>)
        ensures
            final(out)@ == old(out)@ + pixel_text(*self),
    {
        let ghost start = out@;
        out.push('\u{1b}');
        out.push('[');
        out.push('3');
        out.push('8');
        out.push(';');
        out.push('2');
        out.push(';');
        push_decimal(self.color.r, out);
        out.push(';');
        push_decimal(self.color.g, out);
        out.push(';');
        push_decimal(self.color.b, out);
        out.push('m');
        out.push(self.glyph());
        out.push('\u{1b}');
        out.push('[');
        out.push('0');
        out.push('m');
        assert(out@ =~= start + pixel_text(*self));
    }

    /// The terminal text of this pixel.
    pub fn to_text(&self) -> (r: Vec<char>)
        ensures
            r@ == pixel_text(*self),
    {
        let mut out: Vec<char> = Vec::new();
        self.push_text(&mut out);
        assert(out@ =~= pixel_text(*self));
        out
    }
}


/// Width of one hue sector, in fixed-point degrees.
pub const SECTOR: u64 = 3932160;

/// `v` clamped into `[lo, hi]`.
pub open spec fn clamp(v: int, lo: int, hi: int) -> int {
    if v < lo { lo } else if v > hi { hi } else { v }
}

/// The 8-bit channel for the fraction `num / den` of full intensity:
/// `num / den * 255`, rounded to the nearest integer, halves upwards.
pub open spec fn channel_of(num: int, den: int) -> int {
    (510 * num + den) / (2 * den)
}

/// Denominator shared by the color components of `hsv_color`.
pub open spec fn hsv_den() -> int {
    SECTOR * FIXED_ONE * FIXED_ONE
}

/// The color components, as numerators over `hsv_den()`, of the hue `h`,
/// saturation `s` and value `v` (fixed-point, already clamped). The hue
/// circle is cut into six sectors of 60 degrees; within a sector the
/// fraction `f` runs from 0 to 1, and the components are picked from
/// `v`, `v(1-s)`, `v(1-fs)` and `v(1-(1-f)s)` by the standard table.
pub open spec fn hsv_components(h: int, s: int, v: int) -> (int, int, int) {
    let one = FIXED_ONE as int;
    let sector = (h / (SECTOR as int)) % 6;
    let rem = h % (SECTOR as int);
    let full = v * SECTOR * one;
    let low = v * (one - s) * SECTOR;
    let q = v * (SECTOR * one - rem * s);
    let t = v * (SECTOR * one - (SECTOR - rem) * s);
    if sector == 0 {
        (full, t, low)
    } else if sector == 1 {
        (q, full, low)
    } else if sector == 2 {
        (low, full, t)
    } else if sector == 3 {
        (low, q, full)
    } else if sector == 4 {
        (t, low, full)
    } else {
        (full, low, q)
    }
}

/// The color of the fixed-point hue (degrees), saturation and value, each
/// first clamped into its range: `[0, 360]` and `[0, 1]`.
pub open spec fn hsv_color(hue: i32, saturation: i32, value: i32) -> Color {
    let one = FIXED_ONE as int;
    let c = hsv_components(
        clamp(hue as int, 0, 360 * one),
        clamp(saturation as int, 0, one),
        clamp(value as int, 0, one),
    );
    Color {
        r: channel_of(c.0, hsv_den()) as u8,
        g: channel_of(c.1, hsv_den()) as u8,
        b: channel_of(c.2, hsv_den()) as u8,
    }
}

proof fn lemma_scaled_le(v: int, w: int, one: int, bound: int)
    requires
        0 <= v <= one,
        0 <= w <= bound,
    ensures
        0 <= v * w <= one * bound,
{
    assert(0 <= v * w <= one * bound) by (nonlinear_arith)
        requires
            0 <= v <= one,
            0 <= w <= bound,
    ;
}

fn clamp_fixed(v: i32, lo: i32, hi: i32) -> (r: u64)
    requires
        0 <= lo <= hi,
    ensures
        r == clamp(v as int, lo as int, hi as int),
{
    if v < lo {
        lo as u64
    } else if v > hi {
        hi as u64
    } else {
        v as u64
    }
}

fn channel(num: u64, den: u64) -> (r: u8)
    requires
        0 < den <= hsv_den(),
        num <= den,
    ensures
        r as int == channel_of(num as int, den as int),
{
    let x = 510 * num + den;
    proof {
        lemma_multiply_divide_lt(x as int, 2 * den as int, 256);
    }
    (x / (2 * den)) as u8
}

impl Color {
    /// The color of a hue given in fixed-point degrees, and a saturation and
    /// a value given as fixed-point fractions. Out-of-range inputs are
    /// clamped into range.
    pub fn from_hsv(hue: i32, saturation: i32, value: i32) -> (r: Color)
        ensures
            r == hsv_color(hue, saturation, value),
    {
        let one: u64 = FIXED_ONE as u64;
        let h = clamp_fixed(hue, 0, 360 * FIXED_ONE);
        let s = clamp_fixed(saturation, 0, FIXED_ONE);
        let v = clamp_fixed(value, 0, FIXED_ONE);
        let sector = (h / SECTOR) % 6;
        let rem = h % SECTOR;
        let den = SECTOR * one * one;
        proof {
            assert(rem * s <= SECTOR * one) by (nonlinear_arith)
                requires
                    rem < SECTOR,
                    s <= one,
            ;
            assert((SECTOR - rem) * s <= SECTOR * one) by (nonlinear_arith)
                requires
                    rem < SECTOR,
                    s <= one,
            ;
            lemma_scaled_le(v as int, (SECTOR * one) as int, one as int, (SECTOR * one) as int);
            lemma_scaled_le(v as int, (one - s) as int, one as int, one as int);
            lemma_scaled_le(v as int, (SECTOR * one - rem * s) as int, one as int, (SECTOR * one) as int);
            lemma_scaled_le(
                v as int,
                (SECTOR * one - (SECTOR - rem) * s) as int,
                one as int,
                (SECTOR * one) as int,
            );
            assert(one * (SECTOR * one) == den) by (nonlinear_arith)
                requires
                    den == SECTOR * one * one,
            ;
        }
        let full = v * (SECTOR * one);
        let low = v * (one - s) * SECTOR;
        let q = v * (SECTOR * one - rem * s);
        let t = v * (SECTOR * one - (SECTOR - rem) * s);
        proof {
            assert(v * (SECTOR * one) == v * SECTOR * one) by (nonlinear_arith);
            assert(v * (one - s) * SECTOR <= one * one * SECTOR) by (nonlinear_arith)
                requires
                    v * (one - s) <= one * one,
            ;
        }
        let (red, green, blue) = if sector == 0 {
            (full, t, low)
        } else if sector == 1 {
            (q, full, low)
        } else if sector == 2 {
            (low, full, t)
        } else if sector == 3 {
            (low, q, full)
        } else if sector == 4 {
            (t, low, full)
        } else {
            (full, low, q)
        };
        Color { r: channel(red, den), g: channel(green, den), b: channel(blue, den) }
    }
}


/// Blending is commutative, never lowers a channel or the coverage of
/// either pixel, and never takes the coverage past full.
pub proof fn lemma_blend_laws(a: Pixel, b: Pixel)
    requires
        a.wf(),
        b.wf(),
    ensures
        a.blend(b) == b.blend(a),
        a.blend(b).color.r >= a.color.r && a.blend(b).color.r >= b.color.r,
        a.blend(b).color.g >= a.color.g && a.blend(b).color.g >= b.color.g,
        a.blend(b).color.b >= a.color.b && a.blend(b).color.b >= b.color.b,
        a.blend(b).alpha >= a.alpha && a.blend(b).alpha >= b.alpha,
        a.blend(b).wf(),
{
}

/// More coverage never selects a lighter glyph.
pub proof fn lemma_glyph_monotone(a: u32, b: u32)
    requires
        a <= b,
    ensures
        0 <= glyph_index(a) <= glyph_index(b) <= 4,
{
    if b < ALPHA_ONE {
        lemma_div_is_ordered(4 * a + ALPHA_ONE / 2, 4 * b + ALPHA_ONE / 2, ALPHA_ONE as int);
        lemma_multiply_divide_lt(4 * b + ALPHA_ONE / 2, ALPHA_ONE as int, 5);
        vstd::arithmetic::div_mod::lemma_div_pos_is_pos(4 * a + ALPHA_ONE / 2, ALPHA_ONE as int);
    } else if a < ALPHA_ONE {
        lemma_multiply_divide_lt(4 * a + ALPHA_ONE / 2, ALPHA_ONE as int, 5);
        vstd::arithmetic::div_mod::lemma_div_pos_is_pos(4 * a + ALPHA_ONE / 2, ALPHA_ONE as int);
    }
}

proof fn lemma_channel_bounds(num: int, den: int)
    requires
        0 <= num <= den,
        0 < den,
    ensures
        0 <= channel_of(num, den) <= 255,
{
    lemma_multiply_divide_lt(510 * num + den, 2 * den, 256);
    vstd::arithmetic::div_mod::lemma_div_pos_is_pos(510 * num + den, 2 * den);
}

/// At full saturation and value, every hue in `[0, 360]` gives channels
/// that fit 0..=255 without truncation, and the hues 0, 120 and 240 give
/// pure red, green and blue.
pub proof fn lemma_full_saturation(hue: i32)
    requires
        0 <= hue <= 360 * FIXED_ONE,
    ensures
        ({
            let c = hsv_components(hue as int, FIXED_ONE as int, FIXED_ONE as int);
            &&& 0 <= channel_of(c.0, hsv_den()) <= 255
            &&& 0 <= channel_of(c.1, hsv_den()) <= 255
            &&& 0 <= channel_of(c.2, hsv_den()) <= 255
        }),
        hsv_color(0, FIXED_ONE, FIXED_ONE) == (Color { r: 255, g: 0, b: 0 }),
        hsv_color(7864320, FIXED_ONE, FIXED_ONE) == (Color { r: 0, g: 255, b: 0 }),
        hsv_color(15728640, FIXED_ONE, FIXED_ONE) == (Color { r: 0, g: 0, b: 255 }),
{
    let one = FIXED_ONE as int;
    let h = hue as int;
    let rem = h % (SECTOR as int);
    lemma_mod_bound(h, SECTOR as int);
    lemma_scaled_le(one, (SECTOR * one) as int, one, (SECTOR * one) as int);
    lemma_scaled_le(one, one - one, one, one);
    assert(0 <= rem * one <= SECTOR * one) by (nonlinear_arith)
        requires
            0 <= rem < SECTOR,
            one == 65536,
    ;
    assert(0 <= (SECTOR - rem) * one <= SECTOR * one) by (nonlinear_arith)
        requires
            0 <= rem < SECTOR,
            one == 65536,
    ;
    lemma_scaled_le(one, (SECTOR * one - rem * one) as int, one, (SECTOR * one) as int);
    lemma_scaled_le(one, (SECTOR * one - (SECTOR - rem) * one) as int, one, (SECTOR * one) as int);
    let den = hsv_den();
    assert(one * (SECTOR * one) == den);
    assert(one * SECTOR * one == den);
    lemma_channel_bounds(one * SECTOR * one, den);
    lemma_channel_bounds(one * (one - one) * SECTOR, den);
    lemma_channel_bounds(one * (SECTOR * one - rem * one), den);
    lemma_channel_bounds(one * (SECTOR * one - (SECTOR - rem) * one), den);
    assert(channel_of(den, den) == 255);
    assert(channel_of(0, den) == 0);
}

/// With no saturation every hue gives a gray whose channels are the value
/// scaled to 255 and rounded.
pub proof fn lemma_gray(hue: i32, value: i32)
    ensures
        hsv_color(hue, 0, value).r == channel_of(clamp(value as int, 0, FIXED_ONE as int), FIXED_ONE as int),
        hsv_color(hue, 0, value).g == hsv_color(hue, 0, value).r,
        hsv_color(hue, 0, value).b == hsv_color(hue, 0, value).r,
{
    let one = FIXED_ONE as int;
    let v = clamp(value as int, 0, one);
    let k = SECTOR * one;
    let c = hsv_components(clamp(hue as int, 0, 360 * one), 0, v);
    assert(c.0 == v * k && c.1 == v * k && c.2 == v * k) by (nonlinear_arith)
        requires
            c == hsv_components(clamp(hue as int, 0, 360 * one), 0, v),
            k == SECTOR * one,
            one == FIXED_ONE,
    ;
    let x = 510 * v + one;
    let q = x / (2 * one);
    let r = x % (2 * one);
    lemma_fundamental_div_mod(x, 2 * one);
    lemma_mod_bound(x, 2 * one);
    assert(510 * (v * k) + hsv_den() == q * (2 * hsv_den()) + r * k && 0 <= r * k < 2 * hsv_den())
        by (nonlinear_arith)
        requires
            x == 510 * v + one,
            x == (2 * one) * q + r,
            0 <= r < 2 * one,
            k == SECTOR * one,
            hsv_den() == SECTOR * one * one,
            one == FIXED_ONE,
    ;
    lemma_fundamental_div_mod_converse(510 * (v * k) + hsv_den(), 2 * hsv_den(), q, r * k);
    lemma_channel_bounds(v, one);
}

} // verus!
