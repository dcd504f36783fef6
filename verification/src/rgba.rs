//! The RGBA color engine: four 8-bit channels with straight alpha.
//!
//! Conversions to and from HSLA follow the classic hexcone algorithm,
//! carried out in fixed-point arithmetic over [`ONE`](crate::fixed::ONE).

use crate::fixed::{
    lemma_round_div_exact, lemma_round_div_mono, lemma_round_div_nonneg, round_div, round_div64,
    ONE,
};
use crate::hsla::Hsla;
use vstd::math::abs;
use vstd::prelude::*;

verus! {

/// A color as four 8-bit channels, red, green, blue and alpha, with
/// straight (non-premultiplied) alpha. Plain data: two values with equal
/// fields are interchangeable.
#[derive(Clone, Copy, Debug, PartialEq, Eq, Structural)]
pub struct Rgba {
    pub r: u8,
    pub g: u8,
    pub b: u8,
    pub a: u8,
}

/// Packing into a 32-bit integer: red in the high byte, alpha in the low.
pub open spec fn pack_spec(c: Rgba) -> u32 {
    ((c.r as u32) << 24) | ((c.g as u32) << 16) | ((c.b as u32) << 8) | (c.a as u32)
}

/// The inverse decomposition of a 32-bit integer into channels.
pub open spec fn unpack_spec(x: u32) -> Rgba {
    Rgba {
        r: ((x >> 24) & 0xff) as u8,
        g: ((x >> 16) & 0xff) as u8,
        b: ((x >> 8) & 0xff) as u8,
        a: (x & 0xff) as u8,
    }
}

/// Interpolation from `x` to `y` with weight `w` out of 255, rounded.
pub open spec fn lerp255(x: int, y: int, w: int) -> int {
    round_div(x * (255 - w) + y * w, 255)
}

/// What blending `top` over `base` returns: each color channel
/// interpolated toward `top` with weight `top.a / 255`, and the larger of
/// the two alphas.
pub open spec fn blend_spec(base: Rgba, top: Rgba) -> Rgba {
    Rgba {
        r: lerp255(base.r as int, top.r as int, top.a as int) as u8,
        g: lerp255(base.g as int, top.g as int, top.a as int) as u8,
        b: lerp255(base.b as int, top.b as int, top.a as int) as u8,
        a: if base.a >= top.a {
            base.a
        } else {
            top.a
        },
    }
}

/// The largest of three values.
pub open spec fn max3(a: int, b: int, c: int) -> int {
    if a >= b && a >= c {
        a
    } else if b >= c {
        b
    } else {
        c
    }
}

/// The smallest of three values.
pub open spec fn min3(a: int, b: int, c: int) -> int {
    if a <= b && a <= c {
        a
    } else if b <= c {
        b
    } else {
        c
    }
}

/// `max + min` over the three color channels.
pub open spec fn chan_sum(c: Rgba) -> int {
    max3(c.r as int, c.g as int, c.b as int) + min3(c.r as int, c.g as int, c.b as int)
}

/// `max - min` over the three color channels; zero exactly for grays.
pub open spec fn chan_delta(c: Rgba) -> int {
    max3(c.r as int, c.g as int, c.b as int) - min3(c.r as int, c.g as int, c.b as int)
}

/// The saturation denominator `255 - |max + min - 255|`: the room the
/// chroma has at this lightness.
pub open spec fn sat_denom(c: Rgba) -> int {
    if chan_sum(c) <= 255 {
        chan_sum(c)
    } else {
        510 - chan_sum(c)
    }
}

/// The hue position scaled by the channel spread: `hue * 6 * delta`, so
/// that the piecewise hue formula needs no fractions. The sector is chosen
/// by which channel is largest, red winning ties, then green.
pub open spec fn hue_num(c: Rgba) -> int {
    let r = c.r as int;
    let g = c.g as int;
    let b = c.b as int;
    let dl = chan_delta(c);
    if r >= g && r >= b {
        if g >= b {
            g - b
        } else {
            6 * dl - (b - g)
        }
    } else if g >= b {
        2 * dl + (b - r)
    } else {
        4 * dl + (r - g)
    }
}

/// What converting an RGBA color to HSLA returns: lightness is the rounded
/// midpoint of the channel extremes, saturation the spread over the room it
/// has, hue the piecewise sector position, and alpha rescaled; a gray has
/// hue and saturation zero.
pub open spec fn hsla_of_rgba(c: Rgba) -> Hsla {
    let dl = chan_delta(c);
    let lf = round_div(chan_sum(c) * ONE, 510);
    let sf = if dl == 0 {
        0
    } else {
        round_div(dl * ONE, sat_denom(c))
    };
    let hf = if dl == 0 {
        0
    } else {
        round_div(hue_num(c) * ONE, 6 * dl)
    };
    let af = round_div((c.a as int) * ONE, 255);
    Hsla { h: hf as u32, s: sf as u32, l: lf as u32, a: af as u32 }
}

/// Clamp to the unit interval from above; conversion math clamps here
/// rather than rejecting out-of-range input.
pub open spec fn clamp_one(v: int) -> int {
    if v > ONE {
        ONE as int
    } else {
        v
    }
}

/// The `(chroma, secondary, zero)` permutation of one 60-degree hue sector.
pub open spec fn sector_points(k: int, cf: int, xf: int) -> (int, int, int) {
    if k == 0 {
        (cf, xf, 0)
    } else if k == 1 {
        (xf, cf, 0)
    } else if k == 2 {
        (0, cf, xf)
    } else if k == 3 {
        (0, xf, cf)
    } else if k == 4 {
        (xf, 0, cf)
    } else {
        (cf, 0, xf)
    }
}

/// One 8-bit channel from its sector offset `v6` and the doubled base
/// `m2 == 2*l - c`: the channel is `(v6 + m2/2) * 255 / ONE`, rounded.
pub open spec fn chan8(v6: int, m2: int) -> int {
    round_div((2 * v6 + m2) * 255, 2 * (ONE as int))
}

/// What converting HSLA input to RGBA returns. Saturation, lightness and
/// alpha are clamped to the unit interval, hue is reduced to one turn; a
/// zero saturation gives a gray, otherwise the hexcone reconstruction runs
/// with chroma `c`, secondary `x` and base `m = l - c/2`.
pub open spec fn rgba_of_hsla(h: int, s: int, l: int, a: int) -> Rgba {
    let af = round_div(clamp_one(a) * 255, ONE as int);
    let sc = clamp_one(s);
    let lc = clamp_one(l);
    if sc == 0 {
        let v = round_div(lc * 255, ONE as int);
        Rgba { r: v as u8, g: v as u8, b: v as u8, a: af as u8 }
    } else {
        let hm = h % (ONE as int);
        let df = ONE - abs(2 * lc - ONE);
        let cf = round_div(df * sc, ONE as int);
        let t = 6 * hm;
        let k = t / (ONE as int);
        let fr = t % (ONE as int);
        let ff = if k % 2 == 1 {
            ONE - fr
        } else {
            fr
        };
        let xf = round_div(cf * ff, ONE as int);
        let m2 = 2 * lc - cf;
        let pts = sector_points(k, cf, xf);
        Rgba {
            r: chan8(pts.0, m2) as u8,
            g: chan8(pts.1, m2) as u8,
            b: chan8(pts.2, m2) as u8,
            a: af as u8,
        }
    }
}

/// Clamp to the unit interval from above.
fn clamp_one_exec(v: u32) -> (r: u32)
    ensures
        r == clamp_one(v as int),
{
    if v > ONE {
        ONE
    } else {
        v
    }
}

/// A unit fraction rescaled to an 8-bit channel, rounded.
fn unit_to_byte(v: u32) -> (r: u8)
    requires
        v <= ONE,
    ensures
        r == round_div((v as int) * 255, ONE as int),
{
    proof {
        lemma_round_div_nonneg((v as int) * 255, ONE as int);
        assert((v as int) * 255 <= 255 * (ONE as int)) by (nonlinear_arith)
            requires
                v <= ONE,
        ;
        lemma_round_div_mono((v as int) * 255, 255 * (ONE as int), ONE as int);
        lemma_round_div_exact(255, 0, ONE as int);
    }
    let q: u64 = round_div64((v as u64) * 255, ONE as u64);
    q as u8
}

/// One 8-bit channel from its sector offset and doubled base.
fn chan8_exec(v6: u32, m2: u32) -> (r: u8)
    requires
        2 * v6 + m2 <= 2 * ONE,
    ensures
        r == chan8(v6 as int, m2 as int),
{
    proof {
        lemma_round_div_nonneg((2 * (v6 as int) + m2 as int) * 255, 2 * (ONE as int));
        assert((2 * (v6 as int) + m2 as int) * 255 <= 255 * (2 * (ONE as int)))
            by (nonlinear_arith)
            requires
                2 * (v6 as int) + (m2 as int) <= 2 * (ONE as int),
        ;
        lemma_round_div_mono(
            (2 * (v6 as int) + m2 as int) * 255,
            255 * (2 * (ONE as int)),
            2 * (ONE as int),
        );
        lemma_round_div_exact(255, 0, 2 * (ONE as int));
    }
    let n: u64 = (2 * (v6 as u64) + (m2 as u64)) * 255;
    let q: u64 = round_div64(n, 2 * (ONE as u64));
    q as u8
}

/// Interpolation from `x` to `y` with weight `w` out of 255, rounded.
fn lerp255_exec(x: u8, y: u8, w: u8) -> (r: u8)
    ensures
        r == lerp255(x as int, y as int, w as int),
{
    proof {
        lemma_round_div_nonneg(
            (x as int) * (255 - w as int) + (y as int) * (w as int),
            255,
        );
        assert((x as int) * (255 - w as int) + (y as int) * (w as int) <= 255 * 255)
            by (nonlinear_arith)
            requires
                x <= 255,
                y <= 255,
                w <= 255,
        ;
        lemma_round_div_mono(
            (x as int) * (255 - w as int) + (y as int) * (w as int),
            255int * 255,
            255,
        );
        lemma_round_div_exact(255, 0, 255);
    }
    let n: u64 = (x as u64) * (255 - (w as u64)) + (y as u64) * (w as u64);
    let q: u64 = round_div64(n, 255);
    q as u8
}

impl Rgba {
    /// Direct channel copy.
    pub fn new(r: u8, g: u8, b: u8, a: u8) -> (c: Self)
        ensures
            c == (Rgba { r, g, b, a }),
    {
        Rgba { r, g, b, a }
    }

    /// Decomposes a 32-bit integer: red in the high byte, alpha in the low.
    pub fn from_hex(hex: u32) -> (c: Self)
        ensures
            c == unpack_spec(hex),
    {
        Rgba {
            r: ((hex >> 24) & 0xff) as u8,
            g: ((hex >> 16) & 0xff) as u8,
            b: ((hex >> 8) & 0xff) as u8,
            a: (hex & 0xff) as u8,
        }
    }

    /// Packs the channels into a 32-bit integer, inverting [`Rgba::from_hex`].
    pub fn to_u32(&self) -> (x: u32)
        ensures
            x == pack_spec(*self),
    {
        ((self.r as u32) << 24) | ((self.g as u32) << 16) | ((self.b as u32) << 8)
            | (self.a as u32)
    }

    /// Blends `other` over `self`: each color channel interpolated toward
    /// `other` with weight `other.a / 255`, alpha the larger of the two.
    pub fn blend(&self, other: &Self) -> (c: Self)
        ensures
            c == blend_spec(*self, *other),
    {
        Rgba {
            r: lerp255_exec(self.r, other.r, other.a),
            g: lerp255_exec(self.g, other.g, other.a),
            b: lerp255_exec(self.b, other.b, other.a),
            a: if self.a >= other.a {
                self.a
            } else {
                other.a
            },
        }
    }

    /// The HSLA reading of this color.
    pub fn to_hsla(&self) -> (hs: Hsla)
        ensures
            hs == hsla_of_rgba(*self),
    {
        let r = self.r;
        let g = self.g;
        let b = self.b;
        let mx: u32 = if r >= g && r >= b {
            r as u32
        } else if g >= b {
            g as u32
        } else {
            b as u32
        };
        let mn: u32 = if r <= g && r <= b {
            r as u32
        } else if g <= b {
            g as u32
        } else {
            b as u32
        };
        let dl: u32 = mx - mn;
        let sm: u32 = mx + mn;
        let lf: u64 = round_div64((sm as u64) * (ONE as u64), 510);
        let af: u64 = round_div64((self.a as u64) * (ONE as u64), 255);
        proof {
            lemma_to_hsla_field_bounds(*self);
        }
        if dl == 0 {
            Hsla { h: 0, s: 0, l: lf as u32, a: af as u32 }
        } else {
            let dd: u32 = if sm <= 255 {
                sm
            } else {
                510 - sm
            };
            let sf: u64 = round_div64((dl as u64) * (ONE as u64), dd as u64);
            let num: u32 = if r >= g && r >= b {
                if g >= b {
                    (g - b) as u32
                } else {
                    6 * dl - ((b - g) as u32)
                }
            } else if g >= b {
                2 * dl + (b as u32) - (r as u32)
            } else {
                4 * dl + (r as u32) - (g as u32)
            };
            let hf: u64 = round_div64((num as u64) * (ONE as u64), 6 * (dl as u64));
            Hsla { h: hf as u32, s: sf as u32, l: lf as u32, a: af as u32 }
        }
    }

    /// The RGBA color that the given HSLA fractions describe. Saturation,
    /// lightness and alpha are clamped to the unit interval and hue is
    /// reduced to one turn before the hexcone reconstruction runs.
    pub fn from_hsla(h: u32, s: u32, l: u32, a: u32) -> (c: Self)
        ensures
            c == rgba_of_hsla(h as int, s as int, l as int, a as int),
    {
        let sc = clamp_one_exec(s);
        let lc = clamp_one_exec(l);
        let ac = clamp_one_exec(a);
        let af: u8 = unit_to_byte(ac);
        if sc == 0 {
            let v: u8 = unit_to_byte(lc);
            Rgba { r: v, g: v, b: v, a: af }
        } else {
            let hm: u32 = h % ONE;
            let two_l: u32 = 2 * lc;
            let df: u32 = if two_l >= ONE {
                2 * ONE - two_l
            } else {
                two_l
            };
            proof {
                lemma_round_div_nonneg((df as int) * (sc as int), ONE as int);
                assert((df as int) * (sc as int) <= (df as int) * (ONE as int))
                    by (nonlinear_arith)
                    requires
                        0 <= df,
                        0 <= sc <= ONE,
                ;
                lemma_round_div_mono(
                    (df as int) * (sc as int),
                    (df as int) * (ONE as int),
                    ONE as int,
                );
                lemma_round_div_exact(df as int, 0, ONE as int);
            }
            let cf: u32 = round_div64((df as u64) * (sc as u64), ONE as u64) as u32;
            let t: u32 = 6 * hm;
            let k: u32 = t / ONE;
            let fr: u32 = t % ONE;
            let ff: u32 = if k % 2 == 1 {
                ONE - fr
            } else {
                fr
            };
            proof {
                lemma_round_div_nonneg((cf as int) * (ff as int), ONE as int);
                assert((cf as int) * (ff as int) <= (cf as int) * (ONE as int))
                    by (nonlinear_arith)
                    requires
                        0 <= cf,
                        0 <= ff <= ONE,
                ;
                lemma_round_div_mono(
                    (cf as int) * (ff as int),
                    (cf as int) * (ONE as int),
                    ONE as int,
                );
                lemma_round_div_exact(cf as int, 0, ONE as int);
            }
            let xf: u32 = round_div64((cf as u64) * (ff as u64), ONE as u64) as u32;
            let m2: u32 = two_l - cf;
            let (r6, g6, b6): (u32, u32, u32) = if k == 0 {
                (cf, xf, 0)
            } else if k == 1 {
                (xf, cf, 0)
            } else if k == 2 {
                (0, cf, xf)
            } else if k == 3 {
                (0, xf, cf)
            } else if k == 4 {
                (xf, 0, cf)
            } else {
                (cf, 0, xf)
            };
            Rgba {
                r: chan8_exec(r6, m2),
                g: chan8_exec(g6, m2),
                b: chan8_exec(b6, m2),
                a: af,
            }
        }
    }

    /// The red channel.
    pub fn r(&self) -> (v: u8)
        ensures
            v == self.r,
    {
        self.r
    }

    /// The green channel.
    pub fn g(&self) -> (v: u8)
        ensures
            v == self.g,
    {
        self.g
    }

    /// The blue channel.
    pub fn b(&self) -> (v: u8)
        ensures
            v == self.b,
    {
        self.b
    }

    /// The alpha channel.
    pub fn a(&self) -> (v: u8)
        ensures
            v == self.a,
    {
        self.a
    }
}

/// Packing the channels recovered from any 32-bit integer gives that
/// integer back.
pub proof fn lemma_hex_round_trip(x: u32)
    ensures
        pack_spec(unpack_spec(x)) == x,
{
    assert(((((x >> 24) & 0xff) as u8 as u32) << 24) | ((((x >> 16) & 0xff) as u8 as u32) << 16)
        | ((((x >> 8) & 0xff) as u8 as u32) << 8) | ((x & 0xff) as u8 as u32) == x)
        by (bit_vector);
}

/// Unpacking a packed color recovers every channel.
pub proof fn lemma_unpack_pack(c: Rgba)
    ensures
        unpack_spec(pack_spec(c)) == c,
{
    let r = c.r;
    let g = c.g;
    let b = c.b;
    let a = c.a;
    assert(((((r as u32) << 24) | ((g as u32) << 16) | ((b as u32) << 8) | (a as u32)) >> 24)
        & 0xff == r as u32) by (bit_vector);
    assert(((((r as u32) << 24) | ((g as u32) << 16) | ((b as u32) << 8) | (a as u32)) >> 16)
        & 0xff == g as u32) by (bit_vector);
    assert(((((r as u32) << 24) | ((g as u32) << 16) | ((b as u32) << 8) | (a as u32)) >> 8)
        & 0xff == b as u32) by (bit_vector);
    assert((((r as u32) << 24) | ((g as u32) << 16) | ((b as u32) << 8) | (a as u32)) & 0xff
        == a as u32) by (bit_vector);
}

/// Interpolating a value toward itself lands on it, whatever the weight.
proof fn lemma_lerp255_same(v: int, w: int)
    ensures
        lerp255(v, v, w) == v,
{
    assert(v * (255 - w) + v * w == v * 255) by (nonlinear_arith);
    lemma_round_div_exact(v, 0, 255);
}

/// Blending a color with itself returns it unchanged, at any opacity.
pub proof fn lemma_blend_self(c: Rgba)
    ensures
        blend_spec(c, c) == c,
{
    lemma_lerp255_same(c.r as int, c.a as int);
    lemma_lerp255_same(c.g as int, c.a as int);
    lemma_lerp255_same(c.b as int, c.a as int);
}

/// The stored HSLA fields of a conversion result stay within one turn and
/// the unit interval, so the `u32` fields hold them exactly.
pub proof fn lemma_to_hsla_field_bounds(c: Rgba)
    ensures
        0 <= round_div(chan_sum(c) * ONE, 510) <= ONE,
        0 <= round_div((c.a as int) * ONE, 255) <= ONE,
        chan_delta(c) != 0 ==> 1 <= round_div(chan_delta(c) * ONE, sat_denom(c)) <= ONE,
        chan_delta(c) != 0 ==> 0 <= round_div(hue_num(c) * ONE, 6 * chan_delta(c)) < ONE,
{
    let sm = chan_sum(c);
    let dl = chan_delta(c);
    lemma_round_div_nonneg(sm * ONE, 510);
    assert(sm * ONE <= 510 * ONE) by (nonlinear_arith)
        requires
            sm <= 510,
    ;
    lemma_round_div_mono(sm * ONE, 510 * ONE, 510);
    lemma_round_div_exact(ONE as int, 0, 510);
    assert(510 * ONE == (ONE as int) * 510);
    lemma_round_div_nonneg((c.a as int) * ONE, 255);
    assert((c.a as int) * ONE <= 255 * ONE) by (nonlinear_arith)
        requires
            c.a as int <= 255,
    ;
    lemma_round_div_mono((c.a as int) * ONE, 255 * ONE, 255);
    lemma_round_div_exact(ONE as int, 0, 255);
    assert(255 * ONE == (ONE as int) * 255);
    if dl != 0 {
        let dd = sat_denom(c);
        assert(1 <= dl <= dd <= 255);
        assert(dl * ONE <= dd * ONE) by (nonlinear_arith)
            requires
                dl <= dd,
        ;
        lemma_round_div_mono(dl * ONE, dd * ONE, dd);
        assert(dd * ONE == (ONE as int) * dd);
        lemma_round_div_exact(ONE as int, 0, dd);
        assert(2 * (dl * ONE) - dd < 2 * dd * round_div(dl * ONE, dd)
            ==> 0 < round_div(dl * ONE, dd)) by (nonlinear_arith)
            requires
                1 <= dl,
                1 <= dd <= 255,
                ONE == 130560,
        ;
        crate::fixed::lemma_round_div_bounds(dl * ONE, dd);
        let num = hue_num(c);
        assert(0 <= num <= 6 * dl - 1);
        lemma_round_div_nonneg(num * ONE, 6 * dl);
        assert(num * ONE <= (6 * dl - 1) * ONE) by (nonlinear_arith)
            requires
                num <= 6 * dl - 1,
        ;
        lemma_round_div_mono(num * ONE, (6 * dl - 1) * ONE, 6 * dl);
        assert(2 * ((6 * dl - 1) * ONE) + 6 * dl < 2 * (6 * dl) * (ONE as int))
            by (nonlinear_arith)
            requires
                1 <= dl <= 255,
                ONE == 130560,
        ;
        crate::fixed::lemma_round_div_bounds((6 * dl - 1) * ONE, 6 * dl);
        assert(2 * (6 * dl) * round_div((6 * dl - 1) * ONE, 6 * dl) < 2 * (6 * dl) * (ONE as int)
            ==> round_div((6 * dl - 1) * ONE, 6 * dl) < ONE) by (nonlinear_arith)
            requires
                1 <= dl,
        ;
    }
}

} // verus!
