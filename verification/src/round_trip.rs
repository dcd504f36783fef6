//! The conversion round trip: converting an RGBA color to HSLA and back
//! reconstructs every channel exactly.
//!
//! The fixed-point scale is divisible by 510 and by 6, so lightness and the
//! hue sector index survive the conversion without rounding; the remaining
//! rounding of saturation and hue is small enough that the final rescaling
//! to 8-bit channels absorbs it.

use crate::fixed::{
    lemma_round_div_bounds, lemma_round_div_exact, lemma_round_div_mono, lemma_round_div_nonneg,
    lemma_round_div_shift, round_div, ONE,
};
use crate::rgba::{
    chan8, chan_delta, chan_sum, clamp_one, hsla_of_rgba, hue_num, lemma_to_hsla_field_bounds,
    max3, min3, rgba_of_hsla, Rgba,
};
use vstd::arithmetic::div_mod::lemma_fundamental_div_mod_converse;
use vstd::prelude::*;

verus! {

/// The color whose largest channel is `mx`, smallest `mn`, and whose middle
/// channel sits `f` above the smallest (rising sectors) or `f` below the
/// largest (falling sectors), laid out by hue sector `i`.
spec fn sector_color(i: int, mx: int, mn: int, f: int, aa: int) -> Rgba {
    let hi = mx as u8;
    let lo = mn as u8;
    let up = (mn + f) as u8;
    let dn = (mx - f) as u8;
    let al = aa as u8;
    if i == 0 {
        Rgba { r: hi, g: up, b: lo, a: al }
    } else if i == 1 {
        Rgba { r: dn, g: hi, b: lo, a: al }
    } else if i == 2 {
        Rgba { r: lo, g: hi, b: up, a: al }
    } else if i == 3 {
        Rgba { r: lo, g: dn, b: hi, a: al }
    } else if i == 4 {
        Rgba { r: up, g: lo, b: hi, a: al }
    } else {
        Rgba { r: hi, g: lo, b: dn, a: al }
    }
}

/// Reconstruction of a chromatic color from its converted HSLA fields:
/// sector `i` with mid-channel offset `f` comes back as exactly the channel
/// triple it was computed from.
proof fn lemma_chromatic(mn: int, mx: int, f: int, i: int, aa: int)
    requires
        0 <= mn < mx <= 255,
        0 <= f <= mx - mn,
        0 <= i <= 5,
        !(i == 5 && f == mx - mn),
        0 <= aa <= 255,
    ensures
        rgba_of_hsla(
            round_div((i * (mx - mn) + f) * ONE, 6 * (mx - mn)),
            round_div(
                (mx - mn) * ONE,
                if mx + mn <= 255 {
                    mx + mn
                } else {
                    510 - (mx + mn)
                },
            ),
            round_div((mx + mn) * ONE, 510),
            round_div(aa * ONE, 255),
        ) == sector_color(i, mx, mn, f, aa),
{
    let dl = mx - mn;
    let sm = mx + mn;
    let dd: int = if sm <= 255 {
        sm
    } else {
        510 - sm
    };
    let hf = round_div((i * dl + f) * ONE, 6 * dl);
    let sf = round_div(dl * ONE, dd);
    let lf = round_div(sm * ONE, 510);
    let af = round_div(aa * ONE, 255);
    assert(1 <= dl <= dd <= 255);

    // Lightness and alpha rescale exactly: the scale is divisible by both.
    assert(sm * ONE == (256 * sm) * 510 + 0) by (nonlinear_arith)
        requires
            ONE == 130560,
    ;
    lemma_round_div_exact(256 * sm, 0, 510);
    assert(lf == 256 * sm);
    assert(aa * ONE == (512 * aa) * 255 + 0) by (nonlinear_arith)
        requires
            ONE == 130560,
    ;
    lemma_round_div_exact(512 * aa, 0, 255);
    assert(af == 512 * aa);

    // Saturation: within half a step of the exact ratio, and never clamped.
    lemma_round_div_bounds(dl * ONE, dd);
    let e1 = dd * sf - dl * ONE;
    assert(-dd < 2 * e1 <= dd) by (nonlinear_arith)
        requires
            2 * (dl * ONE) - dd < 2 * dd * sf <= 2 * (dl * ONE) + dd,
            e1 == dd * sf - dl * ONE,
    ;
    assert(dl * ONE <= dd * ONE) by (nonlinear_arith)
        requires
            dl <= dd,
    ;
    lemma_round_div_mono(dl * ONE, dd * ONE, dd);
    assert(dd * ONE == ONE * dd + 0) by (nonlinear_arith);
    lemma_round_div_exact(ONE as int, 0, dd);
    assert(sf <= ONE);
    assert(1 <= sf) by (nonlinear_arith)
        requires
            2 * (dl * ONE) - dd < 2 * dd * sf,
            1 <= dl,
            1 <= dd <= 255,
            ONE == 130560,
    ;

    // Hue splits into an exact sector part and a rounded offset `gf`.
    let gf = round_div(f * ONE, 6 * dl);
    assert((i * dl + f) * ONE == f * ONE + (i * 21760) * (6 * dl)) by (nonlinear_arith)
        requires
            ONE == 130560,
    ;
    lemma_round_div_shift(f * ONE, i * 21760, 6 * dl);
    assert(hf == gf + i * 21760);
    lemma_round_div_nonneg(f * ONE, 6 * dl);
    assert(f * ONE <= dl * ONE) by (nonlinear_arith)
        requires
            f <= dl,
    ;
    lemma_round_div_mono(f * ONE, dl * ONE, 6 * dl);
    assert(dl * ONE == 21760 * (6 * dl) + 0) by (nonlinear_arith)
        requires
            ONE == 130560,
    ;
    lemma_round_div_exact(21760, 0, 6 * dl);
    assert(0 <= gf <= 21760);
    lemma_round_div_bounds(f * ONE, 6 * dl);
    let e2 = (6 * dl) * gf - f * ONE;
    assert(-(6 * dl) < 2 * e2 <= 6 * dl) by (nonlinear_arith)
        requires
            2 * (f * ONE) - 6 * dl < 2 * (6 * dl) * gf <= 2 * (f * ONE) + 6 * dl,
            e2 == (6 * dl) * gf - f * ONE,
    ;
    if f < dl {
        // Short of a full sector the offset stays short of a full step.
        assert(f * ONE <= (dl - 1) * ONE) by (nonlinear_arith)
            requires
                f <= dl - 1,
        ;
        lemma_round_div_mono(f * ONE, (dl - 1) * ONE, 6 * dl);
        lemma_round_div_bounds((dl - 1) * ONE, 6 * dl);
        assert(round_div((dl - 1) * ONE, 6 * dl) < 21760) by (nonlinear_arith)
            requires
                2 * (6 * dl) * round_div((dl - 1) * ONE, 6 * dl) <= 2 * ((dl - 1) * ONE) + 6
                    * dl,
                1 <= dl <= 255,
                ONE == 130560,
        ;
        assert(gf < 21760);
    } else {
        assert(f == dl);
        assert(gf == 21760);
    }
    assert(0 <= hf);
    assert(hf < ONE);

    // Now walk the reconstruction.
    lemma_fundamental_div_mod_converse(hf, ONE as int, 0, hf);
    assert(hf % (ONE as int) == hf);
    assert(clamp_one(sf) == sf && sf != 0);
    assert(clamp_one(lf) == lf);
    assert(clamp_one(af) == af);

    // Alpha comes back exactly.
    assert(af * 255 == aa * (ONE as int) + 0) by (nonlinear_arith)
        requires
            af == 512 * aa,
            ONE == 130560,
    ;
    lemma_round_div_exact(aa, 0, ONE as int);
    assert(round_div(clamp_one(af) * 255, ONE as int) == aa);

    // The chroma room collapses to an exact multiple of the denominator.
    let df = ONE - vstd::math::abs(2 * lf - ONE);
    assert(df == 512 * dd);

    // Chroma is exact: half a saturation step is under half a chroma step.
    let cf = round_div(df * sf, ONE as int);
    assert(df * sf == (512 * dl) * (ONE as int) + 512 * e1) by (nonlinear_arith)
        requires
            df == 512 * dd,
            dd * sf == dl * (ONE as int) + e1,
    ;
    assert(-(ONE as int) <= 2 * (512 * e1) < ONE) by (nonlinear_arith)
        requires
            -dd < 2 * e1 <= dd,
            dd <= 255,
            ONE == 130560,
    ;
    lemma_round_div_exact(512 * dl, 512 * e1, ONE as int);
    assert(cf == 512 * dl);
    let m2 = 2 * lf - cf;
    assert(m2 == 1024 * mn);

    // The sector index and offset of the reconstruction.
    let t = 6 * hf;
    let k = t / (ONE as int);
    let fr = t % (ONE as int);
    assert(t == i * (ONE as int) + 6 * gf);
    let off: int = if i % 2 == 0 {
        f
    } else {
        dl - f
    };
    let xf = round_div(cf * ((if k % 2 == 1 {
        ONE - fr
    } else {
        fr
    }) as int), ONE as int);
    if gf < 21760 {
        lemma_fundamental_div_mod_converse(t, ONE as int, i, 6 * gf);
        assert(k == i && fr == 6 * gf);
        let ff: int = if k % 2 == 1 {
            ONE - fr
        } else {
            fr
        };
        if i % 2 == 0 {
            assert(cf * ff == (512 * f) * (ONE as int) + 512 * e2) by (nonlinear_arith)
                requires
                    cf == 512 * dl,
                    ff == 6 * gf,
                    (6 * dl) * gf == f * ONE + e2,
        ;
        } else {
            assert(cf * ff == (512 * (dl - f)) * (ONE as int) + (-512) * e2)
                by (nonlinear_arith)
                requires
                    cf == 512 * dl,
                    ff == ONE - 6 * gf,
                    (6 * dl) * gf == f * ONE + e2,
                    ONE == 130560,
            ;
        }
        assert(cf * ff == (512 * off) * (ONE as int) + (if i % 2 == 0 {
            512 * e2
        } else {
            (-512) * e2
        }));
        lemma_round_div_bounds(cf * ff, ONE as int);
        assert(-3 <= xf - 512 * off <= 3) by (nonlinear_arith)
            requires
                2 * (cf * ff) - ONE < 2 * (ONE as int) * xf <= 2 * (cf * ff) + ONE,
                cf * ff == (512 * off) * (ONE as int) + (if i % 2 == 0 {
                    512 * e2
                } else {
                    (-512) * e2
                }),
                -(6 * dl) < 2 * e2 <= 6 * dl,
                dl <= 255,
                ONE == 130560,
        ;
    } else {
        // A full-sector offset lands exactly on the next sector boundary.
        assert(f == dl && i <= 4);
        assert(t == (i + 1) * (ONE as int) + 0);
        lemma_fundamental_div_mod_converse(t, ONE as int, i + 1, 0);
        assert(k == i + 1 && fr == 0);
        if i % 2 == 0 {
            assert(k % 2 == 1);
            assert(cf * ((ONE - 0) as int) == (512 * off) * (ONE as int) + 0)
                by (nonlinear_arith)
                requires
                    cf == 512 * dl,
                    off == f,
                    f == dl,
            ;
            lemma_round_div_exact(512 * off, 0, ONE as int);
        } else {
            assert(k % 2 == 0);
            assert(cf * 0 == (512 * off) * (ONE as int) + 0) by (nonlinear_arith)
                requires
                    off == dl - f,
                    f == dl,
            ;
            lemma_round_div_exact(512 * off, 0, ONE as int);
        }
        assert(xf == 512 * off);
    }
    assert(-3 <= xf - 512 * off <= 3);

    // Each channel slot rescales to its exact 8-bit value.
    assert((2 * cf + m2) * 255 == mx * (2 * (ONE as int)) + 0) by (nonlinear_arith)
        requires
            cf == 512 * dl,
            m2 == 1024 * mn,
            mx == mn + dl,
            ONE == 130560,
    ;
    lemma_round_div_exact(mx, 0, 2 * (ONE as int));
    assert(chan8(cf, m2) == mx);
    assert((2 * 0 + m2) * 255 == mn * (2 * (ONE as int)) + 0) by (nonlinear_arith)
        requires
            m2 == 1024 * mn,
            ONE == 130560,
    ;
    lemma_round_div_exact(mn, 0, 2 * (ONE as int));
    assert(chan8(0, m2) == mn);
    let md = mn + off;
    let dx = xf - 512 * off;
    assert((2 * xf + m2) * 255 == md * (2 * (ONE as int)) + 510 * dx) by (nonlinear_arith)
        requires
            xf == 512 * off + dx,
            m2 == 1024 * mn,
            md == mn + off,
            ONE == 130560,
    ;
    assert(-(2 * (ONE as int)) <= 2 * (510 * dx) < 2 * (ONE as int)) by (nonlinear_arith)
        requires
            -3 <= dx <= 3,
            ONE == 130560,
    ;
    lemma_round_div_exact(md, 510 * dx, 2 * (ONE as int));
    assert(chan8(xf, m2) == md);

    // Match the sector permutation against the claimed color.
    assert(rgba_of_hsla(hf, sf, lf, af) == sector_color(i, mx, mn, f, aa));
}

/// Converting any RGBA color to HSLA and back reconstructs it exactly.
pub proof fn lemma_hsla_round_trip(c: Rgba)
    ensures
        ({
            let hs = hsla_of_rgba(c);
            rgba_of_hsla(hs.h as int, hs.s as int, hs.l as int, hs.a as int) == c
        }),
{
    let r = c.r as int;
    let g = c.g as int;
    let b = c.b as int;
    let mx = max3(r, g, b);
    let mn = min3(r, g, b);
    let dl = chan_delta(c);
    let sm = chan_sum(c);
    let aa = c.a as int;
    lemma_to_hsla_field_bounds(c);
    if dl == 0 {
        // A gray: saturation is zero and lightness alone carries the value.
        let lf = round_div(sm * ONE, 510);
        assert(sm == 2 * r);
        assert(sm * ONE == (512 * r) * 510 + 0) by (nonlinear_arith)
            requires
                sm == 2 * r,
                ONE == 130560,
        ;
        lemma_round_div_exact(512 * r, 0, 510);
        assert(lf == 512 * r);
        assert(clamp_one(lf) == lf);
        assert(lf * 255 == r * (ONE as int) + 0) by (nonlinear_arith)
            requires
                lf == 512 * r,
                ONE == 130560,
        ;
        lemma_round_div_exact(r, 0, ONE as int);
        let af = round_div(aa * ONE, 255);
        assert(aa * ONE == (512 * aa) * 255 + 0) by (nonlinear_arith)
            requires
                ONE == 130560,
        ;
        lemma_round_div_exact(512 * aa, 0, 255);
        assert(af == 512 * aa);
        assert(clamp_one(af) == af);
        assert(af * 255 == aa * (ONE as int) + 0) by (nonlinear_arith)
            requires
                af == 512 * aa,
                ONE == 130560,
        ;
        lemma_round_div_exact(aa, 0, ONE as int);
    } else {
        if r >= g && r >= b {
            if g >= b {
                // Rising red sector: the middle channel is green.
                assert(mx == r && mn == b);
                assert(hue_num(c) == 0 * dl + (g - b));
                lemma_chromatic(mn, mx, g - b, 0, aa);
            } else {
                // Falling magenta sector: the middle channel is blue.
                assert(mx == r && mn == g);
                assert(hue_num(c) == 5 * dl + (dl - (b - g)));
                lemma_chromatic(mn, mx, dl - (b - g), 5, aa);
            }
        } else if g >= b {
            if b >= r {
                // Rising green sector: the middle channel is blue.
                assert(mx == g && mn == r);
                assert(hue_num(c) == 2 * dl + (b - r));
                lemma_chromatic(mn, mx, b - r, 2, aa);
            } else {
                // Falling yellow sector: the middle channel is red.
                assert(mx == g && mn == b);
                assert(hue_num(c) == 1 * dl + (dl - (r - b)));
                lemma_chromatic(mn, mx, dl - (r - b), 1, aa);
            }
        } else {
            if r >= g {
                // Rising blue sector: the middle channel is red.
                assert(mx == b && mn == g);
                assert(hue_num(c) == 4 * dl + (r - g));
                lemma_chromatic(mn, mx, r - g, 4, aa);
            } else {
                // Falling cyan sector: the middle channel is green.
                assert(mx == b && mn == r);
                assert(hue_num(c) == 3 * dl + (dl - (g - r)));
                lemma_chromatic(mn, mx, dl - (g - r), 3, aa);
            }
        }
    }
}

} // verus!
