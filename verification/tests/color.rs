use farbe::fixed::{HALF, ONE};
use farbe::hsla::Hsla;
use farbe::rgba::Rgba;

#[test]
fn hex_round_trip_samples() {
    let samples: [u32; 8] = [
        0x0000_0000,
        0xFFFF_FFFF,
        0x1234_5678,
        0x0000_FFFF,
        0xFF00_00FF,
        0x8080_80FF,
        0xDEAD_BEEF,
        0x0102_0304,
    ];
    for &x in samples.iter() {
        assert_eq!(Rgba::from_hex(x).to_u32(), x);
    }
}

#[test]
fn from_hex_decomposition() {
    let c = Rgba::from_hex(0x1122_3344);
    assert_eq!(c.r(), 0x11);
    assert_eq!(c.g(), 0x22);
    assert_eq!(c.b(), 0x33);
    assert_eq!(c.a(), 0x44);
    let blue = Rgba::from_hex(0x0000_FFFF);
    assert_eq!((blue.r(), blue.g(), blue.b(), blue.a()), (0, 0, 255, 255));
}

#[test]
fn component_round_trip() {
    let steps: [u8; 6] = [0, 1, 127, 128, 254, 255];
    for &r in steps.iter() {
        for &g in steps.iter() {
            for &b in steps.iter() {
                for &a in steps.iter() {
                    let c = Rgba::new(r, g, b, a);
                    assert_eq!((c.r(), c.g(), c.b(), c.a()), (r, g, b, a));
                }
            }
        }
    }
}

#[test]
fn pack_unpack_round_trip() {
    let c = Rgba::new(17, 34, 51, 68);
    assert_eq!(Rgba::from_hex(c.to_u32()), c);
}

#[test]
fn achromatic_fixed_point() {
    // A mid gray: saturation exactly zero, lightness 128/255 of a unit,
    // which is 0.502 within a thousandth.
    let hs = Rgba::new(128, 128, 128, 255).to_hsla();
    assert_eq!(hs.s(), 0);
    assert_eq!(hs.h(), 0);
    assert_eq!(hs.l(), 65536);
    assert_eq!(hs.a(), ONE);
}

#[test]
fn conversion_round_trip_grid() {
    // A coarse grid over the channel cube, with alpha varying alongside.
    let mut r: u16 = 0;
    while r < 256 {
        let mut g: u16 = 0;
        while g < 256 {
            let mut b: u16 = 0;
            while b < 256 {
                let a = (r ^ g ^ b) as u8;
                let c = Rgba::new(r as u8, g as u8, b as u8, a);
                let hs = c.to_hsla();
                let back = Rgba::from_hsla(hs.h(), hs.s(), hs.l(), hs.a());
                assert_eq!(back, c);
                b += 5;
            }
            g += 5;
        }
        r += 5;
    }
}

#[test]
fn conversion_round_trip_grays_and_edges() {
    for v in 0u16..256 {
        let c = Rgba::new(v as u8, v as u8, v as u8, 255 - v as u8);
        let hs = c.to_hsla();
        assert_eq!(Rgba::from_hsla(hs.h(), hs.s(), hs.l(), hs.a()), c);
    }
    let edges = [
        Rgba::new(255, 0, 0, 255),
        Rgba::new(0, 255, 0, 255),
        Rgba::new(0, 0, 255, 255),
        Rgba::new(255, 255, 0, 0),
        Rgba::new(0, 255, 255, 1),
        Rgba::new(255, 0, 255, 128),
        Rgba::new(255, 254, 253, 2),
        Rgba::new(1, 2, 3, 254),
        Rgba::new(254, 1, 128, 77),
    ];
    for &c in edges.iter() {
        let hs = c.to_hsla();
        assert_eq!(Rgba::from_hsla(hs.h(), hs.s(), hs.l(), hs.a()), c);
    }
}

#[test]
fn from_hsla_achromatic_rounds_half_up() {
    // Lightness one half scales to 127.5, which rounds up to 128,
    // whatever the hue says.
    let c = Rgba::from_hsla(12345, 0, HALF, ONE);
    assert_eq!((c.r(), c.g(), c.b(), c.a()), (128, 128, 128, 255));
}

#[test]
fn from_hsla_clamps_overrange_input() {
    // Saturation, lightness and alpha above one unit clamp at the
    // conversion boundary; construction itself never clamps.
    let canonical = Rgba::from_hsla(0, ONE, HALF, ONE);
    let overdriven = Rgba::from_hsla(0, 3 * ONE, HALF, 2 * ONE);
    assert_eq!(canonical, overdriven);
    // A hue beyond one turn wraps around the circle.
    let wrapped = Rgba::from_hsla(ONE + 21760, ONE, HALF, ONE);
    let plain = Rgba::from_hsla(21760, ONE, HALF, ONE);
    assert_eq!(wrapped, plain);
}

#[test]
fn rgba_blend_identity() {
    let samples = [
        Rgba::new(12, 200, 77, 255),
        Rgba::new(0, 0, 0, 0),
        Rgba::new(255, 255, 255, 128),
        Rgba::new(1, 2, 3, 4),
    ];
    for &c in samples.iter() {
        assert_eq!(c.blend(&c), c);
    }
}

#[test]
fn rgba_blend_scenario() {
    // Pure red under fully opaque pure blue: the cover's weight is full,
    // so the interpolation hands the cover back.
    let red = Rgba::new(255, 0, 0, 255);
    let blue = Rgba::from_hex(0x0000_FFFF);
    let out = red.blend(&blue);
    assert_eq!((out.r(), out.g(), out.b(), out.a()), (0, 0, 255, 255));

    // Under a half-opaque blue both colored channels move toward the
    // middle: red falls 255 -> 127, blue rises 0 -> 128.
    let half_blue = Rgba::new(0, 0, 255, 128);
    let mixed = red.blend(&half_blue);
    assert_eq!((mixed.r(), mixed.g(), mixed.b(), mixed.a()), (127, 0, 128, 255));
}

#[test]
fn hsla_blend_identity() {
    let x = Hsla::new(12000, 90000, 60000, 110000);
    assert_eq!(x.blend(&x), x);
}

#[test]
fn hsla_blend_takes_shorter_arc() {
    // Hues at 0.05 and 0.95 of a turn sit a tenth of a turn apart across
    // the wrap point; a half-weight blend meets at the wrap, not at 0.5.
    let near_red_low = Hsla::new(6528, ONE, HALF, ONE);
    let near_red_high = Hsla::new(124032, ONE, HALF, HALF);
    let out = near_red_low.blend(&near_red_high);
    assert_eq!(out.h(), 0);
    assert_eq!(out.s(), ONE);
    assert_eq!(out.l(), HALF);
    assert_eq!(out.a(), ONE);
}

#[test]
fn hsla_blend_plain_interpolation() {
    // Hues well inside the circle interpolate directly.
    let a = Hsla::new(20000, 0, 0, ONE);
    let b = Hsla::new(40000, ONE, ONE, HALF);
    let out = a.blend(&b);
    assert_eq!(out.h(), 30000);
    assert_eq!(out.s(), HALF);
    assert_eq!(out.l(), HALF);
    assert_eq!(out.a(), ONE);
}

#[test]
fn grayscale_projects_saturation_only() {
    let x = Hsla::new(11111, 99999, 44444, 130000);
    let gray = x.grayscale();
    assert_eq!(gray.s(), 0);
    assert_eq!(gray.h(), x.h());
    assert_eq!(gray.l(), x.l());
    assert_eq!(gray.a(), x.a());
}

#[test]
fn grayscale_idempotent() {
    let samples = [
        Hsla::new(11111, 99999, 44444, 130000),
        Hsla::new(0, 0, 0, 0),
        Hsla::new(130559, ONE, ONE, ONE),
    ];
    for &x in samples.iter() {
        assert_eq!(x.grayscale().grayscale(), x.grayscale());
    }
}

#[test]
fn with_opacity_endpoints() {
    let x = Hsla::new(500, 600, 700, 120000);
    assert_eq!(x.with_opacity(0).a(), 0);
    assert_eq!(x.with_opacity(ONE).a(), 120000);
    let faded = x.with_opacity(HALF);
    assert_eq!(faded.a(), 60000);
    assert_eq!((faded.h(), faded.s(), faded.l()), (500, 600, 700));
}

#[test]
fn with_opacity_scales_linearly() {
    let x = Hsla::new(0, 0, 0, ONE);
    // factor f scales a full alpha to exactly f.
    for f in [0u32, 1, 13056, 32640, 65280, 130559, 130560] {
        assert_eq!(x.with_opacity(f).a(), f);
    }
    // Monotone over a sweep of factors.
    let y = Hsla::new(0, 0, 0, 98765);
    let mut prev: u32 = 0;
    let mut f: u32 = 0;
    while f <= ONE {
        let a = y.with_opacity(f).a();
        assert!(a >= prev);
        prev = a;
        f += 4080;
    }
}

#[test]
fn with_opacity_saturates_at_cap() {
    // Doubly out-of-range input multiplies past the representable top and
    // caps there instead of wrapping.
    let x = Hsla::new(0, 0, 0, u32::MAX);
    assert_eq!(x.with_opacity(u32::MAX).a(), u32::MAX);
}

#[test]
fn fade_out_mutates_in_place() {
    let mut x = Hsla::new(100, 200, 300, 80000);
    let copy_before = x;
    x.fade_out(HALF);
    assert_eq!(x.a(), 40000);
    assert_eq!((x.h(), x.s(), x.l()), (100, 200, 300));
    // The separately held copy is unaffected.
    assert_eq!(copy_before.a(), 80000);
    // And fade_out agrees with the pure scaling.
    let pure = copy_before.with_opacity(HALF);
    assert_eq!(x, pure);
}

#[test]
fn from_rgba_matches_to_hsla() {
    let samples = [
        Rgba::new(255, 0, 0, 255),
        Rgba::new(10, 20, 30, 40),
        Rgba::new(128, 128, 128, 255),
        Rgba::new(0, 255, 255, 0),
    ];
    for &c in samples.iter() {
        assert_eq!(Hsla::from_rgba(&c), c.to_hsla());
    }
}

#[test]
fn from_hsla_sector_boundary_yellow() {
    // A hue exactly one sixth of a turn sits on the red/green sector
    // boundary and lands on pure yellow from either side's formula.
    let c = Rgba::from_hsla(ONE / 6, ONE, HALF, ONE);
    assert_eq!((c.r(), c.g(), c.b(), c.a()), (255, 255, 0, 255));
}

#[test]
fn reverse_round_trip_within_tolerance() {
    // Going HSLA -> RGBA -> HSLA quantizes to 8-bit channels; for
    // well-saturated mid-lightness colors every field comes back within a
    // couple of 8-bit steps (one step is ONE / 255 = 512).
    let tolerance: i64 = 1024;
    let mut h: u32 = 0;
    while h < ONE {
        let c = Rgba::from_hsla(h, ONE, HALF, ONE);
        let hs = c.to_hsla();
        let dh = (hs.h() as i64 - h as i64).abs();
        let dh_circular = dh.min(ONE as i64 - dh);
        assert!(dh_circular <= tolerance);
        assert!((hs.s() as i64 - ONE as i64).abs() <= tolerance);
        assert!((hs.l() as i64 - HALF as i64).abs() <= tolerance);
        assert_eq!(hs.a(), ONE);
        h += 1087;
    }
}

#[test]
fn to_hsla_primary_red() {
    // Pure red: hue 0, full saturation, lightness one half.
    let hs = Rgba::new(255, 0, 0, 255).to_hsla();
    assert_eq!(hs.h(), 0);
    assert_eq!(hs.s(), ONE);
    assert_eq!(hs.l(), HALF);
    assert_eq!(hs.a(), ONE);
}

#[test]
fn to_hsla_primary_green_and_blue() {
    // Pure green sits a third of a turn round, pure blue two thirds.
    let green = Rgba::new(0, 255, 0, 255).to_hsla();
    assert_eq!(green.h(), ONE / 3);
    assert_eq!(green.s(), ONE);
    assert_eq!(green.l(), HALF);
    let blue = Rgba::new(0, 0, 255, 255).to_hsla();
    assert_eq!(blue.h(), 2 * (ONE / 3));
    assert_eq!(blue.s(), ONE);
    assert_eq!(blue.l(), HALF);
}
