use vstd::arithmetic::div_mod::{lemma_fundamental_div_mod, lemma_mod_bound};
use vstd::prelude::*;

use crate::raster::{RgbImage, Texture};
use crate::binary32::{
    add_spec, b32_wf, check_rounds_past, div_spec, from_int, int_spec, is_negative, mul_spec,
    neg_spec, negate, product, quotient, rounds_past, sum, unit, unit_spec, Bin32,
};

verus! {

// ---------------------------------------------------------------------------
// RGB to HSB
// ---------------------------------------------------------------------------
pub open spec fn max3(r: u8, g: u8, b: u8) -> int {
    if r >= g && r >= b {
        r as int
    } else if g >= b {
        g as int
    } else {
        b as int
    }
}

pub open spec fn min3(r: u8, g: u8, b: u8) -> int {
    if r <= g && r <= b {
        r as int
    } else if g <= b {
        g as int
    } else {
        b as int
    }
}

/// Saturation on the 0..=255 scale is `sat_num / max`.
pub open spec fn sat_num(r: u8, g: u8, b: u8) -> int {
    255 * (max3(r, g, b) - min3(r, g, b))
}

/// Hue on the 0..=255 scale (a full turn is 255) is `hue_num / (6 * (max - min))`.
pub open spec fn hue_num(r: u8, g: u8, b: u8) -> int {
    let d = max3(r, g, b) - min3(r, g, b);
    if r >= g && r >= b {
        if g >= b {
            255 * (g - b)
        } else {
            255 * 6 * d - 255 * (b - g)
        }
    } else if g >= b {
        255 * (b - r + 2 * d)
    } else {
        255 * (r - g + 4 * d)
    }
}

/// Saturation times 255 as the binary32 computation `(max - min) / max * 255` gives it
/// (channels taken as `c / 255`).
pub open spec fn sat_b32(r: u8, g: u8, b: u8) -> Bin32 {
    let cmax = unit_spec(max3(r, g, b));
    let cmin = unit_spec(min3(r, g, b));
    mul_spec(div_spec(add_spec(cmax, neg_spec(cmin)), cmax), int_spec(255))
}

/// Hue times 255 as the binary32 computation gives it.
pub open spec fn hue_b32(r: u8, g: u8, b: u8) -> Bin32 {
    let rf = unit_spec(r as int);
    let gf = unit_spec(g as int);
    let bf = unit_spec(b as int);
    let delta = add_spec(unit_spec(max3(r, g, b)), neg_spec(unit_spec(min3(r, g, b))));
    let h = if r >= g && r >= b {
        div_spec(div_spec(add_spec(gf, neg_spec(bf)), delta), int_spec(6))
    } else if g >= b {
        div_spec(add_spec(div_spec(add_spec(bf, neg_spec(rf)), delta), int_spec(2)), int_spec(6))
    } else {
        div_spec(add_spec(div_spec(add_spec(rf, neg_spec(gf)), delta), int_spec(4)), int_spec(6))
    };
    let h1 = if h.neg && h.mant != 0 {
        add_spec(h, int_spec(1))
    } else {
        h
    };
    mul_spec(h1, int_spec(255))
}

/// `num / den` rounded to the nearest integer; an exact half goes up when `up`.
pub open spec fn round_half(num: int, den: int, up: bool) -> int {
    let lo = num / den;
    let rem = num % den;
    if 2 * rem > den {
        lo + 1
    } else if 2 * rem < den {
        lo
    } else if up {
        lo + 1
    } else {
        lo
    }
}

/// `v` is an integer nearest to `num / den`.
pub open spec fn nearest(num: int, den: int, v: int) -> bool {
    2 * (v * den - num) <= den && 2 * (num - v * den) <= den
}

/// Hue, saturation and brightness of a colour on 0..=255 scales: brightness is
/// the largest channel, saturation `255 * (max - min) / max` (0 for black) and
/// hue the HSV hue angle scaled so that a full turn is 255 (0 for greys), each
/// rounded to the nearest integer.  An exact half rounds the way the binary32
/// evaluation of the same formula rounds it.
pub open spec fn hsb(r: u8, g: u8, b: u8) -> (int, int, int) {
    let mx = max3(r, g, b);
    let mn = min3(r, g, b);
    let s = if mx == 0 {
        0
    } else {
        round_half(sat_num(r, g, b), mx, rounds_past(sat_b32(r, g, b), sat_num(r, g, b) / mx))
    };
    let d6 = 6 * (mx - mn);
    let h = if mx == mn {
        0
    } else {
        round_half(hue_num(r, g, b), d6, rounds_past(hue_b32(r, g, b), hue_num(r, g, b) / d6))
    };
    (h, s, mx)
}

proof fn lemma_round_half(num: int, den: int, up: bool)
    requires
        0 <= num <= 255 * den,
        den > 0,
    ensures
        nearest(num, den, round_half(num, den, up)),
        0 <= round_half(num, den, up) <= 255,
        0 <= num / den <= 255,
{
    lemma_fundamental_div_mod(num, den);
    lemma_mod_bound(num, den);
    let lo = num / den;
    let rem = num % den;
    assert(num == lo * den + rem) by (nonlinear_arith)
        requires
            num == den * lo + rem,
    ;
    assert(0 <= lo <= 255) by (nonlinear_arith)
        requires
            num == lo * den + rem,
            0 <= rem < den,
            0 <= num <= 255 * den,
    ;
    assert(lo == 255 ==> rem == 0) by (nonlinear_arith)
        requires
            num == lo * den + rem,
            0 <= rem,
            num <= 255 * den,
    ;
    assert((lo + 1) * den == lo * den + den) by (nonlinear_arith);
}

proof fn lemma_hue_num_bounds(r: u8, g: u8, b: u8)
    requires
        max3(r, g, b) > min3(r, g, b),
    ensures
        0 <= hue_num(r, g, b) <= 255 * (6 * (max3(r, g, b) - min3(r, g, b))),
{
    let mx = max3(r, g, b);
    let mn = min3(r, g, b);
    let d = mx - mn;
    let v = hue_num(r, g, b);
    assert(mn <= r <= mx && mn <= g <= mx && mn <= b <= mx);
    if r >= g && r >= b {
        if g >= b {
            assert(v == 255 * (g - b));
            assert(g - b <= d);
        } else {
            assert(v == 1530 * d - 255 * (b - g));
            assert(b - g <= d);
        }
    } else if g >= b {
        assert(v == 255 * (b - r + 2 * d));
        assert(b - r <= d && r - b <= d);
    } else {
        assert(v == 255 * (r - g + 4 * d));
        assert(r - g <= d && g - r <= d);
    }
}

/// Hue, saturation and brightness all lie on the 0..=255 scale.
pub proof fn lemma_hsb_in_range(r: u8, g: u8, b: u8)
    ensures
        0 <= hsb(r, g, b).0 <= 255,
        0 <= hsb(r, g, b).1 <= 255,
        0 <= hsb(r, g, b).2 <= 255,
{
    let mx = max3(r, g, b);
    let mn = min3(r, g, b);
    if mx > 0 {
        lemma_round_half(sat_num(r, g, b), mx, rounds_past(sat_b32(r, g, b), sat_num(r, g, b) / mx));
    }
    if mx > mn {
        lemma_hue_num_bounds(r, g, b);
        let d6 = 6 * (mx - mn);
        lemma_round_half(hue_num(r, g, b), d6, rounds_past(hue_b32(r, g, b), hue_num(r, g, b) / d6));
    }
}

/// The widest HSB box (every bound at its extreme, as the sliders start)
/// accepts every colour, so filtering with it keeps the whole image.
pub proof fn lemma_full_box_accepts_all(r: u8, g: u8, b: u8)
    ensures
        imagej_accepts(r, g, b, 0, 255, 0, 255, 0, 255),
        masked([r, g, b], imagej_accepts(r, g, b, 0, 255, 0, 255, 0, 255)) == [r, g, b, 255u8],
{
    lemma_hsb_in_range(r, g, b);
}

fn sat_b32_exec(r: u8, g: u8, b: u8, mx: u8, mn: u8) -> (x: Bin32)
    requires
        mx == max3(r, g, b),
        mn == min3(r, g, b),
    ensures
        x == sat_b32(r, g, b),
        b32_wf(x),
{
    let cmax = unit(mx);
    let cmin = unit(mn);
    product(quotient(sum(cmax, negate(cmin)), cmax), from_int(255))
}

fn hue_b32_exec(r: u8, g: u8, b: u8, mx: u8, mn: u8) -> (x: Bin32)
    requires
        mx == max3(r, g, b),
        mn == min3(r, g, b),
    ensures
        x == hue_b32(r, g, b),
        b32_wf(x),
{
    let rf = unit(r);
    let gf = unit(g);
    let bf = unit(b);
    let delta = sum(unit(mx), negate(unit(mn)));
    let h = if r >= g && r >= b {
        quotient(quotient(sum(gf, negate(bf)), delta), from_int(6))
    } else if g >= b {
        quotient(sum(quotient(sum(bf, negate(rf)), delta), from_int(2)), from_int(6))
    } else {
        quotient(sum(quotient(sum(rf, negate(gf)), delta), from_int(4)), from_int(6))
    };
    let h1 = if is_negative(h) {
        sum(h, from_int(1))
    } else {
        h
    };
    product(h1, from_int(255))
}

fn max_channel(r: u8, g: u8, b: u8) -> (m: u8)
    ensures
        m == max3(r, g, b),
{
    if r >= g && r >= b {
        r
    } else if g >= b {
        g
    } else {
        b
    }
}

fn min_channel(r: u8, g: u8, b: u8) -> (m: u8)
    ensures
        m == min3(r, g, b),
{
    if r <= g && r <= b {
        r
    } else if g <= b {
        g
    } else {
        b
    }
}

fn saturation(r: u8, g: u8, b: u8, mx: u8, mn: u8) -> (s: u8)
    requires
        mx == max3(r, g, b),
        mn == min3(r, g, b),
    ensures
        s == hsb(r, g, b).1,
{
    if mx == 0 {
        0
    } else {
        let num: u32 = 255 * (mx - mn) as u32;
        let den: u32 = mx as u32;
        proof {
            lemma_round_half(
                num as int,
                den as int,
                rounds_past(sat_b32(r, g, b), num as int / den as int),
            );
        }
        let lo = num / den;
        let rem = num % den;
        let v = if 2 * rem > den {
            lo + 1
        } else if 2 * rem < den {
            lo
        } else if check_rounds_past(sat_b32_exec(r, g, b, mx, mn), lo as u16) {
            lo + 1
        } else {
            lo
        };
        v as u8
    }
}

fn hue(r: u8, g: u8, b: u8, mx: u8, mn: u8) -> (h: u8)
    requires
        mx == max3(r, g, b),
        mn == min3(r, g, b),
    ensures
        h == hsb(r, g, b).0,
{
    if mx == mn {
        0
    } else {
        let d: u32 = (mx - mn) as u32;
        assert(mn <= r && mn <= g && mn <= b && r <= mx && g <= mx && b <= mx);
        assert(d <= 255);
        let num: u32 = if r >= g && r >= b {
            if g >= b {
                255 * (g - b) as u32
            } else {
                1530 * d - 255 * (b - g) as u32
            }
        } else if g >= b {
            255 * ((b as u32 + 2 * d) - r as u32)
        } else {
            255 * ((r as u32 + 4 * d) - g as u32)
        };
        let den: u32 = 6 * d;
        assert(num == hue_num(r, g, b));
        proof {
            lemma_hue_num_bounds(r, g, b);
            lemma_round_half(
                num as int,
                den as int,
                rounds_past(hue_b32(r, g, b), num as int / den as int),
            );
        }
        let lo = num / den;
        let rem = num % den;
        let v = if 2 * rem > den {
            lo + 1
        } else if 2 * rem < den {
            lo
        } else if check_rounds_past(hue_b32_exec(r, g, b, mx, mn), lo as u16) {
            lo + 1
        } else {
            lo
        };
        v as u8
    }
}

/// Converts a colour to hue, saturation and brightness, each on a 0..=255 scale
/// (see [`hsb`]).
pub fn rgb_to_hsb(r: u8, g: u8, b: u8) -> (res: (u8, u8, u8))
    ensures
        res.0 == hsb(r, g, b).0,
        res.1 == hsb(r, g, b).1,
        res.2 == hsb(r, g, b).2,
        res.2 == max3(r, g, b),
        max3(r, g, b) == 0 ==> res.1 == 0,
        max3(r, g, b) > 0 ==> nearest(sat_num(r, g, b), max3(r, g, b), res.1 as int),
        max3(r, g, b) == min3(r, g, b) ==> res.0 == 0,
        max3(r, g, b) > min3(r, g, b) ==> nearest(
            hue_num(r, g, b),
            6 * (max3(r, g, b) - min3(r, g, b)),
            res.0 as int,
        ),
{
    let mx = max_channel(r, g, b);
    let mn = min_channel(r, g, b);
    proof {
        let m = max3(r, g, b);
        if m > 0 {
            lemma_round_half(sat_num(r, g, b), m, rounds_past(sat_b32(r, g, b), sat_num(r, g, b) / m));
        }
        if m > min3(r, g, b) {
            lemma_hue_num_bounds(r, g, b);
            let d6 = 6 * (m - min3(r, g, b));
            lemma_round_half(hue_num(r, g, b), d6, rounds_past(hue_b32(r, g, b), hue_num(r, g, b) / d6));
        }
    }
    (hue(r, g, b, mx, mn), saturation(r, g, b, mx, mn), mx)
}

// ---------------------------------------------------------------------------
// Colour filters
// ---------------------------------------------------------------------------
/// A named colour class given by ranges of hue, saturation and brightness
/// (0..=255 scales, bounds included).  A hue range with `lo > hi` wraps
/// around through 255/0; `None` accepts every hue.
#[derive(Clone, Copy, Debug)]
pub struct ColorFilter {
    pub label: &'static str,
    /// Display colour (RGB).
    pub swatch: [u8; 3],
    pub hue: Option<(u8, u8)>,
    pub sat: (u8, u8),
    pub bri: (u8, u8),
}

/// `h` lies in the hue range `lo..=hi`, which wraps around when `lo > hi`.
pub open spec fn hue_in(h: int, lo: int, hi: int) -> bool {
    if lo <= hi {
        lo <= h && h <= hi
    } else {
        h >= lo || h <= hi
    }
}

/// The colour `(r, g, b)` falls in the class `f`.
pub open spec fn filter_accepts(f: ColorFilter, r: u8, g: u8, b: u8) -> bool {
    let (h, s, v) = hsb(r, g, b);
    &&& f.sat.0 <= s <= f.sat.1
    &&& f.bri.0 <= v <= f.bri.1
    &&& match f.hue {
        None => true,
        Some(range) => hue_in(h, range.0 as int, range.1 as int),
    }
}

/// The colour `(r, g, b)` lies in the HSB box given by the bounds.
pub open spec fn imagej_accepts(
    r: u8,
    g: u8,
    b: u8,
    h_min: u8,
    h_max: u8,
    s_min: u8,
    s_max: u8,
    bri_min: u8,
    bri_max: u8,
) -> bool {
    let (h, s, v) = hsb(r, g, b);
    &&& s_min <= s <= s_max
    &&& bri_min <= v <= bri_max
    &&& hue_in(h, h_min as int, h_max as int)
}

/// The largest of the three channels, which is the HSB brightness.
pub open spec fn brightest(r: u8, g: u8, b: u8) -> int {
    if r >= g && r >= b {
        r as int
    } else if g >= b {
        g as int
    } else {
        b as int
    }
}

/// Hue `h` is in the circular range from `lo` to `hi`: between them when
/// `lo <= hi`, otherwise at least `lo` or at most `hi` (the range wraps past
/// the top of the hue circle).
pub open spec fn in_hue_arc(h: int, lo: int, hi: int) -> bool {
    (lo <= hi && lo <= h && h <= hi) || (lo > hi && (h >= lo || h <= hi))
}

/// A named filter is a box in HSB space, every bound included: a colour is
/// accepted exactly when its saturation lies in `sat`, its brightness (the
/// largest channel) in `bri`, and its hue in the hue range when there is
/// one; a colour outside any one of these bounds is rejected.
pub proof fn lemma_filter_is_a_box(f: ColorFilter, r: u8, g: u8, b: u8)
    ensures
        hsb(r, g, b).1 > f.sat.1 ==> !filter_accepts(f, r, g, b),
        hsb(r, g, b).1 < f.sat.0 ==> !filter_accepts(f, r, g, b),
        brightest(r, g, b) > f.bri.1 ==> !filter_accepts(f, r, g, b),
        brightest(r, g, b) < f.bri.0 ==> !filter_accepts(f, r, g, b),
        f.hue matches Some(range) && !in_hue_arc(hsb(r, g, b).0, range.0 as int, range.1 as int)
            ==> !filter_accepts(f, r, g, b),
        filter_accepts(f, r, g, b) <== {
            &&& f.sat.0 <= hsb(r, g, b).1 <= f.sat.1
            &&& f.bri.0 <= brightest(r, g, b) <= f.bri.1
            &&& f.hue matches Some(range) ==> in_hue_arc(hsb(r, g, b).0, range.0 as int, range.1 as int)
        },
{
}

/// The ImageJ threshold is a box in HSB space, every bound included: a
/// colour is accepted exactly when its hue lies in the circular range
/// `h_min` to `h_max`, its saturation in `s_min..=s_max` and its brightness
/// (the largest channel) in `bri_min..=bri_max`.
pub proof fn lemma_imagej_is_a_box(
    r: u8,
    g: u8,
    b: u8,
    h_min: u8,
    h_max: u8,
    s_min: u8,
    s_max: u8,
    bri_min: u8,
    bri_max: u8,
)
    ensures
        imagej_accepts(r, g, b, h_min, h_max, s_min, s_max, bri_min, bri_max) <==> {
            &&& in_hue_arc(hsb(r, g, b).0, h_min as int, h_max as int)
            &&& s_min <= hsb(r, g, b).1 <= s_max
            &&& bri_min <= brightest(r, g, b) <= bri_max
        },
{
}

/// A named filter with a hue range accepts the same colours as the ImageJ
/// threshold with the same bounds; one without a hue range accepts the same
/// colours as the threshold over the whole hue circle.
pub proof fn lemma_filter_as_threshold(f: ColorFilter, r: u8, g: u8, b: u8)
    ensures
        filter_accepts(f, r, g, b) == match f.hue {
            Some(range) => imagej_accepts(r, g, b, range.0, range.1, f.sat.0, f.sat.1, f.bri.0, f.bri.1),
            None => imagej_accepts(r, g, b, 0, 255, f.sat.0, f.sat.1, f.bri.0, f.bri.1),
        },
{
    lemma_hsb_in_range(r, g, b);
}

/// Whether the colour falls in the class `filter`.
pub fn pixel_matches_filter(r: u8, g: u8, b: u8, filter: &ColorFilter) -> (res: bool)
    ensures
        res == filter_accepts(*filter, r, g, b),
{
    let (h, s, bri) = rgb_to_hsb(r, g, b);
    if s < filter.sat.0 || s > filter.sat.1 {
        return false;
    }
    if bri < filter.bri.0 || bri > filter.bri.1 {
        return false;
    }
    match filter.hue {
        None => true,
        Some((lo, hi)) => {
            if lo <= hi {
                h >= lo && h <= hi
            } else {
                h >= lo || h <= hi
            }
        },
    }
}

/// Whether the colour lies in the HSB box given by the six bounds (hue wraps
/// around when `h_min > h_max`).
pub fn pixel_matches_imagej(
    r: u8,
    g: u8,
    b: u8,
    h_min: u8,
    h_max: u8,
    s_min: u8,
    s_max: u8,
    bri_min: u8,
    bri_max: u8,
) -> (res: bool)
    ensures
        res == imagej_accepts(r, g, b, h_min, h_max, s_min, s_max, bri_min, bri_max),
{
    let (h, s, bri) = rgb_to_hsb(r, g, b);
    if s < s_min || s > s_max {
        return false;
    }
    if bri < bri_min || bri > bri_max {
        return false;
    }
    if h_min <= h_max {
        h >= h_min && h <= h_max
    } else {
        h >= h_min || h <= h_max
    }
}


/// The named colour classes, in display order.  Hue: red near 0, yellow near
/// 43, green near 85, cyan near 128, blue near 171, magenta near 213.
pub open spec fn standard_filters() -> Seq<ColorFilter> {
    seq![
        ColorFilter {
            label: "Red",
            swatch: [220, 50, 50],
            hue: Some((0, 15)),
            sat: (100, 255),
            bri: (50, 255),
        },
        ColorFilter {
            label: "Orange",
            swatch: [230, 130, 30],
            hue: Some((11, 30)),
            sat: (100, 255),
            bri: (50, 255),
        },
        ColorFilter {
            label: "Yellow",
            swatch: [230, 210, 30],
            hue: Some((28, 52)),
            sat: (100, 255),
            bri: (50, 255),
        },
        ColorFilter {
            label: "Green",
            swatch: [40, 190, 60],
            hue: Some((49, 115)),
            sat: (50, 255),
            bri: (30, 255),
        },
        ColorFilter {
            label: "Cyan",
            swatch: [30, 200, 210],
            hue: Some((113, 142)),
            sat: (50, 255),
            bri: (30, 255),
        },
        ColorFilter {
            label: "Blue",
            swatch: [50, 90, 220],
            hue: Some((138, 185)),
            sat: (50, 255),
            bri: (30, 255),
        },
        ColorFilter {
            label: "Purple",
            swatch: [140, 50, 210],
            hue: Some((183, 213)),
            sat: (50, 255),
            bri: (30, 255),
        },
        ColorFilter {
            label: "Pink",
            swatch: [220, 80, 160],
            hue: Some((213, 245)),
            sat: (50, 255),
            bri: (50, 255),
        },
        ColorFilter {
            label: "White",
            swatch: [240, 240, 240],
            hue: None,
            sat: (0, 50),
            bri: (200, 255),
        },
        ColorFilter {
            label: "Gray",
            swatch: [140, 140, 140],
            hue: None,
            sat: (0, 50),
            bri: (80, 200),
        },
        ColorFilter {
            label: "Black",
            swatch: [30, 30, 30],
            hue: None,
            sat: (0, 255),
            bri: (0, 50),
        },
    ]
}

/// The named colour classes (see [`standard_filters`]).
pub fn all_color_filters() -> (v: Vec<ColorFilter>)
    ensures
        v@ == standard_filters(),
{
    let v = vec![
        ColorFilter {
            label: "Red",
            swatch: [220, 50, 50],
            hue: Some((0, 15)),
            sat: (100, 255),
            bri: (50, 255),
        },
        ColorFilter {
            label: "Orange",
            swatch: [230, 130, 30],
            hue: Some((11, 30)),
            sat: (100, 255),
            bri: (50, 255),
        },
        ColorFilter {
            label: "Yellow",
            swatch: [230, 210, 30],
            hue: Some((28, 52)),
            sat: (100, 255),
            bri: (50, 255),
        },
        ColorFilter {
            label: "Green",
            swatch: [40, 190, 60],
            hue: Some((49, 115)),
            sat: (50, 255),
            bri: (30, 255),
        },
        ColorFilter {
            label: "Cyan",
            swatch: [30, 200, 210],
            hue: Some((113, 142)),
            sat: (50, 255),
            bri: (30, 255),
        },
        ColorFilter {
            label: "Blue",
            swatch: [50, 90, 220],
            hue: Some((138, 185)),
            sat: (50, 255),
            bri: (30, 255),
        },
        ColorFilter {
            label: "Purple",
            swatch: [140, 50, 210],
            hue: Some((183, 213)),
            sat: (50, 255),
            bri: (30, 255),
        },
        ColorFilter {
            label: "Pink",
            swatch: [220, 80, 160],
            hue: Some((213, 245)),
            sat: (50, 255),
            bri: (50, 255),
        },
        ColorFilter {
            label: "White",
            swatch: [240, 240, 240],
            hue: None,
            sat: (0, 50),
            bri: (200, 255),
        },
        ColorFilter {
            label: "Gray",
            swatch: [140, 140, 140],
            hue: None,
            sat: (0, 50),
            bri: (80, 200),
        },
        ColorFilter {
            label: "Black",
            swatch: [30, 30, 30],
            hue: None,
            sat: (0, 255),
            bri: (0, 50),
        },
    ];
    assert(v@ =~= standard_filters());
    v
}


// ---------------------------------------------------------------------------
// Whole-image filtering
// ---------------------------------------------------------------------------
/// Number of the first `k` pixels that satisfy `pred`.
pub open spec fn count_where(pix: Seq<[u8; 3]>, pred: spec_fn([u8; 3]) -> bool, k: int) -> int
    decreases k,
{
    if k <= 0 {
        0
    } else {
        count_where(pix, pred, k - 1) + if pred(pix[k - 1]) {
            1int
        } else {
            0int
        }
    }
}

proof fn lemma_count_where_bound(pix: Seq<[u8; 3]>, pred: spec_fn([u8; 3]) -> bool, k: int)
    requires
        k >= 0,
    ensures
        0 <= count_where(pix, pred, k) <= k,
    decreases k,
{
    if k > 0 {
        lemma_count_where_bound(pix, pred, k - 1);
    }
}

pub open spec fn accepts_pred(f: ColorFilter) -> spec_fn([u8; 3]) -> bool {
    |c: [u8; 3]| filter_accepts(f, c[0], c[1], c[2])
}

pub open spec fn imagej_pred(
    h_min: u8,
    h_max: u8,
    s_min: u8,
    s_max: u8,
    bri_min: u8,
    bri_max: u8,
) -> spec_fn([u8; 3]) -> bool {
    |c: [u8; 3]| imagej_accepts(c[0], c[1], c[2], h_min, h_max, s_min, s_max, bri_min, bri_max)
}

/// Some filter of `fs` accepts colour `c`.
pub open spec fn any_accepts(fs: Seq<&ColorFilter>, c: [u8; 3]) -> bool {
    exists|i: int| 0 <= i < fs.len() && #[trigger] filter_accepts(*fs[i], c[0], c[1], c[2])
}

/// A pixel shown as itself when `shown`, black otherwise (opaque).
pub open spec fn masked(c: [u8; 3], shown: bool) -> [u8; 4] {
    if shown {
        [c[0], c[1], c[2], 255]
    } else {
        [0, 0, 0, 255]
    }
}

fn any_filter_matches(c: [u8; 3], filters: &[&ColorFilter]) -> (res: bool)
    ensures
        res == any_accepts(filters@, c),
{
    let mut i: usize = 0;
    while i < filters.len()
        invariant
            i <= filters.len(),
            forall|j: int| 0 <= j < i ==> !#[trigger] filter_accepts(*filters@[j], c[0], c[1], c[2]),
        decreases filters.len() - i,
    {
        if pixel_matches_filter(c[0], c[1], c[2], filters[i]) {
            return true;
        }
        i = i + 1;
    }
    false
}

/// The image with every pixel that no filter of `filters` accepts blacked out.
pub fn build_color_filter_texture(img: &RgbImage, filters: &[&ColorFilter]) -> (t: Texture)
    ensures
        t.width == img.w(),
        t.height == img.h(),
        t.pixels@.len() == img.pix().len(),
        forall|p: int|
            0 <= p < t.pixels@.len() ==> #[trigger] t.pixels@[p] == masked(
                img.pix()[p],
                any_accepts(filters@, img.pix()[p]),
            ),
{
    let pix = img.pixels();
    let mut out: Vec<[u8; 4]> = Vec::new();
    for p in 0..pix.len()
        invariant
            pix@ == img.pix(),
            out@.len() == p,
            forall|q: int|
                0 <= q < p ==> #[trigger] out@[q] == masked(
                    pix@[q],
                    any_accepts(filters@, pix@[q]),
                ),
    {
        let c = pix[p];
        if any_filter_matches(c, filters) {
            out.push([c[0], c[1], c[2], 255]);
        } else {
            out.push([0, 0, 0, 255]);
        }
    }
    Texture { width: img.width() as usize, height: img.height() as usize, pixels: out }
}

/// The image with every pixel outside the HSB box blacked out.
pub fn build_imagej_filter_texture(
    img: &RgbImage,
    h_min: u8,
    h_max: u8,
    s_min: u8,
    s_max: u8,
    bri_min: u8,
    bri_max: u8,
) -> (t: Texture)
    ensures
        t.width == img.w(),
        t.height == img.h(),
        t.pixels@.len() == img.pix().len(),
        forall|p: int|
            0 <= p < t.pixels@.len() ==> #[trigger] t.pixels@[p] == masked(
                img.pix()[p],
                imagej_accepts(
                    img.pix()[p][0],
                    img.pix()[p][1],
                    img.pix()[p][2],
                    h_min,
                    h_max,
                    s_min,
                    s_max,
                    bri_min,
                    bri_max,
                ),
            ),
{
    let pix = img.pixels();
    let mut out: Vec<[u8; 4]> = Vec::new();
    for p in 0..pix.len()
        invariant
            pix@ == img.pix(),
            out@.len() == p,
            forall|q: int|
                0 <= q < p ==> #[trigger] out@[q] == masked(
                    pix@[q],
                    imagej_accepts(
                        pix@[q][0],
                        pix@[q][1],
                        pix@[q][2],
                        h_min,
                        h_max,
                        s_min,
                        s_max,
                        bri_min,
                        bri_max,
                    ),
                ),
    {
        let c = pix[p];
        if pixel_matches_imagej(c[0], c[1], c[2], h_min, h_max, s_min, s_max, bri_min, bri_max) {
            out.push([c[0], c[1], c[2], 255]);
        } else {
            out.push([0, 0, 0, 255]);
        }
    }
    Texture { width: img.width() as usize, height: img.height() as usize, pixels: out }
}

/// Number of pixels of `img` that the class `filter` accepts.
pub fn filter_pixel_count(img: &RgbImage, filter: &ColorFilter) -> (n: usize)
    ensures
        n == count_where(img.pix(), accepts_pred(*filter), img.pix().len() as int),
{
    let pix = img.pixels();
    let mut n: usize = 0;
    for p in 0..pix.len()
        invariant
            pix@ == img.pix(),
            n == count_where(pix@, accepts_pred(*filter), p as int),
    {
        proof {
            lemma_count_where_bound(pix@, accepts_pred(*filter), p as int);
        }
        let c = pix[p];
        if pixel_matches_filter(c[0], c[1], c[2], filter) {
            n = n + 1;
        }
    }
    n
}

/// Number of pixels of `img` inside the HSB box.
pub fn imagej_pixel_count(
    img: &RgbImage,
    h_min: u8,
    h_max: u8,
    s_min: u8,
    s_max: u8,
    bri_min: u8,
    bri_max: u8,
) -> (n: usize)
    ensures
        n == count_where(
            img.pix(),
            imagej_pred(h_min, h_max, s_min, s_max, bri_min, bri_max),
            img.pix().len() as int,
        ),
{
    let pix = img.pixels();
    let mut n: usize = 0;
    let ghost pred = imagej_pred(h_min, h_max, s_min, s_max, bri_min, bri_max);
    for p in 0..pix.len()
        invariant
            pix@ == img.pix(),
            pred == imagej_pred(h_min, h_max, s_min, s_max, bri_min, bri_max),
            n == count_where(pix@, pred, p as int),
    {
        proof {
            lemma_count_where_bound(pix@, pred, p as int);
        }
        let c = pix[p];
        if pixel_matches_imagej(c[0], c[1], c[2], h_min, h_max, s_min, s_max, bri_min, bri_max) {
            n = n + 1;
        }
    }
    n
}


// ---------------------------------------------------------------------------
// Prominent colour classes
// ---------------------------------------------------------------------------
/// Index of the first filter of `fs`, from position `i` on, that accepts `c`;
/// `fs.len()` when there is none.
pub open spec fn first_match(fs: Seq<ColorFilter>, c: [u8; 3], i: int) -> int
    decreases fs.len() - i,
{
    if i < 0 || i >= fs.len() {
        fs.len() as int
    } else if filter_accepts(fs[i], c[0], c[1], c[2]) {
        i
    } else {
        first_match(fs, c, i + 1)
    }
}

pub open spec fn first_is(fs: Seq<ColorFilter>, i: int) -> spec_fn([u8; 3]) -> bool {
    |c: [u8; 3]| first_match(fs, c, 0) == i
}

/// Some filter of `fs` accepts the colour.
pub open spec fn matched_by(fs: Seq<ColorFilter>) -> spec_fn([u8; 3]) -> bool {
    |c: [u8; 3]| first_match(fs, c, 0) < fs.len()
}

/// Sum of the entries of `s`.
pub open spec fn seq_sum(s: Seq<usize>) -> int
    decreases s.len(),
{
    if s.len() == 0 {
        0
    } else {
        seq_sum(s.drop_last()) + s.last()
    }
}

proof fn lemma_seq_sum_update(s: Seq<usize>, i: int, v: usize)
    requires
        0 <= i < s.len(),
    ensures
        seq_sum(s.update(i, v)) == seq_sum(s) - s[i] + v,
    decreases s.len(),
{
    if i < s.len() - 1 {
        assert(s.update(i, v).drop_last() =~= s.drop_last().update(i, v));
        lemma_seq_sum_update(s.drop_last(), i, v);
    } else {
        assert(s.update(i, v).drop_last() =~= s.drop_last());
    }
}

proof fn lemma_seq_sum_zeros(s: Seq<usize>)
    requires
        forall|i: int| 0 <= i < s.len() ==> #[trigger] s[i] == 0,
    ensures
        seq_sum(s) == 0,
    decreases s.len(),
{
    if s.len() > 0 {
        lemma_seq_sum_zeros(s.drop_last());
    }
}

proof fn lemma_first_match_range(fs: Seq<ColorFilter>, c: [u8; 3], i: int)
    requires
        0 <= i,
    ensures
        i <= first_match(fs, c, i) <= fs.len() || first_match(fs, c, i) == fs.len(),
        0 <= first_match(fs, c, i) <= fs.len(),
    decreases fs.len() - i,
{
    if i < fs.len() && !filter_accepts(fs[i], c[0], c[1], c[2]) {
        lemma_first_match_range(fs, c, i + 1);
    }
}

fn first_matching_filter(c: [u8; 3], filters: &[ColorFilter]) -> (i: usize)
    ensures
        i == first_match(filters@, c, 0),
{
    proof {
        lemma_first_match_range(filters@, c, 0);
    }
    let mut i: usize = 0;
    while i < filters.len()
        invariant
            i <= filters.len(),
            first_match(filters@, c, i as int) == first_match(filters@, c, 0),
        decreases filters.len() - i,
    {
        if pixel_matches_filter(c[0], c[1], c[2], &filters[i]) {
            return i;
        }
        i = i + 1;
    }
    i
}

/// For every filter, the number of pixels for which it is the first filter
/// (in list order) that accepts them.  Each pixel counts at most once: the
/// counts add up to the number of pixels some filter accepts.
pub fn first_match_counts(img: &RgbImage, filters: &[ColorFilter]) -> (counts: Vec<usize>)
    ensures
        counts@.len() == filters@.len(),
        seq_sum(counts@) == count_where(img.pix(), matched_by(filters@), img.pix().len() as int),
        forall|i: int|
            0 <= i < counts@.len() ==> #[trigger] counts@[i] == count_where(
                img.pix(),
                first_is(filters@, i),
                img.pix().len() as int,
            ),
{
    let pix = img.pixels();
    let mut counts: Vec<usize> = Vec::new();
    while counts.len() < filters.len()
        invariant
            counts@.len() <= filters@.len(),
            forall|i: int| 0 <= i < counts@.len() ==> #[trigger] counts@[i] == 0,
        decreases filters.len() - counts.len(),
    {
        counts.push(0);
    }
    proof {
        lemma_seq_sum_zeros(counts@);
    }
    for p in 0..pix.len()
        invariant
            pix@ == img.pix(),
            counts@.len() == filters@.len(),
            seq_sum(counts@) == count_where(pix@, matched_by(filters@), p as int),
            forall|i: int|
                0 <= i < counts@.len() ==> #[trigger] counts@[i] == count_where(
                    pix@,
                    first_is(filters@, i),
                    p as int,
                ),
    {
        let c = pix[p];
        let f = first_matching_filter(c, filters);
        if f < counts.len() {
            proof {
                lemma_count_where_bound(pix@, first_is(filters@, f as int), p as int);
                lemma_seq_sum_update(counts@, f as int, (counts@[f as int] + 1) as usize);
            }
            counts.set(f, counts[f] + 1);
        }
        assert(matched_by(filters@)(pix@[p as int]) == (f < filters@.len()));
        assert forall|i: int| 0 <= i < counts@.len() implies #[trigger] counts@[i] == count_where(
            pix@,
            first_is(filters@, i),
            p + 1,
        ) by {
            assert(first_is(filters@, i)(pix@[p as int]) == (f == i));
        }
    }
    counts
}

/// `a` comes before `b` in the ranking: larger count first, then smaller index.
pub open spec fn ranks_before(counts: Seq<usize>, a: int, b: int) -> bool {
    counts[a] > counts[b] || (counts[a] == counts[b] && a < b)
}

/// `order` lists exactly the indices `i` with `keep[i]`, each once, by
/// decreasing count, equal counts in increasing index order.
pub open spec fn is_ranking(counts: Seq<usize>, keep: Seq<bool>, order: Seq<usize>) -> bool {
    &&& forall|j: int| 0 <= j < order.len() ==> #[trigger] order[j] < keep.len() && keep[order[j] as int]
    &&& forall|i: int| 0 <= i < keep.len() && #[trigger] keep[i] ==> order.contains(i as usize)
    &&& forall|j: int, k: int|
        0 <= j < k < order.len() ==> ranks_before(counts, order[j] as int, order[k] as int)
}

/// The indices `i` with `keep[i]`, ordered by decreasing `counts[i]`; equal
/// counts keep their index order.
pub fn rank_by_count(counts: &[usize], keep: &[bool]) -> (order: Vec<usize>)
    requires
        counts@.len() == keep@.len(),
    ensures
        is_ranking(counts@, keep@, order@),
{
    let mut order: Vec<usize> = Vec::new();
    for i in 0..keep.len()
        invariant
            counts@.len() == keep@.len(),
            forall|j: int| 0 <= j < order@.len() ==> #[trigger] order@[j] < i && keep@[order@[j] as int],
            forall|m: int| 0 <= m < i && #[trigger] keep@[m] ==> order@.contains(m as usize),
            forall|j: int, k: int|
                0 <= j < k < order@.len() ==> ranks_before(counts@, order@[j] as int, order@[k] as int),
    {
        if keep[i] {
            let c = counts[i];
            let mut pos: usize = 0;
            while pos < order.len() && counts[order[pos]] >= c
                invariant
                    pos <= order@.len(),
                    i < keep@.len(),
                    counts@.len() == keep@.len(),
                    c == counts@[i as int],
                    forall|j: int| 0 <= j < order@.len() ==> #[trigger] order@[j] < i,
                    forall|j: int| 0 <= j < pos ==> counts@[#[trigger] order@[j] as int] >= c,
                decreases order@.len() - pos,
            {
                pos = pos + 1;
            }
            let ghost before = order@;
            order.insert(pos, i);
            proof {
                assert(order@ == before.insert(pos as int, i));
                assert forall|j: int, k: int|
                    0 <= j < k < order@.len() implies ranks_before(
                    counts@,
                    order@[j] as int,
                    order@[k] as int,
                ) by {
                    if k < pos {
                        assert(ranks_before(counts@, before[j] as int, before[k] as int));
                    } else if k == pos {
                        assert(counts@[before[j] as int] >= c);
                    } else if j < pos {
                        if j + 1 <= k - 1 {
                            assert(ranks_before(counts@, before[j] as int, before[k - 1] as int));
                        }
                    } else if j == pos {
                        // the element now at k was after the insertion point
                        if pos < before.len() {
                            assert(!(counts@[before[pos as int] as int] >= c));
                            if (k - 1) > (pos as int) {
                                assert(ranks_before(counts@, before[pos as int] as int, before[k - 1] as int));
                            }
                        }
                    } else {
                        assert(ranks_before(counts@, before[j - 1] as int, before[k - 1] as int));
                    }
                }
                assert forall|m: int| 0 <= m < i + 1 && #[trigger] keep@[m] implies order@.contains(
                    m as usize,
                ) by {
                    if m < i {
                        assert(before.contains(m as usize));
                        let j = choose|j: int| 0 <= j < before.len() && before[j] == m as usize;
                        if j < pos {
                            assert(order@[j] == m as usize);
                        } else {
                            assert(order@[j + 1] == m as usize);
                        }
                    } else {
                        assert(order@[pos as int] == i);
                    }
                }
            }
        }
    }
    order
}

} // verus!
