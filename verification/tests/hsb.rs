use image_segmenter::color::{pixel_matches_imagej, rgb_to_hsb};
use image_segmenter::imaging::edge_magnitude;

/// The single-precision formula the HSB conversion is defined by.
fn hsb_f32(r: u8, g: u8, b: u8) -> (u8, u8, u8) {
    let rf = r as f32 / 255.0;
    let gf = g as f32 / 255.0;
    let bf = b as f32 / 255.0;
    let cmax = rf.max(gf).max(bf);
    let cmin = rf.min(gf).min(bf);
    let delta = cmax - cmin;
    let brightness = cmax;
    let saturation = if cmax == 0.0 { 0.0 } else { delta / cmax };
    let hue_norm = if delta == 0.0 {
        0.0
    } else if cmax == rf {
        (((gf - bf) / delta) % 6.0) / 6.0
    } else if cmax == gf {
        (((bf - rf) / delta) + 2.0) / 6.0
    } else {
        (((rf - gf) / delta) + 4.0) / 6.0
    };
    let hue_norm = if hue_norm < 0.0 { hue_norm + 1.0 } else { hue_norm };
    (
        (hue_norm * 255.0).round() as u8,
        (saturation * 255.0).round() as u8,
        (brightness * 255.0).round() as u8,
    )
}

fn check_red_range(lo: u32, hi: u32) {
    for r in lo..hi {
        for g in 0..256u32 {
            for b in 0..256u32 {
                let (r, g, b) = (r as u8, g as u8, b as u8);
                assert_eq!(rgb_to_hsb(r, g, b), hsb_f32(r, g, b), "colour ({r}, {g}, {b})");
            }
        }
    }
}

#[test]
fn hsb_matches_single_precision_red_0_31() {
    check_red_range(0, 32);
}

#[test]
fn hsb_matches_single_precision_red_32_63() {
    check_red_range(32, 64);
}

#[test]
fn hsb_matches_single_precision_red_64_95() {
    check_red_range(64, 96);
}

#[test]
fn hsb_matches_single_precision_red_96_127() {
    check_red_range(96, 128);
}

#[test]
fn hsb_matches_single_precision_red_128_159() {
    check_red_range(128, 160);
}

#[test]
fn hsb_matches_single_precision_red_160_191() {
    check_red_range(160, 192);
}

#[test]
fn hsb_matches_single_precision_red_192_223() {
    check_red_range(192, 224);
}

#[test]
fn hsb_matches_single_precision_red_224_255() {
    check_red_range(224, 256);
}

#[test]
fn hsb_of_primaries() {
    assert_eq!(rgb_to_hsb(255, 0, 0), (0, 255, 255));
    assert_eq!(rgb_to_hsb(0, 255, 0), (85, 255, 255));
    assert_eq!(rgb_to_hsb(0, 0, 255), (170, 255, 255));
    assert_eq!(rgb_to_hsb(255, 255, 0), (43, 255, 255));
    assert_eq!(rgb_to_hsb(0, 255, 255), (128, 255, 255));
    assert_eq!(rgb_to_hsb(255, 0, 255), (213, 255, 255));
    assert_eq!(rgb_to_hsb(255, 128, 0), (21, 255, 255));
    assert_eq!(rgb_to_hsb(128, 0, 255), (191, 255, 255));
    assert_eq!(rgb_to_hsb(0, 0, 0), (0, 0, 0));
    assert_eq!(rgb_to_hsb(128, 128, 128), (0, 0, 128));
}

#[test]
fn hsb_exact_half_follows_single_precision() {
    // 255 * 3 / 5 / 6 * 255 ... the hue of (0, 5, 3) is exactly 110.5
    assert_eq!(rgb_to_hsb(0, 5, 3), (110, 255, 5));
    // saturation 255 * 1 / 2 = 127.5 rounds up here
    assert_eq!(rgb_to_hsb(2, 1, 1).1, 128);
}

#[test]
fn imagej_full_box_accepts_everything() {
    for c in [(0u8, 0u8, 0u8), (255, 255, 255), (12, 200, 99), (255, 0, 128)] {
        assert!(pixel_matches_imagej(c.0, c.1, c.2, 0, 255, 0, 255, 0, 255));
    }
}

#[test]
fn imagej_hue_range_wraps() {
    // pure red has hue 0: inside a wrapping range 240..=10, outside 20..=30
    assert!(pixel_matches_imagej(255, 0, 0, 240, 10, 0, 255, 0, 255));
    assert!(!pixel_matches_imagej(255, 0, 0, 20, 30, 0, 255, 0, 255));
    // saturation bound rejects grey
    assert!(!pixel_matches_imagej(100, 100, 100, 0, 255, 1, 255, 0, 255));
    // brightness bound
    assert!(!pixel_matches_imagej(10, 10, 10, 0, 255, 0, 255, 11, 255));
}

#[test]
fn edge_magnitude_matches_single_precision() {
    for gx in -1020i32..=1020 {
        for gy in (-1020i32..=1020).step_by(7) {
            let want = ((gx * gx + gy * gy) as f32).sqrt().min(255.0) as u8;
            assert_eq!(edge_magnitude(gx, gy), want, "gradient ({gx}, {gy})");
        }
    }
}

#[test]
fn edge_magnitude_values() {
    assert_eq!(edge_magnitude(0, 0), 0);
    assert_eq!(edge_magnitude(3, 4), 5);
    assert_eq!(edge_magnitude(-3, 4), 5);
    assert_eq!(edge_magnitude(10, 10), 14);
    assert_eq!(edge_magnitude(1020, 0), 255);
    assert_eq!(edge_magnitude(180, 180), 254);
}
