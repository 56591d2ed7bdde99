use image_segmenter::raster::RgbImage;
use image_segmenter::segment::{color_dist, segment};

fn image(w: u32, h: u32, pixels: Vec<[u8; 3]>) -> RgbImage {
    RgbImage::from_raw(w, h, pixels).expect("pixel count matches the size")
}

#[test]
fn color_dist_sums_channel_differences() {
    assert_eq!(color_dist([0, 0, 0], [0, 0, 0]), 0);
    assert_eq!(color_dist([10, 200, 30], [20, 180, 30]), 30);
    assert_eq!(color_dist([0, 0, 0], [255, 255, 255]), 765);
    assert_eq!(color_dist([255, 0, 9], [0, 255, 0]), 519);
}

#[test]
fn from_raw_checks_the_pixel_count() {
    assert!(RgbImage::from_raw(2, 2, vec![[0, 0, 0]; 3]).is_none());
    let img = RgbImage::from_raw(3, 2, vec![[1, 2, 3]; 6]).unwrap();
    assert_eq!(img.width(), 3);
    assert_eq!(img.height(), 2);
    assert_eq!(img.pixels().len(), 6);
}

#[test]
fn two_halves_give_two_regions() {
    let r = [200, 10, 10];
    let b = [10, 10, 200];
    let img = image(4, 2, vec![r, r, b, b, r, r, b, b]);
    let (labels, regions) = segment(&img, 30, 0);
    assert_eq!(labels, vec![0, 0, 1, 1, 0, 0, 1, 1]);
    assert_eq!(regions.len(), 2);
    assert_eq!(regions[0].index, 1);
    assert_eq!(regions[0].pixel_count, 4);
    assert_eq!(regions[0].avg_color, [200, 10, 10]);
    assert_eq!(regions[0].x_sum, 0 + 1 + 0 + 1);
    assert_eq!(regions[0].y_sum, 0 + 0 + 1 + 1);
    assert_eq!(regions[1].index, 2);
    assert_eq!(regions[1].pixel_count, 4);
    assert_eq!(regions[1].avg_color, [10, 10, 200]);
    assert_eq!(regions[1].x_sum, 2 + 3 + 2 + 3);
    assert_eq!(regions[1].y_sum, 2);
}

#[test]
fn tolerance_is_measured_from_the_seed() {
    // neighbours differ by 20 each, but 40 is too far from the seed 0
    let img = image(4, 1, vec![[0, 0, 0], [20, 0, 0], [40, 0, 0], [60, 0, 0]]);
    let (labels, regions) = segment(&img, 30, 0);
    assert_eq!(labels, vec![0, 0, 1, 1]);
    assert_eq!(regions.len(), 2);
    assert_eq!(regions[0].avg_color, [10, 0, 0]);
    assert_eq!(regions[1].avg_color, [50, 0, 0]);
}

#[test]
fn diagonal_pixels_are_not_neighbours() {
    let k = [0, 0, 0];
    let w = [255, 255, 255];
    let img = image(2, 2, vec![k, w, w, k]);
    let (labels, regions) = segment(&img, 10, 0);
    assert_eq!(labels, vec![0, 1, 2, 3]);
    assert_eq!(regions.len(), 4);
    for (i, r) in regions.iter().enumerate() {
        assert_eq!(r.index, i + 1);
        assert_eq!(r.pixel_count, 1);
    }
}

#[test]
fn small_regions_are_dropped_and_the_rest_renumbered() {
    let a = [0, 0, 0];
    let b = [255, 0, 0];
    let c = [0, 0, 255];
    // regions in seed order: {a a} (2 px), {b} (1 px), {c c c} (3 px)
    let img = image(6, 1, vec![a, a, b, c, c, c]);
    let (labels, regions) = segment(&img, 5, 2);
    assert_eq!(labels, vec![0, 0, -1, 1, 1, 1]);
    assert_eq!(regions.len(), 2);
    assert_eq!(regions[0].index, 1);
    assert_eq!(regions[0].pixel_count, 2);
    assert_eq!(regions[1].index, 2);
    assert_eq!(regions[1].pixel_count, 3);
    assert_eq!(regions[1].x_sum, 3 + 4 + 5);
}

#[test]
fn average_colour_rounds_down() {
    let img = image(3, 1, vec![[10, 0, 1], [11, 0, 1], [11, 2, 0]]);
    let (labels, regions) = segment(&img, 10, 0);
    assert_eq!(labels, vec![0, 0, 0]);
    assert_eq!(regions[0].avg_color, [10, 0, 0]);
}

#[test]
fn region_grows_around_corners() {
    // a U shape of black pixels around a white one
    let k = [0, 0, 0];
    let w = [250, 250, 250];
    let img = image(3, 2, vec![k, w, k, k, k, k]);
    let (labels, regions) = segment(&img, 0, 0);
    assert_eq!(labels, vec![0, 1, 0, 0, 0, 0]);
    assert_eq!(regions[0].pixel_count, 5);
    assert_eq!(regions[1].pixel_count, 1);
}

#[test]
fn pixel_counts_add_up_to_labelled_pixels() {
    let a = [0, 0, 0];
    let b = [255, 255, 255];
    let img = image(5, 2, vec![a, b, a, a, b, b, b, a, b, a]);
    let (labels, regions) = segment(&img, 0, 2);
    let labelled = labels.iter().filter(|&&l| l >= 0).count();
    let total: usize = regions.iter().map(|r| r.pixel_count).sum();
    assert_eq!(total, labelled);
    for &l in &labels {
        assert!(l >= -1 && (l as i64) < regions.len() as i64);
    }
}

#[test]
fn empty_image_has_no_regions() {
    let img = image(0, 0, vec![]);
    let (labels, regions) = segment(&img, 30, 0);
    assert!(labels.is_empty());
    assert!(regions.is_empty());
}

#[test]
fn raising_min_px_drops_whole_regions() {
    // regions of sizes 3, 1, 2 and 4 pixels along a single row
    let a = [250, 0, 0];
    let b = [0, 250, 0];
    let c = [0, 0, 250];
    let d = [250, 250, 250];
    let img = image(10, 1, vec![a, a, a, b, c, c, d, d, d, d]);
    let (l1, r1) = segment(&img, 10, 1);
    let (l2, r2) = segment(&img, 10, 3);
    assert_eq!(l1, vec![0, 0, 0, 1, 2, 2, 3, 3, 3, 3]);
    assert_eq!(l2, vec![0, 0, 0, -1, -1, -1, 1, 1, 1, 1]);
    assert_eq!(r1.len(), 4);
    assert_eq!(r2.len(), 2);
    for (k2, k1) in [(0usize, 0usize), (1, 3)] {
        assert_eq!(r2[k2].pixel_count, r1[k1].pixel_count);
        assert_eq!(r2[k2].avg_color, r1[k1].avg_color);
        assert_eq!(r2[k2].x_sum, r1[k1].x_sum);
        assert_eq!(r2[k2].y_sum, r1[k1].y_sum);
        assert_eq!(r2[k2].index, k2 + 1);
        for i in 0..l1.len() {
            assert_eq!(l2[i] == k2 as i32, l1[i] == k1 as i32);
        }
    }
    for i in 0..l1.len() {
        assert!(l2[i] < 0 || l1[i] >= 0);
    }
}
