use std::collections::HashSet;

use image_segmenter::imaging::{box_blur, build_seg_texture, sobel_texture};
use image_segmenter::raster::RgbImage;

fn image(w: u32, h: u32, pixels: Vec<[u8; 3]>) -> RgbImage {
    RgbImage::from_raw(w, h, pixels).expect("pixel count matches the size")
}

#[test]
fn box_blur_averages_the_window() {
    let img = image(3, 1, vec![[0, 0, 0], [30, 60, 90], [255, 255, 255]]);
    let out = box_blur(&img, 1);
    assert_eq!(out.width(), 3);
    assert_eq!(out.height(), 1);
    assert_eq!(out.pixels(), &vec![[15, 30, 45], [95, 105, 115], [142, 157, 172]]);
}

#[test]
fn box_blur_radius_zero_keeps_the_image() {
    let px = vec![[1, 2, 3], [40, 50, 60], [7, 8, 9], [200, 100, 0]];
    let img = image(2, 2, px.clone());
    assert_eq!(box_blur(&img, 0).pixels(), &px);
}

#[test]
fn box_blur_window_is_cut_at_the_border() {
    let img = image(2, 2, vec![[0, 0, 0], [4, 8, 12], [8, 16, 24], [12, 24, 36]]);
    // radius 5 covers the whole image from every pixel
    let out = box_blur(&img, 5);
    assert_eq!(out.pixels(), &vec![[6, 12, 18]; 4]);
}

#[test]
fn sobel_marks_a_vertical_edge() {
    let k = [0, 0, 0];
    let w = [255, 255, 255];
    let img = image(3, 3, vec![w, k, k, w, k, k, w, k, k]);
    let t = sobel_texture(&img);
    assert_eq!((t.width, t.height), (3, 3));
    for (i, px) in t.pixels.iter().enumerate() {
        if i == 4 {
            assert_eq!(*px, [255, 100, 0, 255]);
        } else {
            assert_eq!(*px, [0, 0, 0, 0]);
        }
    }
}

#[test]
fn sobel_uses_the_luma_of_each_pixel() {
    // luma of (0, 20, 0) is 7152 * 20 / 10000 = 14, so |gx| = 4 * 14
    let g = [0, 20, 0];
    let k = [0, 0, 0];
    let img = image(3, 3, vec![g, k, k, g, k, k, g, k, k]);
    let t = sobel_texture(&img);
    assert_eq!(t.pixels[4], [255, 100, 0, 56]);
}

#[test]
fn sobel_on_a_flat_image_is_transparent() {
    let img = image(4, 4, vec![[90, 20, 200]; 16]);
    let t = sobel_texture(&img);
    for px in &t.pixels {
        assert_eq!(px[3], 0);
    }
}

#[test]
fn sobel_of_a_thin_image_has_no_interior() {
    let img = image(5, 2, vec![[255, 255, 255]; 10]);
    let t = sobel_texture(&img);
    assert_eq!(t.pixels, vec![[0, 0, 0, 0]; 10]);
}

#[test]
fn seg_texture_colours_regions() {
    let palette = vec![[10, 20, 30], [60, 120, 180]];
    let labels = vec![-1, 0, 1, 5];
    let t = build_seg_texture(&labels, 2, 2, 2, &palette, &HashSet::new());
    assert_eq!((t.width, t.height), (2, 2));
    assert_eq!(
        t.pixels,
        vec![[20, 20, 20, 255], [10, 20, 30, 255], [60, 120, 180, 255], [20, 20, 20, 255]]
    );
}

#[test]
fn seg_texture_dims_unselected_regions() {
    let palette = vec![[10, 20, 30], [60, 120, 180]];
    let labels = vec![0, 1];
    let selected: HashSet<usize> = [1].into_iter().collect();
    let t = build_seg_texture(&labels, 2, 1, 2, &palette, &selected);
    assert_eq!(t.pixels, vec![[1, 3, 5, 255], [60, 120, 180, 255]]);
}
