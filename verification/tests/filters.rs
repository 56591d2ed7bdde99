use image_segmenter::color::{
    all_color_filters, build_color_filter_texture, build_imagej_filter_texture,
    filter_pixel_count, first_match_counts, imagej_pixel_count, pixel_matches_filter,
    rank_by_count, rgb_to_hsb, ColorFilter,
};
use image_segmenter::raster::RgbImage;

fn image(w: u32, h: u32, pixels: Vec<[u8; 3]>) -> RgbImage {
    RgbImage::from_raw(w, h, pixels).expect("pixel count matches the size")
}

fn named(name: &str) -> ColorFilter {
    *all_color_filters().iter().find(|f| f.label == name).expect("known filter")
}

#[test]
fn the_standard_filters() {
    let fs = all_color_filters();
    let names: Vec<&str> = fs.iter().map(|f| f.label).collect();
    assert_eq!(
        names,
        vec!["Red", "Orange", "Yellow", "Green", "Cyan", "Blue", "Purple", "Pink", "White", "Gray", "Black"]
    );
    assert_eq!(fs[0].hue, Some((0, 15)));
    assert_eq!(fs[0].swatch, [220, 50, 50]);
    assert_eq!(fs[0].sat, (100, 255));
    assert_eq!(fs[3].hue, Some((49, 115)));
    assert_eq!(fs[8].hue, None);
    assert_eq!(fs[9].bri, (80, 200));
    assert_eq!(fs[10].sat, (0, 255));
}

#[test]
fn filters_classify_colours() {
    assert!(pixel_matches_filter(255, 0, 0, &named("Red")));
    assert!(!pixel_matches_filter(0, 0, 255, &named("Red")));
    assert!(pixel_matches_filter(0, 0, 255, &named("Blue")));
    assert!(pixel_matches_filter(0, 200, 0, &named("Green")));
    assert!(pixel_matches_filter(250, 250, 250, &named("White")));
    assert!(pixel_matches_filter(128, 128, 128, &named("Gray")));
    assert!(pixel_matches_filter(0, 0, 0, &named("Black")));
    assert!(!pixel_matches_filter(0, 0, 0, &named("White")));
    // pale red: saturation too low for "Red"
    assert!(!pixel_matches_filter(255, 200, 200, &named("Red")));
}

#[test]
fn filter_hue_range_can_wrap() {
    let f = ColorFilter { label: "Wrap", swatch: [0, 0, 0], hue: Some((250, 5)), sat: (0, 255), bri: (0, 255) };
    assert!(pixel_matches_filter(255, 0, 0, &f));
    let (h, _, _) = rgb_to_hsb(0, 0, 255);
    assert_eq!(h, 170);
    assert!(!pixel_matches_filter(0, 0, 255, &f));
}

#[test]
fn colour_filter_texture_blacks_out_the_rest() {
    let img = image(3, 1, vec![[255, 0, 0], [0, 0, 255], [0, 200, 0]]);
    let red = named("Red");
    let green = named("Green");
    let t = build_color_filter_texture(&img, &[&red, &green]);
    assert_eq!((t.width, t.height), (3, 1));
    assert_eq!(t.pixels, vec![[255, 0, 0, 255], [0, 0, 0, 255], [0, 200, 0, 255]]);
    let none = build_color_filter_texture(&img, &[]);
    assert_eq!(none.pixels, vec![[0, 0, 0, 255]; 3]);
}

#[test]
fn imagej_texture_keeps_the_box() {
    let img = image(2, 1, vec![[255, 0, 0], [10, 10, 10]]);
    let t = build_imagej_filter_texture(&img, 0, 255, 100, 255, 0, 255);
    assert_eq!(t.pixels, vec![[255, 0, 0, 255], [0, 0, 0, 255]]);
    let all = build_imagej_filter_texture(&img, 0, 255, 0, 255, 0, 255);
    assert_eq!(all.pixels, vec![[255, 0, 0, 255], [10, 10, 10, 255]]);
}

#[test]
fn pixel_counts() {
    let img = image(2, 2, vec![[255, 0, 0], [250, 10, 10], [0, 0, 255], [0, 0, 0]]);
    assert_eq!(filter_pixel_count(&img, &named("Red")), 2);
    assert_eq!(filter_pixel_count(&img, &named("Blue")), 1);
    assert_eq!(filter_pixel_count(&img, &named("Black")), 1);
    assert_eq!(imagej_pixel_count(&img, 0, 255, 0, 255, 0, 255), 4);
    assert_eq!(imagej_pixel_count(&img, 0, 255, 0, 255, 1, 255), 3);
}

#[test]
fn each_pixel_counts_for_its_first_filter_only() {
    // hue of (255, 77, 0) is 13: inside both "Red" (0..=15) and "Orange" (11..=30)
    assert_eq!(rgb_to_hsb(255, 77, 0).0, 13);
    let img = image(3, 1, vec![[255, 77, 0], [255, 77, 0], [0, 0, 255]]);
    let fs = all_color_filters();
    let counts = first_match_counts(&img, &fs);
    assert_eq!(counts.len(), fs.len());
    assert_eq!(counts[0], 2);
    assert_eq!(counts[1], 0);
    assert_eq!(counts[5], 1);
    assert_eq!(counts.iter().sum::<usize>(), 3);
}

#[test]
fn ranking_orders_by_count_then_index() {
    let order = rank_by_count(&[5, 9, 5, 0, 9], &[true, true, true, false, true]);
    assert_eq!(order, vec![1, 4, 0, 2]);
    let none = rank_by_count(&[3, 4], &[false, false]);
    assert!(none.is_empty());
}
