use dither_core::color_box::ColorBox16;
use dither_core::image_utils::{
    build_palette_median_cut_rgba16, median_cut_palette, nearest_palette_color,
    sample_rgb16_from_rgba16,
};
use dither_core::rgb16::Rgb16;

fn rgb(r: u16, g: u16, b: u16) -> Rgb16 {
    Rgb16 { r, g, b }
}

#[test]
fn box_ranges_and_score() {
    let bx = ColorBox16 { colors: vec![rgb(0, 10, 500), rgb(65535, 30, 400)] };
    assert_eq!(bx.ranges(), (0, 65535, 10, 30, 400, 500));
    assert_eq!(bx.score(), 65535);
}

#[test]
fn box_average_truncates() {
    let bx = ColorBox16 { colors: vec![rgb(0, 0, 3), rgb(1, 5, 4)] };
    assert_eq!(bx.average(), rgb(0, 2, 3));
}

#[test]
fn box_average_of_empty_box_is_black() {
    let bx = ColorBox16 { colors: vec![] };
    assert_eq!(bx.average(), rgb(0, 0, 0));
}

#[test]
fn split_needs_two_colors() {
    let bx = ColorBox16 { colors: vec![rgb(1, 2, 3)] };
    assert!(bx.split().is_none());
}

// the two halves carry every color of the box and are both non-empty
#[test]
fn split_partitions_the_box() {
    let bx = ColorBox16 {
        colors: vec![rgb(9, 0, 0), rgb(3, 0, 0), rgb(7, 0, 0), rgb(1, 0, 0), rgb(5, 0, 0)],
    };
    let (b1, b2) = bx.split().unwrap();
    assert_eq!(b1.colors, vec![rgb(1, 0, 0), rgb(3, 0, 0)]);
    assert_eq!(b2.colors, vec![rgb(5, 0, 0), rgb(7, 0, 0), rgb(9, 0, 0)]);
}

#[test]
fn split_of_duplicates_still_splits() {
    let c = rgb(4, 4, 4);
    let bx = ColorBox16 { colors: vec![c, c] };
    let (b1, b2) = bx.split().unwrap();
    assert_eq!(b1.colors, vec![c]);
    assert_eq!(b2.colors, vec![c]);
}

#[test]
fn split_picks_widest_channel_with_red_priority() {
    // green spreads wider, so the sort is along green
    let bx = ColorBox16 { colors: vec![rgb(5, 60000, 0), rgb(0, 0, 0), rgb(3, 30000, 0)] };
    let (b1, b2) = bx.split().unwrap();
    assert_eq!(b1.colors, vec![rgb(0, 0, 0)]);
    assert_eq!(b2.colors, vec![rgb(3, 30000, 0), rgb(5, 60000, 0)]);
}

#[test]
fn nearest_color_minimizes_distance() {
    let palette = vec![rgb(65535, 0, 0), rgb(0, 65535, 0)];
    assert_eq!(nearest_palette_color(rgb(60000, 0, 0), &palette), rgb(65535, 0, 0));
    assert_eq!(nearest_palette_color(rgb(0, 60000, 100), &palette), rgb(0, 65535, 0));
}

#[test]
fn nearest_color_tie_goes_to_the_first_entry() {
    let palette = vec![rgb(0, 0, 0), rgb(2, 0, 0)];
    assert_eq!(nearest_palette_color(rgb(1, 0, 0), &palette), rgb(0, 0, 0));
}

#[test]
fn sampling_skips_near_transparent_pixels() {
    // two pixels: an opaque red and a transparent green
    let src: Vec<u16> = vec![65535, 0, 0, 65535, 0, 65535, 0, 512];
    let out = sample_rgb16_from_rgba16(&src, 2, 1, 50000, 512);
    assert_eq!(out, vec![rgb(65535, 0, 0)]);
}

#[test]
fn sampling_falls_back_to_the_first_pixel() {
    let src: Vec<u16> = vec![123, 456, 789, 0, 5, 6, 7, 0];
    let out = sample_rgb16_from_rgba16(&src, 2, 1, 50000, 512);
    assert_eq!(out, vec![rgb(123, 456, 789)]);
}

#[test]
fn empty_samples_yield_the_black_palette() {
    let out = median_cut_palette(vec![], 8);
    assert_eq!(out, vec![rgb(0, 0, 0)]);
}

#[test]
fn single_color_stops_splitting() {
    let out = median_cut_palette(vec![rgb(7, 8, 9)], 8);
    assert_eq!(out, vec![rgb(7, 8, 9)]);
}

// asking for more colors than there are distinct samples stops early
#[test]
fn palette_no_larger_than_distinct_samples() {
    let samples = vec![rgb(0, 0, 0), rgb(65535, 0, 0), rgb(0, 65535, 0)];
    let out = median_cut_palette(samples, 16);
    assert_eq!(out.len(), 3);
}

// a two-color sample set in equal numbers quantizes to exactly those colors
#[test]
fn two_colors_survive_median_cut() {
    let c1 = rgb(65535, 0, 0);
    let c2 = rgb(0, 65535, 0);
    let out = median_cut_palette(vec![c1, c2, c2, c1], 2);
    assert_eq!(out.len(), 2);
    assert!(out.contains(&c1));
    assert!(out.contains(&c2));
}

#[test]
fn build_palette_clamps_to_two() {
    // one red and one green pixel, both opaque; even k = 0 yields 2 colors
    let src: Vec<u16> = vec![65535, 0, 0, 65535, 0, 65535, 0, 65535];
    let out = build_palette_median_cut_rgba16(&src, 2, 1, 0);
    assert_eq!(out.len(), 2);
    assert!(out.contains(&rgb(65535, 0, 0)));
    assert!(out.contains(&rgb(0, 65535, 0)));
}
