use dither_core::dither::dither_fs_palette_rgba16_to_rgba8;
use dither_core::image_utils::{build_palette_median_cut_rgba16, resize_interleaved_nearest};
use dither_core::rgb16::Rgb16;

fn rgb(r: u16, g: u16, b: u16) -> Rgb16 {
    Rgb16 { r, g, b }
}

// a pure red and a pure green pixel against their own two-color palette
// come out exactly as the two palette colors
#[test]
fn two_pixel_scenario() {
    let src16: Vec<u16> = vec![65535, 0, 0, 65535, 0, 65535, 0, 65535];
    let palette = build_palette_median_cut_rgba16(&src16, 2, 1, 2);
    assert_eq!(palette.len(), 2);
    assert!(palette.contains(&rgb(65535, 0, 0)));
    assert!(palette.contains(&rgb(0, 65535, 0)));
    let mut dst8: Vec<u8> = Vec::new();
    dither_fs_palette_rgba16_to_rgba8(&src16, &mut dst8, 2, 1, &palette);
    assert_eq!(dst8, vec![255, 0, 0, 255, 0, 255, 0, 255]);
}

// every output pixel's RGB is the projection of a palette entry, and the
// alpha channel is carried through, not quantized
#[test]
fn output_is_quantized_to_the_palette() {
    let mut src16: Vec<u16> = Vec::new();
    for i in 0..16u16 {
        src16.extend_from_slice(&[i * 4000, 65535 - i * 4000, i * 2000, 65535 - i * 100]);
    }
    let palette = vec![rgb(0, 0, 0), rgb(65535, 65535, 65535), rgb(65535, 0, 0)];
    let projections: Vec<(u8, u8, u8)> = vec![(0, 0, 0), (255, 255, 255), (255, 0, 0)];
    let mut dst8: Vec<u8> = Vec::new();
    dither_fs_palette_rgba16_to_rgba8(&src16, &mut dst8, 4, 4, &palette);
    assert_eq!(dst8.len(), 64);
    for i in 0..16usize {
        let p = i * 4;
        let shown = (dst8[p], dst8[p + 1], dst8[p + 2]);
        assert!(projections.contains(&shown));
        let a16 = src16[p + 3] as u32;
        assert_eq!(dst8[p + 3] as u32, (a16 + 128) / 257);
    }
}

// the same buffer and palette dithered twice give byte-identical output
#[test]
fn dithering_is_deterministic() {
    let mut src16: Vec<u16> = Vec::new();
    for i in 0..64u16 {
        src16.extend_from_slice(&[i * 1000, 30000, 65535 - i * 1000, 65535]);
    }
    let palette = build_palette_median_cut_rgba16(&src16, 8, 8, 4);
    let mut first: Vec<u8> = Vec::new();
    let mut second: Vec<u8> = Vec::new();
    dither_fs_palette_rgba16_to_rgba8(&src16, &mut first, 8, 8, &palette);
    dither_fs_palette_rgba16_to_rgba8(&src16, &mut second, 8, 8, &palette);
    assert_eq!(first, second);
}

#[test]
fn dither_of_empty_image_is_empty() {
    let src16: Vec<u16> = Vec::new();
    let palette = vec![rgb(0, 0, 0)];
    let mut dst8: Vec<u8> = vec![9, 9];
    dither_fs_palette_rgba16_to_rgba8(&src16, &mut dst8, 0, 0, &palette);
    assert!(dst8.is_empty());
}

// halving a 4x4 image: destination (0,0) is source (0,0) and destination
// (1,1) is source (2,2) under the truncating mapping
#[test]
fn resize_half_picks_truncated_coordinates() {
    let mut src: Vec<u8> = Vec::new();
    for i in 0..16u8 {
        src.extend_from_slice(&[i, i, i, 255]);
    }
    let dst = resize_interleaved_nearest::<u8, 4>(&src, 4, 4, 2, 2);
    assert_eq!(dst.len(), 16);
    let pixel = |x: usize, y: usize| -> u8 { dst[(y * 2 + x) * 4] };
    assert_eq!(pixel(0, 0), 0); // source pixel (0, 0)
    assert_eq!(pixel(1, 0), 2); // source pixel (2, 0)
    assert_eq!(pixel(0, 1), 8); // source pixel (0, 2)
    assert_eq!(pixel(1, 1), 10); // source pixel (2, 2)
}

#[test]
fn resize_identity_keeps_the_buffer() {
    let src: Vec<u8> = (0u8..24).collect();
    let dst = resize_interleaved_nearest::<u8, 4>(&src, 3, 2, 3, 2);
    assert_eq!(dst, src);
}

#[test]
fn resize_works_on_three_channels() {
    let src: Vec<u16> = vec![1, 2, 3, 4, 5, 6];
    let dst = resize_interleaved_nearest::<u16, 3>(&src, 2, 1, 1, 1);
    assert_eq!(dst, vec![1, 2, 3]);
}
