use dither_core::dithered_image::DitheredImage;
use dither_core::rgb16::Rgb16;

fn rgb(r: u16, g: u16, b: u16) -> Rgb16 {
    Rgb16 { r, g, b }
}

// a 2x2 image with four distinct fully-opaque colors
fn loaded_image() -> DitheredImage {
    let src8: Vec<u8> = vec![
        255, 0, 0, 255, // red
        0, 255, 0, 255, // green
        0, 0, 255, 255, // blue
        255, 255, 255, 255, // white
    ];
    let mut img = DitheredImage::new();
    img.upload_image(&src8, 2, 2, 2, 2, 4);
    img
}

#[test]
fn fresh_state_is_empty() {
    let img = DitheredImage::new();
    assert!(!img.has_image());
    assert_eq!(img.size(), (512, 512));
    assert!(img.get_bytes().is_empty());
    assert!(img.get_palette_colors().is_empty());
    assert!(img.get_pure_palette_colors().is_empty());
}

#[test]
fn upload_fills_every_buffer() {
    let img = loaded_image();
    assert!(img.has_image());
    assert_eq!(img.size(), (2, 2));
    assert_eq!(img.get_bytes().len(), 16);
    assert_eq!(img.get_palette_colors().len(), 4);
    assert_eq!(img.get_palette_colors(), img.get_pure_palette_colors());
}

#[test]
fn four_distinct_colors_survive_quantization() {
    let img = loaded_image();
    let palette = img.get_pure_palette_colors();
    assert_eq!(palette.len(), 4);
    for c in [rgb(65535, 0, 0), rgb(0, 65535, 0), rgb(0, 0, 65535), rgb(65535, 65535, 65535)] {
        assert!(palette.contains(&c));
    }
}

#[test]
fn replace_color_recolors_matching_pixels() {
    let mut img = loaded_image();
    let target = img.get_pure_palette_colors()[0];
    let before = img.get_bytes().clone();
    img.replace_color(rgb(32896, 32896, 32896), 0);
    let after = img.get_bytes();
    let old_rgb = (
        ((target.r as u32 + 128) / 257) as u8,
        ((target.g as u32 + 128) / 257) as u8,
        ((target.b as u32 + 128) / 257) as u8,
    );
    for p in (0..before.len()).step_by(4) {
        let was = (before[p], before[p + 1], before[p + 2]);
        if was == old_rgb {
            assert_eq!((after[p], after[p + 1], after[p + 2]), (128, 128, 128));
        } else {
            assert_eq!((after[p], after[p + 1], after[p + 2]), was);
        }
        assert_eq!(after[p + 3], before[p + 3]);
    }
}

#[test]
fn replace_color_ignores_an_index_beyond_the_palette() {
    let mut img = loaded_image();
    let before = img.get_bytes().clone();
    let overrides_before = img.get_palette_colors().clone();
    img.replace_color(rgb(1, 2, 3), 99);
    assert_eq!(img.get_bytes(), &before);
    assert_eq!(img.get_palette_colors(), &overrides_before);
}

// overriding an entry and then setting it back reproduces the original
// dithered bytes exactly
#[test]
fn override_round_trip_restores_the_buffer() {
    let mut img = loaded_image();
    let baseline = img.get_bytes().clone();
    let original = img.get_pure_palette_colors()[1];
    img.replace_color(rgb(12345, 23456, 34567), 1);
    assert_ne!(img.get_bytes(), &baseline);
    img.replace_color(original, 1);
    assert_eq!(img.get_bytes(), &baseline);
}

// repeated overrides of the same entry do not accumulate drift: the last
// one alone decides the output
#[test]
fn overrides_compose_from_the_pure_buffer() {
    let mut img = loaded_image();
    let mut reference = loaded_image();
    for step in 0..10u16 {
        img.replace_color(rgb(step * 6000, 500, 500), 2);
    }
    img.replace_color(rgb(54000, 500, 500), 2);
    reference.replace_color(rgb(54000, 500, 500), 2);
    assert_eq!(img.get_bytes(), reference.get_bytes());
}

// a bulk override applied in one call equals the same table applied
// index by index
#[test]
fn bulk_override_matches_sequential_application() {
    let table = vec![rgb(100, 200, 300), rgb(400, 500, 600), rgb(700, 800, 900), rgb(1, 2, 3)];
    let mut bulk = loaded_image();
    bulk.set_override_colors(table.clone());
    let mut sequential = loaded_image();
    for (i, c) in table.iter().enumerate() {
        sequential.replace_color(*c, i);
    }
    assert_eq!(bulk.get_bytes(), sequential.get_bytes());
    assert_eq!(bulk.get_palette_colors(), sequential.get_palette_colors());
    assert_eq!(bulk.get_palette_colors(), &table);
}

#[test]
fn bulk_override_ignores_extra_entries() {
    let mut img = loaded_image();
    let palette = img.get_pure_palette_colors().clone();
    let mut table = palette.clone();
    table.push(rgb(9, 9, 9));
    img.set_override_colors(table);
    assert_eq!(img.get_palette_colors(), &palette);
}

#[test]
fn dither_without_an_image_does_nothing() {
    let mut img = DitheredImage::new();
    img.dither(8, false);
    assert!(!img.has_image());
    assert!(img.get_bytes().is_empty());
    assert!(img.get_palette_colors().is_empty());
}

// re-dithering with an unchanged color count keeps the palette; changing
// the count rebuilds it and resets the override table
#[test]
fn dither_rebuilds_only_on_a_new_count() {
    let mut img = loaded_image();
    img.replace_color(rgb(4, 4, 4), 0);
    let overridden = img.get_palette_colors().clone();
    img.dither(4, false);
    assert_eq!(img.get_palette_colors(), &overridden);
    img.dither(2, false);
    assert_eq!(img.get_palette_colors(), img.get_pure_palette_colors());
    assert_eq!(img.get_pure_palette_colors().len(), 2);
}
