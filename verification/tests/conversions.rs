use dither_core::rgb16::{
    clamp_u16_i32, pack_rgb, rgb16_to_u8, rgb16_to_u8_exact, rgba8_to_rgba16, u16_to_u8, Rgb16,
};

#[test]
fn u16_to_u8_formula_values() {
    assert_eq!(u16_to_u8(0), 0);
    assert_eq!(u16_to_u8(128), 0);
    assert_eq!(u16_to_u8(129), 1);
    assert_eq!(u16_to_u8(257), 1);
    assert_eq!(u16_to_u8(32768), 128);
    assert_eq!(u16_to_u8(65535), 255);
}

#[test]
fn expansion_by_257_is_invertible() {
    for v in [0u8, 1, 2, 127, 128, 200, 254, 255] {
        assert_eq!(u16_to_u8((v as u16) * 257), v);
    }
}

#[test]
fn clamp_u16_i32_values() {
    assert_eq!(clamp_u16_i32(-5), 0);
    assert_eq!(clamp_u16_i32(0), 0);
    assert_eq!(clamp_u16_i32(1234), 1234);
    assert_eq!(clamp_u16_i32(65535), 65535);
    assert_eq!(clamp_u16_i32(70000), 65535);
}

#[test]
fn pack_rgb_is_the_packed_triple() {
    assert_eq!(pack_rgb(1, 2, 3), 0x010203);
    assert_eq!(pack_rgb(255, 255, 255), 0xFFFFFF);
    assert_eq!(pack_rgb(0, 0, 0), 0);
}

#[test]
fn rgb16_projections() {
    let c = Rgb16 { r: 257, g: 514, b: 65535 };
    assert_eq!(rgb16_to_u8(c), (1, 2, 255));
    assert_eq!(rgb16_to_u8_exact(c), (1, 2, 255));
    // the truncating and the rounding projection differ near half steps
    let d = Rgb16 { r: 200, g: 0, b: 0 };
    assert_eq!(rgb16_to_u8(d), (0, 0, 0));
    assert_eq!(rgb16_to_u8_exact(d), (1, 0, 0));
}

#[test]
fn rgba8_to_rgba16_widens_by_257() {
    let src: Vec<u8> = vec![0, 128, 255, 7];
    let mut dst: Vec<u16> = Vec::new();
    rgba8_to_rgba16(&src, &mut dst);
    assert_eq!(dst, vec![0, 32896, 65535, 1799]);
}
