use arbvis::color::{build_pixel_lut, rgb};
use arbvis::format::dtype::Dtype;
use arbvis::layout::render::{
    element_to_byte_proxy, padding_rgb, plain_element_color, xet_element_color, xorb_color_idx,
};

#[test]
fn padding_rgb_is_not_pure_black() {
    // Sanity: the 2×2 pyramid average mustn't paint padding identical to
    // an unrelated diff-of-zero region.
    assert_ne!(padding_rgb(), rgb(0u8, 0, 0));
}

#[test]
fn element_byte_proxy_f32_msb() {
    // Little-endian f32 1.0 → bytes [0x00, 0x00, 0x80, 0x3f]; MSB is 0x3f.
    let raw = 1.0f32.to_le_bytes();
    assert_eq!(element_to_byte_proxy(Dtype::F32, &raw), 0x3f);
}

#[test]
fn element_byte_proxy_clamps_integers() {
    assert_eq!(element_to_byte_proxy(Dtype::I16, &[0x00, 0x01]), 255);
    assert_eq!(element_to_byte_proxy(Dtype::I16, &[0x2a, 0x00]), 42);
    assert_eq!(element_to_byte_proxy(Dtype::I16, &[0xff, 0xff]), 0);
    assert_eq!(element_to_byte_proxy(Dtype::U16, &[0xff, 0xff]), 255);
    assert_eq!(element_to_byte_proxy(Dtype::I8, &[0x80]), 0);
    assert_eq!(element_to_byte_proxy(Dtype::U8, &[0x80]), 128);
    assert_eq!(element_to_byte_proxy(Dtype::U64, &[7, 0, 0, 0, 0, 0, 0, 0]), 7);
    assert_eq!(element_to_byte_proxy(Dtype::F8E4M3, &[0x80]), 128);
}

#[test]
fn element_byte_proxy_of_nothing_is_zero() {
    assert_eq!(element_to_byte_proxy(Dtype::F32, &[]), 0);
}

#[test]
fn plain_elements_take_the_color_of_their_top_byte() {
    let lut = build_pixel_lut();
    let bytes = [0, 0, 0x80, 0x3f, 0, 0, 0, 0];
    assert_eq!(plain_element_color(Dtype::F32, &bytes, 0, &lut), lut[0x3f]);
    assert_eq!(plain_element_color(Dtype::F32, &bytes, 1, &lut), lut[0]);
}

#[test]
fn xorbs_are_found_by_position() {
    let ranges = [(10u64, 20u64, 3u8), (20, 25, 7), (40, 50, 1)];
    assert_eq!(xorb_color_idx(&ranges, 9), None);
    assert_eq!(xorb_color_idx(&ranges, 10), Some(3));
    assert_eq!(xorb_color_idx(&ranges, 19), Some(3));
    assert_eq!(xorb_color_idx(&ranges, 20), Some(7));
    assert_eq!(xorb_color_idx(&ranges, 30), None);
    assert_eq!(xorb_color_idx(&ranges, 49), Some(1));
    assert_eq!(xorb_color_idx(&ranges, 50), None);
}

#[test]
fn xorb_colors_are_dimmed_by_the_byte() {
    let lut = build_pixel_lut();
    let mut tableau = [rgb(0, 0, 0); 20];
    tableau[2] = rgb(200, 100, 50);
    let ranges = [(0u64, 4u64, 2u8)];
    // An 8-bit element with the value 255 keeps the full colour of its xorb.
    let full = xet_element_color(Dtype::U8, &[255], 0, 0, &ranges, &tableau, &lut);
    assert_eq!(full, rgb(200, 100, 50));
    // Behind the last xorb the plain colour is used.
    let plain = xet_element_color(Dtype::U8, &[255], 0, 100, &ranges, &tableau, &lut);
    assert_eq!(plain, lut[255]);
}
