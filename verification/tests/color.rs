use arbvis::color::{build_pixel_lut, byte_to_pixel, rgb};

#[test]
fn null_is_black() {
    assert_eq!(byte_to_pixel(0x00), rgb(0, 0, 0));
}

#[test]
fn ff_is_white() {
    assert_eq!(byte_to_pixel(0xFF), rgb(255, 255, 255));
}

#[test]
fn printable_ascii_is_blue_only() {
    let c = byte_to_pixel(b'A');
    assert_eq!(c.r, 0);
    assert_eq!(c.g, 0);
    assert!(c.b > 0);
}

#[test]
fn control_is_green_only() {
    let c = byte_to_pixel(0x10);
    assert_eq!(c.r, 0);
    assert!(c.g > 0);
    assert_eq!(c.b, 0);
}

#[test]
fn high_byte_is_red_only() {
    let c = byte_to_pixel(0x80);
    assert!(c.r > 0);
    assert_eq!(c.g, 0);
    assert_eq!(c.b, 0);
}

#[test]
fn lut_has_256_entries() {
    let lut = build_pixel_lut();
    assert_eq!(lut.len(), 256);
    assert_eq!(lut[0], rgb(0, 0, 0));
    assert_eq!(lut[255], rgb(255, 255, 255));
}

#[test]
fn every_byte_but_null_is_visible() {
    assert_eq!(byte_to_pixel(0x01), rgb(0, 1, 0));
    assert_eq!(byte_to_pixel(0x20), rgb(0, 0, 1));
    assert_eq!(byte_to_pixel(0x7F), rgb(1, 0, 0));
    assert_eq!(byte_to_pixel(0x1F), rgb(0, 255, 0));
    assert_eq!(byte_to_pixel(b'A'), rgb(0, 0, 89));
    assert_eq!(byte_to_pixel(0xFE), rgb(255, 0, 0));
    for v in 1..=255u8 {
        assert_ne!(byte_to_pixel(v), rgb(0, 0, 0));
    }
}
