use arbvis::color::rgb;
use arbvis::format::dtype::Dtype;
use arbvis::format::safetensors::{build_color_ranges, color_for_pos};
use arbvis::format::types::TensorMeta;

#[test]
fn build_ranges_header_first() {
    let t = TensorMeta {
        name: "t".to_string(),
        dtype: Dtype::F32,
        shape: vec![4],
        file_start: 100,
        file_end: 200,
    };
    let r = build_color_ranges(&[t], 100, 200);
    assert_eq!(r[0], (0, 100, rgb(100, 100, 100)));
    assert_eq!(r[1], (100, 200, Dtype::F32.to_color()));
}

#[test]
fn dtype_from_str_roundtrip() {
    assert!(matches!(Dtype::from_str("BF16"), Dtype::BF16));
    assert!(matches!(Dtype::from_str("F16"), Dtype::F16));
    assert!(matches!(Dtype::from_str("F8_E4M3"), Dtype::F8E4M3));
}

#[test]
fn color_for_pos_header_region() {
    let ranges = vec![
        (0u64, 100u64, rgb(100u8, 100, 100)),
        (100u64, 200u64, rgb(180u8, 255, 60)),
    ];
    assert_eq!(color_for_pos(0, &ranges), rgb(100, 100, 100));
    assert_eq!(color_for_pos(50, &ranges), rgb(100, 100, 100));
    assert_eq!(color_for_pos(100, &ranges), rgb(180, 255, 60));
    assert_eq!(color_for_pos(199, &ranges), rgb(180, 255, 60));
}

#[test]
fn color_for_pos_out_of_range() {
    let ranges = vec![(0u64, 100u64, rgb(255u8, 0, 0))];
    assert_eq!(color_for_pos(200, &ranges), rgb(0, 0, 0));
}
