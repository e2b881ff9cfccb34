use arbvis::format::dtype::Dtype;
use arbvis::format::safetensors::{
    build_color_ranges, checked_parse_header, header_extent, parse_header, MAX_HEADER_SIZE,
};

/// A file with the given header and `tail` bytes of data.
fn file(header: &str, tail: usize) -> Vec<u8> {
    let mut v = (header.len() as u64).to_le_bytes().to_vec();
    v.extend_from_slice(header.as_bytes());
    v.extend(std::iter::repeat(0u8).take(tail));
    v
}

fn message(header: &str) -> String {
    parse_header(&file(header, 0)).unwrap_err().message()
}

#[test]
fn tensors_are_read_in_file_order() {
    let data = file(
        r#"{"b":{"dtype":"F16","shape":[2,2],"data_offsets":[16,24]},"__metadata__":{"format":"pt"},"a":{"dtype":"F32","shape":[4],"data_offsets":[0,16]}}"#,
        24,
    );
    let (tensors, end) = parse_header(&data).unwrap();
    assert_eq!(end as usize, data.len() - 24);
    assert_eq!(tensors.len(), 2);
    assert_eq!(tensors[0].name, "a");
    assert_eq!(tensors[0].dtype, Dtype::F32);
    assert_eq!(tensors[0].shape, [4]);
    assert_eq!((tensors[0].file_start, tensors[0].file_end), (end, end + 16));
    assert_eq!(tensors[1].name, "b");
    assert_eq!(tensors[1].shape, [2, 2]);
    let ranges = build_color_ranges(&tensors, end, data.len() as u64);
    assert_eq!(ranges.first().unwrap().0, 0);
    assert_eq!(ranges.last().unwrap().1, data.len() as u64);
}

#[test]
fn sizes_are_checked_first() {
    assert_eq!(
        parse_header(&[1, 2, 3]).unwrap_err().message(),
        "safetensors: file too short to contain header size field"
    );
    let mut v = 100u64.to_le_bytes().to_vec();
    v.push(b'{');
    assert_eq!(
        parse_header(&v).unwrap_err().message(),
        "safetensors: header_size=100 exceeds file length=9"
    );
    assert!(checked_parse_header(&u64::MAX.to_le_bytes()).is_none());
    assert_eq!(header_extent(&7u64.to_le_bytes()).unwrap(), 15);
    let e = header_extent(&(MAX_HEADER_SIZE + 1).to_le_bytes()).unwrap_err();
    assert_eq!(
        e.message(),
        "safetensors: header_size=104857601 exceeds 100 MB safety limit"
    );
}

#[test]
fn broken_headers_are_told() {
    assert!(message("{").starts_with("safetensors: invalid JSON header: "));
    assert_eq!(message("[1]"), "safetensors: header JSON is not an object");
    assert_eq!(message(r#"{"t":1}"#), "safetensors: tensor 't' is not an object");
    assert_eq!(
        message(r#"{"t":{"shape":[1],"data_offsets":[0,1]}}"#),
        "safetensors: tensor 't' missing 'dtype'"
    );
    assert_eq!(
        message(r#"{"t":{"dtype":"U8","data_offsets":[0,1]}}"#),
        "safetensors: tensor 't' missing 'shape'"
    );
    assert_eq!(
        message(r#"{"t":{"dtype":"U8","shape":[-1],"data_offsets":[0,1]}}"#),
        "safetensors: tensor 't' shape dim is not u64"
    );
    assert_eq!(
        message(r#"{"t":{"dtype":"U8","shape":[1],"data_offsets":[0]}}"#),
        "safetensors: tensor 't' missing valid 'data_offsets'"
    );
    assert_eq!(
        message(r#"{"t":{"dtype":"U8","shape":[1],"data_offsets":["x",1]}}"#),
        "safetensors: tensor 't' data_offsets[0] not u64"
    );
    assert_eq!(
        message(r#"{"t":{"dtype":"U8","shape":[1],"data_offsets":[0,1.5]}}"#),
        "safetensors: tensor 't' data_offsets[1] not u64"
    );
}

#[test]
fn types_are_named() {
    assert_eq!(Dtype::from_str("F64").element_size(), 8);
    assert_eq!(Dtype::from_str("I8").element_size(), 1);
    assert_eq!(Dtype::F32.label(), "F32");
    assert_eq!(Dtype::from_str(Dtype::BF16.label()), Dtype::BF16);
}
