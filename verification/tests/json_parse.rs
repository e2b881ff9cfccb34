use arbvis::json_diff::parse::{collect_ranges, parse, Child};

fn rt(s: &str) {
    let doc = parse(s.as_bytes()).expect("parse failed");
    let ranges = collect_ranges(&doc);
    let mut concat = Vec::new();
    for r in &ranges {
        concat.extend_from_slice(&s.as_bytes()[r.start as usize..r.end as usize]);
    }
    assert_eq!(
        concat.as_slice(),
        s.as_bytes(),
        "round-trip mismatch for: {s:?}\nranges: {ranges:?}"
    );
}

#[test]
fn empty_object() {
    rt("{}");
}
#[test]
fn empty_array() {
    rt("[]");
}
#[test]
fn primitive_number() {
    rt("42");
    rt("-1.5e10");
}
#[test]
fn primitive_bool() {
    rt("true");
    rt("false");
}
#[test]
fn primitive_null() {
    rt("null");
}
#[test]
fn primitive_string() {
    rt("\"hello\"");
}
#[test]
fn string_escapes() {
    rt(r#""a\"b""#);
    rt(r#""\\""#);
    rt(r#""é""#);
}
#[test]
fn unicode_keys() {
    rt(r#"{"日":1}"#);
}
#[test]
fn nested() {
    rt(r#"{"a":{"b":[1,2,3]}}"#);
}
#[test]
fn whitespace_runs() {
    rt("{ \"a\"  :  1 ,\n  \"b\" : [\n  1,\n  2\n] }");
}
#[test]
fn leading_and_trailing_ws() {
    rt("  {\"a\":1}\n");
}
#[test]
fn error_position() {
    let e = parse(b"{\"a\":}").unwrap_err();
    // Error should be at the '}' position (byte 5).
    assert!(
        e.byte_offset >= 4 && e.byte_offset <= 6,
        "got offset {}",
        e.byte_offset
    );
}
#[test]
fn error_trailing_data() {
    let e = parse(b"42 garbage").unwrap_err();
    assert!(e.msg.contains("trailing"));
}

#[test]
fn key_decoding() {
    // "{\"aé\":1}" with é as UTF-8 0xC3 0xA9.
    let doc = parse(b"{\"a\xc3\xa9\":1}").unwrap();
    match &doc.root.children[0] {
        Child::Member { key_decoded, .. } => assert_eq!(key_decoded, "aé"),
        _ => panic!("expected Member"),
    }
}

#[test]
fn round_trip_many() {
    let inputs = [
        "{}",
        "[]",
        "[1]",
        "[1,2]",
        "{\"a\":[1,{\"b\":null}]}",
        "[ 1 , 2 , 3 ]",
        "{ }",
        "[ ]",
        "\"\"",
        "0",
        "1.0",
        "1e10",
        "-0.5e-3",
    ];
    for s in inputs {
        rt(s);
    }
}
