use arbvis::json_diff::align::{align_documents, AlignmentSpan};
use arbvis::json_diff::jsonl::align_jsonl;
use arbvis::json_diff::parse::parse;
use arbvis::path::{filename_label, has_extension, is_json_path, sort_paths};

/// The bytes of each side that the spans hold, in order.
fn sides(spans: &[AlignmentSpan]) -> (Vec<(u64, u64)>, Vec<(u64, u64)>) {
    let (mut o, mut m) = (Vec::new(), Vec::new());
    for s in spans {
        match s {
            AlignmentSpan::Aligned { orig, mod_ } => {
                o.push((orig.start, orig.end));
                m.push((mod_.start, mod_.end));
            }
            AlignmentSpan::OrigOnly { orig } => o.push((orig.start, orig.end)),
            AlignmentSpan::ModOnly { mod_ } => m.push((mod_.start, mod_.end)),
        }
    }
    (o, m)
}

fn covers(mut ranges: Vec<(u64, u64)>, len: u64) -> bool {
    ranges.retain(|(a, b)| a < b);
    ranges.sort();
    let mut at = 0;
    for (a, b) in ranges {
        if a != at {
            return false;
        }
        at = b;
    }
    at == len
}

#[test]
fn every_byte_of_both_documents_is_aligned_once() {
    let o = r#"{"a": [1, 2, {"x": "y"}], "b": null, "c": "long text"}"#;
    let m = r#"{ "c":"long texts", "a":[2,{"x":"z"},3], "d": true }"#;
    let spans = align_documents(&parse(o.as_bytes()).unwrap(), &parse(m.as_bytes()).unwrap(), 0, 0);
    let (os, ms) = sides(&spans);
    assert!(covers(os, o.len() as u64));
    assert!(covers(ms, m.len() as u64));
}

#[test]
fn lines_are_aligned_one_by_one() {
    let o = "{\"a\":1}\n{\"b\":2}\n\nnot json\n";
    let m = "{\"a\":1}\n{\"b\":22}\n{\"c\":3}\nnot json";
    let spans = align_jsonl(o.as_bytes(), m.as_bytes());
    let (os, ms) = sides(&spans);
    assert!(covers(os, o.len() as u64));
    assert!(covers(ms, m.len() as u64));
}

#[test]
fn identical_lines_collapse() {
    let t = "{\"a\":1}\n{\"b\":2}\n";
    let spans = align_jsonl(t.as_bytes(), t.as_bytes());
    assert_eq!(spans.len(), 1);
}

#[test]
fn errors_point_into_the_input() {
    for s in ["", "{", "[1,", "tru", "\"a", "{\"a\" 1}", "1 2", "\"\\u12\""] {
        let e = parse(s.as_bytes()).unwrap_err();
        assert!(e.byte_offset as usize <= s.len());
        assert!(!e.msg.is_empty());
    }
    assert!(parse(&[b'"', 0xff, b'"']).is_err());
}

#[test]
fn paths_are_taken_apart() {
    assert_eq!(filename_label("a/b/c.bin"), "c.bin");
    assert_eq!(filename_label("a/b/"), "b");
    assert_eq!(filename_label(".."), "..");
    assert!(has_extension("x/y.json", "json"));
    assert!(!has_extension("x/.json", "json"));
    assert!(!has_extension("x/json", "json"));
    assert!(is_json_path("a.jsonl") && !is_json_path("a.jsonx"));
    let sorted = sort_paths(
        ["b", "a/c", "a.x", "a/b"].iter().map(|s| s.to_string()).collect(),
    );
    let mut want: Vec<std::path::PathBuf> =
        ["b", "a/c", "a.x", "a/b"].iter().map(std::path::PathBuf::from).collect();
    want.sort();
    let got: Vec<std::path::PathBuf> = sorted.iter().map(std::path::PathBuf::from).collect();
    assert_eq!(got, want);
}
