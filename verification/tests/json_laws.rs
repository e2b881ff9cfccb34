use arbvis::json_diff::align::{align_documents, coalesce, shape_hash_of, AlignmentSpan};
use arbvis::json_diff::parse::{parse, Child};

/// The shape hashes of the elements of an array.
fn hashes(text: &str) -> Vec<u64> {
    parse(text.as_bytes())
        .unwrap()
        .root
        .children
        .iter()
        .map(shape_hash_of)
        .collect()
}

fn aligned(orig: std::ops::Range<u64>, mod_: std::ops::Range<u64>) -> AlignmentSpan {
    AlignmentSpan::Aligned { orig, mod_ }
}

#[test]
fn objects_with_the_same_keys_hash_alike() {
    let h = hashes(r#"[{"a":1,"b":2}, { "b" : "x" , "a" : [] },{"a":1,"c":2},{"a":1}]"#);
    assert_eq!(h[0], h[1]);
    assert_ne!(h[0], h[2]);
    assert_ne!(h[0], h[3]);
}

#[test]
fn arrays_with_the_same_kinds_hash_alike() {
    let h = hashes(r#"[[1,"x",{}],[ 22, "yy" , {"k":1} ],["x",1,{}],[]]"#);
    assert_eq!(h[0], h[1]);
    assert_ne!(h[0], h[2]);
    assert_ne!(h[0], h[3]);
}

#[test]
fn primitives_hash_by_kind_and_bytes() {
    let h = hashes(r#"[1,1,2,"1","ab","ab","ba",true,null]"#);
    assert_eq!(h[0], h[1]);
    assert_ne!(h[0], h[2]);
    assert_ne!(h[0], h[3]);
    assert_eq!(h[4], h[5]);
    assert_ne!(h[4], h[6]);
    assert_ne!(h[7], h[8]);
}

#[test]
fn the_content_of_a_primitive_is_its_source() {
    let d = parse(br#"["a\n", -1.5e3]"#).unwrap();
    let contents: Vec<&[u8]> = d
        .root
        .children
        .iter()
        .map(|c| match c {
            Child::Element { value, .. } => value.content.as_slice(),
            Child::Member { .. } => panic!("an array holds elements"),
        })
        .collect();
    assert_eq!(contents, [br#""a\n""#.as_slice(), b"-1.5e3"]);
    assert!(d.root.content.is_empty());
}

#[test]
fn an_inserted_literal_does_not_disturb_its_neighbours() {
    let o = parse(b"[1,2,3]").unwrap();
    let m = parse(b"[1,9,2,3]").unwrap();
    assert_eq!(
        align_documents(&o, &m, 0, 0),
        [
            aligned(0..3, 0..3),
            AlignmentSpan::ModOnly { mod_: 3..5 },
            aligned(3..7, 5..9),
        ]
    );
}

#[test]
fn bases_move_every_range() {
    let o = parse(br#"{"a":1,"b":[1,2]}"#).unwrap();
    let m = parse(br#" {"b":[2,3,"x"], "c":null}"#).unwrap();
    let at_zero = align_documents(&o, &m, 0, 0);
    let moved: Vec<AlignmentSpan> = at_zero
        .into_iter()
        .map(|s| match s {
            AlignmentSpan::Aligned { orig, mod_ } => {
                aligned(orig.start + 100..orig.end + 100, mod_.start + 7..mod_.end + 7)
            }
            AlignmentSpan::OrigOnly { orig } => {
                AlignmentSpan::OrigOnly { orig: orig.start + 100..orig.end + 100 }
            }
            AlignmentSpan::ModOnly { mod_ } => {
                AlignmentSpan::ModOnly { mod_: mod_.start + 7..mod_.end + 7 }
            }
        })
        .collect();
    assert_eq!(align_documents(&o, &m, 100, 7), moved);
}

#[test]
fn merging_twice_changes_nothing() {
    let spans = || {
        vec![
            aligned(0..2, 0..2),
            aligned(2..5, 2..5),
            AlignmentSpan::OrigOnly { orig: 5..6 },
            AlignmentSpan::OrigOnly { orig: 6..6 },
            AlignmentSpan::OrigOnly { orig: 6..9 },
            AlignmentSpan::ModOnly { mod_: 5..5 },
            AlignmentSpan::ModOnly { mod_: 5..7 },
            aligned(9..10, 7..9),
            aligned(10..11, 9..10),
        ]
    };
    let once = coalesce(spans());
    assert_eq!(
        once,
        [
            aligned(0..5, 0..5),
            AlignmentSpan::OrigOnly { orig: 5..9 },
            AlignmentSpan::ModOnly { mod_: 5..7 },
            aligned(9..10, 7..9),
            aligned(10..11, 9..10),
        ]
    );
    assert_eq!(coalesce(coalesce(spans())), once);
}
