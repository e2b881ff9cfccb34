use arbvis::json_diff::align::{align_documents, AlignmentSpan};
use arbvis::json_diff::parse::parse;

fn align(o: &str, m: &str) -> Vec<AlignmentSpan> {
    let od = parse(o.as_bytes()).unwrap();
    let md = parse(m.as_bytes()).unwrap();
    align_documents(&od, &md, 0, 0)
}

#[test]
fn identical_collapses_to_one_aligned() {
    let r = align(r#"{"a":1}"#, r#"{"a":1}"#);
    assert_eq!(r.len(), 1);
    match &r[0] {
        AlignmentSpan::Aligned { orig, mod_ } => {
            assert_eq!(orig, &(0..7));
            assert_eq!(mod_, &(0..7));
        }
        _ => panic!(),
    }
}

#[test]
fn same_length_value_change_collapses_to_one_aligned() {
    // Both 7 bytes, only the digit changes.
    let r = align(r#"{"a":1}"#, r#"{"a":2}"#);
    assert_eq!(r.len(), 1);
}

#[test]
fn longer_number_value_emits_mod_only_tail() {
    let r = align(r#"{"a":1}"#, r#"{"a":100}"#);
    // Expect: Aligned over "{\"a\":1" (6 bytes orig, 6 bytes mod), ModOnly "00", Aligned "}".
    // After coalesce the leading Aligned merges with the closing-brace-aligned only if contiguous; they're not contiguous on the mod side because of the ModOnly.
    // So we expect 3 spans.
    assert_eq!(r.len(), 3);
    match &r[1] {
        AlignmentSpan::ModOnly { mod_ } => assert_eq!(mod_.end - mod_.start, 2),
        _ => panic!("expected ModOnly, got {:?}", r[1]),
    }
}

#[test]
fn key_added() {
    // Inserted key "b":2 between "a":1 and end.
    let r = align(r#"{"a":1}"#, r#"{"a":1,"b":2}"#);
    // Expect at least one ModOnly span over the new ",\"b\":2".
    let has_mod_only = r.iter().any(|s| matches!(s, AlignmentSpan::ModOnly { .. }));
    assert!(has_mod_only, "spans: {r:?}");
}

#[test]
fn key_removed() {
    let r = align(r#"{"a":1,"b":2}"#, r#"{"a":1}"#);
    let has_orig_only = r
        .iter()
        .any(|s| matches!(s, AlignmentSpan::OrigOnly { .. }));
    assert!(has_orig_only, "spans: {r:?}");
}

#[test]
fn reorder_matches_keys() {
    let r = align(r#"{"a":1,"b":2}"#, r#"{"b":2,"a":1}"#);
    // Both keys exist on both sides; the only structural mismatch is the
    // trailing-comma asymmetry (last member has no trailing comma).
    let total_one_sided = r
        .iter()
        .filter(|s| {
            matches!(
                s,
                AlignmentSpan::OrigOnly { .. } | AlignmentSpan::ModOnly { .. }
            )
        })
        .count();
    assert!(total_one_sided <= 2, "spans: {r:?}");
    // The "a":1 substring should align even though it's at different positions.
    let has_cross_position_aligned = r.iter().any(|s| matches!(s, AlignmentSpan::Aligned { orig, mod_ } if orig != mod_ && orig.end - orig.start == 5));
    assert!(
        has_cross_position_aligned,
        "expected key-value aligned at differing positions: {r:?}"
    );
}

#[test]
fn type_change_emits_both_sides() {
    let r = align(r#"{"x":"foo"}"#, r#"{"x":42}"#);
    let orig_only = r
        .iter()
        .filter(|s| matches!(s, AlignmentSpan::OrigOnly { .. }))
        .count();
    let mod_only = r
        .iter()
        .filter(|s| matches!(s, AlignmentSpan::ModOnly { .. }))
        .count();
    assert!(orig_only >= 1 && mod_only >= 1, "spans: {r:?}");
}

#[test]
fn array_lcs_matches_unchanged_elements() {
    // Insert "99" between 1 and 2 in modified.
    let r = align("[1,2,3]", "[1,99,2,3]");
    // We expect at least one Aligned span and at least one ModOnly span.
    let aligned = r
        .iter()
        .filter(|s| matches!(s, AlignmentSpan::Aligned { .. }))
        .count();
    let mod_only = r
        .iter()
        .filter(|s| matches!(s, AlignmentSpan::ModOnly { .. }))
        .count();
    assert!(aligned >= 1 && mod_only >= 1, "spans: {r:?}");
}

#[test]
fn coalesce_merges_adjacent_aligned() {
    let r = align(r#"[1,2,3]"#, r#"[1,2,3]"#);
    // Identical, should fold into 1 Aligned span.
    assert_eq!(r.len(), 1);
}

#[test]
fn whitespace_changes() {
    // Same logical content, different whitespace.
    let r = align(r#"{"a":1}"#, r#"{ "a" : 1 }"#);
    // Mod side has extra spaces; expect Aligned spans plus ModOnly for the spaces.
    let mod_only = r
        .iter()
        .filter(|s| matches!(s, AlignmentSpan::ModOnly { .. }))
        .count();
    assert!(mod_only >= 1, "spans: {r:?}");
}
