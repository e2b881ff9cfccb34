use arbvis::diff::{
    diff_route, directory_diff_sources, partition_tensor_files, pick_builder, plain_bytes_diff,
    plan_remote_diff, remote_diff_sources, DiffBuildCtx, DiffRoute, DiffSourceBuilder, DirFile,
    JsonDiffBuilder, PairBuilder, PathKind, PlainBytesDiffBuilder, SizeRule, TensorDiffBuilder,
};
use arbvis::format::dtype::Dtype;
use arbvis::format::types::{DiffFill, DiffMetric, TensorMeta};
use arbvis::json_diff::source::{build_json_diff_sources, fallback_byte_diff};
use arbvis::source::{
    diff_byte, diff_range, prepare_sources_from_specs, rms_sample_len, stdin_source, tensor_window,
    InputFile, InputSpec, Side, Source, SourceKind,
};
use arbvis::tensor_diff::build_multi_safetensors_diff_sources;
use arbvis::tensor_match::{
    find_matched_tensor_pairs, find_strip_depths, match_under_strip_depths,
    strip_prefix_components,
};

fn builders() -> Vec<PairBuilder> {
    vec![
        PairBuilder::PlainBytes(PlainBytesDiffBuilder {}),
        PairBuilder::Json(JsonDiffBuilder {}),
        PairBuilder::Tensors(TensorDiffBuilder {}),
    ]
}

fn pair(original: &str, modified: &str) -> DiffBuildCtx {
    DiffBuildCtx {
        original: original.to_string(),
        modified: modified.to_string(),
        is_finetune: false,
    }
}

#[test]
fn files_are_compared_by_kind() {
    let bs = builders();
    let id = |o: &str, m: &str| pick_builder(&bs, &pair(o, m)).unwrap().id();
    assert_eq!(id("a.safetensors", "b.safetensors"), "tensors");
    assert_eq!(id("a.json", "b.jsonl"), "json");
    assert_eq!(id("a.json", "b.bin"), "plain-bytes");
    assert_eq!(id("a.safetensors", "b.json"), "plain-bytes");
}

#[test]
fn a_pair_without_builder_is_refused() {
    let none: Vec<PairBuilder> = Vec::new();
    let e = pick_builder(&none, &pair("a", "b")).unwrap_err();
    assert_eq!(
        e.message(),
        "--diff: no registered builder handled the input pair (a vs b)"
    );
    let json_only = vec![PairBuilder::Json(JsonDiffBuilder {})];
    assert!(pick_builder(&json_only, &pair("a", "b")).is_err());
}

#[test]
fn both_sides_are_of_one_kind() {
    assert_eq!(diff_route(PathKind::File, PathKind::File).unwrap(), DiffRoute::FilePair);
    assert_eq!(
        diff_route(PathKind::Directory, PathKind::Directory).unwrap(),
        DiffRoute::DirectoryPair
    );
    let e = diff_route(PathKind::File, PathKind::Missing).unwrap_err();
    assert_eq!(
        e.message(),
        "--diff: both arguments must be files or both must be directories (got file and missing path)"
    );
}

#[test]
fn plain_files_need_one_size() {
    let (sources, total) = plain_bytes_diff("a", "b", 9, 9).unwrap();
    assert_eq!(total, 9);
    assert_eq!(sources.len(), 1);
    assert!(matches!(&sources[0].kind, SourceKind::Diff { original, modified }
        if original == "a" && modified == "b"));
    let e = plain_bytes_diff("a", "b", 9, 10).unwrap_err();
    assert_eq!(
        e.message(),
        "--diff: file sizes differ (9 bytes vs 10 bytes): a vs b"
    );
}

fn file(rel: &str, root: &str, size: Option<u64>) -> DirFile {
    DirFile {
        rel: rel.to_string(),
        path: format!("{root}/{rel}"),
        size,
    }
}

fn shown(sources: &[Source]) -> Vec<(String, u64)> {
    sources.iter().map(|s| (s.name(), s.byte_size)).collect()
}

#[test]
fn directories_pair_up_by_name() {
    let orig = vec![
        file("b.txt", "o", Some(5)),
        file("a.txt", "o", Some(3)),
        file("gone.txt", "o", Some(7)),
        file("unreadable", "o", None),
    ];
    let modified = vec![
        file("a.txt", "m", Some(3)),
        file("b.txt", "m", Some(8)),
        file("new.txt", "m", Some(2)),
    ];
    let (sources, total) =
        directory_diff_sources(Vec::new(), 0, &orig, &modified, SizeRule::Pad, false).unwrap();
    assert!(matches!(&sources[0].kind, SourceKind::Diff { .. }));
    let names = shown(&sources);
    assert_eq!(names[0], ("a.txt".to_string(), 3));
    assert_eq!(names[1].1, 8);
    assert!(names.iter().any(|(n, s)| n.contains("gone.txt") && *s == 7));
    assert!(names.iter().any(|(n, s)| n.contains("new.txt") && *s == 2));
    assert_eq!(total, names.iter().map(|(_, s)| s).sum::<u64>());
    for (i, s) in sources.iter().enumerate() {
        assert_eq!(s.file_idx, i);
    }
}

#[test]
fn directories_without_files_are_refused() {
    let e = directory_diff_sources(
        Vec::new(),
        0,
        &Vec::new(),
        &Vec::new(),
        SizeRule::Separate,
        false,
    )
    .unwrap_err();
    assert_eq!(
        e.message(),
        "--diff: no matching file pairs found between the two directories"
    );
}

#[test]
fn tensor_files_are_set_apart() {
    let (tensors, rest) = partition_tensor_files(vec![
        file("a.safetensors", "o", Some(1)),
        file("b.txt", "o", Some(2)),
        file("c.safetensors", "o", Some(3)),
    ]);
    assert_eq!(tensors.iter().map(|f| f.rel.as_str()).collect::<Vec<_>>(), [
        "a.safetensors",
        "c.safetensors"
    ]);
    assert_eq!(rest.iter().map(|f| f.rel.as_str()).collect::<Vec<_>>(), ["b.txt"]);
}

fn listing(v: &[(&str, u64)]) -> Vec<(String, u64)> {
    v.iter().map(|(n, s)| (n.to_string(), *s)).collect()
}

#[test]
fn repos_are_compared_by_name_and_size() {
    let orig = listing(&[("same", 4), ("resized", 5), ("gone", 6), ("m.safetensors", 9)]);
    let modified = listing(&[("same", 4), ("resized", 7), ("new", 8), ("m.safetensors", 9)]);
    let plan = plan_remote_diff(&orig, &modified);
    assert_eq!(plan.jobs, ["same"]);
    assert_eq!(plan.orig_only, listing(&[("gone", 6), ("resized", 5)]));
    assert_eq!(plan.mod_only, listing(&[("new", 8), ("resized", 7)]));
    let diffs = vec![("same".to_string(), vec![127u8; 4])];
    let (sources, total) = remote_diff_sources(Vec::new(), 0, diffs, &plan, true).unwrap();
    assert_eq!(total, 4 + 6 + 5 + 8 + 7);
    assert_eq!(sources[0].name(), "same");
    assert_eq!(sources[1].name(), "[only in original] gone");
    assert!(matches!(
        sources[1].kind,
        SourceKind::UnmatchedRegion { fill: DiffFill::Grey }
    ));
    assert_eq!(sources[3].name(), "[only in modified] new");
    assert!(matches!(
        sources[3].kind,
        SourceKind::UnmatchedRegion { fill: DiffFill::Green }
    ));
}

#[test]
fn repos_without_files_are_refused() {
    let plan = plan_remote_diff(&Vec::new(), &Vec::new());
    let e = remote_diff_sources(Vec::new(), 0, Vec::new(), &plan, false).unwrap_err();
    assert_eq!(
        e.message(),
        "--diff: no matching file pairs found between the two repos"
    );
}

#[test]
fn bytes_are_compared_round_the_middle() {
    assert_eq!(diff_byte(7, 7), 127);
    assert_eq!(diff_byte(0, 255), 254);
    assert_eq!(diff_byte(255, 0), 0);
    assert_eq!(diff_byte(10, 12), 128);
    assert_eq!(diff_byte(12, 10), 126);
    // The floating-point form of the same scale.
    for a in 0..=255u8 {
        for b in 0..=255u8 {
            let delta = b as i16 - a as i16;
            let brightness = (delta.unsigned_abs() as f32 / 255.0 * 127.0).round() as u8;
            let want = if delta >= 0 { 127 + brightness } else { 127 - brightness };
            assert_eq!(diff_byte(a, b), want);
        }
    }
    assert_eq!(diff_range(&[1, 2, 3], &[1, 2], 1, 3), [127, diff_byte(3, 0), 127]);
}

#[test]
fn json_files_are_compared_by_structure() {
    let o = br#"{"a": 1, "b": 2}"#;
    let m = br#"{"a": 1, "c": 3, "b": 2}"#;
    let (sources, total) = build_json_diff_sources("o.json", "m.json", o, m, false);
    assert_eq!(total, sources.iter().map(|s| s.byte_size).sum::<u64>());
    assert!(sources.iter().any(|s| matches!(s.kind, SourceKind::RangeDiff { .. })));
    assert!(sources.iter().any(|s| matches!(
        s.kind,
        SourceKind::OneSidedRange { side: Side::Modified, .. }
    )));
}

#[test]
fn broken_json_is_compared_as_bytes() {
    let (sources, total) = build_json_diff_sources("o.json", "m.json", b"{", b"{}", false);
    assert_eq!(total, 3);
    assert_eq!(sources.len(), 2);
    let (sources, total) = fallback_byte_diff("o.json", "m.json", 4, 4, false);
    assert_eq!((sources.len(), total), (1, 4));
}

fn names(v: &[&str]) -> Vec<String> {
    v.iter().map(|s| s.to_string()).collect()
}

#[test]
fn tensors_match_by_name() {
    let m = find_matched_tensor_pairs(&names(&["b", "a", "x"]), &names(&["a", "b", "y"]));
    assert_eq!(m.pairs, [
        ("a".to_string(), "a".to_string()),
        ("b".to_string(), "b".to_string())
    ]);
    assert_eq!(m.orig_only, ["x"]);
    assert_eq!(m.mod_only, ["y"]);
}

#[test]
fn tensors_match_under_another_prefix() {
    assert_eq!(strip_prefix_components("a.b.c", 1), Some("b.c".to_string()));
    assert_eq!(strip_prefix_components("a.b.c", 3), None);
    let o = names(&["model.layers.0.w", "model.layers.1.w"]);
    let m = names(&["base.model.layers.0.w", "base.model.layers.1.w"]);
    assert_eq!(find_strip_depths(&o, &m), (0, 1));
    assert_eq!(find_strip_depths(&names(&["a.w"]), &names(&["a.w"])), (0, 0));
    assert_eq!(match_under_strip_depths(&o, &m, 0, 1).len(), 2);
    let r = find_matched_tensor_pairs(&o, &m);
    assert_eq!(r.pairs.len(), 2);
    assert!(r.orig_only.is_empty() && r.mod_only.is_empty());
    assert_eq!(r.pairs[0].1, "base.model.layers.0.w");
}

fn tensor(name: &str, shape: &[u64], start: u64) -> TensorMeta {
    TensorMeta {
        name: name.to_string(),
        dtype: Dtype::F32,
        shape: shape.to_vec(),
        file_start: start,
        file_end: start + 4 * shape.iter().product::<u64>(),
    }
}

#[test]
fn models_are_compared_tensor_by_tensor() {
    let orig = vec![
        vec![tensor("same", &[2, 3], 100), tensor("reshaped", &[4], 200)],
        vec![tensor("gone", &[5], 100), tensor("same", &[9], 300)],
    ];
    let modified = vec![vec![
        tensor("same", &[2, 3], 64),
        tensor("reshaped", &[2, 2], 128),
        tensor("new", &[7], 160),
        tensor("empty", &[0], 999),
    ]];
    let (sources, total) =
        build_multi_safetensors_diff_sources(&orig, &modified, false, DiffMetric::Exact);
    assert_eq!(total, 6 + 5 + 4 + 7 + 4);
    match &sources[0].kind {
        SourceKind::TensorDiff { orig_file, mod_file, orig_start, mod_start, .. } => {
            assert_eq!((*orig_file, *mod_file, *orig_start, *mod_start), (0, 0, 100, 64));
        }
        other => panic!("unexpected kind {other:?}"),
    }
    assert_eq!(sources[1].byte_size, 5);
    assert!(sources[1].name().starts_with("[only in original] gone"));
    assert!(matches!(
        sources[1].kind,
        SourceKind::UnmatchedRegion { fill: DiffFill::Red }
    ));
    assert!(sources[2].name().starts_with("[only in original] reshaped"));
    assert!(sources[3].name().starts_with("[only in modified] new"));
    assert!(sources[4].name().starts_with("[only in modified] reshaped"));
    assert!(matches!(
        sources[4].kind,
        SourceKind::UnmatchedRegion { fill: DiffFill::Green }
    ));
    assert_eq!(sources.len(), 5);
}

#[test]
fn tensor_reads_are_whole_elements() {
    assert_eq!(tensor_window(100, Dtype::F32, 3, 5), (112, 20));
    assert_eq!(rms_sample_len(&tensor("t", &[10], 0)), 40);
    assert_eq!(rms_sample_len(&tensor("t", &[100_000], 0)), 65_536);
}

#[test]
fn inputs_become_sources() {
    let (sources, total) = prepare_sources_from_specs(vec![
        InputFile {
            spec: InputSpec::Local("dir/a.bin".to_string()),
            size: Some(10),
            safetensors: None,
        },
        InputFile {
            spec: InputSpec::Local("missing".to_string()),
            size: None,
            safetensors: None,
        },
        InputFile {
            spec: InputSpec::Local("b.bin".to_string()),
            size: Some(5),
            safetensors: None,
        },
    ]);
    assert_eq!(total, 15);
    assert_eq!(shown(&sources), listing(&[("a.bin", 10), ("b.bin", 5)]));
    assert_eq!(sources[1].file_idx, 1);
    let (sources, total) = stdin_source(vec![1, 2, 3]);
    assert_eq!(total, 3);
    assert_eq!(sources[0].name(), "stdin");
}
