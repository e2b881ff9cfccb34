use arbvis::hf_url::{
    bucket_url, endpoint, is_hf_path, is_hf_url, is_repo_level, list_repo_args,
    list_repo_as_http_specs, make_remote_repo, parse, parse_hf_output, range_header, read_token,
    require_token, resolve_args, resolve_bucket_args, resolve_to_http, split_owner_name,
    HfTreeEntry, RepoKind,
};

fn entry(path: &str, size: Option<u64>) -> HfTreeEntry {
    HfTreeEntry {
        path: path.to_string(),
        size,
        blob_id: None,
        xet_hash: Some(format!("hash of {path}")),
        lfs: None,
    }
}

#[test]
fn faults_of_a_url_are_told() {
    let message = |s: &str| parse(s).unwrap_err().message();
    assert_eq!(message("model"), "expected hf:// prefix, got \"model\"");
    assert_eq!(message("hf://"), "empty hf:// URL");
    assert_eq!(
        message("hf://owner"),
        "hf:// URL must have the form hf://[type/]owner/repo[@rev][/path], got \"hf://owner\""
    );
    assert_eq!(
        message("hf://o/r@/f"),
        "hf:// URL has an empty revision after '@': \"hf://o/r@/f\"; either omit the '@' or specify a branch/commit"
    );
    assert_eq!(
        message("hf://o/@rev"),
        "hf:// URL is missing owner or repo name: \"hf://o/@rev\""
    );
}

#[test]
fn buckets_cannot_be_streamed() {
    let url = parse("hf://buckets/o/b/f").unwrap();
    let e = make_remote_repo(&url).unwrap_err();
    assert_eq!(
        e.message(),
        "bucket URLs do not support range/streaming reads (hf://buckets/o/b/...). Download the file first or use a model/dataset/space URL."
    );
    assert!(resolve_to_http(&url, &vec![entry("f", Some(1))]).is_err());
    let e = RepoKind::Bucket.cli_repo_type().unwrap_err();
    assert_eq!(
        e.message(),
        "buckets are addressed via `hf buckets` / `hf sync`, not the --type flag"
    );
}

#[test]
fn files_are_found_in_the_listing() {
    let entries = vec![entry("d", None), entry("d/f.bin", Some(7)), entry("d/f.bin", Some(9))];
    let url = parse("hf://datasets/o/r@v1/d/f.bin").unwrap();
    let spec = resolve_to_http(&url, &entries).unwrap();
    assert_eq!(spec.filename, "d/f.bin");
    assert_eq!(spec.size, 7);
    assert_eq!(spec.revision, "v1");
    assert_eq!(spec.xet_hash.as_deref(), Some("hash of d/f.bin"));
    assert_eq!(
        spec.repo.resolve_url("https://huggingface.co", "v1", "d/f.bin"),
        "https://huggingface.co/datasets/o/r/resolve/v1/d/f.bin"
    );
    let missing = parse("hf://datasets/o/r@v1/d").unwrap();
    assert_eq!(
        resolve_to_http(&missing, &entries).unwrap_err().message(),
        "no file `d` in datasets o/r@v1 (or it's a directory)"
    );
}

#[test]
fn repos_are_listed_file_by_file() {
    let url = parse("hf://o/r").unwrap();
    let entries = vec![entry("b", Some(2)), entry("dir", None), entry("a", Some(1))];
    let specs = list_repo_as_http_specs(&url, &entries).unwrap();
    let mut names: Vec<&str> = specs.iter().map(|(n, _)| n.as_str()).collect();
    names.sort();
    assert_eq!(names, ["a", "b"]);
    let e = list_repo_as_http_specs(&url, &vec![entry("dir", None)]).unwrap_err();
    assert_eq!(e.message(), "repo o/r has no files");
}

#[test]
fn tokens_have_their_precedence() {
    let s = |t: &str| Some(t.to_string());
    assert_eq!(read_token(false, s("env"), s("file"), s("home")), s("env"));
    assert_eq!(read_token(false, s(" "), s(" file\n"), s("home")), s("file"));
    assert_eq!(read_token(false, None, None, s("home")), s("home"));
    assert_eq!(read_token(true, s("env"), None, None), None);
    assert!(require_token(false, &s("t")).is_ok());
    assert_eq!(
        require_token(false, &None).unwrap_err().message(),
        "HF token required for hf:// output; set HF_TOKEN or run `hf auth login`"
    );
    assert_eq!(
        require_token(true, &None).unwrap_err().message(),
        "HF_HUB_DISABLE_IMPLICIT_TOKEN is set; set HF_TOKEN explicitly or unset this var"
    );
}

#[test]
fn names_are_split_at_the_first_slash() {
    assert_eq!(
        split_owner_name("o/r/x").unwrap(),
        ("o".to_string(), "r/x".to_string())
    );
    assert_eq!(
        split_owner_name("o").unwrap_err().message(),
        "expected owner/name, got \"o\""
    );
}

#[test]
fn calls_of_the_tool_are_spelled_out() {
    assert_eq!(
        list_repo_args(RepoKind::Bucket, "o/b", "main"),
        ["buckets", "ls", "-R", "o/b"]
    );
    assert_eq!(
        list_repo_args(RepoKind::Dataset, "o/d", "v1"),
        ["datasets", "list", "-R", "--revision", "v1", "o/d"]
    );
    assert_eq!(bucket_url("o/b", ""), "hf://buckets/o/b");
    assert_eq!(bucket_url("o/b", "p"), "hf://buckets/o/b/p");
    let args = resolve_args(&parse("hf://o/r@v1/f.bin").unwrap()).unwrap();
    assert_eq!(args[0], "download");
    assert!(args.contains(&"f.bin".to_string()));
    assert!(resolve_args(&parse("hf://buckets/o/b/f").unwrap()).is_err());
    let args = resolve_bucket_args(&parse("hf://buckets/o/b/f").unwrap(), "/tmp/x");
    assert!(args.contains(&"hf://buckets/o/b/f".to_string()));
    assert!(args.contains(&"/tmp/x".to_string()));
}

#[test]
fn headers_and_endpoints() {
    assert_eq!(range_header(0, 8), "bytes=0-7");
    assert_eq!(range_header(5, 5), "bytes=5-4");
    assert_eq!(endpoint(None), "https://huggingface.co");
    assert!(is_hf_url("hf://x") && !is_hf_url("x"));
    assert!(is_hf_path(Some("hf://x")) && !is_hf_path(None));
    assert!(is_repo_level("hf://o/r").unwrap());
    assert!(!is_repo_level("hf://o/r/f").unwrap());
}

#[test]
fn output_goes_below_its_prefix() {
    let out = parse_hf_output("hf://datasets/me/vis/run1").unwrap();
    assert_eq!(out.path_prefix, "run1");
    assert_eq!(out.tile_repo_path(3, 1, 2, "avif"), "run1/tiles/3/1/2.avif");
    assert_eq!(out.index_html_path(), "run1/index.html");
    assert_eq!(out.labels_json_path(), "run1/labels.json");
    let root = parse_hf_output("hf://datasets/me/vis").unwrap();
    assert_eq!(root.tile_repo_path(0, 0, 0, "png"), "tiles/0/0/0.png");
    assert!(parse_hf_output("local").is_err());
}
