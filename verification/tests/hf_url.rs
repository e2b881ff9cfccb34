use arbvis::hf_url::{is_repo_level, parse, HfUrl, HubError, RepoKind};

fn p(s: &str) -> Result<HfUrl, HubError> {
    parse(s)
}

#[test]
fn parse_owner_repo_default_model() {
    let u = p("hf://alice/foo").unwrap();
    assert_eq!(u.kind, RepoKind::Model);
    assert_eq!(u.repo_id, "alice/foo");
    assert_eq!(u.revision, "main");
    assert_eq!(u.path_in_repo, "");
}

#[test]
fn parse_owner_repo_with_revision() {
    let u = p("hf://alice/foo@dev").unwrap();
    assert_eq!(u.revision, "dev");
    assert_eq!(u.path_in_repo, "");
}

#[test]
fn parse_owner_repo_with_file() {
    let u = p("hf://alice/foo/path/to/file.bin").unwrap();
    assert_eq!(u.repo_id, "alice/foo");
    assert_eq!(u.revision, "main");
    assert_eq!(u.path_in_repo, "path/to/file.bin");
}

#[test]
fn parse_typed_prefixes() {
    assert_eq!(p("hf://models/a/b").unwrap().kind, RepoKind::Model);
    assert_eq!(p("hf://datasets/a/b").unwrap().kind, RepoKind::Dataset);
    assert_eq!(p("hf://spaces/a/b").unwrap().kind, RepoKind::Space);
    assert_eq!(p("hf://buckets/a/b").unwrap().kind, RepoKind::Bucket);
}

#[test]
fn parse_dataset_with_revision_and_path() {
    let u = p("hf://datasets/alice/foo@v1/path/to/file").unwrap();
    assert_eq!(u.kind, RepoKind::Dataset);
    assert_eq!(u.repo_id, "alice/foo");
    assert_eq!(u.revision, "v1");
    assert_eq!(u.path_in_repo, "path/to/file");
}

#[test]
fn parse_trailing_slash_strips_to_repo_level() {
    let u = p("hf://alice/foo/").unwrap();
    assert_eq!(u.path_in_repo, "");
}

#[test]
fn parse_trailing_slash_on_path() {
    let u = p("hf://alice/foo/path/").unwrap();
    assert_eq!(u.path_in_repo, "path");
}

#[test]
fn parse_duplicate_slashes_collapse() {
    let u = p("hf://alice/foo//path//file").unwrap();
    assert_eq!(u.path_in_repo, "path/file");
}

#[test]
fn parse_empty_revision_rejected() {
    let err = p("hf://alice/foo@").unwrap_err().message();
    assert!(err.contains("empty revision"), "unexpected error: {err}");
}

#[test]
fn parse_missing_prefix_rejected() {
    assert!(p("alice/foo").is_err());
    assert!(p("https://huggingface.co/alice/foo").is_err());
}

#[test]
fn parse_empty_url_rejected() {
    assert!(p("hf://").is_err());
}

#[test]
fn parse_missing_repo_rejected() {
    assert!(p("hf://alice").is_err());
    assert!(p("hf://datasets/alice").is_err());
}

#[test]
fn is_repo_level_treats_non_hf_as_not_a_repo() {
    // A local path or other non-hf:// string is "not a repo URL" rather
    // than an error — the diff dispatcher in main.rs relies on this to
    // route local paths through the local code path.
    assert!(!is_repo_level("not-an-hf-url").unwrap());
    assert!(!is_repo_level("/tmp/foo.safetensors").unwrap());
    // Malformed hf:// inputs still error.
    assert!(is_repo_level("hf://").is_err());
    // Valid repo-level / file-level URLs return the expected bool.
    assert!(is_repo_level("hf://a/b").unwrap());
    assert!(!is_repo_level("hf://a/b/file").unwrap());
}

#[test]
fn bucket_url_parses_without_revision() {
    let u = p("hf://buckets/alice/foo/data/x").unwrap();
    assert_eq!(u.kind, RepoKind::Bucket);
    assert_eq!(u.repo_id, "alice/foo");
    assert_eq!(u.path_in_repo, "data/x");
}

#[test]
fn a_printed_address_is_read_back() {
    for raw in [
        "hf://o/r",
        "hf://datasets//o/r@v1.0@x/a//b/",
        "hf://buckets/o/b/dir/file.bin",
        "hf://spaces/o/r@main",
        "hf://models/models/datasets/spaces",
    ] {
        let u = parse(raw).unwrap();
        let printed = format!(
            "hf://{}/{}@{}/{}",
            u.kind.api_segment(),
            u.repo_id,
            u.revision,
            u.path_in_repo
        );
        let v = parse(&printed).unwrap();
        assert_eq!(v.kind, u.kind);
        assert_eq!(v.repo_id, u.repo_id);
        assert_eq!(v.revision, u.revision);
        assert_eq!(v.path_in_repo, u.path_in_repo);
        let p = &u.path_in_repo;
        assert!(!p.starts_with('/') && !p.ends_with('/') && !p.contains("//"));
    }
}
