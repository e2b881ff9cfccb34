use arbvis::deploy::{
    copy_labels_args, create_space_args, create_space_bucket, derive_bucket_id, fill_template,
    space_bucket, space_exists, space_repo_name, upload_dir, validate_tiles_dir, BundleParts,
};
use arbvis::hf_upload::{CommitPlan, HfTileSink};
use arbvis::hf_url::{HfOutputSpec, RepoKind};

#[test]
fn buckets_are_named_after_their_space() {
    assert_eq!(derive_bucket_id("me/vis").unwrap(), "me/vis_bucket");
    let spec = space_bucket("me/vis").unwrap();
    assert_eq!(spec.repo_id, "me/vis_bucket");
    assert_eq!(spec.kind, RepoKind::Bucket);
    assert_eq!(spec.revision, "main");
    assert_eq!(spec.path_prefix, "");
}

#[test]
fn a_space_needs_a_namespace() {
    let e = derive_bucket_id("vis").unwrap_err();
    assert_eq!(e.message(), "--space must be namespace/repo, got \"vis\"");
    assert!(space_bucket("vis").is_err());
}

#[test]
fn a_space_is_not_named_like_a_bucket() {
    let e = derive_bucket_id("me/vis_bucket").unwrap_err();
    assert_eq!(
        e.message(),
        "--space repo name \"vis_bucket\" already ends in '_bucket'; arbvis appends '_bucket' to derive the storage bucket and refuses to double-suffix it. Pass a Space name without the '_bucket' suffix."
    );
}

#[test]
fn directories_are_uploaded_by_kind() {
    assert_eq!(
        upload_dir("out", "me/b", RepoKind::Bucket, ""),
        ["sync", "out", "hf://buckets/me/b", "--delete"]
    );
    assert_eq!(
        upload_dir("out", "me/b", RepoKind::Bucket, "sub/dir"),
        ["sync", "out", "hf://buckets/me/b/sub/dir", "--delete"]
    );
    assert_eq!(
        upload_dir("out", "me/d", RepoKind::Dataset, "vis"),
        ["upload", "--repo-type", "dataset", "me/d", "out", "vis"]
    );
    assert_eq!(
        upload_dir("out", "me/m", RepoKind::Model, ""),
        ["upload", "--repo-type", "model", "me/m", "out", "."]
    );
}

#[test]
fn spaces_and_buckets_are_created_once() {
    assert_eq!(
        create_space_bucket("me/vis_bucket"),
        ["buckets", "create", "me/vis_bucket", "--exist-ok"]
    );
    assert_eq!(
        create_space_args("me/vis"),
        ["repos", "create", "--type", "space", "--space-sdk", "docker", "--exist-ok", "me/vis"]
    );
    assert_eq!(
        copy_labels_args("out/labels.json", "me/vis_bucket"),
        ["buckets", "cp", "out/labels.json", "hf://buckets/me/vis_bucket/labels.json"]
    );
}

#[test]
fn existence_is_told_by_the_status() {
    assert!(!space_exists("me/vis", 404, "404 Not Found").unwrap());
    for s in [200, 204, 299, 401, 403] {
        assert!(space_exists("me/vis", s, "").unwrap());
    }
    let e = space_exists("me/vis", 500, "500 Internal Server Error").unwrap_err();
    assert_eq!(
        e.message(),
        "HF space_info for me/vis returned unexpected status 500 Internal Server Error"
    );
}

#[test]
fn bundles_are_complete() {
    let all = BundleParts { index: true, labels: true, tiles: true };
    assert!(validate_tiles_dir("out", all).is_ok());
    let e = validate_tiles_dir("out", BundleParts { index: false, ..all }).unwrap_err();
    assert_eq!(e.message(), "index.html not found in out");
    let e = validate_tiles_dir("out", BundleParts { labels: false, ..all }).unwrap_err();
    assert_eq!(e.message(), "labels.json not found in out");
    let e = validate_tiles_dir("out", BundleParts { tiles: false, ..all }).unwrap_err();
    assert_eq!(e.message(), "tiles/ directory not found in out");
}

#[test]
fn templates_are_filled_everywhere() {
    assert_eq!(fill_template("a __X__ b __X__", "__X__", "1"), "a 1 b 1");
    assert_eq!(fill_template("aaa", "aa", "b"), "ba");
    assert_eq!(fill_template("none", "__X__", "1"), "none");
    assert_eq!(fill_template("__X", "__X__", "1"), "__X");
    assert_eq!(space_repo_name("me/vis"), "vis");
    assert_eq!(space_repo_name("me/vis/more"), "vis");
    assert_eq!(space_repo_name("vis"), "vis");
}

fn spec(kind: RepoKind) -> HfOutputSpec {
    HfOutputSpec {
        repo_id: "me/r".to_string(),
        kind,
        revision: "dev".to_string(),
        path_prefix: "p".to_string(),
    }
}

#[test]
fn staged_tiles_are_committed() {
    let empty = HfTileSink::new(spec(RepoKind::Dataset), "/tmp/t".to_string());
    assert!(matches!(empty.commit(), CommitPlan::Skip));

    let mut sink = HfTileSink::new(spec(RepoKind::Dataset), "/tmp/t".to_string());
    assert_eq!(sink.upload_tile("p/tiles/0/0/0.avif".to_string()), "/tmp/t/p/tiles/0/0/0.avif");
    match sink.commit() {
        CommitPlan::Upload { args } => assert_eq!(
            args,
            [
                "upload-large-folder",
                "--repo-type",
                "dataset",
                "--revision",
                "dev",
                "me/r",
                "/tmp/t"
            ]
        ),
        CommitPlan::Skip => panic!("something was staged"),
    }

    let mut sink = HfTileSink::new(spec(RepoKind::Bucket), "/tmp/t".to_string());
    sink.upload_tile("x".to_string());
    match sink.commit() {
        CommitPlan::Upload { args } => {
            assert_eq!(args, ["sync", "/tmp/t", "hf://buckets/me/r/p", "--delete"])
        }
        CommitPlan::Skip => panic!("something was staged"),
    }
}
