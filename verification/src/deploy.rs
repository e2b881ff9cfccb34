//! What an upload to the Hub and the deployment of a Space ask of the `hf`
//! tool, and the files a Space is made of.

use crate::hf_url;
use crate::hf_url::{bucket_url, split_owner_name, HfOutputSpec, RepoKind};
use crate::text;
use crate::text::{chars_at, chars_of, ends_with, find_char, quoted, text_of};
use vstd::prelude::*;
use vstd::string::StringExecFns;

verus! {

/// Why a deployment stops.
#[derive(Debug)]
pub enum DeployError {
    /// The Space is not named `namespace/repo`.
    BadSpaceId { space_id: String },
    /// The Space is named like a storage bucket.
    NamedLikeBucket { repo: String },
    /// The Hub's answer says neither that the Space exists nor that it does not.
    UnexpectedStatus { space_id: String, status: String },
    /// The bundle lacks a file.
    MissingFile { name: String, dir: String },
    /// The bundle lacks its tiles.
    MissingTiles { dir: String },
}

/// Why a deployment stops.
pub ghost enum DeployFault {
    BadSpaceId { space_id: Seq<char> },
    NamedLikeBucket { repo: Seq<char> },
    UnexpectedStatus { space_id: Seq<char>, status: Seq<char> },
    MissingFile { name: Seq<char>, dir: Seq<char> },
    MissingTiles { dir: Seq<char> },
}

impl View for DeployError {
    type V = DeployFault;

    open spec fn view(&self) -> DeployFault {
        match *self {
            DeployError::BadSpaceId { space_id } => DeployFault::BadSpaceId { space_id: space_id@ },
            DeployError::NamedLikeBucket { repo } => DeployFault::NamedLikeBucket { repo: repo@ },
            DeployError::UnexpectedStatus { space_id, status } => DeployFault::UnexpectedStatus {
                space_id: space_id@,
                status: status@,
            },
            DeployError::MissingFile { name, dir } => DeployFault::MissingFile {
                name: name@,
                dir: dir@,
            },
            DeployError::MissingTiles { dir } => DeployFault::MissingTiles { dir: dir@ },
        }
    }
}

/// The message for a fault.
pub open spec fn deploy_message(f: DeployFault) -> Seq<char> {
    match f {
        DeployFault::BadSpaceId { space_id } => "--space must be namespace/repo, got "@
            + text::debug_text(space_id),
        DeployFault::NamedLikeBucket { repo } => "--space repo name "@ + text::debug_text(repo)
            + " already ends in '_bucket'; arbvis appends '_bucket' to derive the storage bucket and refuses to double-suffix it. Pass a Space name without the '_bucket' suffix."@,
        DeployFault::UnexpectedStatus { space_id, status } => "HF space_info for "@ + space_id
            + " returned unexpected status "@ + status,
        DeployFault::MissingFile { name, dir } => name + " not found in "@ + dir,
        DeployFault::MissingTiles { dir } => "tiles/ directory not found in "@ + dir,
    }
}

impl DeployError {
    /// The message for the error.
    pub fn message(&self) -> (s: String)
        ensures
            s@ == deploy_message(self@),
    {
        match self {
            DeployError::BadSpaceId { space_id } => {
                "--space must be namespace/repo, got ".to_owned().concat(
                    quoted(space_id.as_str()).as_str(),
                )
            },
            DeployError::NamedLikeBucket { repo } => "--space repo name ".to_owned().concat(
                quoted(repo.as_str()).as_str(),
            ).concat(
                " already ends in '_bucket'; arbvis appends '_bucket' to derive the storage bucket and refuses to double-suffix it. Pass a Space name without the '_bucket' suffix.",
            ),
            DeployError::UnexpectedStatus { space_id, status } => {
                "HF space_info for ".to_owned().concat(space_id.as_str()).concat(
                    " returned unexpected status ",
                ).concat(status.as_str())
            },
            DeployError::MissingFile { name, dir } => name.clone().concat(
                " not found in ",
            ).concat(dir.as_str()),
            DeployError::MissingTiles { dir } => {
                "tiles/ directory not found in ".to_owned().concat(dir.as_str())
            },
        }
    }
}

/// The arguments of an upload of a directory to a path of a repo: buckets are
/// synchronised with deletion, other repos are uploaded below the path, the
/// root of the repo where the path is empty.
pub open spec fn upload_dir_argv(
    local_dir: Seq<char>,
    repo_id: Seq<char>,
    kind: RepoKind,
    path_prefix: Seq<char>,
) -> Seq<Seq<char>> {
    match hf_url::repo_type_of(kind) {
        None => seq!["sync"@, local_dir, hf_url::bucket_address(repo_id, path_prefix), "--delete"@],
        Some(repo_type) => seq![
            "upload"@,
            "--repo-type"@,
            repo_type,
            repo_id,
            local_dir,
            if path_prefix.len() == 0 {
                "."@
            } else {
                path_prefix
            },
        ],
    }
}

/// The arguments of an upload of a local directory tree to a path prefix in a
/// Hub repo.
pub fn upload_dir(local_dir: &str, repo_id: &str, kind: RepoKind, path_prefix: &str) -> (r: Vec<
    String,
>)
    ensures
        hf_url::strings(r@) == upload_dir_argv(local_dir@, repo_id@, kind, path_prefix@),
{
    let mut args: Vec<String> = Vec::new();
    match kind.cli_repo_type() {
        Err(_) => {
            args.push("sync".to_owned());
            args.push(local_dir.to_owned());
            args.push(bucket_url(repo_id, path_prefix));
            args.push("--delete".to_owned());
        },
        Ok(repo_type) => {
            args.push("upload".to_owned());
            args.push("--repo-type".to_owned());
            args.push(repo_type.to_owned());
            args.push(repo_id.to_owned());
            args.push(local_dir.to_owned());
            if path_prefix.unicode_len() == 0 {
                args.push(".".to_owned());
            } else {
                args.push(path_prefix.to_owned());
            }
        },
    }
    assert(hf_url::strings(args@) =~= upload_dir_argv(local_dir@, repo_id@, kind, path_prefix@));
    args
}

/// The bucket that backs a Space: named like it, with `_bucket` behind the
/// name.
pub open spec fn bucket_id_of(space_id: Seq<char>) -> Result<Seq<char>, DeployFault> {
    match hf_url::owner_and_name(space_id) {
        None => Err(DeployFault::BadSpaceId { space_id }),
        Some((namespace, repo)) => if text::ends(repo, "_bucket"@) {
            Err(DeployFault::NamedLikeBucket { repo })
        } else {
            Ok(namespace + "/"@ + repo + "_bucket"@)
        },
    }
}

/// The id of the bucket that backs a Space.
pub fn derive_bucket_id(space_id: &str) -> (r: Result<String, DeployError>)
    ensures
        match r {
            Ok(id) => bucket_id_of(space_id@) == Ok::<Seq<char>, DeployFault>(id@),
            Err(e) => bucket_id_of(space_id@) == Err::<Seq<char>, DeployFault>(e@),
        },
{
    match split_owner_name(space_id) {
        Err(_) => Err(DeployError::BadSpaceId { space_id: space_id.to_owned() }),
        Ok((namespace, repo)) => {
            if ends_with(repo.as_str(), "_bucket") {
                return Err(DeployError::NamedLikeBucket { repo });
            }
            Ok(namespace.concat("/").concat(repo.as_str()).concat("_bucket"))
        },
    }
}

/// The bucket of a Space is no bucket of another Space: two Spaces that have a
/// bucket have the same one only where they are the same Space.
pub proof fn bucket_names_its_space(a: Seq<char>, b: Seq<char>)
    requires
        bucket_id_of(a) is Ok,
        bucket_id_of(a) == bucket_id_of(b),
    ensures
        a == b,
{
    lemma_bucket_extends(a);
    lemma_bucket_extends(b);
    assert(a + "_bucket"@ == b + "_bucket"@);
    assert((a + "_bucket"@).len() == (b + "_bucket"@).len());
    assert(a =~= (a + "_bucket"@).take(a.len() as int));
    assert(b =~= (b + "_bucket"@).take(b.len() as int));
}

proof fn lemma_found(s: Seq<char>, c: char, from: int)
    requires
        0 <= from <= s.len(),
    ensures
        from <= text::find_from(s, c, from) <= s.len(),
        text::find_from(s, c, from) < s.len() ==> s[text::find_from(s, c, from)] == c,
    decreases s.len() - from,
{
    if from < s.len() && s[from] != c {
        lemma_found(s, c, from + 1);
    }
}

proof fn lemma_bucket_extends(a: Seq<char>)
    requires
        bucket_id_of(a) is Ok,
    ensures
        bucket_id_of(a)->Ok_0 == a + "_bucket"@,
{
    let i = text::find_from(a, '/', 0);
    lemma_found(a, '/', 0);
    reveal_strlit("/");
    assert(a.take(i) + "/"@ + a.skip(i + 1) =~= a);
}

/// Where the tiles of a Space go: the root of its bucket.
pub fn space_bucket(space_id: &str) -> (r: Result<HfOutputSpec, DeployError>)
    ensures
        match r {
            Ok(spec) => bucket_id_of(space_id@) == Ok::<Seq<char>, DeployFault>(spec.repo_id@)
                && spec.kind == RepoKind::Bucket && spec.revision@ == "main"@ && spec.path_prefix@
                == Seq::<char>::empty(),
            Err(e) => bucket_id_of(space_id@) == Err::<Seq<char>, DeployFault>(e@),
        },
{
    match derive_bucket_id(space_id) {
        Ok(bucket_id) => Ok(
            HfOutputSpec {
                repo_id: bucket_id,
                kind: RepoKind::Bucket,
                revision: "main".to_owned(),
                path_prefix: String::new(),
            },
        ),
        Err(e) => Err(e),
    }
}

/// The arguments that create the bucket of a Space, or leave it as it is.
pub fn create_space_bucket(bucket_id: &str) -> (r: Vec<String>)
    ensures
        hf_url::strings(r@) == seq!["buckets"@, "create"@, bucket_id@, "--exist-ok"@],
{
    let mut args: Vec<String> = Vec::new();
    args.push("buckets".to_owned());
    args.push("create".to_owned());
    args.push(bucket_id.to_owned());
    args.push("--exist-ok".to_owned());
    assert(hf_url::strings(args@) =~= seq!["buckets"@, "create"@, bucket_id@, "--exist-ok"@]);
    args
}

/// The arguments that create a Space with a Docker app, or leave it as it is.
pub fn create_space_args(space_id: &str) -> (r: Vec<String>)
    ensures
        hf_url::strings(r@) == seq![
            "repos"@,
            "create"@,
            "--type"@,
            "space"@,
            "--space-sdk"@,
            "docker"@,
            "--exist-ok"@,
            space_id@,
        ],
{
    let mut args: Vec<String> = Vec::new();
    args.push("repos".to_owned());
    args.push("create".to_owned());
    args.push("--type".to_owned());
    args.push("space".to_owned());
    args.push("--space-sdk".to_owned());
    args.push("docker".to_owned());
    args.push("--exist-ok".to_owned());
    args.push(space_id.to_owned());
    assert(hf_url::strings(args@) =~= seq![
        "repos"@,
        "create"@,
        "--type"@,
        "space"@,
        "--space-sdk"@,
        "docker"@,
        "--exist-ok"@,
        space_id@,
    ]);
    args
}

/// The arguments that copy the labels of a bundle to its bucket.
pub fn copy_labels_args(labels_path: &str, bucket_id: &str) -> (r: Vec<String>)
    ensures
        hf_url::strings(r@) == seq![
            "buckets"@,
            "cp"@,
            labels_path@,
            hf_url::bucket_address(bucket_id@, "labels.json"@),
        ],
{
    let mut args: Vec<String> = Vec::new();
    args.push("buckets".to_owned());
    args.push("cp".to_owned());
    args.push(labels_path.to_owned());
    args.push(bucket_url(bucket_id, "labels.json"));
    assert(hf_url::strings(args@) =~= seq![
        "buckets"@,
        "cp"@,
        labels_path@,
        hf_url::bucket_address(bucket_id@, "labels.json"@),
    ]);
    args
}

/// Whether a status says that the Space exists (2xx, or gated: 401, 403), or
/// that it does not (404); `None` where it says neither.
pub open spec fn existence(status: u16) -> Option<bool> {
    if status == 404 {
        Some(false)
    } else if 200 <= status < 300 || status == 401 || status == 403 {
        Some(true)
    } else {
        None
    }
}

/// Whether a Space repo already exists, by the status of the Hub's answer.
/// `shown` is how the status is shown in a message.
pub fn space_exists(space_id: &str, status: u16, shown: &str) -> (r: Result<bool, DeployError>)
    ensures
        match r {
            Ok(b) => existence(status) == Some(b),
            Err(e) => existence(status) is None && e@ == (DeployFault::UnexpectedStatus {
                space_id: space_id@,
                status: shown@,
            }),
        },
{
    if status == 404 {
        Ok(false)
    } else if (200 <= status && status < 300) || status == 401 || status == 403 {
        Ok(true)
    } else {
        Err(
            DeployError::UnexpectedStatus {
                space_id: space_id.to_owned(),
                status: shown.to_owned(),
            },
        )
    }
}

/// What a 2D bundle directory holds.
#[derive(Clone, Copy, Debug)]
pub struct BundleParts {
    pub index: bool,
    pub labels: bool,
    pub tiles: bool,
}

/// The first thing that a 2D bundle lacks.
pub open spec fn bundle_fault(p: BundleParts, dir: Seq<char>) -> Option<DeployFault> {
    if !p.index {
        Some(DeployFault::MissingFile { name: "index.html"@, dir })
    } else if !p.labels {
        Some(DeployFault::MissingFile { name: "labels.json"@, dir })
    } else if !p.tiles {
        Some(DeployFault::MissingTiles { dir })
    } else {
        None
    }
}

/// Checks that a 2D bundle is complete.
pub fn validate_tiles_dir(dir: &str, present: BundleParts) -> (r: Result<(), DeployError>)
    ensures
        match r {
            Ok(_) => bundle_fault(present, dir@) is None,
            Err(e) => bundle_fault(present, dir@) == Some(e@),
        },
{
    if !present.index {
        return Err(
            DeployError::MissingFile { name: "index.html".to_owned(), dir: dir.to_owned() },
        );
    }
    if !present.labels {
        return Err(
            DeployError::MissingFile { name: "labels.json".to_owned(), dir: dir.to_owned() },
        );
    }
    if !present.tiles {
        return Err(DeployError::MissingTiles { dir: dir.to_owned() });
    }
    Ok(())
}

/// The name of a Space within its namespace, as its files show it: what lies
/// between the first two slashes, the whole id where there is no slash.
pub open spec fn shown_repo_name(space_id: Seq<char>) -> Seq<char> {
    let i = text::find_from(space_id, '/', 0);
    if i < space_id.len() {
        space_id.subrange(i + 1, text::find_from(space_id, '/', i + 1))
    } else {
        space_id
    }
}

/// The name of a Space within its namespace, as its files show it.
pub fn space_repo_name(space_id: &str) -> (s: String)
    ensures
        s@ == shown_repo_name(space_id@),
{
    let v = chars_of(space_id);
    let i: usize = find_char(&v, '/', 0);
    if i < v.len() {
        let j: usize = find_char(&v, '/', i + 1);
        text_of(&v, i + 1, j)
    } else {
        space_id.to_owned()
    }
}

/// `s` from `from` on, with every occurrence of `old_part` replaced, taken from
/// left to right without overlap.
pub open spec fn replaced_from(
    s: Seq<char>,
    old_part: Seq<char>,
    new_part: Seq<char>,
    from: int,
) -> Seq<char>
    decreases s.len() - from,
{
    if from < 0 || from >= s.len() || old_part.len() == 0 {
        seq![]
    } else if text::occurs_at(s, old_part, from) {
        new_part + replaced_from(s, old_part, new_part, from + old_part.len())
    } else {
        seq![s[from]] + replaced_from(s, old_part, new_part, from + 1)
    }
}

/// Fills a template of a Space file: every occurrence of the placeholder
/// becomes the value.
pub fn fill_template(template: &str, placeholder: &str, value: &str) -> (s: String)
    requires
        placeholder@.len() > 0,
    ensures
        s@ == replaced_from(template@, placeholder@, value@, 0),
{
    let v = chars_of(template);
    let p = chars_of(placeholder);
    let mut out = String::new();
    let mut i: usize = 0;
    let ghost goal = replaced_from(template@, placeholder@, value@, 0);
    assert(out@ + replaced_from(v@, p@, value@, 0) =~= goal);
    while i < v.len()
        invariant
            i <= v@.len(),
            v@ == template@,
            p@ == placeholder@,
            p@.len() > 0,
            out@ + replaced_from(v@, p@, value@, i as int) == goal,
        decreases v@.len() - i,
    {
        let ghost was = out@;
        if p.len() <= v.len() - i && chars_at(&v, i, &p) {
            assert(text::occurs_at(v@, p@, i as int));
            out.append(value);
            assert(out@ + replaced_from(v@, p@, value@, i + p@.len()) =~= was + replaced_from(
                v@,
                p@,
                value@,
                i as int,
            ));
            i = i + p.len();
        } else {
            out.push(v[i]);
            assert(out@ + replaced_from(v@, p@, value@, i + 1) =~= was + replaced_from(
                v@,
                p@,
                value@,
                i as int,
            ));
            i = i + 1;
        }
    }
    assert(out@ =~= goal);
    out
}

} // verus!
