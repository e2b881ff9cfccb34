//! `hf://` URLs: parsing, and what is asked of the Hub for them.

use vstd::prelude::*;
use vstd::string::StringExecFns;
use crate::text;
use crate::text::{chars_of, decimal_string, find_char, join, parts, quoted, starts_with, str_eq};
use crate::text::{text_of, trim, trim_end_char};

verus! {

/// Repo kind parsed from an `hf://` URL. Carried as a typed value rather than a
/// string so the upload/download dispatch sites can match exhaustively and the
/// compiler enforces consistency.
#[derive(Clone, Copy, Debug, PartialEq, Eq, Hash, Structural)]
pub enum RepoKind {
    Model,
    Dataset,
    Space,
    Bucket,
}

/// The URL segment of a kind.
pub open spec fn segment_of(k: RepoKind) -> Seq<char> {
    match k {
        RepoKind::Model => "models"@,
        RepoKind::Dataset => "datasets"@,
        RepoKind::Space => "spaces"@,
        RepoKind::Bucket => "buckets"@,
    }
}

/// The repo type of a kind on the command line; a bucket has none.
pub open spec fn repo_type_of(k: RepoKind) -> Option<Seq<char>> {
    match k {
        RepoKind::Model => Some("model"@),
        RepoKind::Dataset => Some("dataset"@),
        RepoKind::Space => Some("space"@),
        RepoKind::Bucket => None,
    }
}

/// What is wrong with a URL, or with what it asks for.
#[derive(Debug)]
pub enum HubError {
    MissingPrefix { raw: String },
    EmptyUrl,
    TooFewParts { raw: String },
    EmptyRevision { raw: String },
    MissingName { raw: String },
    BucketHasNoType,
    BucketNotStreamable { repo_id: String },
    NotOwnerName { repo_id: String },
    NoSuchFile { path: String, kind: RepoKind, repo_id: String, revision: String },
    NoFiles { repo_id: String },
    ImplicitTokenDisabled,
    TokenRequired,
}

/// What is wrong with a URL, or with what it asks for.
pub ghost enum HubFault {
    MissingPrefix { raw: Seq<char> },
    EmptyUrl,
    TooFewParts { raw: Seq<char> },
    EmptyRevision { raw: Seq<char> },
    MissingName { raw: Seq<char> },
    BucketHasNoType,
    BucketNotStreamable { repo_id: Seq<char> },
    NotOwnerName { repo_id: Seq<char> },
    NoSuchFile { path: Seq<char>, kind: RepoKind, repo_id: Seq<char>, revision: Seq<char> },
    NoFiles { repo_id: Seq<char> },
    ImplicitTokenDisabled,
    TokenRequired,
}

impl View for HubError {
    type V = HubFault;

    open spec fn view(&self) -> HubFault {
        match *self {
            HubError::MissingPrefix { raw } => HubFault::MissingPrefix { raw: raw@ },
            HubError::EmptyUrl => HubFault::EmptyUrl,
            HubError::TooFewParts { raw } => HubFault::TooFewParts { raw: raw@ },
            HubError::EmptyRevision { raw } => HubFault::EmptyRevision { raw: raw@ },
            HubError::MissingName { raw } => HubFault::MissingName { raw: raw@ },
            HubError::BucketHasNoType => HubFault::BucketHasNoType,
            HubError::BucketNotStreamable { repo_id } => HubFault::BucketNotStreamable {
                repo_id: repo_id@,
            },
            HubError::NotOwnerName { repo_id } => HubFault::NotOwnerName { repo_id: repo_id@ },
            HubError::NoSuchFile { path, kind, repo_id, revision } => HubFault::NoSuchFile {
                path: path@,
                kind,
                repo_id: repo_id@,
                revision: revision@,
            },
            HubError::NoFiles { repo_id } => HubFault::NoFiles { repo_id: repo_id@ },
            HubError::ImplicitTokenDisabled => HubFault::ImplicitTokenDisabled,
            HubError::TokenRequired => HubFault::TokenRequired,
        }
    }
}

/// The message for a fault.
pub open spec fn hub_message(f: HubFault) -> Seq<char> {
    match f {
        HubFault::MissingPrefix { raw } => "expected hf:// prefix, got "@ + text::debug_text(raw),
        HubFault::EmptyUrl => "empty hf:// URL"@,
        HubFault::TooFewParts { raw } => {
            "hf:// URL must have the form hf://[type/]owner/repo[@rev][/path], got "@
                + text::debug_text(raw)
        },
        HubFault::EmptyRevision { raw } => "hf:// URL has an empty revision after '@': "@
            + text::debug_text(raw) + "; either omit the '@' or specify a branch/commit"@,
        HubFault::MissingName { raw } => "hf:// URL is missing owner or repo name: "@
            + text::debug_text(raw),
        HubFault::BucketHasNoType => {
            "buckets are addressed via `hf buckets` / `hf sync`, not the --type flag"@
        },
        HubFault::BucketNotStreamable { repo_id } => {
            "bucket URLs do not support range/streaming reads (hf://buckets/"@ + repo_id
                + "/...). Download the file first or use a model/dataset/space URL."@
        },
        HubFault::NotOwnerName { repo_id } => "expected owner/name, got "@ + text::debug_text(
            repo_id,
        ),
        HubFault::NoSuchFile { path, kind, repo_id, revision } => "no file `"@ + path + "` in "@
            + segment_of(kind) + " "@ + repo_id + "@"@ + revision + " (or it's a directory)"@,
        HubFault::NoFiles { repo_id } => "repo "@ + repo_id + " has no files"@,
        HubFault::ImplicitTokenDisabled => {
            "HF_HUB_DISABLE_IMPLICIT_TOKEN is set; set HF_TOKEN explicitly or unset this var"@
        },
        HubFault::TokenRequired => {
            "HF token required for hf:// output; set HF_TOKEN or run `hf auth login`"@
        },
    }
}

impl HubError {
    /// The message for the error.
    pub fn message(&self) -> (s: String)
        ensures
            s@ == hub_message(self@),
    {
        match self {
            HubError::MissingPrefix { raw } => "expected hf:// prefix, got ".to_owned().concat(
                quoted(raw.as_str()).as_str(),
            ),
            HubError::EmptyUrl => "empty hf:// URL".to_owned(),
            HubError::TooFewParts { raw } => {
                "hf:// URL must have the form hf://[type/]owner/repo[@rev][/path], got ".to_owned().concat(
                    quoted(raw.as_str()).as_str(),
                )
            },
            HubError::EmptyRevision { raw } => {
                "hf:// URL has an empty revision after '@': ".to_owned().concat(
                    quoted(raw.as_str()).as_str(),
                ).concat("; either omit the '@' or specify a branch/commit")
            },
            HubError::MissingName { raw } => {
                "hf:// URL is missing owner or repo name: ".to_owned().concat(
                    quoted(raw.as_str()).as_str(),
                )
            },
            HubError::BucketHasNoType => {
                "buckets are addressed via `hf buckets` / `hf sync`, not the --type flag".to_owned()
            },
            HubError::BucketNotStreamable { repo_id } => {
                "bucket URLs do not support range/streaming reads (hf://buckets/".to_owned().concat(
                    repo_id.as_str(),
                ).concat("/...). Download the file first or use a model/dataset/space URL.")
            },
            HubError::NotOwnerName { repo_id } => "expected owner/name, got ".to_owned().concat(
                quoted(repo_id.as_str()).as_str(),
            ),
            HubError::NoSuchFile { path, kind, repo_id, revision } => "no file `".to_owned().concat(
                path.as_str(),
            ).concat("` in ").concat(kind.api_segment()).concat(" ").concat(
                repo_id.as_str(),
            ).concat("@").concat(revision.as_str()).concat(" (or it's a directory)"),
            HubError::NoFiles { repo_id } => "repo ".to_owned().concat(repo_id.as_str()).concat(
                " has no files",
            ),
            HubError::ImplicitTokenDisabled => {
                "HF_HUB_DISABLE_IMPLICIT_TOKEN is set; set HF_TOKEN explicitly or unset this var".to_owned()
            },
            HubError::TokenRequired => {
                "HF token required for hf:// output; set HF_TOKEN or run `hf auth login`".to_owned()
            },
        }
    }
}

impl RepoKind {
    /// `models`, `datasets`, `spaces`, or `buckets` — the URL segment used in
    /// `/api/{api_segment}/{repo_id}/...` routes and the `hf {api_segment}`
    /// subcommand group.
    pub fn api_segment(self) -> (s: &'static str)
        ensures
            s@ == segment_of(self),
    {
        match self {
            RepoKind::Model => "models",
            RepoKind::Dataset => "datasets",
            RepoKind::Space => "spaces",
            RepoKind::Bucket => "buckets",
        }
    }

    /// Value to pass to `hf {download,upload} --type ...`. Only valid for
    /// model/dataset/space — buckets are addressed via the `hf buckets` /
    /// `hf sync` subcommand groups instead.
    pub fn cli_repo_type(self) -> (r: Result<&'static str, HubError>)
        ensures
            match r {
                Ok(s) => repo_type_of(self) == Some(s@),
                Err(e) => repo_type_of(self) is None && e@ == HubFault::BucketHasNoType,
            },
    {
        match self {
            RepoKind::Model => Ok("model"),
            RepoKind::Dataset => Ok("dataset"),
            RepoKind::Space => Ok("space"),
            RepoKind::Bucket => Err(HubError::BucketHasNoType),
        }
    }
}

/// Repo handle for direct-HTTP read paths.
///
/// Buckets are intentionally not constructable here: the bucket HTTP surface
/// has no public range-read primitive, so any caller building a `RemoteRepo`
/// for range I/O is rejected upstream (see [`make_remote_repo`]).
#[derive(Debug)]
pub struct RemoteRepo {
    kind: RepoKind,
    repo_id: String,
}

/// What a repo handle stands for.
pub ghost struct Repo {
    pub kind: RepoKind,
    pub repo_id: Seq<char>,
}

impl View for RemoteRepo {
    type V = Repo;

    closed spec fn view(&self) -> Repo {
        Repo { kind: self.kind, repo_id: self.repo_id@ }
    }
}

impl Clone for RemoteRepo {
    fn clone(&self) -> (r: Self)
        ensures
            r@ == self@,
    {
        proof {
            use_type_invariant(self);
        }
        RemoteRepo { kind: self.kind, repo_id: self.repo_id.clone() }
    }
}

/// The path prefix of a kind in `/resolve/` URLs: none for models.
pub open spec fn resolve_prefix(k: RepoKind) -> Seq<char> {
    match k {
        RepoKind::Dataset => "datasets/"@,
        RepoKind::Space => "spaces/"@,
        _ => ""@,
    }
}

impl RemoteRepo {
    #[verifier::type_invariant]
    spec fn not_a_bucket(self) -> bool {
        self.kind != RepoKind::Bucket
    }

    /// `owner/name` for the underlying repository.
    pub fn repo_id(&self) -> (s: &str)
        ensures
            s@ == self@.repo_id,
    {
        self.repo_id.as_str()
    }

    /// `models`, `datasets`, or `spaces` — the URL segment used in
    /// `/api/{api_segment}/{repo_id}/...` routes.
    pub fn api_segment(&self) -> (s: &'static str)
        ensures
            s@ == segment_of(self@.kind),
            self@.kind != RepoKind::Bucket,
    {
        proof {
            use_type_invariant(self);
        }
        self.kind.api_segment()
    }

    /// The URL of a file at a revision. The `/resolve/` URL doesn't include
    /// the `models/` segment for model repos — only `datasets/` and `spaces/`
    /// get a prefix.
    pub fn resolve_url(&self, endpoint: &str, revision: &str, filename: &str) -> (url: String)
        ensures
            url@ == endpoint@ + "/"@ + resolve_prefix(self@.kind) + self@.repo_id + "/resolve/"@
                + revision@ + "/"@ + filename@,
    {
        let prefix = match self.kind {
            RepoKind::Dataset => "datasets/",
            RepoKind::Space => "spaces/",
            _ => "",
        };
        endpoint.to_owned().concat("/").concat(prefix).concat(self.repo_id.as_str()).concat(
            "/resolve/",
        ).concat(revision).concat("/").concat(filename)
    }
}

/// The `Range` header for the bytes `start..end`. The header is inclusive on
/// both sides, so the exclusive end goes down by one.
pub fn range_header(start: u64, end: u64) -> (h: String)
    ensures
        h@ == "bytes="@ + text::decimal(start as nat) + "-"@ + text::decimal(
            if end == 0 {
                0
            } else {
                (end - 1) as nat
            },
        ),
{
    let last: u64 = if end == 0 {
        0
    } else {
        end - 1
    };
    "bytes=".to_owned().concat(decimal_string(start).as_str()).concat("-").concat(
        decimal_string(last).as_str(),
    )
}

/// A remote HF file accessed via range requests without a full download.
#[derive(Debug)]
pub struct RemoteFileSpec {
    pub repo: RemoteRepo,
    pub filename: String,
    pub revision: String,
    pub size: u64,
    /// Xet Merkle hash, present iff this file is xet-backed.
    pub xet_hash: Option<String>,
}

/// What a remote file spec stands for.
pub ghost struct RemoteFile {
    pub repo: Repo,
    pub filename: Seq<char>,
    pub revision: Seq<char>,
    pub size: u64,
    pub xet_hash: Option<Seq<char>>,
}

/// The text of an optional string.
pub open spec fn optional_text(o: Option<String>) -> Option<Seq<char>> {
    match o {
        Some(s) => Some(s@),
        None => None,
    }
}

impl View for RemoteFileSpec {
    type V = RemoteFile;

    open spec fn view(&self) -> RemoteFile {
        RemoteFile {
            repo: self.repo@,
            filename: self.filename@,
            revision: self.revision@,
            size: self.size,
            xet_hash: optional_text(self.xet_hash),
        }
    }
}

pub(crate) fn copy_optional(o: &Option<String>) -> (c: Option<String>)
    ensures
        optional_text(c) == optional_text(*o),
{
    match o {
        Some(s) => Some(s.clone()),
        None => None,
    }
}

impl Clone for RemoteFileSpec {
    fn clone(&self) -> (r: Self)
        ensures
            r@ == self@,
    {
        RemoteFileSpec {
            repo: self.repo.clone(),
            filename: self.filename.clone(),
            revision: self.revision.clone(),
            size: self.size,
            xet_hash: copy_optional(&self.xet_hash),
        }
    }
}

/// Parsed destination for streaming output (Hub repo or bucket).
#[derive(Debug)]
pub struct HfOutputSpec {
    pub repo_id: String,
    pub kind: RepoKind,
    pub revision: String,
    pub path_prefix: String,
}

/// `path` below `prefix`; as it is where there is no prefix.
pub open spec fn below(prefix: Seq<char>, path: Seq<char>) -> Seq<char> {
    if prefix.len() == 0 {
        path
    } else {
        prefix + "/"@ + path
    }
}

/// `path` below `prefix`; as it is where there is no prefix.
pub(crate) fn path_below(prefix: &str, path: &str) -> (s: String)
    ensures
        s@ == below(prefix@, path@),
{
    if prefix.is_empty() {
        path.to_owned()
    } else {
        prefix.to_owned().concat("/").concat(path)
    }
}

/// The path of a tile below the output prefix.
pub open spec fn tile_path(
    scene: Option<Seq<char>>,
    z: u32,
    x: u32,
    y: u32,
    ext: Seq<char>,
) -> Seq<char> {
    (match scene {
        Some(k) => "tiles/"@ + k,
        None => "tiles"@,
    }) + "/"@ + text::decimal(z as nat) + "/"@ + text::decimal(x as nat) + "/"@ + text::decimal(
        y as nat,
    ) + "."@ + ext
}

impl HfOutputSpec {
    /// The path of a tile of the only scene.
    pub fn tile_repo_path(&self, z: u32, x: u32, y: u32, ext: &str) -> (s: String)
        ensures
            s@ == below(self.path_prefix@, tile_path(None, z, x, y, ext@)),
    {
        self.tile_repo_path_in(None, z, x, y, ext)
    }

    /// Scene-aware tile path: `[<prefix>/]tiles/[<scene>/]<z>/<x>/<y>.<ext>`.
    /// `scene = None` is the single-pyramid layout.
    pub fn tile_repo_path_in(
        &self,
        scene: Option<&str>,
        z: u32,
        x: u32,
        y: u32,
        ext: &str,
    ) -> (s: String)
        ensures
            s@ == below(
                self.path_prefix@,
                tile_path(
                    match scene {
                        Some(k) => Some(k@),
                        None => None,
                    },
                    z,
                    x,
                    y,
                    ext@,
                ),
            ),
    {
        let sub = match scene {
            Some(k) => "tiles/".to_owned().concat(k),
            None => "tiles".to_owned(),
        };
        let path = sub.concat("/").concat(decimal_string(z as u64).as_str()).concat("/").concat(
            decimal_string(x as u64).as_str(),
        ).concat("/").concat(decimal_string(y as u64).as_str()).concat(".").concat(ext);
        path_below(self.path_prefix.as_str(), path.as_str())
    }

    pub fn index_html_path(&self) -> (s: String)
        ensures
            s@ == below(self.path_prefix@, "index.html"@),
    {
        path_below(self.path_prefix.as_str(), "index.html")
    }

    pub fn labels_json_path(&self) -> (s: String)
        ensures
            s@ == below(self.path_prefix@, "labels.json"@),
    {
        path_below(self.path_prefix.as_str(), "labels.json")
    }
}

#[derive(Debug)]
pub struct HfUrl {
    pub kind: RepoKind,
    pub repo_id: String,
    pub revision: String,
    pub path_in_repo: String,
}

/// What a URL addresses.
pub ghost struct Address {
    pub kind: RepoKind,
    pub repo_id: Seq<char>,
    pub revision: Seq<char>,
    pub path: Seq<char>,
}

impl View for HfUrl {
    type V = Address;

    open spec fn view(&self) -> Address {
        Address {
            kind: self.kind,
            repo_id: self.repo_id@,
            revision: self.revision@,
            path: self.path_in_repo@,
        }
    }
}

/// The kind that a leading segment names, if it names one.
pub open spec fn kind_named(s: Seq<char>) -> Option<RepoKind> {
    if s == "models"@ {
        Some(RepoKind::Model)
    } else if s == "datasets"@ {
        Some(RepoKind::Dataset)
    } else if s == "spaces"@ {
        Some(RepoKind::Space)
    } else if s == "buckets"@ {
        Some(RepoKind::Bucket)
    } else {
        None
    }
}

/// The repo name and revision of a segment `name[@rev]`.
pub open spec fn name_and_revision(s: Seq<char>) -> (Seq<char>, Seq<char>) {
    let at = text::find_from(s, '@', 0);
    if at < s.len() {
        (s.take(at), s.skip(at + 1))
    } else {
        (s, "main"@)
    }
}

/// What the segments behind the kind address.
pub open spec fn address_of(
    kind: RepoKind,
    segs: Seq<Seq<char>>,
    raw: Seq<char>,
) -> Result<Address, HubFault> {
    if segs.len() < 2 {
        Err(HubFault::TooFewParts { raw })
    } else {
        let (name, revision) = name_and_revision(segs[1]);
        if revision.len() == 0 {
            Err(HubFault::EmptyRevision { raw })
        } else if name.len() == 0 {
            Err(HubFault::MissingName { raw })
        } else {
            Ok(
                Address {
                    kind,
                    repo_id: segs[0] + "/"@ + name,
                    revision,
                    path: text::joined(segs.skip(2), "/"@),
                },
            )
        }
    }
}

/// What a URL addresses, or what is wrong with it. Empty segments do not
/// count; a leading kind segment is optional.
pub open spec fn parsed(raw: Seq<char>) -> Result<Address, HubFault> {
    if !text::begins(raw, "hf://"@) {
        Err(HubFault::MissingPrefix { raw })
    } else if raw.len() == 5 {
        Err(HubFault::EmptyUrl)
    } else {
        let segs = text::parts_from(raw.skip(5), '/', 0);
        if segs.len() == 0 {
            Err(HubFault::TooFewParts { raw })
        } else {
            match kind_named(segs[0]) {
                Some(k) => address_of(k, segs.skip(1), raw),
                None => address_of(RepoKind::Model, segs, raw),
            }
        }
    }
}

fn kind_of_segment(s: &str) -> (k: Option<RepoKind>)
    ensures
        k == kind_named(s@),
{
    if str_eq(s, "models") {
        Some(RepoKind::Model)
    } else if str_eq(s, "datasets") {
        Some(RepoKind::Dataset)
    } else if str_eq(s, "spaces") {
        Some(RepoKind::Space)
    } else if str_eq(s, "buckets") {
        Some(RepoKind::Bucket)
    } else {
        None
    }
}

/// `s` behind its first `n` characters.
fn behind(s: &str, n: usize) -> (r: String)
    requires
        n <= s@.len(),
    ensures
        r@ == s@.skip(n as int),
{
    let v = chars_of(s);
    assert(v@.subrange(n as int, v@.len() as int) =~= v@.skip(n as int));
    text_of(&v, n, v.len())
}

fn strings_from(v: &Vec<String>, from: usize) -> (r: Vec<String>)
    requires
        from <= v@.len(),
    ensures
        r@.map_values(|p: String| p@) == v@.map_values(|p: String| p@).skip(from as int),
{
    let mut r: Vec<String> = Vec::new();
    let mut i: usize = from;
    while i < v.len()
        invariant
            from <= i <= v@.len(),
            r@.len() == i - from,
            forall|k: int| 0 <= k < r@.len() ==> (#[trigger] r@[k])@ == v@[from + k]@,
        decreases v@.len() - i,
    {
        r.push(v[i].clone());
        i = i + 1;
    }
    assert(r@.map_values(|p: String| p@) =~= v@.map_values(|p: String| p@).skip(from as int));
    r
}

fn address(kind: RepoKind, segs: &Vec<String>, raw: &str) -> (r: Result<HfUrl, HubError>)
    requires
        forall|i: int| 0 <= i < segs@.len() ==> (#[trigger] segs@[i])@.len() > 0,
    ensures
        match (r, address_of(kind, segs@.map_values(|p: String| p@), raw@)) {
            (Ok(u), Ok(a)) => u@ == a,
            (Err(e), Err(f)) => e@ == f,
            _ => false,
        },
{
    if segs.len() < 2 {
        return Err(HubError::TooFewParts { raw: raw.to_owned() });
    }
    let seg = chars_of(segs[1].as_str());
    let at: usize = find_char(&seg, '@', 0);
    let revision: String;
    let name: String;
    if at < seg.len() {
        assert(seg@.subrange(at + 1, seg@.len() as int) =~= seg@.skip(at + 1));
        assert(seg@.subrange(0, at as int) =~= seg@.take(at as int));
        revision = text_of(&seg, at + 1, seg.len());
        name = text_of(&seg, 0, at);
    } else {
        revision = "main".to_owned();
        name = segs[1].clone();
        proof {
            reveal_strlit("main");
        }
    }
    if revision.as_str().is_empty() {
        return Err(HubError::EmptyRevision { raw: raw.to_owned() });
    }
    if name.as_str().is_empty() {
        return Err(HubError::MissingName { raw: raw.to_owned() });
    }
    let rest = strings_from(segs, 2);
    Ok(
        HfUrl {
            kind,
            repo_id: segs[0].clone().concat("/").concat(name.as_str()),
            revision,
            path_in_repo: join(&rest, "/"),
        },
    )
}

proof fn lemma_find_bound(s: Seq<char>, c: char, from: int)
    ensures
        text::find_from(s, c, from) <= s.len(),
    decreases s.len() - from,
{
    if 0 <= from < s.len() && s[from] != c {
        lemma_find_bound(s, c, from + 1);
    }
}

/// Parse an `hf://` URL into its components.
///
/// Supported forms:
///   hf://{owner}/{repo}[@{rev}]            → model (default), repo-level
///   hf://{owner}/{repo}[@{rev}]/{path}     → model (default), single file
///   hf://models/{owner}/{repo}[@{rev}][/{path}]   → model
///   hf://datasets/{owner}/{repo}[@{rev}][/{path}] → dataset
///   hf://spaces/{owner}/{repo}[@{rev}][/{path}]   → space
///   hf://buckets/{owner}/{bucket}[/{path}]         → bucket (no revision concept)
///
/// Empty path segments — including a trailing slash — are stripped so that
/// `hf://owner/repo/path/` parses with `path_in_repo = "path"`, not `"path/"`.
pub fn parse(raw: &str) -> (r: Result<HfUrl, HubError>)
    ensures
        match (r, parsed(raw@)) {
            (Ok(u), Ok(a)) => u@ == a,
            (Err(e), Err(f)) => e@ == f,
            _ => false,
        },
{
    proof {
        reveal_strlit("hf://");
    }
    if !starts_with(raw, "hf://") {
        return Err(HubError::MissingPrefix { raw: raw.to_owned() });
    }
    let rest = behind(raw, 5);
    if rest.as_str().is_empty() {
        return Err(HubError::EmptyUrl);
    }
    let segs = parts(rest.as_str(), '/');
    let ghost ss = segs@.map_values(|p: String| p@);
    proof {
        assert forall|i: int| 0 <= i < segs@.len() implies (#[trigger] segs@[i])@.len() > 0 by {
            parts_hold_no_separator(rest@, '/', 0, i);
            assert(ss[i] == segs@[i]@);
        }
    }
    if segs.len() == 0 {
        return Err(HubError::TooFewParts { raw: raw.to_owned() });
    }
    assert(ss[0] == segs@[0]@);
    match kind_of_segment(segs[0].as_str()) {
        Some(k) => {
            let tail = strings_from(&segs, 1);
            proof {
                let ts = tail@.map_values(|p: String| p@);
                assert forall|i: int| 0 <= i < tail@.len() implies (#[trigger] tail@[i])@.len()
                    > 0 by {
                    assert(ts[i] == tail@[i]@);
                    assert(ss.skip(1)[i] == segs@[i + 1]@);
                }
            }
            address(k, &tail, raw)
        },
        None => address(RepoKind::Model, &segs, raw),
    }
}

/// The HF endpoint: the override where one is set, else
/// `https://huggingface.co`. Trailing slashes stripped.
pub fn endpoint(configured: Option<&str>) -> (s: String)
    ensures
        s@ == text::trimmed_end(
            match configured {
                Some(c) => c@,
                None => "https://huggingface.co"@,
            },
            '/',
        ),
{
    match configured {
        Some(c) => trim_end_char(c, '/'),
        None => trim_end_char("https://huggingface.co", '/'),
    }
}

/// The token in a candidate: what is left of it when trimmed, if anything.
pub open spec fn token_in(c: Option<Seq<char>>) -> Option<Seq<char>> {
    match c {
        Some(s) => if text::trimmed(s).len() > 0 {
            Some(text::trimmed(s))
        } else {
            None
        },
        None => None,
    }
}

/// The first token among the candidates: the environment's, the one in the
/// token file that the environment names, and the one in the home directory.
/// None where implicit tokens are disabled.
pub open spec fn token_among(
    disabled: bool,
    env: Option<Seq<char>>,
    named_file: Option<Seq<char>>,
    home_file: Option<Seq<char>>,
) -> Option<Seq<char>> {
    if disabled {
        None
    } else if token_in(env) is Some {
        token_in(env)
    } else if token_in(named_file) is Some {
        token_in(named_file)
    } else {
        token_in(home_file)
    }
}

fn token_of(c: &Option<String>) -> (t: Option<String>)
    ensures
        optional_text(t) == token_in(optional_text(*c)),
{
    match c {
        Some(s) => {
            let t = trim(s.as_str());
            if t.as_str().is_empty() {
                None
            } else {
                Some(t)
            }
        },
        None => None,
    }
}

/// Resolve the HF auth token from what the environment and the token files
/// hold, returning `None` if no token is available.
///
/// Precedence: `HF_TOKEN` env → `HF_TOKEN_PATH` file → `$HF_HOME/token` file.
/// Returns `None` if implicit tokens are disabled.
pub fn read_token(
    disabled: bool,
    env: Option<String>,
    named_file: Option<String>,
    home_file: Option<String>,
) -> (t: Option<String>)
    ensures
        optional_text(t) == token_among(
            disabled,
            optional_text(env),
            optional_text(named_file),
            optional_text(home_file),
        ),
{
    if disabled {
        return None;
    }
    if let Some(t) = token_of(&env) {
        return Some(t);
    }
    if let Some(t) = token_of(&named_file) {
        return Some(t);
    }
    token_of(&home_file)
}

/// Returns `Ok(())` if an HF token is resolvable, otherwise an error: a useful
/// message *before* a write operation that would otherwise fail with a
/// confusing 401.
pub fn require_token(disabled: bool, token: &Option<String>) -> (r: Result<(), HubError>)
    ensures
        match r {
            Ok(_) => !disabled && token is Some,
            Err(e) => e@ == (if disabled {
                HubFault::ImplicitTokenDisabled
            } else {
                HubFault::TokenRequired
            }) && (disabled || token is None),
        },
{
    if disabled {
        return Err(HubError::ImplicitTokenDisabled);
    }
    if token.is_some() {
        return Ok(());
    }
    Err(HubError::TokenRequired)
}

/// The owner and the name of `owner/name`, split at the first slash.
pub open spec fn owner_and_name(id: Seq<char>) -> Option<(Seq<char>, Seq<char>)> {
    let i = text::find_from(id, '/', 0);
    if i < id.len() {
        Some((id.take(i), id.skip(i + 1)))
    } else {
        None
    }
}

/// The owner and the name of `owner/name`, split at the first slash.
pub fn split_owner_name(repo_id: &str) -> (r: Result<(String, String), HubError>)
    ensures
        match r {
            Ok(p) => owner_and_name(repo_id@) == Some((p.0@, p.1@)),
            Err(e) => owner_and_name(repo_id@) is None && e@ == (HubFault::NotOwnerName {
                repo_id: repo_id@,
            }),
        },
{
    let v = chars_of(repo_id);
    let i: usize = find_char(&v, '/', 0);
    if i < v.len() {
        assert(v@.subrange(0, i as int) =~= v@.take(i as int));
        assert(v@.subrange(i + 1, v@.len() as int) =~= v@.skip(i + 1));
        Ok((text_of(&v, 0, i), text_of(&v, i + 1, v.len())))
    } else {
        Err(HubError::NotOwnerName { repo_id: repo_id.to_owned() })
    }
}

/// The handle for range reads from a repo. Buckets have none: their HTTP
/// surface has no range-read primitive.
pub fn make_remote_repo(hf: &HfUrl) -> (r: Result<RemoteRepo, HubError>)
    ensures
        match r {
            Ok(repo) => hf.kind != RepoKind::Bucket && repo@ == (Repo {
                kind: hf.kind,
                repo_id: hf.repo_id@,
            }),
            Err(e) => hf.kind == RepoKind::Bucket && e@ == (HubFault::BucketNotStreamable {
                repo_id: hf.repo_id@,
            }),
        },
{
    match hf.kind {
        RepoKind::Bucket => Err(HubError::BucketNotStreamable { repo_id: hf.repo_id.clone() }),
        _ => Ok(RemoteRepo { kind: hf.kind, repo_id: hf.repo_id.clone() }),
    }
}

/// Entry in a recursive repo file listing. Directories surface with
/// `size = None`; only files have `blob_id` / `xet_hash` / `lfs`.
#[derive(Debug)]
pub struct HfTreeEntry {
    pub path: String,
    pub size: Option<u64>,
    pub blob_id: Option<String>,
    pub xet_hash: Option<String>,
    pub lfs: Option<HfTreeLfs>,
}

#[derive(Debug)]
pub struct HfTreeLfs {
    pub sha256: Option<String>,
    pub size: Option<u64>,
    pub pointer_size: Option<u64>,
}

impl HfTreeEntry {
    /// True when this entry refers to a file (not a directory). Buckets and
    /// repos both omit `size` for directory entries.
    pub fn is_file(&self) -> (r: bool)
        ensures
            r == (self.size is Some),
    {
        self.size.is_some()
    }
}

/// The remote file that an entry stands for.
pub open spec fn remote_file(
    repo: Repo,
    revision: Seq<char>,
    e: HfTreeEntry,
) -> RemoteFile {
    RemoteFile {
        repo,
        filename: e.path@,
        revision,
        size: e.size.unwrap_or(0),
        xet_hash: optional_text(e.xet_hash),
    }
}

/// The first entry that is a file with the given path.
pub open spec fn file_entry(es: Seq<HfTreeEntry>, path: Seq<char>) -> Option<HfTreeEntry>
    decreases es.len(),
{
    if es.len() == 0 {
        None
    } else {
        match file_entry(es.drop_last(), path) {
            Some(e) => Some(e),
            None => if es.last().path@ == path && es.last().size is Some {
                Some(es.last())
            } else {
                None
            },
        }
    }
}

proof fn lemma_file_entry_prefix(es: Seq<HfTreeEntry>, n: int, path: Seq<char>)
    requires
        0 <= n <= es.len(),
        file_entry(es.take(n), path) is Some,
    ensures
        file_entry(es, path) == file_entry(es.take(n), path),
    decreases es.len() - n,
{
    if n < es.len() {
        assert(es.take(n + 1).drop_last() =~= es.take(n));
        lemma_file_entry_prefix(es, n + 1, path);
    } else {
        assert(es.take(n) =~= es);
    }
}

fn spec_of_entry(repo: &RemoteRepo, revision: &String, e: &HfTreeEntry) -> (s: RemoteFileSpec)
    ensures
        s@ == remote_file(repo@, revision@, *e),
{
    RemoteFileSpec {
        repo: repo.clone(),
        filename: e.path.clone(),
        revision: revision.clone(),
        size: e.size.unwrap_or(0),
        xet_hash: copy_optional(&e.xet_hash),
    }
}

/// Resolve a parsed URL to the file that it names in the repo's listing,
/// without downloading.
pub fn resolve_to_http(
    hf: &HfUrl,
    entries: &Vec<HfTreeEntry>,
) -> (r: Result<RemoteFileSpec, HubError>)
    ensures
        match r {
            Ok(s) => file_entry(entries@, hf.path_in_repo@) matches Some(e) && s@ == remote_file(
                Repo { kind: hf.kind, repo_id: hf.repo_id@ },
                hf.revision@,
                e,
            ) && hf.kind != RepoKind::Bucket,
            Err(e) => if hf.kind == RepoKind::Bucket {
                e@ == (HubFault::BucketNotStreamable { repo_id: hf.repo_id@ })
            } else {
                file_entry(entries@, hf.path_in_repo@) is None && e@ == (HubFault::NoSuchFile {
                    path: hf.path_in_repo@,
                    kind: hf.kind,
                    repo_id: hf.repo_id@,
                    revision: hf.revision@,
                })
            },
        },
{
    let repo = match make_remote_repo(hf) {
        Ok(r) => r,
        Err(e) => {
            return Err(e);
        },
    };
    let ghost es = entries@;
    let mut i: usize = 0;
    assert(es.take(0) =~= seq![]);
    while i < entries.len()
        invariant
            i <= es.len(),
            es == entries@,
            hf.kind != RepoKind::Bucket,
            repo@ == (Repo { kind: hf.kind, repo_id: hf.repo_id@ }),
            file_entry(es.take(i as int), hf.path_in_repo@) is None,
        decreases es.len() - i,
    {
        assert(es.take(i + 1).drop_last() =~= es.take(i as int));
        let e = &entries[i];
        if e.path == hf.path_in_repo && e.is_file() {
            proof {
                lemma_file_entry_prefix(es, i + 1, hf.path_in_repo@);
            }
            return Ok(spec_of_entry(&repo, &hf.revision, e));
        }
        i = i + 1;
    }
    assert(es.take(i as int) =~= es);
    Err(
        HubError::NoSuchFile {
            path: hf.path_in_repo.clone(),
            kind: hf.kind,
            repo_id: hf.repo_id.clone(),
            revision: hf.revision.clone(),
        },
    )
}

/// The files of a listing with their paths, directories left out.
pub open spec fn listed_files(
    repo: Repo,
    revision: Seq<char>,
    es: Seq<HfTreeEntry>,
) -> Seq<(Seq<char>, RemoteFile)>
    decreases es.len(),
{
    if es.len() == 0 {
        seq![]
    } else {
        let before = listed_files(repo, revision, es.drop_last());
        if es.last().size is Some {
            before.push((es.last().path@, remote_file(repo, revision, es.last())))
        } else {
            before
        }
    }
}

/// What a list of named specs stands for.
pub open spec fn named_files(v: Seq<(String, RemoteFileSpec)>) -> Seq<(Seq<char>, RemoteFile)> {
    v.map_values(|p: (String, RemoteFileSpec)| (p.0@, p.1@))
}

/// All files of a repo-level URL's listing, without downloading.
pub fn list_repo_as_http_specs(
    hf: &HfUrl,
    entries: &Vec<HfTreeEntry>,
) -> (r: Result<Vec<(String, RemoteFileSpec)>, HubError>)
    ensures
        ({
            let files = listed_files(
                Repo { kind: hf.kind, repo_id: hf.repo_id@ },
                hf.revision@,
                entries@,
            );
            match r {
                Ok(v) => hf.kind != RepoKind::Bucket && files.len() > 0 && named_files(v@)
                    == files,
                Err(e) => if hf.kind == RepoKind::Bucket {
                    e@ == (HubFault::BucketNotStreamable { repo_id: hf.repo_id@ })
                } else {
                    files.len() == 0 && e@ == (HubFault::NoFiles { repo_id: hf.repo_id@ })
                },
            }
        }),
{
    let repo = match make_remote_repo(hf) {
        Ok(r) => r,
        Err(e) => {
            return Err(e);
        },
    };
    let ghost es = entries@;
    let mut specs: Vec<(String, RemoteFileSpec)> = Vec::new();
    let mut i: usize = 0;
    assert(es.take(0) =~= seq![]);
    assert(named_files(specs@) =~= seq![]);
    while i < entries.len()
        invariant
            i <= es.len(),
            es == entries@,
            hf.kind != RepoKind::Bucket,
            repo@ == (Repo { kind: hf.kind, repo_id: hf.repo_id@ }),
            named_files(specs@) == listed_files(repo@, hf.revision@, es.take(i as int)),
        decreases es.len() - i,
    {
        assert(es.take(i + 1).drop_last() =~= es.take(i as int));
        let ghost was = named_files(specs@);
        let e = &entries[i];
        if e.is_file() {
            let s = spec_of_entry(&repo, &hf.revision, e);
            let ghost entry = (e.path@, s@);
            specs.push((e.path.clone(), s));
            assert(named_files(specs@) =~= was.push(entry));
        }
        i = i + 1;
    }
    assert(es.take(i as int) =~= es);
    assert(named_files(specs@).len() == specs@.len());
    if specs.len() == 0 {
        return Err(HubError::NoFiles { repo_id: hf.repo_id.clone() });
    }
    Ok(specs)
}

/// The arguments of the `hf` call that lists a repo.
pub open spec fn listing_args(
    kind: RepoKind,
    repo_id: Seq<char>,
    revision: Seq<char>,
) -> Seq<Seq<char>> {
    if kind == RepoKind::Bucket {
        seq!["buckets"@, "ls"@, "-R"@, repo_id]
    } else {
        seq![segment_of(kind), "list"@, "-R"@, "--revision"@, revision, repo_id]
    }
}

/// The texts of a list of strings.
pub open spec fn strings(v: Seq<String>) -> Seq<Seq<char>> {
    v.map_values(|p: String| p@)
}

/// The arguments of the `hf` call that lists a repo recursively.
pub fn list_repo_args(kind: RepoKind, repo_id: &str, revision: &str) -> (r: Vec<String>)
    ensures
        strings(r@) == listing_args(kind, repo_id@, revision@),
{
    let mut args: Vec<String> = Vec::new();
    match kind {
        RepoKind::Bucket => {
            args.push("buckets".to_owned());
            args.push("ls".to_owned());
            args.push("-R".to_owned());
            args.push(repo_id.to_owned());
        },
        _ => {
            args.push(kind.api_segment().to_owned());
            args.push("list".to_owned());
            args.push("-R".to_owned());
            args.push("--revision".to_owned());
            args.push(revision.to_owned());
            args.push(repo_id.to_owned());
        },
    }
    assert(strings(args@) =~= listing_args(kind, repo_id@, revision@));
    args
}

/// The arguments of the `hf` call that downloads what a URL addresses: one
/// file, or the whole repo where it names none.
pub open spec fn download_args(repo_type: Seq<char>, a: Address) -> Seq<Seq<char>> {
    let args = seq![
        "download"@,
        "--type"@,
        repo_type,
        "--revision"@,
        a.revision,
        a.repo_id,
    ];
    if a.path.len() == 0 {
        args
    } else {
        args.push(a.path)
    }
}

/// The arguments of the `hf` call that downloads what a URL addresses; a
/// bucket is fetched otherwise.
pub fn resolve_args(hf: &HfUrl) -> (r: Result<Vec<String>, HubError>)
    ensures
        match r {
            Ok(args) => repo_type_of(hf.kind) matches Some(t) && strings(args@) == download_args(
                t,
                hf@,
            ),
            Err(e) => hf.kind == RepoKind::Bucket && e@ == HubFault::BucketHasNoType,
        },
{
    let repo_type = match hf.kind.cli_repo_type() {
        Ok(t) => t,
        Err(e) => {
            return Err(e);
        },
    };
    let mut args: Vec<String> = Vec::new();
    args.push("download".to_owned());
    args.push("--type".to_owned());
    args.push(repo_type.to_owned());
    args.push("--revision".to_owned());
    args.push(hf.revision.clone());
    args.push(hf.repo_id.clone());
    if !hf.path_in_repo.as_str().is_empty() {
        args.push(hf.path_in_repo.clone());
    }
    assert(strings(args@) =~= download_args(repo_type@, hf@));
    Ok(args)
}

/// The address of what a bucket URL names.
pub open spec fn bucket_address(repo_id: Seq<char>, path: Seq<char>) -> Seq<char> {
    "hf://buckets/"@ + (if path.len() == 0 {
        repo_id
    } else {
        repo_id + "/"@ + path
    })
}

/// `hf://buckets/<id>[/<path>]`.
pub fn bucket_url(repo_id: &str, path: &str) -> (s: String)
    ensures
        s@ == bucket_address(repo_id@, path@),
{
    if path.is_empty() {
        "hf://buckets/".to_owned().concat(repo_id)
    } else {
        let s = "hf://buckets/".to_owned().concat(repo_id).concat("/").concat(path);
        assert(s@ =~= bucket_address(repo_id@, path@));
        s
    }
}

/// The arguments of the `hf` call that fetches from a bucket into `dest`: a
/// sync of the whole bucket, or a copy of one file.
pub fn resolve_bucket_args(hf: &HfUrl, dest: &str) -> (r: Vec<String>)
    ensures
        strings(r@) == (if hf.path_in_repo@.len() == 0 {
            seq!["sync"@, bucket_address(hf.repo_id@, hf.path_in_repo@), dest@]
        } else {
            seq!["buckets"@, "cp"@, bucket_address(hf.repo_id@, hf.path_in_repo@), dest@]
        }),
{
    let src = bucket_url(hf.repo_id.as_str(), hf.path_in_repo.as_str());
    let mut args: Vec<String> = Vec::new();
    if hf.path_in_repo.as_str().is_empty() {
        args.push("sync".to_owned());
    } else {
        args.push("buckets".to_owned());
        args.push("cp".to_owned());
    }
    args.push(src);
    args.push(dest.to_owned());
    assert(strings(args@) =~= (if hf.path_in_repo@.len() == 0 {
        seq!["sync"@, bucket_address(hf.repo_id@, hf.path_in_repo@), dest@]
    } else {
        seq!["buckets"@, "cp"@, bucket_address(hf.repo_id@, hf.path_in_repo@), dest@]
    }));
    args
}

/// Returns true if `url_str` is a repo-level `hf://` URL (no file path
/// component).
///
/// A non-`hf://` input (e.g. a local path) returns `Ok(false)` — it isn't an
/// HF URL at all, so by definition it isn't repo-level. Only an actually
/// malformed `hf://` input is an error.
pub fn is_repo_level(url_str: &str) -> (r: Result<bool, HubError>)
    ensures
        match r {
            Ok(b) => if text::begins(url_str@, "hf://"@) {
                parsed(url_str@) matches Ok(a) && b == (a.path.len() == 0)
            } else {
                !b
            },
            Err(e) => text::begins(url_str@, "hf://"@) && parsed(url_str@) == Err::<
                Address,
                HubFault,
            >(e@),
        },
{
    if !is_hf_url(url_str) {
        return Ok(false);
    }
    match parse(url_str) {
        Ok(u) => Ok(u.path_in_repo.as_str().is_empty()),
        Err(e) => Err(e),
    }
}

/// True iff `s` is an `hf://` URL. Centralises the prefix check so call sites
/// don't sprinkle it everywhere.
pub fn is_hf_url(s: &str) -> (r: bool)
    ensures
        r == text::begins(s@, "hf://"@),
{
    starts_with(s, "hf://")
}

/// Path-typed variant of [`is_hf_url`], on the text of a path: `None` for a
/// path that is no text, which can't be an hf:// URL.
pub fn is_hf_path(p: Option<&str>) -> (r: bool)
    ensures
        r == (p matches Some(s) && text::begins(s@, "hf://"@)),
{
    match p {
        Some(s) => is_hf_url(s),
        None => false,
    }
}

/// Parse an `hf://` output URL into an `HfOutputSpec`.
pub fn parse_hf_output(hf_url_str: &str) -> (r: Result<HfOutputSpec, HubError>)
    ensures
        match (r, parsed(hf_url_str@)) {
            (Ok(o), Ok(a)) => o.repo_id@ == a.repo_id && o.kind == a.kind && o.revision@
                == a.revision && o.path_prefix@ == a.path,
            (Err(e), Err(f)) => e@ == f,
            _ => false,
        },
{
    match parse(hf_url_str) {
        Ok(hf) => Ok(
            HfOutputSpec {
                repo_id: hf.repo_id,
                kind: hf.kind,
                revision: hf.revision,
                path_prefix: hf.path_in_repo,
            },
        ),
        Err(e) => Err(e),
    }
}

/// The parts of a text are not empty and hold no separator.
pub proof fn parts_hold_no_separator(s: Seq<char>, sep: char, from: int, i: int)
    requires
        0 <= from,
        0 <= i < text::parts_from(s, sep, from).len(),
    ensures
        text::parts_from(s, sep, from)[i].len() > 0,
        !text::parts_from(s, sep, from)[i].contains(sep),
    decreases s.len() - from,
{
    let j = text::find_from(s, sep, from);
    lemma_find_bound(s, sep, from);
    lemma_find_skips(s, sep, from);
    if j > from {
        if i > 0 {
            parts_hold_no_separator(s, sep, j + 1, i - 1);
        }
    } else {
        parts_hold_no_separator(s, sep, j + 1, i);
    }
}

proof fn lemma_find_skips(s: Seq<char>, c: char, from: int)
    requires
        0 <= from,
    ensures
        forall|k: int| from <= k < text::find_from(s, c, from) ==> s[k] != c,
        from <= s.len() ==> from <= text::find_from(s, c, from),
    decreases s.len() - from,
{
    if from < s.len() && s[from] != c {
        lemma_find_skips(s, c, from + 1);
    }
}

} // verus!
