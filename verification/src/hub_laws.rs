//! What is asked of the Hub: the arguments of its commands, the addresses of
//! repositories by kind, and the texts of a deployment.

use vstd::prelude::*;
use crate::address_laws;
use crate::deploy;
use crate::download;
use crate::hf_url;
use crate::hf_url::{Address, RepoKind};
use crate::text;
use crate::throttle;
use crate::throttle::{Outcome, Throttle};

verus! {

/// The kinds of repositories go by one word: the type of a command is the
/// segment of an address without its plural, and a file's URL begins with the
/// segment, but for models. A bucket has no type.
pub proof fn kinds_go_by_one_word(k: RepoKind)
    ensures
        match hf_url::repo_type_of(k) {
            Some(t) => k != RepoKind::Bucket && hf_url::segment_of(k) == t + seq!['s'],
            None => k == RepoKind::Bucket,
        },
        k == RepoKind::Dataset || k == RepoKind::Space ==> hf_url::resolve_prefix(k)
            == hf_url::segment_of(k) + seq!['/'],
        k == RepoKind::Model ==> hf_url::resolve_prefix(k).len() == 0,
{
    reveal_strlit("models");
    reveal_strlit("model");
    reveal_strlit("datasets");
    reveal_strlit("dataset");
    reveal_strlit("spaces");
    reveal_strlit("space");
    reveal_strlit("datasets/");
    reveal_strlit("spaces/");
    reveal_strlit("");
    assert("models"@ =~= "model"@ + seq!['s']);
    assert("datasets"@ =~= "dataset"@ + seq!['s']);
    assert("spaces"@ =~= "space"@ + seq!['s']);
    assert("datasets/"@ =~= "datasets"@ + seq!['/']);
    assert("spaces/"@ =~= "spaces"@ + seq!['/']);
}

/// The argument follows the given flag.
pub open spec fn follows(args: Seq<Seq<char>>, flag: Seq<char>, arg: Seq<char>) -> bool {
    exists|i: int| 0 <= i < args.len() - 1 && #[trigger] args[i] == flag && args[i + 1] == arg
}

/// A download names its type, revision and repository, and the path last where
/// there is one.
pub proof fn downloads_name_their_file(repo_type: Seq<char>, a: Address)
    ensures
        ({
            let args = hf_url::download_args(repo_type, a);
            &&& args[0] == "download"@
            &&& follows(args, "--type"@, repo_type)
            &&& follows(args, "--revision"@, a.revision)
            &&& a.path.len() == 0 ==> args.last() == a.repo_id
            &&& a.path.len() > 0 ==> args.last() == a.path && args[args.len() - 2] == a.repo_id
        }),
{
    let args = hf_url::download_args(repo_type, a);
    assert(args[1] == "--type"@ && args[2] == repo_type);
    assert(args[3] == "--revision"@ && args[4] == a.revision);
}

/// A listing asks for everything below a repository, at its revision unless it
/// is a bucket, which has none.
pub proof fn listings_name_their_repository(kind: RepoKind, id: Seq<char>, revision: Seq<char>)
    ensures
        ({
            let args = hf_url::listing_args(kind, id, revision);
            &&& args[0] == hf_url::segment_of(kind)
            &&& args[2] == "-R"@
            &&& args.last() == id
            &&& kind != RepoKind::Bucket ==> follows(args, "--revision"@, revision)
        }),
{
    let args = hf_url::listing_args(kind, id, revision);
    if kind != RepoKind::Bucket {
        assert(args[3] == "--revision"@ && args[4] == revision);
    }
}

/// An upload goes from the local directory to the repository: a bucket is
/// synchronised, everything else uploaded by type, to its root where no path is
/// given.
pub proof fn uploads_name_their_ends(
    dir: Seq<char>,
    id: Seq<char>,
    kind: RepoKind,
    prefix: Seq<char>,
)
    ensures
        ({
            let args = deploy::upload_dir_argv(dir, id, kind, prefix);
            match hf_url::repo_type_of(kind) {
                Some(t) => args[0] == "upload"@ && follows(args, "--repo-type"@, t) && follows(
                    args,
                    id,
                    dir,
                ) && args.last() == (if prefix.len() == 0 {
                    "."@
                } else {
                    prefix
                }),
                None => args[0] == "sync"@ && follows(
                    args,
                    dir,
                    hf_url::bucket_address(id, prefix),
                ) && args.contains("--delete"@),
            }
        }),
{
    let args = deploy::upload_dir_argv(dir, id, kind, prefix);
    match hf_url::repo_type_of(kind) {
        Some(t) => {
            assert(args[1] == "--repo-type"@ && args[2] == t);
            assert(args[3] == id && args[4] == dir);
        },
        None => {
            assert(args[1] == dir && args[2] == hf_url::bucket_address(id, prefix));
            assert(args[3] == "--delete"@);
        },
    }
}

/// The address of a place in a bucket is read as that place.
pub proof fn bucket_addresses_read_back(
    owner: Seq<char>,
    name: Seq<char>,
    path: Seq<Seq<char>>,
)
    requires
        address_laws::is_segment(owner),
        address_laws::is_segment(name),
        !name.contains('@'),
        address_laws::are_segments(path),
        text::joined(path, "/"@).len() > 0,
    ensures
        hf_url::parsed(
            hf_url::bucket_address(owner + seq!['/'] + name, text::joined(path, "/"@)),
        ) == Ok::<Address, hf_url::HubFault>(
            Address {
                kind: RepoKind::Bucket,
                repo_id: owner + "/"@ + name,
                revision: "main"@,
                path: text::joined(path, "/"@),
            },
        ),
{
    reveal_strlit("hf://buckets/");
    reveal_strlit("hf://");
    reveal_strlit("buckets");
    reveal_strlit("/");
    assert("/"@ =~= seq!['/']);
    assert("hf://buckets/"@ =~= "hf://"@ + "buckets"@ + seq!['/']);
    address_laws::addresses_say_what_they_name(RepoKind::Bucket, owner, name, None, path);
    let d = text::joined(path, "/"@);
    let repo = owner + seq!['/'] + name + seq!['/'] + d;
    assert(hf_url::bucket_address(owner + seq!['/'] + name, d) =~= "hf://"@ + "buckets"@ + seq!['/']
        + repo);
}

/// A Space is missing where the Hub says so, there where it answers or asks for
/// a login, and in doubt otherwise.
pub proof fn statuses_tell_what_exists(status: u16)
    ensures
        deploy::existence(status) == Some(false) <==> status == 404,
        200 <= status < 300 || status == 401 || status == 403 <==> deploy::existence(status)
            == Some(true),
{
}

/// A bundle is whole where nothing is missing; otherwise the first missing part
/// is named, the page before the labels, the labels before the tiles.
pub proof fn bundles_name_what_is_missing(p: deploy::BundleParts, dir: Seq<char>)
    ensures
        deploy::bundle_fault(p, dir) is None <==> p.index && p.labels && p.tiles,
        deploy::bundle_fault(p, dir) matches Some(deploy::DeployFault::MissingTiles { dir: d }) ==> d
            == dir && p.index && p.labels && !p.tiles,
        deploy::bundle_fault(p, dir) matches Some(deploy::DeployFault::MissingFile { name, dir: d })
            ==> d == dir && (name == "index.html"@ && !p.index || name == "labels.json"@ && p.index
            && !p.labels),
{
}

proof fn lemma_find_is(s: Seq<char>, c: char, from: int, at: int)
    requires
        0 <= from <= at <= s.len(),
        at < s.len() ==> s[at] == c,
        forall|k: int| from <= k < at ==> #[trigger] s[k] != c,
    ensures
        text::find_from(s, c, from) == at,
    decreases at - from,
{
    if from < at {
        assert(s[from] != c);
        lemma_find_is(s, c, from + 1, at);
    }
}

/// A Space is shown by its name without the owner.
pub proof fn spaces_are_shown_by_name(owner: Seq<char>, name: Seq<char>)
    requires
        !owner.contains('/'),
        !name.contains('/'),
    ensures
        deploy::shown_repo_name(owner + seq!['/'] + name) == name,
        deploy::shown_repo_name(name) == name,
{
    let s = owner + seq!['/'] + name;
    let n = owner.len() as int;
    assert forall|k: int| 0 <= k < n implies #[trigger] s[k] != '/' by {
        assert(s[k] == owner[k]);
        assert(owner.contains(owner[k]));
    }
    assert forall|k: int| n < k < s.len() implies #[trigger] s[k] != '/' by {
        assert(s[k] == name[k - n - 1]);
        assert(name.contains(name[k - n - 1]));
    }
    assert(s[n] == '/');
    lemma_find_is(s, '/', 0, n);
    lemma_find_is(s, '/', n + 1, s.len() as int);
    assert(s.subrange(n + 1, s.len() as int) =~= name);
    assert forall|k: int| 0 <= k < name.len() implies #[trigger] name[k] != '/' by {
        assert(name.contains(name[k]));
    }
    lemma_find_is(name, '/', 0, name.len() as int);
}

/// Replacing leaves a text as it is from where the part no longer occurs.
pub proof fn replacing_keeps_the_rest(
    s: Seq<char>,
    part: Seq<char>,
    by: Seq<char>,
    from: int,
)
    requires
        0 <= from <= s.len(),
        part.len() > 0,
        forall|k: int| from <= k ==> !#[trigger] text::occurs_at(s, part, k),
    ensures
        deploy::replaced_from(s, part, by, from) == s.skip(from),
    decreases s.len() - from,
{
    if from < s.len() {
        replacing_keeps_the_rest(s, part, by, from + 1);
        assert(!text::occurs_at(s, part, from));
        assert(s.skip(from) =~= seq![s[from]] + s.skip(from + 1));
    } else {
        assert(s.skip(from) =~= seq![]);
    }
}

/// A part that occurs once is replaced where it stands, and nothing else is.
pub proof fn replacing_puts_the_part_in_place(
    s: Seq<char>,
    part: Seq<char>,
    by: Seq<char>,
    at: int,
    from: int,
)
    requires
        0 <= from <= at,
        part.len() > 0,
        text::occurs_at(s, part, at),
        forall|k: int| from <= k && k != at ==> !#[trigger] text::occurs_at(s, part, k),
    ensures
        deploy::replaced_from(s, part, by, from) == s.subrange(from, at) + by + s.skip(
            at + part.len(),
        ),
    decreases at - from,
{
    if from < at {
        assert(!text::occurs_at(s, part, from));
        replacing_puts_the_part_in_place(s, part, by, at, from + 1);
        assert(seq![s[from]] + (s.subrange(from + 1, at) + by + s.skip(at + part.len()))
            =~= s.subrange(from, at) + by + s.skip(at + part.len()));
    } else {
        replacing_keeps_the_rest(s, part, by, at + part.len());
        assert(s.subrange(at, at) + by + s.skip(at + part.len()) =~= by + s.skip(
            at + part.len(),
        ));
    }
}

/// Of several failures of a batch the one that was asked for first is reported.
pub proof fn the_first_failure_is_reported<T, E>(s: Seq<(usize, Result<T, E>)>, size: int)
    requires
        forall|k: int| 0 <= k < s.len() ==> (#[trigger] s[k]).0 < size,
    ensures
        forall|k: int|
            0 <= k < s.len() && (#[trigger] s[k]).1 is Err ==> download::first_failed(s, size)
                <= s[k].0,
        download::first_failed(s, size) < size <==> exists|k: int|
            0 <= k < s.len() && (#[trigger] s[k]).1 is Err,
        download::first_failed(s, size) < size ==> exists|k: int|
            0 <= k < s.len() && (#[trigger] s[k]).1 is Err && s[k].0 == download::first_failed(
                s,
                size,
            ),
{
    download::lemma_first_failed(s, size);
}

/// Each outcome leaves its own trace: a success never lowers the limit, a rate
/// limit and a transient failure are counted as what they are, and a permanent
/// failure changes nothing.
pub proof fn outcomes_leave_their_trace(t: Throttle, now: i64)
    requires
        t.wf(),
        0 <= now,
    ensures
        throttle::recorded(t, None, now).active_limit >= t.active_limit,
        throttle::recorded(t, None, now).total_rate_limits == t.total_rate_limits,
        throttle::recorded(t, None, now).total_timeouts == t.total_timeouts,
        throttle::recorded(t, Some(Outcome::RateLimit), now).total_rate_limits
            == t.total_rate_limits.wrapping_add(1),
        throttle::recorded(t, Some(Outcome::RateLimit), now).last_rate_limit == now,
        throttle::recorded(t, Some(Outcome::Timeout), now).total_timeouts
            == t.total_timeouts.wrapping_add(1),
        throttle::recorded(t, Some(Outcome::Timeout), now).active_limit <= t.active_limit,
        throttle::recorded(t, Some(Outcome::Permanent), now) == t,
{
}

} // verus!
