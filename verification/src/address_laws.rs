//! What addresses name: their parts, and that an address written out is read
//! back as the same address.

use crate::hf_url;
use crate::hf_url::{Address, RepoKind};
use crate::text;
use vstd::prelude::*;

verus! {

/// An address as a URL, with its kind and its revision written out.
pub open spec fn printed(a: Address) -> Seq<char> {
    "hf://"@ + hf_url::segment_of(a.kind) + "/"@ + a.repo_id + "@"@ + a.revision + "/"@ + a.path
}

/// A path has no slash at its ends and no two in a row.
pub open spec fn is_clean_path(p: Seq<char>) -> bool {
    &&& p.len() > 0 ==> p[0] != '/' && p.last() != '/'
    &&& forall|i: int| 0 <= i < p.len() - 1 ==> !(#[trigger] p[i] == '/' && p[i + 1] == '/')
}

/// Segments are not empty and hold no slash.
pub open spec fn are_segments(ss: Seq<Seq<char>>) -> bool {
    forall|i: int| 0 <= i < ss.len() ==> is_segment(#[trigger] ss[i])
}

/// A segment is not empty and holds no slash.
pub open spec fn is_segment(s: Seq<char>) -> bool {
    s.len() > 0 && !s.contains('/')
}

proof fn lemma_find(s: Seq<char>, c: char, from: int)
    requires
        0 <= from <= s.len(),
    ensures
        from <= text::find_from(s, c, from) <= s.len(),
        text::find_from(s, c, from) < s.len() ==> s[text::find_from(s, c, from)] == c,
        forall|k: int| from <= k < text::find_from(s, c, from) ==> s[k] != c,
    decreases s.len() - from,
{
    if from < s.len() && s[from] != c {
        lemma_find(s, c, from + 1);
    }
}

/// The first place of a character is known by what comes before it.
proof fn lemma_find_is(s: Seq<char>, c: char, from: int, at: int)
    requires
        0 <= from <= at <= s.len(),
        at < s.len() ==> s[at] == c,
        forall|k: int| from <= k < at ==> s[k] != c,
    ensures
        text::find_from(s, c, from) == at,
{
    lemma_find(s, c, from);
    let j = text::find_from(s, c, from);
    if j < at {
        assert(s[j] != c);
    }
}

proof fn lemma_parts_behind(p: Seq<char>, b: Seq<char>, sep: char, from: int)
    requires
        0 <= from <= b.len(),
    ensures
        text::parts_from(p + b, sep, p.len() + from) == text::parts_from(b, sep, from),
    decreases b.len() - from,
{
    let s = p + b;
    let n = p.len() as int;
    let j = text::find_from(b, sep, from);
    lemma_find(b, sep, from);
    assert forall|k: int| n + from <= k < n + j implies s[k] != sep by {
        assert(s[k] == b[k - n]);
    }
    lemma_find_is(s, sep, n + from, n + j);
    assert(s.subrange(n + from, n + j) =~= b.subrange(from, j));
    if j < b.len() {
        lemma_parts_behind(p, b, sep, j + 1);
        assert(n + (j + 1) == n + j + 1);
    }
}

proof fn lemma_parts_joined(a: Seq<char>, b: Seq<char>, sep: char, from: int)
    requires
        0 <= from <= a.len(),
    ensures
        text::parts_from(a + seq![sep] + b, sep, from) == text::parts_from(a, sep, from)
            + text::parts_from(b, sep, 0),
    decreases a.len() - from,
{
    let s = a + seq![sep] + b;
    let j = text::find_from(a, sep, from);
    lemma_find(a, sep, from);
    assert forall|k: int| from <= k < j implies s[k] != sep by {
        assert(s[k] == a[k]);
    }
    if j < a.len() {
        assert(s[j] == a[j]);
    } else {
        assert(s[j] == sep);
    }
    lemma_find_is(s, sep, from, j);
    assert(s.subrange(from, j) =~= a.subrange(from, j));
    if j < a.len() {
        lemma_parts_joined(a, b, sep, j + 1);
        let x = text::parts_from(a, sep, j + 1);
        let y = text::parts_from(b, sep, 0);
        assert(seq![a.subrange(from, j)] + (x + y) =~= seq![a.subrange(from, j)] + x + y);
    } else {
        lemma_parts_behind(a + seq![sep], b, sep, 0);
        assert(seq![a.subrange(from, j)] + seq![] =~= seq![a.subrange(from, j)]);
        assert(Seq::<Seq<char>>::empty() + text::parts_from(b, sep, 0) =~= text::parts_from(
            b,
            sep,
            0,
        ));
    }
}

/// A segment is its only part.
proof fn lemma_segment_parts(s: Seq<char>)
    requires
        is_segment(s),
    ensures
        text::parts_from(s, '/', 0) == seq![s],
{
    assert forall|k: int| 0 <= k < s.len() implies s[k] != '/' by {
        assert(s.contains(s[k]));
    }
    lemma_find_is(s, '/', 0, s.len() as int);
    assert(s.subrange(0, s.len() as int) =~= s);
    assert(seq![s] + Seq::<Seq<char>>::empty() =~= seq![s]);
}

/// Joined segments have these parts again, and form a clean path.
proof fn lemma_joined_parts(ss: Seq<Seq<char>>)
    requires
        are_segments(ss),
    ensures
        text::parts_from(text::joined(ss, "/"@), '/', 0) == ss,
        is_clean_path(text::joined(ss, "/"@)),
        ss.len() > 0 ==> text::joined(ss, "/"@).len() > 0,
    decreases ss.len(),
{
    reveal_strlit("/");
    assert("/"@ =~= seq!['/']);
    let p = text::joined(ss, "/"@);
    if ss.len() == 0 {
        assert(p =~= seq![]);
        lemma_find_is(p, '/', 0, 0);
        assert(text::parts_from(p, '/', 0) =~= ss);
    } else if ss.len() == 1 {
        assert(is_segment(ss[0]));
        lemma_segment_parts(ss[0]);
        assert(seq![ss[0]] =~= ss);
        assert forall|k: int| 0 <= k < p.len() implies p[k] != '/' by {
            assert(p.contains(p[k]));
        }
    } else {
        let init = ss.drop_last();
        let last = ss.last();
        assert forall|i: int| 0 <= i < init.len() implies is_segment(#[trigger] init[i]) by {
            assert(init[i] == ss[i]);
        }
        assert(is_segment(ss[ss.len() - 1]));
        lemma_joined_parts(init);
        let q = text::joined(init, "/"@);
        lemma_parts_joined(q, last, '/', 0);
        lemma_segment_parts(last);
        assert(init + seq![last] =~= ss);
        assert(p =~= q + seq!['/'] + last);
        assert forall|k: int| 0 <= k < last.len() implies last[k] != '/' by {
            assert(last.contains(last[k]));
        }
        assert forall|i: int| 0 <= i < p.len() - 1 implies !(#[trigger] p[i] == '/' && p[i + 1]
            == '/') by {
            if i < q.len() - 1 {
                assert(p[i] == q[i] && p[i + 1] == q[i + 1]);
            } else if i == q.len() - 1 {
                assert(p[i] == q.last());
            } else {
                assert(p[i + 1] == last[i - q.len()]);
            }
        }
        assert(p[0] == q[0]);
        assert(p.last() == last.last());
    }
}

proof fn lemma_kind_named(k: RepoKind)
    ensures
        hf_url::kind_named(hf_url::segment_of(k)) == Some(k),
        is_segment(hf_url::segment_of(k)),
{
    reveal_strlit("models");
    reveal_strlit("datasets");
    reveal_strlit("spaces");
    reveal_strlit("buckets");
    let s = hf_url::segment_of(k);
    assert("models"@.len() == 6 && "datasets"@.len() == 8);
    assert("spaces"@.len() == 6 && "buckets"@.len() == 7);
    assert("models"@[0] == 'm' && "spaces"@[0] == 's');
    assert("models"@ != "spaces"@);
    assert(!s.contains('/')) by {
        if s.contains('/') {
            let i = choose|i: int| 0 <= i < s.len() && s[i] == '/';
            assert(s[i] != '/');
        }
    }
}

/// Two segments behind the kind, with the revision written out, are read back.
proof fn lemma_read_back(kind: RepoKind, segs: Seq<Seq<char>>, raw: Seq<char>)
    requires
        are_segments(segs),
        hf_url::address_of(kind, segs, raw) is Ok,
    ensures
        hf_url::parsed(printed(hf_url::address_of(kind, segs, raw)->Ok_0))
            == hf_url::address_of(kind, segs, raw),
        is_clean_path(hf_url::address_of(kind, segs, raw)->Ok_0.path),
{
    reveal_strlit("hf://");
    reveal_strlit("/");
    reveal_strlit("@");
    reveal_strlit("main");
    assert("/"@ =~= seq!['/']);
    assert("@"@ =~= seq!['@']);
    let a = hf_url::address_of(kind, segs, raw)->Ok_0;
    let owner = segs[0];
    let seg = segs[1];
    let (name, revision) = hf_url::name_and_revision(seg);
    let tail = segs.skip(2);
    assert(is_segment(owner) && is_segment(seg));
    lemma_find(seg, '@', 0);
    let at = text::find_from(seg, '@', 0);
    assert forall|k: int| 0 <= k < seg.len() implies seg[k] != '/' by {
        assert(seg.contains(seg[k]));
    }
    // The segment with the revision written out.
    let full = name + "@"@ + revision;
    assert forall|k: int| 0 <= k < name.len() implies name[k] != '@' && name[k] != '/' by {
        assert(name[k] == seg[k]);
    }
    assert forall|k: int| 0 <= k < revision.len() implies revision[k] != '/' by {
        if at < seg.len() {
            assert(revision[k] == seg[at + 1 + k]);
        }
    }
    assert(!full.contains('/')) by {
        if full.contains('/') {
            let i = choose|i: int| 0 <= i < full.len() && full[i] == '/';
            if i < name.len() {
                assert(full[i] == name[i]);
            } else if i > name.len() {
                assert(full[i] == revision[i - name.len() - 1]);
            }
        }
    }
    assert(full[name.len() as int] == '@');
    assert forall|k: int| 0 <= k < name.len() implies full[k] != '@' by {
        assert(full[k] == name[k]);
    }
    lemma_find_is(full, '@', 0, name.len() as int);
    assert(full.take(name.len() as int) =~= name);
    assert(full.skip(name.len() as int + 1) =~= revision);
    // The parts of the printed address.
    assert forall|i: int| 0 <= i < tail.len() implies is_segment(#[trigger] tail[i]) by {
        assert(tail[i] == segs[i + 2]);
    }
    lemma_joined_parts(tail);
    lemma_kind_named(kind);
    let k = hf_url::segment_of(kind);
    let d = a.path;
    let rest = k + seq!['/'] + (owner + seq!['/'] + (full + seq!['/'] + d));
    assert(printed(a) =~= "hf://"@ + rest);
    assert(printed(a).take(5) =~= "hf://"@);
    assert(printed(a).skip(5) =~= rest);
    lemma_parts_joined(full, d, '/', 0);
    lemma_parts_joined(owner, full + seq!['/'] + d, '/', 0);
    lemma_parts_joined(k, owner + seq!['/'] + (full + seq!['/'] + d), '/', 0);
    lemma_segment_parts(full);
    lemma_segment_parts(owner);
    lemma_segment_parts(k);
    let ss = text::parts_from(rest, '/', 0);
    assert(ss =~= seq![k, owner, full] + tail);
    assert(ss.skip(1)[0] == owner && ss.skip(1)[1] == full);
    assert(ss.skip(1).skip(2) =~= tail);
}

/// The address that a URL gives, written out, is read back as that address, and
/// its path has no leading, trailing or doubled slash.
pub proof fn addresses_read_back(raw: Seq<char>)
    requires
        hf_url::parsed(raw) is Ok,
    ensures
        hf_url::parsed(printed(hf_url::parsed(raw)->Ok_0)) == hf_url::parsed(raw),
        is_clean_path(hf_url::parsed(raw)->Ok_0.path),
{
    let rest = raw.skip(5);
    let segs = text::parts_from(rest, '/', 0);
    assert forall|i: int| 0 <= i < segs.len() implies is_segment(#[trigger] segs[i]) by {
        hf_url::parts_hold_no_separator(rest, '/', 0, i);
    }
    match hf_url::kind_named(segs[0]) {
        Some(k) => {
            let tail = segs.skip(1);
            assert forall|i: int| 0 <= i < tail.len() implies is_segment(#[trigger] tail[i]) by {
                assert(tail[i] == segs[i + 1]);
            }
            lemma_read_back(k, tail, raw);
        },
        None => {
            lemma_read_back(RepoKind::Model, segs, raw);
        },
    }
}

/// The repository part of an address: its name, behind an `@` its revision
/// where it has one of its own.
pub open spec fn with_revision(name: Seq<char>, revision: Option<Seq<char>>) -> Seq<char> {
    match revision {
        Some(r) => name + seq!['@'] + r,
        None => name,
    }
}

proof fn lemma_named(name: Seq<char>, revision: Option<Seq<char>>)
    requires
        is_segment(name),
        !name.contains('@'),
        revision matches Some(r) ==> is_segment(r),
    ensures
        is_segment(with_revision(name, revision)),
        hf_url::name_and_revision(with_revision(name, revision)) == (
            name,
            match revision {
                Some(r) => r,
                None => "main"@,
            },
        ),
{
    let full = with_revision(name, revision);
    let n = name.len() as int;
    assert forall|k: int| 0 <= k < n implies full[k] != '@' && full[k] != '/' by {
        assert(full[k] == name[k]);
        assert(name.contains(name[k]));
    }
    match revision {
        Some(r) => {
            assert(full[n] == '@');
            lemma_find_is(full, '@', 0, n);
            assert(full.take(n) =~= name);
            assert(full.skip(n + 1) =~= r);
            assert(!full.contains('/')) by {
                if full.contains('/') {
                    let i = choose|i: int| 0 <= i < full.len() && full[i] == '/';
                    if i > n {
                        assert(full[i] == r[i - n - 1]);
                        assert(r.contains(r[i - n - 1]));
                    }
                }
            }
        },
        None => {
            lemma_find_is(full, '@', 0, n);
        },
    }
}

/// An address names a repository of its kind by owner and name, a revision, and
/// a path in it; without a revision it means `main`, and without a kind a model.
pub proof fn addresses_say_what_they_name(
    kind: RepoKind,
    owner: Seq<char>,
    name: Seq<char>,
    revision: Option<Seq<char>>,
    path: Seq<Seq<char>>,
)
    requires
        is_segment(owner),
        is_segment(name),
        !name.contains('@'),
        revision matches Some(r) ==> is_segment(r),
        are_segments(path),
    ensures
        ({
            let repo = owner + seq!['/'] + with_revision(name, revision) + seq!['/']
                + text::joined(path, "/"@);
            let address = |k: RepoKind|
                hf_url::Address {
                    kind: k,
                    repo_id: owner + "/"@ + name,
                    revision: match revision {
                        Some(r) => r,
                        None => "main"@,
                    },
                    path: text::joined(path, "/"@),
                };
            &&& hf_url::parsed("hf://"@ + hf_url::segment_of(kind) + seq!['/'] + repo) == Ok::<
                hf_url::Address,
                hf_url::HubFault,
            >(address(kind))
            &&& hf_url::kind_named(owner) is None ==> hf_url::parsed("hf://"@ + repo) == Ok::<
                hf_url::Address,
                hf_url::HubFault,
            >(address(RepoKind::Model))
        }),
{
    reveal_strlit("hf://");
    reveal_strlit("/");
    reveal_strlit("main");
    assert("/"@ =~= seq!['/']);
    let full = with_revision(name, revision);
    let d = text::joined(path, "/"@);
    let k = hf_url::segment_of(kind);
    lemma_named(name, revision);
    lemma_kind_named(kind);
    lemma_joined_parts(path);
    let repo = owner + seq!['/'] + (full + seq!['/'] + d);
    assert(owner + seq!['/'] + full + seq!['/'] + d =~= repo);
    lemma_parts_joined(full, d, '/', 0);
    lemma_parts_joined(owner, full + seq!['/'] + d, '/', 0);
    lemma_segment_parts(full);
    lemma_segment_parts(owner);
    let ss = text::parts_from(repo, '/', 0);
    assert(ss =~= seq![owner, full] + path);
    assert(ss.skip(2) =~= path);
    let plain = "hf://"@ + repo;
    assert(plain.take(5) =~= "hf://"@);
    assert(plain.skip(5) =~= repo);
    let typed = k + seq!['/'] + repo;
    lemma_parts_joined(k, repo, '/', 0);
    lemma_segment_parts(k);
    let ts = text::parts_from(typed, '/', 0);
    assert(ts =~= seq![k] + ss);
    assert(ts.skip(1) =~= ss);
    let raw = "hf://"@ + k + seq!['/'] + repo;
    assert(raw =~= "hf://"@ + typed);
    assert(raw.take(5) =~= "hf://"@);
    assert(raw.skip(5) =~= typed);
}

/// The parts of a tile's path: the directory of tiles, the zoom, the column, and
/// the row with the extension.
pub proof fn tile_paths_name_zoom_column_row(z: u32, x: u32, y: u32, ext: Seq<char>, scene: Seq<char>)
    requires
        !ext.contains('/'),
        is_segment(scene),
    ensures
        text::parts_from(hf_url::tile_path(None, z, x, y, ext), '/', 0) == seq![
            "tiles"@,
            text::decimal(z as nat),
            text::decimal(x as nat),
            text::decimal(y as nat) + seq!['.'] + ext,
        ],
        text::parts_from(hf_url::tile_path(Some(scene), z, x, y, ext), '/', 0) == seq![
            "tiles"@,
            scene,
            text::decimal(z as nat),
            text::decimal(x as nat),
            text::decimal(y as nat) + seq!['.'] + ext,
        ],
{
    reveal_strlit("/");
    reveal_strlit(".");
    reveal_strlit("tiles");
    reveal_strlit("tiles/");
    assert("/"@ =~= seq!['/']);
    assert("."@ =~= seq!['.']);
    assert("tiles/"@ =~= "tiles"@ + seq!['/']);
    let a = text::decimal(z as nat);
    let b = text::decimal(x as nat);
    let last = text::decimal(y as nat) + seq!['.'] + ext;
    lemma_decimal_segment(z as nat);
    lemma_decimal_segment(x as nat);
    lemma_decimal_segment(y as nat);
    assert(is_segment(last)) by {
        if last.contains('/') {
            let i = choose|i: int| 0 <= i < last.len() && last[i] == '/';
            let n = text::decimal(y as nat).len();
            if i < n {
                assert(text::decimal(y as nat)[i] == '/');
                assert(text::decimal(y as nat).contains('/'));
            } else {
                assert(i > n);
                assert(ext[i - n - 1] == '/');
                assert(ext.contains('/'));
            }
        }
    }
    let t = "tiles"@;
    assert(is_segment(t)) by {
        if t.contains('/') {
            let i = choose|i: int| 0 <= i < t.len() && t[i] == '/';
        }
    }
    let rest = a + seq!['/'] + (b + seq!['/'] + last);
    lemma_parts_joined(b, last, '/', 0);
    lemma_parts_joined(a, b + seq!['/'] + last, '/', 0);
    lemma_parts_joined(t, rest, '/', 0);
    lemma_parts_joined(scene, rest, '/', 0);
    lemma_parts_joined(t, scene + seq!['/'] + rest, '/', 0);
    lemma_segment_parts(a);
    lemma_segment_parts(b);
    lemma_segment_parts(last);
    lemma_segment_parts(t);
    lemma_segment_parts(scene);
    assert(hf_url::tile_path(None, z, x, y, ext) =~= t + seq!['/'] + rest);
    assert(hf_url::tile_path(Some(scene), z, x, y, ext) =~= t + seq!['/'] + (scene + seq!['/']
        + rest));
    assert(text::parts_from(rest, '/', 0) =~= seq![a, b, last]);
    assert(text::parts_from(t + seq!['/'] + rest, '/', 0) =~= seq![t, a, b, last]);
    assert(text::parts_from(t + seq!['/'] + (scene + seq!['/'] + rest), '/', 0) =~= seq![
        t,
        scene,
        a,
        b,
        last,
    ]);
}

proof fn lemma_decimal_segment(n: nat)
    ensures
        is_segment(text::decimal(n)),
    decreases n,
{
    let s = text::decimal(n);
    if n < 10 {
        assert((n + 48) as char as int == n + 48);
        assert(s[0] == (n + 48) as char);
        assert('/' as int == 47);
        if s.contains('/') {
            let i = choose|i: int| 0 <= i < s.len() && s[i] == '/';
            assert(i == 0);
        }
    } else {
        lemma_decimal_segment(n / 10);
        let t = text::decimal(n / 10);
        assert((n % 10 + 48) as char as int == n % 10 + 48);
        if s.contains('/') {
            let i = choose|i: int| 0 <= i < s.len() && s[i] == '/';
            if i < t.len() {
                assert(t[i] == '/');
                assert(t.contains('/'));
            } else {
                assert(s[i] == (n % 10 + 48) as char);
                assert('/' as int == 47);
            }
        }
    }
}

} // verus!
