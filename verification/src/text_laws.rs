//! How texts, paths and listings are taken apart.

use vstd::prelude::*;
use crate::cli;
use crate::format::types;
use crate::hf_cli;
use crate::hf_url;
use crate::hf_url::{HfTreeEntry, RemoteFileSpec};
use crate::order;
use crate::path;
use crate::text;
use crate::throttle::Outcome;

verus! {

proof fn lemma_find(s: Seq<char>, c: char, from: int)
    requires
        0 <= from <= s.len(),
    ensures
        from <= text::find_from(s, c, from) <= s.len(),
        text::find_from(s, c, from) < s.len() ==> s[text::find_from(s, c, from)] == c,
        forall|k: int| from <= k < text::find_from(s, c, from) ==> #[trigger] s[k] != c,
    decreases s.len() - from,
{
    if from < s.len() && s[from] != c {
        lemma_find(s, c, from + 1);
    }
}

/// All characters of the parts, one part behind the other.
pub open spec fn flat(parts: Seq<Seq<char>>) -> Seq<char>
    decreases parts.len(),
{
    if parts.len() == 0 {
        seq![]
    } else {
        parts[0] + flat(parts.skip(1))
    }
}

/// The text without one character.
pub open spec fn stripped_of(s: Seq<char>, c: char) -> Seq<char>
    decreases s.len(),
{
    if s.len() == 0 {
        seq![]
    } else if s[0] == c {
        stripped_of(s.skip(1), c)
    } else {
        seq![s[0]] + stripped_of(s.skip(1), c)
    }
}

proof fn lemma_stripped_run(s: Seq<char>, c: char, n: int)
    requires
        0 <= n <= s.len(),
        forall|k: int| 0 <= k < n ==> #[trigger] s[k] != c,
    ensures
        stripped_of(s, c) == s.take(n) + stripped_of(s.skip(n), c),
    decreases n,
{
    if n > 0 {
        let t = s.skip(1);
        assert forall|k: int| 0 <= k < n - 1 implies #[trigger] t[k] != c by {
            assert(t[k] == s[k + 1]);
        }
        lemma_stripped_run(t, c, n - 1);
        assert(t.skip(n - 1) =~= s.skip(n));
        assert(s.take(n) =~= seq![s[0]] + t.take(n - 1));
        assert(stripped_of(s, c) =~= s.take(n) + stripped_of(s.skip(n), c));
    } else {
        assert(s.skip(0) =~= s);
        assert(stripped_of(s, c) =~= s.take(0) + stripped_of(s, c));
    }
}

proof fn lemma_flat_push(p: Seq<char>, rest: Seq<Seq<char>>)
    ensures
        flat(seq![p] + rest) == p + flat(rest),
{
    assert((seq![p] + rest).skip(1) =~= rest);
}

/// The parts of a text are its characters in order, without the separators.
pub proof fn parts_lose_only_separators(s: Seq<char>, sep: char, from: int)
    requires
        0 <= from <= s.len(),
    ensures
        flat(text::parts_from(s, sep, from)) == stripped_of(s.skip(from), sep),
    decreases s.len() - from,
{
    let j = text::find_from(s, sep, from);
    lemma_find(s, sep, from);
    let here = s.skip(from);
    assert forall|k: int| 0 <= k < j - from implies #[trigger] here[k] != sep by {
        assert(here[k] == s[from + k]);
    }
    lemma_stripped_run(here, sep, j - from);
    assert(here.take(j - from) =~= s.subrange(from, j));
    assert(here.skip(j - from) =~= s.skip(j));
    let rest = if j < s.len() {
        text::parts_from(s, sep, j + 1)
    } else {
        seq![]
    };
    if j < s.len() {
        parts_lose_only_separators(s, sep, j + 1);
        assert(s.skip(j).skip(1) =~= s.skip(j + 1));
    } else {
        assert(stripped_of(s.skip(j), sep) =~= seq![]);
    }
    if j > from {
        lemma_flat_push(s.subrange(from, j), rest);
    } else {
        assert(s.subrange(from, j) =~= seq![]);
        assert(seq![] + flat(rest) =~= flat(rest));
    }
}

proof fn lemma_last_part(s: Seq<char>, sep: char, from: int, k: int)
    requires
        0 <= from <= k < s.len() - 1,
        s[k] == sep,
        forall|i: int| k < i < s.len() ==> #[trigger] s[i] != sep,
    ensures
        text::parts_from(s, sep, from).len() > 0,
        text::parts_from(s, sep, from).last() == s.skip(k + 1),
    decreases k - from,
{
    let j = text::find_from(s, sep, from);
    lemma_find(s, sep, from);
    assert(j <= k);
    let rest = text::parts_from(s, sep, j + 1);
    if j < k {
        lemma_last_part(s, sep, j + 1, k);
    } else {
        lemma_find(s, sep, k + 1);
        assert(text::find_from(s, sep, k + 1) == s.len());
        assert(rest =~= seq![s.subrange(k + 1, s.len() as int)]);
        assert(s.subrange(k + 1, s.len() as int) =~= s.skip(k + 1));
    }
    assert((seq![s.subrange(from, j)] + rest).last() == rest.last());
}

/// A plain file name: not empty, without separator, and not made of dots alone.
pub open spec fn is_plain(n: Seq<char>) -> bool {
    n.len() > 0 && !n.contains('/') && n != "."@ && n != ".."@
}

/// A file is shown under the last component of its path, whatever the
/// directories before it are.
pub proof fn labels_drop_the_directory(dir: Seq<char>, n: Seq<char>)
    requires
        is_plain(n),
    ensures
        path::file_name(dir + seq!['/'] + n) == Some(n),
        path::label(dir + seq!['/'] + n) == n,
{
    let s = dir + seq!['/'] + n;
    let k = dir.len() as int;
    assert(s[k] == '/');
    assert forall|i: int| k < i < s.len() implies #[trigger] s[i] != '/' by {
        assert(s[i] == n[i - k - 1]);
        assert(n.contains(n[i - k - 1]));
    }
    lemma_last_part(s, '/', 0, k);
    assert(s.skip(k + 1) =~= n);
}

proof fn lemma_rfind(s: Seq<char>, c: char, k: int, to: int)
    requires
        0 <= k < to <= s.len(),
        s[k] == c,
        forall|i: int| k < i < to ==> #[trigger] s[i] != c,
    ensures
        text::rfind_before(s, c, to) == k,
    decreases to,
{
    if to - 1 > k {
        assert(s[to - 1] != c);
        lemma_rfind(s, c, k, to - 1);
    }
}

/// The extension of a file is what follows the last dot of its name, if
/// something comes before that dot.
pub proof fn extensions_follow_the_last_dot(dir: Seq<char>, stem: Seq<char>, ext: Seq<char>)
    requires
        is_plain(stem + seq!['.'] + ext),
        stem.len() > 0,
        !ext.contains('.'),
    ensures
        path::extension(dir + seq!['/'] + (stem + seq!['.'] + ext)) == Some(ext),
{
    let n = stem + seq!['.'] + ext;
    let k = stem.len() as int;
    labels_drop_the_directory(dir, n);
    assert(n[k] == '.');
    assert forall|i: int| k < i < n.len() implies #[trigger] n[i] != '.' by {
        assert(n[i] == ext[i - k - 1]);
        assert(ext.contains(ext[i - k - 1]));
    }
    lemma_rfind(n, '.', k, n.len() as int);
    assert(n.skip(k + 1) =~= ext);
}

/// All characters of the text are white space.
pub open spec fn is_white(s: Seq<char>) -> bool {
    forall|i: int| 0 <= i < s.len() ==> text::white_space(#[trigger] s[i])
}

proof fn lemma_lead(s: Seq<char>) -> (lead: Seq<char>)
    ensures
        s == lead + text::without_lead(s),
        is_white(lead),
    decreases s.len(),
{
    if s.len() > 0 && text::white_space(s[0]) {
        let more = lemma_lead(s.skip(1));
        let lead = seq![s[0]] + more;
        assert(s.skip(1) == more + text::without_lead(s));
        assert(s =~= seq![s[0]] + s.skip(1));
        assert(s =~= lead + text::without_lead(s));
        assert forall|i: int| 0 <= i < lead.len() implies text::white_space(#[trigger] lead[i]) by {
            if i > 0 {
                assert(lead[i] == more[i - 1]);
            }
        }
        lead
    } else {
        assert(s =~= Seq::<char>::empty() + s);
        Seq::empty()
    }
}

proof fn lemma_tail(s: Seq<char>) -> (tail: Seq<char>)
    ensures
        s == text::without_tail(s) + tail,
        is_white(tail),
    decreases s.len(),
{
    if s.len() > 0 && text::white_space(s.last()) {
        let more = lemma_tail(s.drop_last());
        let tail = more.push(s.last());
        assert(s.drop_last() == text::without_tail(s) + more);
        assert(s =~= s.drop_last().push(s.last()));
        assert(s =~= text::without_tail(s) + tail);
        assert forall|i: int| 0 <= i < tail.len() implies text::white_space(#[trigger] tail[i]) by {
            if i < more.len() {
                assert(tail[i] == more[i]);
            }
        }
        tail
    } else {
        assert(s =~= s + Seq::<char>::empty());
        Seq::empty()
    }
}

/// The text is some white space, the given core, and some white space.
pub open spec fn wraps(s: Seq<char>, core: Seq<char>) -> bool {
    exists|lead: Seq<char>, tail: Seq<char>|
        s == #[trigger] (lead + core + tail) && is_white(lead) && is_white(tail)
}

/// Trimming takes off white space at both ends and nothing else.
pub proof fn trimming_takes_off_white_space(s: Seq<char>)
    ensures
        wraps(s, text::trimmed(s)),
{
    let tail = lemma_tail(s);
    let lead = lemma_lead(text::without_tail(s));
    assert(s =~= lead + text::trimmed(s) + tail);
}

/// The value of a hexadecimal digit.
pub open spec fn hex_value(c: char) -> int {
    if '0' <= c <= '9' {
        c as int - 48
    } else {
        c as int - 87
    }
}

/// A byte is written as two hexadecimal digits in lower case, the higher one
/// first.
pub proof fn hex_reads_back(b: u8)
    ensures
        text::hex2(b).len() == 2,
        hex_value(text::hex2(b)[0]) * 16 + hex_value(text::hex2(b)[1]) == b,
        forall|i: int| 0 <= i < 2 ==> '0' <= #[trigger] text::hex2(b)[i] <= '9' || 'a'
            <= text::hex2(b)[i] <= 'f',
{
    let h = b as int / 16;
    let l = b as int % 16;
    assert(0 <= h < 16 && 0 <= l < 16 && h * 16 + l == b);
    assert(h < 10 ==> (h + 48) as char as int == h + 48);
    assert(h >= 10 ==> (h + 87) as char as int == h + 87);
    assert(l < 10 ==> (l + 48) as char as int == l + 48);
    assert(l >= 10 ==> (l + 87) as char as int == l + 87);
}

/// How many of the first `k` entries are files.
pub open spec fn files_before(es: Seq<HfTreeEntry>, k: int) -> int
    decreases k,
{
    if k <= 0 {
        0
    } else {
        files_before(es, k - 1) + (if es[k - 1].size is Some {
            1int
        } else {
            0
        })
    }
}

proof fn lemma_listed(repo: hf_url::Repo, revision: Seq<char>, es: Seq<HfTreeEntry>, k: int)
    requires
        0 <= k <= es.len(),
    ensures
        hf_url::listed_files(repo, revision, es.take(k)).len() == files_before(es, k),
        forall|j: int|
            0 <= j < k && (#[trigger] es[j]).size is Some ==> 0 <= files_before(es, j)
                < files_before(es, k) && hf_url::listed_files(
                repo,
                revision,
                es.take(k),
            )[files_before(es, j)] == (
                es[j].path@,
                hf_url::RemoteFile {
                    repo,
                    filename: es[j].path@,
                    revision,
                    size: es[j].size->0,
                    xet_hash: hf_url::optional_text(es[j].xet_hash),
                },
            ),
    decreases k,
{
    if k > 0 {
        lemma_listed(repo, revision, es, k - 1);
        assert(es.take(k).drop_last() =~= es.take(k - 1));
        assert(es.take(k).last() == es[k - 1]);
    } else {
        assert(es.take(0) =~= seq![]);
    }
}

/// The files of a listing are its entries that have a size, in order: each
/// stands for the file of its own path in the repository and at the revision
/// that were listed.
pub proof fn listings_hold_their_files(
    repo: hf_url::Repo,
    revision: Seq<char>,
    es: Seq<HfTreeEntry>,
    v: Seq<(String, RemoteFileSpec)>,
    k: int,
)
    requires
        hf_url::named_files(v) == hf_url::listed_files(repo, revision, es),
        0 <= k < es.len(),
    ensures
        v.len() == files_before(es, es.len() as int),
        es[k].size matches Some(n) ==> {
            let f = v[files_before(es, k)];
            &&& 0 <= files_before(es, k) < v.len()
            &&& f.0@ == es[k].path@
            &&& f.1.repo@ == repo
            &&& f.1.filename@ == es[k].path@
            &&& f.1.revision@ == revision
            &&& f.1.size == n
            &&& hf_url::optional_text(f.1.xet_hash) == hf_url::optional_text(es[k].xet_hash)
        },
{
    let n = es.len() as int;
    lemma_listed(repo, revision, es, n);
    assert(es.take(n) =~= es);
    if es[k].size is Some {
        let i = files_before(es, k);
        assert(hf_url::named_files(v)[i] == (v[i].0@, v[i].1@));
    }
}

/// The entry of a path is the first that has the path and a size.
pub proof fn entries_are_found_by_path(es: Seq<HfTreeEntry>, path: Seq<char>)
    ensures
        match hf_url::file_entry(es, path) {
            Some(e) => exists|i: int|
                0 <= i < es.len() && #[trigger] es[i] == e && e.path@ == path && e.size is Some
                    && forall|j: int|
                    0 <= j < i ==> (#[trigger] es[j]).path@ != path || es[j].size is None,
            None => forall|j: int|
                0 <= j < es.len() ==> (#[trigger] es[j]).path@ != path || es[j].size is None,
        },
    decreases es.len(),
{
    if es.len() > 0 {
        let init = es.drop_last();
        let n = es.len() - 1;
        entries_are_found_by_path(init, path);
        match hf_url::file_entry(init, path) {
            Some(e) => {
                let i = choose|i: int|
                    0 <= i < init.len() && #[trigger] init[i] == e && e.path@ == path && e.size
                        is Some && forall|j: int|
                        0 <= j < i ==> (#[trigger] init[j]).path@ != path || init[j].size is None;
                assert(es[i] == e);
                assert forall|j: int| 0 <= j < i implies (#[trigger] es[j]).path@ != path
                    || es[j].size is None by {
                    assert(init[j] == es[j]);
                }
            },
            None => {
                assert forall|j: int| 0 <= j < n implies (#[trigger] es[j]).path@ != path
                    || es[j].size is None by {
                    assert(init[j] == es[j]);
                }
                assert(es[n] == es.last());
            },
        }
    }
}

/// The owner of a repository stands before the first slash of its id, the name
/// behind it.
pub proof fn ids_part_at_the_slash(id: Seq<char>)
    ensures
        match hf_url::owner_and_name(id) {
            Some((owner, name)) => id == owner + seq!['/'] + name && !owner.contains('/'),
            None => !id.contains('/'),
        },
{
    lemma_find(id, '/', 0);
    let i = text::find_from(id, '/', 0);
    if i < id.len() {
        assert(id =~= id.take(i) + seq!['/'] + id.skip(i + 1));
        assert forall|k: int| 0 <= k < id.take(i).len() implies id.take(i)[k] != '/' by {
            assert(id.take(i)[k] == id[k]);
        }
    }
}

/// The place holds a text that is not blank.
pub open spec fn has_token(place: Option<Seq<char>>) -> bool {
    place is Some && text::trimmed(place->0).len() > 0
}

/// A token is taken from the first place that has one that is not blank: the
/// environment, then the named file, then the one in the home directory. It
/// never has white space at its ends.
pub proof fn tokens_are_looked_up_in_order(
    env: Option<Seq<char>>,
    named: Option<Seq<char>>,
    home: Option<Seq<char>>,
)
    ensures
        hf_url::token_among(true, env, named, home) is None,
        ({
            let t = hf_url::token_among(false, env, named, home);
            &&& t matches Some(s) ==> s.len() > 0 && !text::white_space(s[0])
                && !text::white_space(s.last())
            &&& has_token(env) ==> t == Some(text::trimmed(env->0))
            &&& !has_token(env) && has_token(named) ==> t == Some(text::trimmed(named->0))
            &&& !has_token(env) && !has_token(named) && has_token(home) ==> t == Some(
                text::trimmed(home->0),
            )
            &&& !has_token(env) && !has_token(named) && !has_token(home) ==> t is None
        }),
{
    if env is Some {
        text::trimmed_has_no_white_ends(env->0);
    }
    if named is Some {
        text::trimmed_has_no_white_ends(named->0);
    }
    if home is Some {
        text::trimmed_has_no_white_ends(home->0);
    }
}

/// What is kept of a stream is its end: all of it up to 4096 bytes, and exactly
/// as many of a longer one.
pub proof fn tails_are_the_end(s: Seq<u8>)
    ensures
        ({
            let t = hf_cli::tail_of(s);
            &&& t.len() <= 4096
            &&& t.len() == s.len() || t.len() == 4096
            &&& t.len() <= s.len()
            &&& forall|i: int| 0 <= i < t.len() ==> #[trigger] t[i] == s[s.len() - t.len() + i]
        }),
{
}

/// The line is blank.
pub open spec fn is_blank_line(s: Seq<char>) -> bool {
    text::trimmed(s).len() == 0
}

/// The last line is the last that is not blank, without the white space round
/// it.
pub proof fn last_lines_are_not_blank(lines: Seq<Seq<char>>)
    ensures
        match hf_cli::last_line_among(lines) {
            Some(t) => exists|i: int|
                0 <= i < lines.len() && text::trimmed(#[trigger] lines[i]) == t && !is_blank_line(
                    lines[i],
                ) && forall|j: int| i < j < lines.len() ==> is_blank_line(#[trigger] lines[j]),
            None => forall|j: int| 0 <= j < lines.len() ==> is_blank_line(#[trigger] lines[j]),
        },
    decreases lines.len(),
{
    if lines.len() > 0 {
        let init = lines.drop_last();
        let n = lines.len() - 1;
        if is_blank_line(lines[n]) {
            last_lines_are_not_blank(init);
            match hf_cli::last_line_among(init) {
                Some(t) => {
                    let i = choose|i: int|
                        0 <= i < init.len() && text::trimmed(#[trigger] init[i]) == t
                            && !is_blank_line(init[i]) && forall|j: int|
                            i < j < init.len() ==> is_blank_line(#[trigger] init[j]);
                    assert(lines[i] == init[i]);
                    assert forall|j: int| i < j < lines.len() implies is_blank_line(
                        #[trigger] lines[j],
                    ) by {
                        if j < n {
                            assert(init[j] == lines[j]);
                        }
                    }
                },
                None => {
                    assert forall|j: int| 0 <= j < lines.len() implies is_blank_line(
                        #[trigger] lines[j],
                    ) by {
                        if j < n {
                            assert(init[j] == lines[j]);
                        }
                    }
                },
            }
        } else {
            assert(text::trimmed(lines[n]) == text::trimmed(lines.last()));
        }
    }
}

proof fn lemma_lower_twice(s: Seq<char>)
    ensures
        hf_cli::ascii_lower(hf_cli::ascii_lower(s)) == hf_cli::ascii_lower(s),
{
    let t = hf_cli::ascii_lower(s);
    assert forall|i: int| 0 <= i < t.len() implies hf_cli::ascii_lower_char(#[trigger] t[i])
        == t[i] by {
        let c = s[i];
        assert(t[i] == hf_cli::ascii_lower_char(c));
        if 'A' <= c && c <= 'Z' {
            assert((c as u32 + 32) as char as u32 == c as u32 + 32);
        }
    }
    assert(hf_cli::ascii_lower(t) =~= t);
}

/// What a failed command says counts, not the case that it says it in; a
/// command that could not be started, or whose output could not be read, is not
/// worth another try.
pub proof fn outcomes_ignore_case(
    argv: Seq<char>,
    status: Seq<char>,
    a: Seq<char>,
    b: Seq<char>,
)
    requires
        hf_cli::ascii_lower(a) == hf_cli::ascii_lower(b),
    ensures
        hf_cli::fault_outcome(
            (hf_cli::CliFault::Exit { argv, status, stderr_excerpt: a }),
        ) == hf_cli::fault_outcome((hf_cli::CliFault::Exit { argv, status, stderr_excerpt: b })),
        hf_cli::fault_outcome(
            (hf_cli::CliFault::Exit { argv, status, stderr_excerpt: hf_cli::ascii_lower(a) }),
        ) == hf_cli::fault_outcome((hf_cli::CliFault::Exit { argv, status, stderr_excerpt: a })),
        hf_cli::fault_outcome((hf_cli::CliFault::Spawn { cause: a })) == Outcome::Permanent,
{
    lemma_lower_twice(a);
}

/// How many of the first `k` lines are not blank.
pub open spec fn filled_before(lines: Seq<Seq<char>>, k: int) -> int
    decreases k,
{
    if k <= 0 {
        0
    } else {
        filled_before(lines, k - 1) + (if is_blank_line(lines[k - 1]) {
            0int
        } else {
            1
        })
    }
}

proof fn lemma_paths(lines: Seq<Seq<char>>, k: int)
    requires
        0 <= k <= lines.len(),
    ensures
        cli::listed_paths(lines.take(k)).len() == filled_before(lines, k),
        forall|j: int|
            0 <= j < k && !is_blank_line(#[trigger] lines[j]) ==> 0 <= filled_before(lines, j)
                < filled_before(lines, k) && cli::listed_paths(
                lines.take(k),
            )[filled_before(lines, j)] == text::trimmed(lines[j]),
    decreases k,
{
    if k > 0 {
        lemma_paths(lines, k - 1);
        assert(lines.take(k).drop_last() =~= lines.take(k - 1));
        assert(lines.take(k).last() == lines[k - 1]);
    } else {
        assert(lines.take(0) =~= seq![]);
    }
}

/// A list of files names one on each line that is not blank, in order and
/// without the white space round it.
pub proof fn file_lists_name_one_a_line(lines: Seq<Seq<char>>, k: int)
    requires
        0 <= k < lines.len(),
    ensures
        cli::listed_paths(lines).len() == filled_before(lines, lines.len() as int),
        !is_blank_line(lines[k]) ==> 0 <= filled_before(lines, k) < cli::listed_paths(lines).len()
            && cli::listed_paths(lines)[filled_before(lines, k)] == text::trimmed(lines[k]),
{
    let n = lines.len() as int;
    lemma_paths(lines, n);
    assert(lines.take(n) =~= lines);
}

/// Texts go by the first character in which they differ, and a text comes
/// before every longer one that it begins.
pub proof fn texts_go_by_first_difference(
    lead: Seq<char>,
    x: char,
    y: char,
    a: Seq<char>,
    b: Seq<char>,
)
    ensures
        order::text_le(lead, lead + a),
        (x as int) < (y as int) ==> order::text_le(lead + seq![x] + a, lead + seq![y] + b)
            && !order::text_le(lead + seq![y] + b, lead + seq![x] + a),
        a.len() > 0 ==> !order::text_le(lead + a, lead),
    decreases lead.len(),
{
    let s = lead + seq![x] + a;
    let t = lead + seq![y] + b;
    if lead.len() > 0 {
        let rest = lead.drop_first();
        texts_go_by_first_difference(rest, x, y, a, b);
        assert(s.drop_first() =~= rest + seq![x] + a);
        assert(t.drop_first() =~= rest + seq![y] + b);
        assert((lead + a).drop_first() =~= rest + a);
    } else {
        assert(s[0] == x && t[0] == y);
        assert(lead + a =~= a);
    }
}

/// Paths go by their components: a directory comes before what lies in it, and
/// otherwise the first component in which two paths differ decides.
pub proof fn paths_go_by_components(
    lead: Seq<Seq<char>>,
    x: Seq<char>,
    y: Seq<char>,
    a: Seq<Seq<char>>,
    b: Seq<Seq<char>>,
)
    ensures
        path::components_le(lead, lead + a),
        a.len() > 0 ==> !path::components_le(lead + a, lead),
        x != y ==> (path::components_le(lead + seq![x] + a, lead + seq![y] + b) <==> order::text_le(
            x,
            y,
        )),
    decreases lead.len(),
{
    let s = lead + seq![x] + a;
    let t = lead + seq![y] + b;
    if lead.len() > 0 {
        let rest = lead.skip(1);
        paths_go_by_components(rest, x, y, a, b);
        assert(s.skip(1) =~= rest + seq![x] + a);
        assert(t.skip(1) =~= rest + seq![y] + b);
        assert((lead + a).skip(1) =~= rest + a);
    } else {
        assert(s[0] == x && t[0] == y);
        assert(lead + a =~= a);
    }
}

/// The elements of a tensor are counted by its dimensions: those of two lists of
/// dimensions one behind the other multiply, and a single one counts itself.
pub proof fn dimensions_multiply(a: Seq<u64>, b: Seq<u64>, n: u64)
    ensures
        types::product(a + b) == types::product(a) * types::product(b),
        types::product(seq![n]) == n,
        types::product(seq![]) == 1,
    decreases b.len(),
{
    let e = types::product(Seq::<u64>::empty());
    let k = n as nat;
    let p = types::product(a);
    assert(e == 1);
    assert(seq![n].drop_last() =~= Seq::<u64>::empty());
    assert(types::product(seq![n]) == e * k);
    assert(e * k == k && p * e == p) by (nonlinear_arith)
        requires
            e == 1,
    ;
    if b.len() == 0 {
        assert(a + b =~= a);
        assert(b =~= Seq::<u64>::empty());
    } else {
        dimensions_multiply(a, b.drop_last(), n);
        assert((a + b).drop_last() =~= a + b.drop_last());
        let q = types::product(b.drop_last());
        let l = b.last() as nat;
        assert(p * q * l == p * (q * l)) by (nonlinear_arith);
    }
}

} // verus!
