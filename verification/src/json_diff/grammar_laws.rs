//! What the ranges of parsed values hold: each kind of value shows at its first
//! and last byte, and plain texts read as they are written.

use vstd::prelude::*;
use super::cover;
use super::grammar;
use super::grammar::{Branch, Scan, Span, Tree};
use super::parse::NodeKind;

verus! {

proof fn lemma_digits(s: Seq<u8>, i: int)
    requires
        0 <= i <= s.len(),
    ensures
        i <= grammar::digits_end(s, i) <= s.len(),
        forall|k: int| i <= k < grammar::digits_end(s, i) ==> grammar::is_digit(#[trigger] s[k]),
    decreases s.len() - i,
{
    if i < s.len() && grammar::is_digit(s[i]) {
        lemma_digits(s, i + 1);
    }
}

/// A number ends in a digit.
proof fn lemma_number(s: Seq<u8>, i: int)
    requires
        0 <= i < s.len(),
    ensures
        grammar::number(s, i) matches Scan::Done { next, .. } ==> i < next <= s.len()
            && grammar::is_digit(s[next - 1]),
{
    let first = if grammar::at(s, i, 0x2d) {
        i + 1
    } else {
        i
    };
    match grammar::integer_end(s, first) {
        None => {},
        Some(e) => {
            lemma_digits(s, first + 1);
            if grammar::at(s, e, 0x2e) {
                lemma_digits(s, e + 1);
                let f = grammar::digits_end(s, e + 1);
                if f > e + 1 {
                    assert(grammar::is_digit(s[f - 1]));
                }
                lemma_exponent(s, f);
            } else {
                lemma_exponent(s, e);
            }
        },
    }
}

proof fn lemma_exponent(s: Seq<u8>, i: int)
    requires
        0 < i <= s.len(),
    ensures
        grammar::exponent(s, i) matches Scan::Done { next, .. } ==> next == i || (i < next
            <= s.len() && grammar::is_digit(s[next - 1])),
{
    if grammar::at(s, i, 0x65) || grammar::at(s, i, 0x45) {
        let d = if grammar::at(s, i + 1, 0x2b) || grammar::at(s, i + 1, 0x2d) {
            i + 2
        } else {
            i + 1
        };
        lemma_digits(s, d);
        let e = grammar::digits_end(s, d);
        if e > d {
            assert(grammar::is_digit(s[e - 1]));
        }
    }
}

proof fn lemma_string(s: Seq<u8>, i: int, text: Seq<char>)
    requires
        0 <= i <= s.len(),
    ensures
        grammar::string_rest(s, i, text) matches Scan::Done { next, .. } ==> i < next <= s.len()
            && s[next - 1] == 0x22,
    decreases s.len() - i,
{
    if i < s.len() && s[i] != 0x22 {
        cover::lemma_string_item_within(s, i);
        match grammar::string_item(s, i) {
            Scan::Fail { .. } => {},
            Scan::Done { value, next } => {
                lemma_string(s, next, text + value);
            },
        }
    }
}

proof fn lemma_members_close(s: Seq<u8>, i: int, lead: int, done: Seq<Branch>)
    requires
        0 <= i <= s.len(),
    ensures
        grammar::members(s, i, lead, done) matches Scan::Done { next, .. } ==> i < next <= s.len()
            && s[next - 1] == 0x7d,
    decreases s.len() - i,
{
    if grammar::at(s, i, 0x22) {
        match grammar::string_rest(s, i + 1, seq![]) {
            Scan::Fail { .. } => {},
            Scan::Done { value: text, next: key_end } => {
                lemma_string(s, i + 1, seq![]);
                let colon = grammar::ws_end(s, key_end);
                let v = grammar::ws_end(s, colon + 1);
                cover::lemma_ws_end_bounds(s, key_end);
                if grammar::at(s, colon, 0x3a) {
                    cover::lemma_ws_end_bounds(s, colon + 1);
                    assert(i < v <= s.len());
                    match grammar::value(s, v) {
                        Scan::Fail { .. } => {},
                        Scan::Done { value, next } => {
                            lemma_kinds(s, v);
                            let t = grammar::trailing_end(s, next);
                            cover::lemma_ws_end_bounds(s, next);
                            let w = grammar::ws_end(s, next);
                            if grammar::at(s, w, 0x2c) {
                                cover::lemma_ws_end_bounds(s, w + 1);
                                let more = done.push(
                                    Branch::Member {
                                        key: Span { start: lead, end: key_end },
                                        text,
                                        between: Span { start: key_end, end: v },
                                        value: Box::new(value),
                                        trailing: Span { start: next, end: t },
                                    },
                                );
                                if i < t <= s.len() {
                                    lemma_members_close(s, t, t, more);
                                }
                            }
                        },
                    }
                }
            },
        }
    }
}

proof fn lemma_elements_close(s: Seq<u8>, i: int, done: Seq<Branch>)
    requires
        0 <= i <= s.len(),
    ensures
        grammar::elements(s, i, done) matches Scan::Done { next, .. } ==> i < next <= s.len()
            && s[next - 1] == 0x5d,
    decreases s.len() - i,
{
    match grammar::value(s, i) {
        Scan::Fail { .. } => {},
        Scan::Done { value, next } => {
            lemma_kinds(s, i);
            let t = grammar::trailing_end(s, next);
            let w = grammar::ws_end(s, next);
            cover::lemma_ws_end_bounds(s, next);
            if grammar::at(s, w, 0x2c) {
                cover::lemma_ws_end_bounds(s, w + 1);
                let more = done.push(
                    Branch::Element {
                        value: Box::new(value),
                        trailing: Span { start: next, end: t },
                    },
                );
                if i < t <= s.len() {
                    lemma_elements_close(s, t, more);
                }
            }
        },
    }
}

proof fn lemma_kinds(s: Seq<u8>, i: int)
    ensures
        grammar::value(s, i) matches Scan::Done { value, next } ==> 0 <= i < next <= s.len()
            && value.start == i && value.end == next,
{
    if 0 <= i < s.len() {
        cover::lemma_value_covered(s, i, 0);
    }
}

/// The value's first and last byte show its kind, and a value that has no
/// others inside keeps all its bytes.
pub open spec fn shows_kind(s: Seq<u8>, t: Tree) -> bool {
    let first = s[t.start];
    let last = s[t.end - 1];
    &&& 0 <= t.start < t.end <= s.len()
    &&& match t.kind {
        NodeKind::Object => first == '{' as u8 && last == '}' as u8,
        NodeKind::Array => first == '[' as u8 && last == ']' as u8,
        NodeKind::String => first == '"' as u8 && last == '"' as u8 && t.end - t.start >= 2,
        NodeKind::Number => (first == '-' as u8 || grammar::is_digit(first)) && grammar::is_digit(
            last,
        ),
        NodeKind::Bool => (first == 't' as u8 && t.end - t.start == 4) || (first == 'f' as u8
            && t.end - t.start == 5),
        NodeKind::Null => first == 'n' as u8 && t.end - t.start == 4,
    }
    &&& !grammar::is_container(t.kind) ==> t.content == s.subrange(t.start, t.end)
}

/// Every value that is read shows its kind at its first and last byte.
pub proof fn kinds_show_at_both_ends(s: Seq<u8>, i: int)
    ensures
        grammar::value(s, i) matches Scan::Done { value, next } ==> value.start == i && value.end
            == next && shows_kind(s, value),
{
    lemma_kinds(s, i);
    if 0 <= i < s.len() {
        let w = grammar::ws_end(s, i + 1);
        cover::lemma_ws_end_bounds(s, i + 1);
        if s[i] == 0x7b {
            if !grammar::at(s, w, 0x7d) && i < w <= s.len() {
                lemma_members_close(s, w, i + 1, seq![]);
            }
        } else if s[i] == 0x5b {
            let blank = if w > i + 1 {
                seq![grammar::blank_element(i + 1, w)]
            } else {
                seq![]
            };
            if !grammar::at(s, w, 0x5d) && i < w <= s.len() {
                lemma_elements_close(s, w, blank);
            }
        } else if s[i] == 0x22 {
            lemma_string(s, i + 1, seq![]);
        } else if s[i] == 0x2d || grammar::is_digit(s[i]) {
            lemma_number(s, i);
        } else if s[i] == 0x74 || s[i] == 0x66 {
            assert(grammar::word_true()[0] == 0x74);
            assert(grammar::word_false()[0] == 0x66);
            if grammar::word_at(s, i, grammar::word_true()) {
                assert(s[i + 0] == grammar::word_true()[0]);
            }
            if grammar::word_at(s, i, grammar::word_false()) {
                assert(s[i + 0] == grammar::word_false()[0]);
            }
        }
    }
}

/// A byte that stands for itself in a string: printable ASCII, but no quote and
/// no backslash.
pub open spec fn is_plain(b: u8) -> bool {
    0x20 <= b < 0x80 && b != 0x22 && b != 0x5c
}

/// A string of plain characters reads as it is written, up to its closing
/// quote.
pub proof fn plain_strings_read_as_written(s: Seq<u8>, i: int, n: int, before: Seq<char>)
    requires
        0 <= i,
        0 <= n,
        i + n < s.len(),
        forall|k: int| i <= k < i + n ==> is_plain(#[trigger] s[k]),
        s[i + n] == 0x22,
    ensures
        grammar::string_rest(s, i, before) == (Scan::Done {
            value: before + s.subrange(i, i + n).map_values(|b: u8| b as char),
            next: i + n + 1,
        }),
    decreases n,
{
    let rest = s.subrange(i, i + n).map_values(|b: u8| b as char);
    if n > 0 {
        assert(is_plain(s[i]));
        let more = before + seq![s[i] as char];
        plain_strings_read_as_written(s, i + 1, n - 1, more);
        let tail = s.subrange(i + 1, i + n).map_values(|b: u8| b as char);
        assert(more + tail =~= before + rest);
    } else {
        assert(before + rest =~= before);
    }
}

} // verus!
