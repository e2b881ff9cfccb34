//! The JSON grammar as the parser reads it: what stands at each byte of a
//! document, which tree it denotes, and where and why reading it fails.

use vstd::prelude::*;
use super::parse::NodeKind;
use crate::text;

verus! {

/// The outcome of reading one syntactic item: its value and the position just
/// past it, or the position and text of the error.
pub ghost enum Scan<T> {
    Done { value: T, next: int },
    Fail { at: int, msg: Seq<char> },
}

/// A half-open byte range.
pub ghost struct Span {
    pub start: int,
    pub end: int,
}

/// What a parse tree denotes. A primitive holds its bytes, a container none of
/// its own.
pub ghost struct Tree {
    pub kind: NodeKind,
    pub start: int,
    pub end: int,
    pub content: Seq<u8>,
    pub children: Seq<Branch>,
}

/// What one child of a container denotes.
pub ghost enum Branch {
    Member { key: Span, text: Seq<char>, between: Span, value: Box<Tree>, trailing: Span },
    Element { value: Box<Tree>, trailing: Span },
}

/// What a whole document denotes.
pub ghost struct DocumentTree {
    pub leading: Span,
    pub root: Tree,
    pub trailing: Span,
}

/// Byte `b` stands at position `i`.
pub open spec fn at(s: Seq<u8>, i: int, b: u8) -> bool {
    0 <= i < s.len() && s[i] == b
}

/// The four whitespace bytes of JSON: tab, line feed, carriage return, space.
pub open spec fn is_ws(b: u8) -> bool {
    b == 0x20 || b == 0x09 || b == 0x0a || b == 0x0d
}

pub open spec fn is_digit(b: u8) -> bool {
    0x30 <= b <= 0x39
}

/// The end of the whitespace run that starts at `i`.
pub open spec fn ws_end(s: Seq<u8>, i: int) -> int
    decreases s.len() - i,
{
    if 0 <= i < s.len() && is_ws(s[i]) {
        ws_end(s, i + 1)
    } else {
        i
    }
}

/// The end of the run of decimal digits that starts at `i`.
pub open spec fn digits_end(s: Seq<u8>, i: int) -> int
    decreases s.len() - i,
{
    if 0 <= i < s.len() && is_digit(s[i]) {
        digits_end(s, i + 1)
    } else {
        i
    }
}

/// The message for a required byte `b`, described by `what`, that does not
/// stand at `i`.
pub open spec fn expected_msg(s: Seq<u8>, i: int, b: u8, what: Seq<char>) -> Seq<char> {
    "expected "@ + what + " (0x"@ + text::hex2(b) + (if 0 <= i < s.len() {
        "), found 0x"@ + text::hex2(s[i])
    } else {
        "), found EOF"@
    })
}

/// The value of a hexadecimal digit, `None` for any other byte.
pub open spec fn hex_value(b: u8) -> Option<int> {
    if 0x30 <= b <= 0x39 {
        Some(b - 0x30)
    } else if 0x61 <= b <= 0x66 {
        Some(b - 0x61 + 10)
    } else if 0x41 <= b <= 0x46 {
        Some(b - 0x41 + 10)
    } else {
        None
    }
}

/// The number written by the next `n` hexadecimal digits, appended to the
/// digits already read as `acc`.
pub open spec fn hex_number(s: Seq<u8>, i: int, n: nat, acc: int) -> Scan<int>
    decreases n,
{
    if n == 0 {
        Scan::Done { value: acc, next: i }
    } else if !(0 <= i < s.len()) {
        Scan::Fail { at: i, msg: "EOF in \\uXXXX"@ }
    } else {
        match hex_value(s[i]) {
            None => Scan::Fail {
                at: i + 1,
                msg: "invalid hex digit 0x"@ + text::hex2(s[i]) + " in \\uXXXX"@,
            },
            Some(d) => hex_number(s, i + 1, (n - 1) as nat, acc * 16 + d),
        }
    }
}

/// How far reading `\u` gets at `i` when a low surrogate has to follow: past
/// the first byte that differs, or to the end of the input.
pub open spec fn low_surrogate_intro(s: Seq<u8>, i: int) -> Scan<()> {
    if at(s, i, 0x5c) && at(s, i + 1, 0x75) {
        Scan::Done { value: (), next: i + 2 }
    } else {
        let seen = if at(s, i, 0x5c) {
            i + 1
        } else {
            i
        };
        Scan::Fail {
            at: if 0 <= seen < s.len() {
                seen + 1
            } else {
                seen
            },
            msg: "expected low surrogate after high surrogate"@,
        }
    }
}

/// The characters that a `\u` escape denotes, read from just past the `u`.
pub open spec fn unicode_escape(s: Seq<u8>, i: int) -> Scan<Seq<char>> {
    match hex_number(s, i, 4, 0) {
        Scan::Fail { at, msg } => Scan::Fail { at, msg },
        Scan::Done { value: hi, next: j } => if 0xD800 <= hi <= 0xDBFF {
            match low_surrogate_intro(s, j) {
                Scan::Fail { at, msg } => Scan::Fail { at, msg },
                Scan::Done { value: _, next: k } => match hex_number(s, k, 4, 0) {
                    Scan::Fail { at, msg } => Scan::Fail { at, msg },
                    Scan::Done { value: lo, next: m } => if 0xDC00 <= lo <= 0xDFFF {
                        Scan::Done {
                            value: seq![(0x10000 + (hi - 0xD800) * 1024 + (lo - 0xDC00)) as char],
                            next: m,
                        }
                    } else {
                        Scan::Fail { at: m, msg: "invalid low surrogate"@ }
                    },
                },
            }
        } else if 0xDC00 <= hi <= 0xDFFF {
            Scan::Fail { at: j, msg: "unexpected low surrogate"@ }
        } else {
            Scan::Done { value: seq![hi as char], next: j }
        },
    }
}

/// The characters that an escape denotes, read from just past the backslash.
pub open spec fn escape(s: Seq<u8>, i: int) -> Scan<Seq<char>> {
    if !(0 <= i < s.len()) {
        Scan::Fail { at: i, msg: "EOF in escape"@ }
    } else if s[i] == 0x22 || s[i] == 0x5c || s[i] == 0x2f {
        Scan::Done { value: seq![s[i] as char], next: i + 1 }
    } else if s[i] == 0x62 {
        Scan::Done { value: seq!['\u{8}'], next: i + 1 }
    } else if s[i] == 0x66 {
        Scan::Done { value: seq!['\u{c}'], next: i + 1 }
    } else if s[i] == 0x6e {
        Scan::Done { value: seq!['\n'], next: i + 1 }
    } else if s[i] == 0x72 {
        Scan::Done { value: seq!['\r'], next: i + 1 }
    } else if s[i] == 0x74 {
        Scan::Done { value: seq!['\t'], next: i + 1 }
    } else if s[i] == 0x75 {
        unicode_escape(s, i + 1)
    } else {
        Scan::Fail { at: i + 1, msg: "invalid escape \\0x"@ + text::hex2(s[i]) }
    }
}

/// How many continuation bytes the lead byte of a multi-byte UTF-8 sequence
/// announces; `None` for a byte that leads no such sequence.
pub open spec fn continuation_count(b: u8) -> Option<nat> {
    if 0xC0 <= b <= 0xDF {
        Some(1)
    } else if 0xE0 <= b <= 0xEF {
        Some(2)
    } else if 0xF0 <= b <= 0xF7 {
        Some(3)
    } else {
        None
    }
}

/// Reads `n` UTF-8 continuation bytes behind the bytes already read, `taken`.
pub open spec fn continuation(s: Seq<u8>, i: int, n: nat, taken: Seq<u8>) -> Scan<Seq<u8>>
    decreases n,
{
    if n == 0 {
        Scan::Done { value: taken, next: i }
    } else if !(0 <= i < s.len()) {
        Scan::Fail { at: i, msg: "invalid UTF-8 continuation in string"@ }
    } else if 0x80 <= s[i] <= 0xBF {
        continuation(s, i + 1, (n - 1) as nat, taken.push(s[i]))
    } else {
        Scan::Fail { at: i + 1, msg: "invalid UTF-8 continuation in string"@ }
    }
}

/// The text of a multi-byte sequence: the character it encodes, or the
/// replacement character when it encodes none.
pub open spec fn multibyte_text(bytes: Seq<u8>) -> Seq<char> {
    if vstd::utf8::valid_utf8(bytes) {
        vstd::utf8::decode_utf8(bytes)
    } else {
        seq!['\u{FFFD}']
    }
}

/// The characters that the next item inside a string literal denotes. The
/// byte at `i` is inside the input and is no quote.
pub open spec fn string_item(s: Seq<u8>, i: int) -> Scan<Seq<char>> {
    let b = s[i];
    if b == 0x5c {
        escape(s, i + 1)
    } else if b < 0x20 {
        Scan::Fail { at: i + 1, msg: "unescaped control byte 0x"@ + text::hex2(b) + " in string"@ }
    } else if b < 0x80 {
        Scan::Done { value: seq![b as char], next: i + 1 }
    } else {
        match continuation_count(b) {
            None => Scan::Fail { at: i + 1, msg: "invalid UTF-8 lead byte in string"@ },
            Some(n) => match continuation(s, i + 1, n, seq![b]) {
                Scan::Fail { at, msg } => Scan::Fail { at, msg },
                Scan::Done { value, next } => Scan::Done { value: multibyte_text(value), next },
            },
        }
    }
}

/// The rest of a string literal from `i` inside it, behind the text already
/// decoded, `text`; `next` is one past the closing quote.
pub open spec fn string_rest(s: Seq<u8>, i: int, text: Seq<char>) -> Scan<Seq<char>>
    decreases s.len() - i,
{
    if !(0 <= i < s.len()) {
        Scan::Fail { at: i, msg: "unterminated string"@ }
    } else if s[i] == 0x22 {
        Scan::Done { value: text, next: i + 1 }
    } else {
        match string_item(s, i) {
            Scan::Fail { at, msg } => Scan::Fail { at, msg },
            Scan::Done { value, next } => if i < next <= s.len() {
                string_rest(s, next, text + value)
            } else {
                arbitrary()
            },
        }
    }
}

/// The end of the integer part of a number, or `None` where there is none.
pub open spec fn integer_end(s: Seq<u8>, i: int) -> Option<int> {
    if at(s, i, 0x30) {
        Some(i + 1)
    } else if 0 <= i < s.len() && is_digit(s[i]) {
        Some(digits_end(s, i + 1))
    } else {
        None
    }
}

/// The end of the optional exponent at `i`; the error is an exponent without
/// digits.
pub open spec fn exponent(s: Seq<u8>, i: int) -> Scan<()> {
    if at(s, i, 0x65) || at(s, i, 0x45) {
        let d = if at(s, i + 1, 0x2b) || at(s, i + 1, 0x2d) {
            i + 2
        } else {
            i + 1
        };
        if digits_end(s, d) == d {
            Scan::Fail { at: d, msg: "invalid number: empty exponent"@ }
        } else {
            Scan::Done { value: (), next: digits_end(s, d) }
        }
    } else {
        Scan::Done { value: (), next: i }
    }
}

/// The end of a number that starts at `i`: sign, integer part, fraction and
/// exponent.
pub open spec fn number(s: Seq<u8>, i: int) -> Scan<()> {
    let first = if at(s, i, 0x2d) {
        i + 1
    } else {
        i
    };
    match integer_end(s, first) {
        None => Scan::Fail { at: first, msg: "invalid number: missing integer part"@ },
        Some(e) => if at(s, e, 0x2e) {
            if digits_end(s, e + 1) == e + 1 {
                Scan::Fail { at: e + 1, msg: "invalid number: empty fraction"@ }
            } else {
                exponent(s, digits_end(s, e + 1))
            }
        } else {
            exponent(s, e)
        },
    }
}

/// The bytes of `word` stand at `i`.
pub open spec fn word_at(s: Seq<u8>, i: int, word: Seq<u8>) -> bool {
    i + word.len() <= s.len() && forall|k: int| 0 <= k < word.len() ==> s[i + k] == #[trigger] word[k]
}

pub open spec fn word_true() -> Seq<u8> {
    seq![0x74u8, 0x72u8, 0x75u8, 0x65u8]
}

pub open spec fn word_false() -> Seq<u8> {
    seq![0x66u8, 0x61u8, 0x6cu8, 0x73u8, 0x65u8]
}

pub open spec fn word_null() -> Seq<u8> {
    seq![0x6eu8, 0x75u8, 0x6cu8, 0x6cu8]
}

/// A tree without children.
pub open spec fn leaf(kind: NodeKind, start: int, end: int, content: Seq<u8>) -> Tree {
    Tree { kind, start, end, content, children: seq![] }
}

/// The primitive at `start..end` of a text.
pub open spec fn literal(kind: NodeKind, s: Seq<u8>, start: int, end: int) -> Tree {
    leaf(kind, start, end, s.subrange(start, end))
}

/// The member that holds the whitespace of an empty object.
pub open spec fn blank_member(start: int, end: int) -> Branch {
    Branch::Member {
        key: Span { start, end: start },
        text: seq![],
        between: Span { start, end: start },
        value: Box::new(leaf(NodeKind::Null, start, start, seq![])),
        trailing: Span { start, end },
    }
}

/// The element that holds the whitespace behind an opening bracket.
pub open spec fn blank_element(start: int, end: int) -> Branch {
    Branch::Element {
        value: Box::new(leaf(NodeKind::Null, start, start, seq![])),
        trailing: Span { start, end },
    }
}

/// The end of what follows a value inside a container: whitespace, and a comma
/// with the whitespace behind it where there is one.
pub open spec fn trailing_end(s: Seq<u8>, i: int) -> int {
    let w = ws_end(s, i);
    if at(s, w, 0x2c) {
        ws_end(s, w + 1)
    } else {
        w
    }
}

/// The JSON value that starts at `i`.
pub open spec fn value(s: Seq<u8>, i: int) -> Scan<Tree>
    decreases s.len() - i, 2nat,
{
    if !(0 <= i < s.len()) {
        Scan::Fail { at: i, msg: "unexpected EOF where value expected"@ }
    } else if s[i] == 0x7b {
        let w = ws_end(s, i + 1);
        if at(s, w, 0x7d) {
            Scan::Done {
                value: Tree {
                    kind: NodeKind::Object,
                    start: i,
                    end: w + 1,
                    content: seq![],
                    children: if w > i + 1 {
                        seq![blank_member(i + 1, w)]
                    } else {
                        seq![]
                    },
                },
                next: w + 1,
            }
        } else if i < w <= s.len() {
            container(NodeKind::Object, i, members(s, w, i + 1, seq![]))
        } else {
            arbitrary()
        }
    } else if s[i] == 0x5b {
        let w = ws_end(s, i + 1);
        let blank = if w > i + 1 {
            seq![blank_element(i + 1, w)]
        } else {
            seq![]
        };
        if at(s, w, 0x5d) {
            Scan::Done {
                value: Tree {
                    kind: NodeKind::Array,
                    start: i,
                    end: w + 1,
                    content: seq![],
                    children: blank,
                },
                next: w + 1,
            }
        } else if i < w <= s.len() {
            container(NodeKind::Array, i, elements(s, w, blank))
        } else {
            arbitrary()
        }
    } else if s[i] == 0x22 {
        match string_rest(s, i + 1, seq![]) {
            Scan::Fail { at, msg } => Scan::Fail { at, msg },
            Scan::Done { value: _, next } => Scan::Done {
                value: literal(NodeKind::String, s, i, next),
                next,
            },
        }
    } else if s[i] == 0x74 || s[i] == 0x66 {
        if word_at(s, i, word_true()) {
            Scan::Done { value: literal(NodeKind::Bool, s, i, i + 4), next: i + 4 }
        } else if word_at(s, i, word_false()) {
            Scan::Done { value: literal(NodeKind::Bool, s, i, i + 5), next: i + 5 }
        } else {
            Scan::Fail { at: i, msg: "invalid bool literal"@ }
        }
    } else if s[i] == 0x6e {
        if word_at(s, i, word_null()) {
            Scan::Done { value: literal(NodeKind::Null, s, i, i + 4), next: i + 4 }
        } else {
            Scan::Fail { at: i, msg: "invalid null literal"@ }
        }
    } else if s[i] == 0x2d || is_digit(s[i]) {
        match number(s, i) {
            Scan::Fail { at, msg } => Scan::Fail { at, msg },
            Scan::Done { value: _, next } => Scan::Done {
                value: literal(NodeKind::Number, s, i, next),
                next,
            },
        }
    } else {
        Scan::Fail { at: i, msg: "unexpected byte 0x"@ + text::hex2(s[i]) + " at start of value"@ }
    }
}

/// The container of kind `kind` that starts at `start` and holds the children
/// that were read.
pub open spec fn container(kind: NodeKind, start: int, body: Scan<Seq<Branch>>) -> Scan<Tree> {
    match body {
        Scan::Fail { at, msg } => Scan::Fail { at, msg },
        Scan::Done { value, next } => Scan::Done {
            value: Tree { kind, start, end: next, content: seq![], children: value },
            next,
        },
    }
}

/// The members of an object from the key at `i` to the closing brace, behind
/// the members already read; the key range of the next one starts at `lead`.
pub open spec fn members(s: Seq<u8>, i: int, lead: int, done: Seq<Branch>) -> Scan<Seq<Branch>>
    decreases s.len() - i, 1nat,
{
    if !at(s, i, 0x22) {
        Scan::Fail { at: i, msg: "expected '\"' to start object key"@ }
    } else {
        match string_rest(s, i + 1, seq![]) {
            Scan::Fail { at, msg } => Scan::Fail { at, msg },
            Scan::Done { value: text, next: key_end } => {
                let colon = ws_end(s, key_end);
                if !at(s, colon, 0x3a) {
                    Scan::Fail { at: colon, msg: expected_msg(s, colon, 0x3a, "':'"@) }
                } else {
                    let v = ws_end(s, colon + 1);
                    if i < v <= s.len() {
                        match value(s, v) {
                            Scan::Fail { at, msg } => Scan::Fail { at, msg },
                            Scan::Done { value, next } => {
                                let t = trailing_end(s, next);
                                let more = done.push(
                                    Branch::Member {
                                        key: Span { start: lead, end: key_end },
                                        text,
                                        between: Span { start: key_end, end: v },
                                        value: Box::new(value),
                                        trailing: Span { start: next, end: t },
                                    },
                                );
                                if at(s, ws_end(s, next), 0x2c) {
                                    if i < t <= s.len() {
                                        members(s, t, t, more)
                                    } else {
                                        arbitrary()
                                    }
                                } else if at(s, t, 0x7d) {
                                    Scan::Done { value: more, next: t + 1 }
                                } else {
                                    Scan::Fail {
                                        at: t,
                                        msg: expected_msg(s, t, 0x7d, "'}' to close object"@),
                                    }
                                }
                            },
                        }
                    } else {
                        arbitrary()
                    }
                }
            },
        }
    }
}

/// The elements of an array from the value at `i` to the closing bracket,
/// behind the elements already read.
pub open spec fn elements(s: Seq<u8>, i: int, done: Seq<Branch>) -> Scan<Seq<Branch>>
    decreases s.len() - i, 3nat,
{
    match value(s, i) {
        Scan::Fail { at, msg } => Scan::Fail { at, msg },
        Scan::Done { value, next } => {
            let t = trailing_end(s, next);
            let more = done.push(
                Branch::Element {
                    value: Box::new(value),
                    trailing: Span { start: next, end: t },
                },
            );
            if at(s, ws_end(s, next), 0x2c) {
                if i < t <= s.len() {
                    elements(s, t, more)
                } else {
                    arbitrary()
                }
            } else if at(s, t, 0x5d) {
                Scan::Done { value: more, next: t + 1 }
            } else {
                Scan::Fail { at: t, msg: expected_msg(s, t, 0x5d, "']' to close array"@) }
            }
        },
    }
}

/// A whole document: one value with whitespace round it.
pub open spec fn document(s: Seq<u8>) -> Scan<DocumentTree> {
    let start = ws_end(s, 0);
    match value(s, start) {
        Scan::Fail { at, msg } => Scan::Fail { at, msg },
        Scan::Done { value, next } => {
            let end = ws_end(s, next);
            if end == s.len() {
                Scan::Done {
                    value: DocumentTree {
                        leading: Span { start: 0, end: start },
                        root: value,
                        trailing: Span { start: next, end },
                    },
                    next: end,
                }
            } else {
                Scan::Fail { at: end, msg: "trailing data after root value"@ }
            }
        },
    }
}

/// A range as a list of leaf ranges: none where it is empty.
pub open spec fn leaf_range(r: Span) -> Seq<Span> {
    if r.start < r.end {
        seq![r]
    } else {
        seq![]
    }
}

pub open spec fn is_container(kind: NodeKind) -> bool {
    kind == NodeKind::Object || kind == NodeKind::Array
}

/// Every leaf byte range of a tree in document order: for a container its
/// opening byte, what its children cover, and its closing byte.
pub open spec fn tree_ranges(t: Tree) -> Seq<Span>
    decreases t,
{
    if t.children.len() == 0 {
        if t.start != t.end {
            seq![Span { start: t.start, end: t.end }]
        } else {
            seq![]
        }
    } else if is_container(t.kind) {
        seq![Span { start: t.start, end: t.start + 1 }] + branches_ranges(t.children)
            + seq![Span { start: t.end - 1, end: t.end }]
    } else {
        branches_ranges(t.children)
    }
}

/// The leaf ranges of the children of a container.
pub open spec fn branches_ranges(cs: Seq<Branch>) -> Seq<Span>
    decreases cs,
{
    if cs.len() == 0 {
        seq![]
    } else {
        branches_ranges(cs.drop_last()) + branch_ranges(cs.last())
    }
}

/// The leaf ranges of one child.
pub open spec fn branch_ranges(c: Branch) -> Seq<Span>
    decreases c,
{
    match c {
        Branch::Member { key, text: _, between, value, trailing } => leaf_range(key) + leaf_range(
            between,
        ) + tree_ranges(*value) + leaf_range(trailing),
        Branch::Element { value, trailing } => tree_ranges(*value) + leaf_range(trailing),
    }
}

/// The leaf ranges of a document.
pub open spec fn document_ranges(d: DocumentTree) -> Seq<Span> {
    leaf_range(d.leading) + tree_ranges(d.root) + leaf_range(d.trailing)
}

/// The ranges of the opening and the closing byte of every node with children
/// can be written down.
pub open spec fn delimited(t: Tree) -> bool
    decreases t,
{
    t.children.len() > 0 ==> t.start < u64::MAX && t.end >= 1 && all_delimited(t.children)
}

/// [`delimited`], for the values of all children.
pub open spec fn all_delimited(cs: Seq<Branch>) -> bool
    decreases cs,
{
    cs.len() > 0 ==> all_delimited(cs.drop_last()) && match cs.last() {
        Branch::Member { value, .. } => delimited(*value),
        Branch::Element { value, .. } => delimited(*value),
    }
}

} // verus!
