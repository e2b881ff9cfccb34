//! Hand-rolled byte-position-preserving JSON parser.
//!
//! The output is a `Document` whose tree covers every byte of the input
//! exactly once: concatenating all ranges of [`collect_ranges`] in document
//! order reproduces the input. That is what lets the diff aligner translate
//! structural matches back into byte ranges without losing whitespace, commas,
//! or any other source-level detail.
//!
//! Strict RFC 8259: no comments, no trailing commas. Errors carry the byte
//! offset that triggered the failure so callers can log a useful message and
//! fall back to byte-level diffing.

use vstd::prelude::*;
use vstd::string::StringExecFns;
use std::ops::Range;
use crate::text;
use crate::text::{decimal_string, hex_byte};
use super::alignment;
use super::cover;
use super::grammar;

verus! {

#[derive(Debug, Clone, Copy, PartialEq, Eq, Hash, Structural)]
pub enum NodeKind {
    Object,
    Array,
    String,
    Number,
    Bool,
    Null,
}

/// A value of the document with the bytes it spans.
#[derive(Debug)]
pub struct Node {
    pub kind: NodeKind,
    pub byte_start: u64,
    pub byte_end: u64,
    /// The bytes of a primitive; empty for a container.
    pub content: Vec<u8>,
    pub children: Vec<Child>,
}

#[derive(Debug)]
pub enum Child {
    /// Object member: a quoted key, the colon-and-whitespace separator, the
    /// value subtree, and any trailing comma + whitespace before the next key.
    Member {
        key_range: Range<u64>,
        key_decoded: String,
        between_key_value: Range<u64>,
        value: Box<Node>,
        trailing: Range<u64>,
    },
    /// Array element: a value subtree and any trailing comma + whitespace.
    Element { value: Box<Node>, trailing: Range<u64> },
}

#[derive(Debug)]
pub struct Document {
    pub leading_ws: Range<u64>,
    pub root: Node,
    pub trailing_ws: Range<u64>,
}

#[derive(Debug)]
pub struct ParseError {
    pub byte_offset: u64,
    pub msg: String,
}

/// The byte range that an executable range denotes.
pub open spec fn span(r: Range<u64>) -> grammar::Span {
    grammar::Span { start: r.start as int, end: r.end as int }
}

/// The tree that a node denotes.
pub open spec fn tree_of(n: Node) -> grammar::Tree
    decreases n,
{
    grammar::Tree {
        kind: n.kind,
        start: n.byte_start as int,
        end: n.byte_end as int,
        content: n.content@,
        children: branches_of(n.children@),
    }
}

/// What each child in a list denotes.
pub open spec fn branches_of(cs: Seq<Child>) -> Seq<grammar::Branch>
    decreases cs,
{
    if cs.len() == 0 {
        seq![]
    } else {
        branches_of(cs.drop_last()).push(branch_of(cs.last()))
    }
}

/// What a child denotes.
pub open spec fn branch_of(c: Child) -> grammar::Branch
    decreases c,
{
    match c {
        Child::Member { key_range, key_decoded, between_key_value, value, trailing } => {
            grammar::Branch::Member {
                key: span(key_range),
                text: key_decoded@,
                between: span(between_key_value),
                value: Box::new(tree_of(*value)),
                trailing: span(trailing),
            }
        },
        Child::Element { value, trailing } => grammar::Branch::Element {
            value: Box::new(tree_of(*value)),
            trailing: span(trailing),
        },
    }
}

/// What a document denotes.
pub open spec fn document_of(d: Document) -> grammar::DocumentTree {
    grammar::DocumentTree {
        leading: span(d.leading_ws),
        root: tree_of(d.root),
        trailing: span(d.trailing_ws),
    }
}

impl Node {
    /// The bytes that the node spans.
    pub fn range(&self) -> (r: Range<u64>)
        ensures
            r.start == self.byte_start,
            r.end == self.byte_end,
    {
        self.byte_start..self.byte_end
    }
}

impl ParseError {
    /// The message with the position it is about.
    pub fn message(&self) -> (s: String)
        ensures
            s@ == "at byte "@ + text::decimal(self.byte_offset as nat) + ": "@ + self.msg@,
    {
        "at byte ".to_owned().concat(decimal_string(self.byte_offset).as_str()).concat(
            ": ",
        ).concat(self.msg.as_str())
    }
}

/// The error that `core::str::from_utf8` reports; carried, never inspected.
#[verifier::external_type_specification]
#[verifier::external_body]
pub struct ExUtf8Error(std::str::Utf8Error);

/// `core::str::from_utf8` of `std`: succeeds on exactly the valid UTF-8 byte
/// sequences, with the text that they encode.
pub assume_specification[ std::str::from_utf8 ](v: &[u8]) -> (r: Result<&str, std::str::Utf8Error>)
    ensures
        r is Ok <==> vstd::utf8::valid_utf8(v@),
        r matches Ok(t) ==> t@ == vstd::utf8::decode_utf8(v@),
;

/// `char::from_u32` of `std`: the character with that scalar value, `None` for
/// a surrogate or a value past the end of Unicode.
pub assume_specification[ char::from_u32 ](i: u32) -> (r: Option<char>)
    ensures
        r == (if i < 0xD800 || 0xE000 <= i <= 0x10FFFF {
            Some(i as char)
        } else {
            None
        }),
;

/// The result of a parsing step is the one that the grammar gives.
spec fn node_result(scan: grammar::Scan<grammar::Tree>, r: Result<Node, ParseError>, pos: int) -> bool {
    match scan {
        grammar::Scan::Done { value, next } => r matches Ok(n) && tree_of(n) == value && pos == next,
        grammar::Scan::Fail { at, msg } => r matches Err(e) && e.byte_offset == at && e.msg@ == msg,
    }
}

spec fn text_result(scan: grammar::Scan<Seq<char>>, r: Result<String, ParseError>, pos: int) -> bool {
    match scan {
        grammar::Scan::Done { value, next } => r matches Ok(t) && t@ == value && pos == next,
        grammar::Scan::Fail { at, msg } => r matches Err(e) && e.byte_offset == at && e.msg@ == msg,
    }
}

spec fn char_result(scan: grammar::Scan<Seq<char>>, r: Result<char, ParseError>, pos: int) -> bool {
    match scan {
        grammar::Scan::Done { value, next } => r matches Ok(c) && seq![c] == value && pos == next,
        grammar::Scan::Fail { at, msg } => r matches Err(e) && e.byte_offset == at && e.msg@ == msg,
    }
}

struct Parser<'a> {
    src: &'a [u8],
    pos: usize,
}

impl<'a> Parser<'a> {
    spec fn wf(&self) -> bool {
        self.pos <= self.src@.len() <= usize::MAX
    }

    fn new(src: &'a [u8]) -> (p: Self)
        ensures
            p.wf(),
            p.src@ == src@,
            p.pos == 0,
    {
        assert(src.len() == src@.len());
        Parser { src, pos: 0 }
    }

    fn err(&self, msg: &str) -> (e: ParseError)
        ensures
            e.byte_offset == self.pos,
            e.msg@ == msg@,
    {
        ParseError { byte_offset: self.pos as u64, msg: msg.to_owned() }
    }

    fn err_string(&self, msg: String) -> (e: ParseError)
        ensures
            e.byte_offset == self.pos,
            e.msg@ == msg@,
    {
        ParseError { byte_offset: self.pos as u64, msg }
    }

    fn peek(&self) -> (b: Option<u8>)
        ensures
            b == (if self.pos < self.src@.len() {
                Some(self.src@[self.pos as int])
            } else {
                None
            }),
    {
        if self.pos < self.src.len() {
            Some(self.src[self.pos])
        } else {
            None
        }
    }

    fn peek_is(&self, b: u8) -> (r: bool)
        ensures
            r == grammar::at(self.src@, self.pos as int, b),
    {
        self.pos < self.src.len() && self.src[self.pos] == b
    }

    fn advance(&mut self) -> (b: Option<u8>)
        requires
            old(self).wf(),
        ensures
            final(self).wf(),
            final(self).src@ == old(self).src@,
            match b {
                Some(x) => old(self).pos < old(self).src@.len() && x == old(self).src@[old(self).pos as int] && final(self).pos == old(self).pos + 1,
                None => old(self).pos == old(self).src@.len() && final(self).pos == old(self).pos,
            },
    {
        if self.pos < self.src.len() {
            let b: u8 = self.src[self.pos];
            self.pos = self.pos + 1;
            Some(b)
        } else {
            None
        }
    }

    fn expect(&mut self, b: u8, what: &str) -> (r: Result<(), ParseError>)
        requires
            old(self).wf(),
        ensures
            final(self).wf(),
            final(self).src@ == old(self).src@,
            r is Ok <==> grammar::at(old(self).src@, old(self).pos as int, b),
            r is Ok ==> final(self).pos == old(self).pos + 1,
            r matches Err(e) ==> e.byte_offset == old(self).pos && e.msg@ == grammar::expected_msg(
                old(self).src@,
                old(self).pos as int,
                b,
                what@,
            ),
    {
        if self.pos < self.src.len() && self.src[self.pos] == b {
            self.pos = self.pos + 1;
            return Ok(());
        }
        let head = "expected ".to_owned().concat(what).concat(" (0x").concat(
            hex_byte(b).as_str(),
        );
        let tail = match self.peek() {
            Some(other) => "), found 0x".to_owned().concat(hex_byte(other).as_str()),
            None => "), found EOF".to_owned(),
        };
        Err(self.err_string(head.concat(tail.as_str())))
    }

    /// Consume RFC 8259 whitespace (' ', '\t', '\n', '\r'). Returns the byte
    /// range that was skipped.
    fn skip_ws(&mut self) -> (r: Range<u64>)
        requires
            old(self).wf(),
        ensures
            final(self).wf(),
            final(self).src@ == old(self).src@,
            final(self).pos == grammar::ws_end(old(self).src@, old(self).pos as int),
            final(self).pos >= old(self).pos,
            r.start == old(self).pos,
            r.end == final(self).pos,
    {
        let start: usize = self.pos;
        while self.pos < self.src.len() && (self.src[self.pos] == 0x20 || self.src[self.pos] == 0x09
            || self.src[self.pos] == 0x0a || self.src[self.pos] == 0x0d)
            invariant
                self.wf(),
                start <= self.pos,
                self.src@ == old(self).src@,
                grammar::ws_end(self.src@, self.pos as int) == grammar::ws_end(old(self).src@, start as int),
            decreases self.src@.len() - self.pos,
        {
            self.pos = self.pos + 1;
        }
        start as u64..self.pos as u64
    }

    fn skip_digits(&mut self)
        requires
            old(self).wf(),
        ensures
            final(self).wf(),
            final(self).src@ == old(self).src@,
            final(self).pos == grammar::digits_end(old(self).src@, old(self).pos as int),
            final(self).pos >= old(self).pos,
    {
        let start: usize = self.pos;
        while self.pos < self.src.len() && 0x30 <= self.src[self.pos] && self.src[self.pos] <= 0x39
            invariant
                self.wf(),
                start <= self.pos,
                self.src@ == old(self).src@,
                grammar::digits_end(self.src@, self.pos as int) == grammar::digits_end(old(self).src@, start as int),
            decreases self.src@.len() - self.pos,
        {
            self.pos = self.pos + 1;
        }
    }

    fn parse_hex4(&mut self) -> (r: Result<u16, ParseError>)
        requires
            old(self).wf(),
        ensures
            final(self).wf(),
            final(self).src@ == old(self).src@,
            final(self).pos >= old(self).pos,
            match grammar::hex_number(old(self).src@, old(self).pos as int, 4, 0) {
                grammar::Scan::Done { value, next } => r matches Ok(v) && v == value && final(self).pos
                    == next,
                grammar::Scan::Fail { at, msg } => r matches Err(e) && e.byte_offset == at && e.msg@ == msg,
            },
    {
        let mut acc: u16 = 0;
        let mut k: u8 = 0;
        let ghost goal = grammar::hex_number(self.src@, self.pos as int, 4, 0);
        while k < 4
            invariant
                k <= 4,
                k == 0 ==> acc == 0,
                k == 1 ==> acc < 0x10,
                k == 2 ==> acc < 0x100,
                k == 3 ==> acc < 0x1000,
                self.wf(),
                self.pos >= old(self).pos,
                self.src@ == old(self).src@,
                goal == grammar::hex_number(old(self).src@, old(self).pos as int, 4, 0),
                goal == grammar::hex_number(self.src@, self.pos as int, (4 - k) as nat, acc as int),
            decreases 4 - k,
        {
            match self.advance() {
                None => {
                    return Err(self.err("EOF in \\uXXXX"));
                },
                Some(b) => {
                    let d: u16 = if 0x30 <= b && b <= 0x39 {
                        (b - 0x30) as u16
                    } else if 0x61 <= b && b <= 0x66 {
                        (b - 0x61 + 10) as u16
                    } else if 0x41 <= b && b <= 0x46 {
                        (b - 0x41 + 10) as u16
                    } else {
                        return Err(
                            self.err_string(
                                "invalid hex digit 0x".to_owned().concat(
                                    hex_byte(b).as_str(),
                                ).concat(" in \\uXXXX"),
                            ),
                        );
                    };
                    acc = acc * 16 + d;
                    k = k + 1;
                },
            }
        }
        Ok(acc)
    }

    /// The characters of a `\u` escape, from just past the `u`. A high
    /// surrogate has to be followed by the escape of a low one.
    fn parse_unicode_escape(&mut self) -> (r: Result<char, ParseError>)
        requires
            old(self).wf(),
        ensures
            final(self).wf(),
            final(self).src@ == old(self).src@,
            final(self).pos >= old(self).pos,
            char_result(
                grammar::unicode_escape(old(self).src@, old(self).pos as int),
                r,
                final(self).pos as int,
            ),
    {
        let cp: u16 = match self.parse_hex4() {
            Ok(v) => v,
            Err(e) => {
                return Err(e);
            },
        };
        if 0xD800 <= cp && cp <= 0xDBFF {
            let ghost mid = self.pos as int;
            if self.advance() != Some(0x5cu8) || self.advance() != Some(0x75u8) {
                return Err(self.err("expected low surrogate after high surrogate"));
            }
            let lo: u16 = match self.parse_hex4() {
                Ok(v) => v,
                Err(e) => {
                    return Err(e);
                },
            };
            if !(0xDC00 <= lo && lo <= 0xDFFF) {
                return Err(self.err("invalid low surrogate"));
            }
            let codepoint: u32 = 0x10000 + (cp - 0xD800) as u32 * 1024 + (lo - 0xDC00) as u32;
            match char::from_u32(codepoint) {
                Some(c) => Ok(c),
                None => Err(self.err("invalid surrogate pair")),
            }
        } else if 0xDC00 <= cp && cp <= 0xDFFF {
            Err(self.err("unexpected low surrogate"))
        } else {
            match char::from_u32(cp as u32) {
                Some(c) => Ok(c),
                None => Err(self.err("invalid \\u codepoint")),
            }
        }
    }

    /// The character of an escape, from just past the backslash.
    fn parse_escape(&mut self) -> (r: Result<char, ParseError>)
        requires
            old(self).wf(),
        ensures
            final(self).wf(),
            final(self).src@ == old(self).src@,
            final(self).pos >= old(self).pos,
            char_result(
                grammar::escape(old(self).src@, old(self).pos as int),
                r,
                final(self).pos as int,
            ),
    {
        match self.advance() {
            None => Err(self.err("EOF in escape")),
            Some(b) => if b == 0x22 || b == 0x5c || b == 0x2f {
                Ok(b as char)
            } else if b == 0x62 {
                Ok('\u{8}')
            } else if b == 0x66 {
                Ok('\u{c}')
            } else if b == 0x6e {
                Ok('\n')
            } else if b == 0x72 {
                Ok('\r')
            } else if b == 0x74 {
                Ok('\t')
            } else if b == 0x75 {
                self.parse_unicode_escape()
            } else {
                Err(
                    self.err_string(
                        "invalid escape \\0x".to_owned().concat(hex_byte(b).as_str()),
                    ),
                )
            },
        }
    }

    /// The text of a multi-byte UTF-8 sequence whose lead byte `b` was just
    /// read. A sequence that encodes no character reads as the replacement
    /// character, so that keys still match.
    fn parse_multibyte(&mut self, b: u8) -> (r: Result<String, ParseError>)
        requires
            old(self).wf(),
            old(self).pos >= 1,
            b >= 0x80,
            old(self).src@[old(self).pos - 1] == b,
        ensures
            final(self).wf(),
            final(self).src@ == old(self).src@,
            final(self).pos >= old(self).pos,
            text_result(
                grammar::string_item(old(self).src@, old(self).pos - 1),
                r,
                final(self).pos as int,
            ),
    {
        let extra: usize = if 0xC0 <= b && b <= 0xDF {
            1
        } else if 0xE0 <= b && b <= 0xEF {
            2
        } else if 0xF0 <= b && b <= 0xF7 {
            3
        } else {
            return Err(self.err("invalid UTF-8 lead byte in string"));
        };
        let mut buf: Vec<u8> = Vec::new();
        buf.push(b);
        let mut k: usize = 0;
        let ghost goal = grammar::continuation(self.src@, self.pos as int, extra as nat, seq![b]);
        assert(buf@ =~= seq![b]);
        while k < extra
            invariant
                k <= extra,
                self.wf(),
                self.pos >= old(self).pos >= 1,
                self.src@ == old(self).src@,
                old(self).src@[old(self).pos - 1] == b,
                b >= 0x80,
                grammar::continuation_count(b) == Some(extra as nat),
                goal == grammar::continuation(
                    old(self).src@,
                    old(self).pos as int,
                    extra as nat,
                    seq![b],
                ),
                goal == grammar::continuation(
                    self.src@,
                    self.pos as int,
                    (extra - k) as nat,
                    buf@,
                ),
            decreases extra - k,
        {
            match self.advance() {
                Some(c) => {
                    if 0x80 <= c && c <= 0xBF {
                        buf.push(c);
                    } else {
                        return Err(self.err("invalid UTF-8 continuation in string"));
                    }
                },
                None => {
                    return Err(self.err("invalid UTF-8 continuation in string"));
                },
            }
            k = k + 1;
        }
        match std::str::from_utf8(buf.as_slice()) {
            Ok(t) => Ok(t.to_owned()),
            Err(_) => {
                let mut t = String::new();
                t.push('\u{FFFD}');
                Ok(t)
            },
        }
    }

    /// Parse a JSON string starting at `start_pos` (which must be the opening
    /// quote). Returns the decoded string and the exclusive end position
    /// (one past the closing quote). `self.pos` is advanced to that end.
    fn parse_string_at(&mut self, start_pos: usize) -> (r: Result<(String, usize), ParseError>)
        requires
            old(self).wf(),
            grammar::at(old(self).src@, start_pos as int, 0x22),
        ensures
            final(self).wf(),
            final(self).src@ == old(self).src@,
            match grammar::string_rest(old(self).src@, start_pos + 1, seq![]) {
                grammar::Scan::Done { value, next } => r matches Ok(p) && p.0@ == value && p.1
                    == next && final(self).pos == next && next > start_pos,
                grammar::Scan::Fail { at, msg } => r matches Err(e) && e.byte_offset == at
                    && e.msg@ == msg,
            },
    {
        self.pos = start_pos + 1;
        let mut out = String::new();
        let ghost s = self.src@;
        let ghost goal = grammar::string_rest(s, start_pos + 1, seq![]);
        loop
            invariant
                self.wf(),
                self.src@ == s,
                s == old(self).src@,
                self.pos > start_pos,
                goal == grammar::string_rest(s, start_pos + 1, seq![]),
                goal == grammar::string_rest(s, self.pos as int, out@),
            decreases s.len() - self.pos,
        {
            let ghost here = self.pos as int;
            let ghost before = out@;
            match self.advance() {
                None => {
                    return Err(self.err("unterminated string"));
                },
                Some(b) => {
                    if b == 0x22 {
                        return Ok((out, self.pos));
                    } else if b == 0x5c {
                        match self.parse_escape() {
                            Ok(c) => {
                                out.push(c);
                                assert(before.push(c) =~= before + seq![c]);
                            },
                            Err(e) => {
                                return Err(e);
                            },
                        }
                    } else if b < 0x20 {
                        return Err(
                            self.err_string(
                                "unescaped control byte 0x".to_owned().concat(
                                    hex_byte(b).as_str(),
                                ).concat(" in string"),
                            ),
                        );
                    } else if b < 0x80 {
                        out.push(b as char);
                        assert(before.push(b as char) =~= before + seq![b as char]);
                    } else {
                        match self.parse_multibyte(b) {
                            Ok(t) => {
                                out.append(t.as_str());
                            },
                            Err(e) => {
                                return Err(e);
                            },
                        }
                    }
                },
            }
        }
    }

    fn parse_number(&mut self) -> (r: Result<Node, ParseError>)
        requires
            old(self).wf(),
        ensures
            final(self).wf(),
            final(self).src@ == old(self).src@,
            match grammar::number(old(self).src@, old(self).pos as int) {
                grammar::Scan::Done { value: _, next } => r matches Ok(n) && tree_of(n)
                    == grammar::literal(NodeKind::Number, old(self).src@, old(self).pos as int, next) && final(self).pos == next && next > old(self).pos,
                grammar::Scan::Fail { at, msg } => r matches Err(e) && e.byte_offset == at
                    && e.msg@ == msg,
            },
    {
        let start: usize = self.pos;
        if self.peek_is(0x2d) {
            self.step();
        }
        // Integer part: 0 | [1-9][0-9]*
        if self.peek_is(0x30) {
            self.step();
        } else if self.pos < self.src.len() && 0x31 <= self.src[self.pos] && self.src[self.pos]
            <= 0x39 {
            self.step();
            self.skip_digits();
        } else {
            return Err(self.err("invalid number: missing integer part"));
        }
        // Fraction part.
        if self.peek_is(0x2e) {
            self.step();
            let frac_start: usize = self.pos;
            self.skip_digits();
            if self.pos == frac_start {
                return Err(self.err("invalid number: empty fraction"));
            }
        }
        // Exponent part.
        if self.peek_is(0x65) || self.peek_is(0x45) {
            self.step();
            if self.peek_is(0x2b) || self.peek_is(0x2d) {
                self.step();
            }
            let exp_start: usize = self.pos;
            self.skip_digits();
            if self.pos == exp_start {
                return Err(self.err("invalid number: empty exponent"));
            }
        }
        Ok(self.leaf(NodeKind::Number, start))
    }

    /// Moves past a byte that was just seen.
    fn step(&mut self)
        requires
            old(self).wf(),
            old(self).pos < old(self).src@.len(),
        ensures
            final(self).wf(),
            final(self).src@ == old(self).src@,
            final(self).pos == old(self).pos + 1,
    {
        self.pos = self.pos + 1;
    }

    /// The primitive from `start` to the current position.
    fn leaf(&self, kind: NodeKind, start: usize) -> (n: Node)
        requires
            self.wf(),
            start <= self.pos,
        ensures
            tree_of(n) == grammar::literal(kind, self.src@, start as int, self.pos as int),
    {
        let mut content: Vec<u8> = Vec::new();
        let mut i: usize = start;
        while i < self.pos
            invariant
                self.wf(),
                start <= i <= self.pos,
                content@ == self.src@.subrange(start as int, i as int),
            decreases self.pos - i,
        {
            content.push(self.src[i]);
            i = i + 1;
            assert(content@ =~= self.src@.subrange(start as int, i as int));
        }
        let n = Node {
            kind,
            byte_start: start as u64,
            byte_end: self.pos as u64,
            content,
            children: Vec::new(),
        };
        assert(branches_of(n.children@) =~= seq![]);
        n
    }

    /// Whether the bytes of `word` come next.
    fn starts_with(&self, word: &[u8]) -> (r: bool)
        requires
            self.wf(),
        ensures
            r == grammar::word_at(self.src@, self.pos as int, word@),
    {
        if self.src.len() - self.pos < word.len() {
            return false;
        }
        let mut k: usize = 0;
        while k < word.len()
            invariant
                k <= word@.len(),
                self.wf(),
                self.pos + word@.len() <= self.src@.len(),
                forall|j: int| 0 <= j < k ==> self.src@[self.pos + j] == #[trigger] word@[j],
            decreases word@.len() - k,
        {
            if self.src[self.pos + k] != word[k] {
                assert(self.src@[self.pos + k] != word@[k as int]);
                return false;
            }
            k = k + 1;
        }
        true
    }

    fn parse_bool(&mut self) -> (r: Result<Node, ParseError>)
        requires
            old(self).wf(),
            grammar::at(old(self).src@, old(self).pos as int, 0x74) || grammar::at(
                old(self).src@,
                old(self).pos as int,
                0x66,
            ),
        ensures
            final(self).wf(),
            final(self).src@ == old(self).src@,
            node_result(
                grammar::value(old(self).src@, old(self).pos as int),
                r,
                final(self).pos as int,
            ),
            r is Ok ==> final(self).pos > old(self).pos,
    {
        let start: usize = self.pos;
        let t: [u8; 4] = [0x74, 0x72, 0x75, 0x65];
        let f: [u8; 5] = [0x66, 0x61, 0x6c, 0x73, 0x65];
        assert(t@ =~= grammar::word_true());
        assert(f@ =~= grammar::word_false());
        if self.starts_with(&t) {
            self.pos = self.pos + 4;
            Ok(self.leaf(NodeKind::Bool, start))
        } else if self.starts_with(&f) {
            self.pos = self.pos + 5;
            Ok(self.leaf(NodeKind::Bool, start))
        } else {
            Err(self.err("invalid bool literal"))
        }
    }

    fn parse_null(&mut self) -> (r: Result<Node, ParseError>)
        requires
            old(self).wf(),
            grammar::at(old(self).src@, old(self).pos as int, 0x6e),
        ensures
            final(self).wf(),
            final(self).src@ == old(self).src@,
            node_result(
                grammar::value(old(self).src@, old(self).pos as int),
                r,
                final(self).pos as int,
            ),
            r is Ok ==> final(self).pos > old(self).pos,
    {
        let start: usize = self.pos;
        let w: [u8; 4] = [0x6e, 0x75, 0x6c, 0x6c];
        assert(w@ =~= grammar::word_null());
        if self.starts_with(&w) {
            self.pos = self.pos + 4;
            Ok(self.leaf(NodeKind::Null, start))
        } else {
            Err(self.err("invalid null literal"))
        }
    }

    fn parse_value(&mut self) -> (r: Result<Node, ParseError>)
        requires
            old(self).wf(),
        ensures
            final(self).wf(),
            final(self).src@ == old(self).src@,
            node_result(
                grammar::value(old(self).src@, old(self).pos as int),
                r,
                final(self).pos as int,
            ),
            r is Ok ==> final(self).pos > old(self).pos,
        decreases old(self).src@.len() - old(self).pos, 2nat,
    {
        let start: usize = self.pos;
        match self.peek() {
            Some(b) => {
                if b == 0x7b {
                    self.parse_object()
                } else if b == 0x5b {
                    self.parse_array()
                } else if b == 0x22 {
                    match self.parse_string_at(start) {
                        Ok(_) => Ok(self.leaf(NodeKind::String, start)),
                        Err(e) => Err(e),
                    }
                } else if b == 0x74 || b == 0x66 {
                    self.parse_bool()
                } else if b == 0x6e {
                    self.parse_null()
                } else if b == 0x2d || (0x30 <= b && b <= 0x39) {
                    self.parse_number()
                } else {
                    Err(
                        self.err_string(
                            "unexpected byte 0x".to_owned().concat(hex_byte(b).as_str()).concat(
                                " at start of value",
                            ),
                        ),
                    )
                }
            },
            None => Err(self.err("unexpected EOF where value expected")),
        }
    }

    /// Moves past what follows a value inside a container: whitespace, and a
    /// comma with the whitespace behind it. Returns the bytes skipped and
    /// whether there was a comma.
    fn skip_trailing(&mut self) -> (r: (Range<u64>, bool))
        requires
            old(self).wf(),
        ensures
            final(self).wf(),
            final(self).src@ == old(self).src@,
            final(self).pos >= old(self).pos,
            final(self).pos == grammar::trailing_end(old(self).src@, old(self).pos as int),
            r.0.start == old(self).pos,
            r.0.end == final(self).pos,
            r.1 == grammar::at(
                old(self).src@,
                grammar::ws_end(old(self).src@, old(self).pos as int),
                0x2c,
            ),
    {
        let start: usize = self.pos;
        self.skip_ws();
        let saw_comma = self.peek_is(0x2c);
        if saw_comma {
            self.step();
            self.skip_ws();
        }
        (start as u64..self.pos as u64, saw_comma)
    }

    fn parse_object(&mut self) -> (r: Result<Node, ParseError>)
        requires
            old(self).wf(),
            grammar::at(old(self).src@, old(self).pos as int, 0x7b),
        ensures
            final(self).wf(),
            final(self).src@ == old(self).src@,
            node_result(
                grammar::value(old(self).src@, old(self).pos as int),
                r,
                final(self).pos as int,
            ),
            r is Ok ==> final(self).pos > old(self).pos,
        decreases old(self).src@.len() - old(self).pos, 1nat,
    {
        let start: usize = self.pos;
        self.step();
        let mut children: Vec<Child> = Vec::new();

        // Empty object: optional whitespace then '}'. The whitespace is kept
        // in a sentinel member, so that the tree still covers it.
        let ws_after_open = self.skip_ws();
        if self.peek_is(0x7d) {
            if ws_after_open.start < ws_after_open.end {
                push_child(&mut children, blank_member(ws_after_open.start, ws_after_open.end));
            }
            self.step();
            let n = Node {
                kind: NodeKind::Object,
                byte_start: start as u64,
                byte_end: self.pos as u64,
                content: Vec::new(),
                children,
            };
            assert(tree_of(n).children =~= (if ws_after_open.end > start + 1 {
                seq![grammar::blank_member(start + 1, ws_after_open.end as int)]
            } else {
                seq![]
            }));
            return Ok(n);
        }
        // Non-empty: the whitespace before the first key is covered by that
        // member's key range; only the quoted key is decoded.

        let mut leading_member_ws_start: u64 = ws_after_open.start;
        let ghost s = self.src@;
        let ghost goal = grammar::members(s, self.pos as int, start + 1, seq![]);
        assert(branches_of(children@) =~= seq![]);
        loop
            invariant
                self.wf(),
                self.src@ == s,
                s == old(self).src@,
                start == old(self).pos,
                self.pos > start,
                goal == grammar::members(
                    s,
                    self.pos as int,
                    leading_member_ws_start as int,
                    branches_of(children@),
                ),
                grammar::value(s, start as int) == grammar::container(
                    NodeKind::Object,
                    start as int,
                    goal,
                ),
            decreases s.len() - self.pos,
        {
            let ghost turn = self.pos as int;
            let key_start: usize = self.pos;
            if !self.peek_is(0x22) {
                return Err(self.err("expected '\"' to start object key"));
            }
            let (key_decoded, key_end_excl): (String, usize) = match self.parse_string_at(
                key_start,
            ) {
                Ok(p) => p,
                Err(e) => {
                    return Err(e);
                },
            };
            self.skip_ws();
            match self.expect(0x3a, "':'") {
                Ok(_) => {},
                Err(e) => {
                    return Err(e);
                },
            }
            self.skip_ws();
            let between_end: usize = self.pos;
            let value = match self.parse_value() {
                Ok(n) => n,
                Err(e) => {
                    return Err(e);
                },
            };
            let (trailing, saw_comma) = self.skip_trailing();
            push_child(
                &mut children,
                Child::Member {
                    key_range: leading_member_ws_start..key_end_excl as u64,
                    key_decoded,
                    between_key_value: key_end_excl as u64..between_end as u64,
                    value: Box::new(value),
                    trailing,
                },
            );
            if saw_comma {
                // The whitespace before the next key belongs to `trailing`.
                leading_member_ws_start = self.pos as u64;
                continue;
            }
            match self.expect(0x7d, "'}' to close object") {
                Ok(_) => {},
                Err(e) => {
                    return Err(e);
                },
            }
            return Ok(
                Node {
                    kind: NodeKind::Object,
                    byte_start: start as u64,
                    byte_end: self.pos as u64,
                    content: Vec::new(),
                    children,
                },
            );
        }
    }

    fn parse_array(&mut self) -> (r: Result<Node, ParseError>)
        requires
            old(self).wf(),
            grammar::at(old(self).src@, old(self).pos as int, 0x5b),
        ensures
            final(self).wf(),
            final(self).src@ == old(self).src@,
            node_result(
                grammar::value(old(self).src@, old(self).pos as int),
                r,
                final(self).pos as int,
            ),
            r is Ok ==> final(self).pos > old(self).pos,
        decreases old(self).src@.len() - old(self).pos, 1nat,
    {
        let start: usize = self.pos;
        self.step();
        let mut children: Vec<Child> = Vec::new();
        // Whitespace behind the bracket is kept in a sentinel element, so that
        // the tree still covers it and real elements stay untouched.
        let ws_after_open = self.skip_ws();
        if ws_after_open.start < ws_after_open.end {
            push_child(&mut children, blank_element(ws_after_open.start, ws_after_open.end));
        }
        let ghost blank = if ws_after_open.end > start + 1 {
            seq![grammar::blank_element(start + 1, ws_after_open.end as int)]
        } else {
            seq![]
        };
        assert(branches_of(children@) =~= blank);
        if self.peek_is(0x5d) {
            self.step();
            return Ok(
                Node {
                    kind: NodeKind::Array,
                    byte_start: start as u64,
                    byte_end: self.pos as u64,
                    content: Vec::new(),
                    children,
                },
            );
        }
        let ghost s = self.src@;
        let ghost goal = grammar::elements(s, self.pos as int, blank);
        loop
            invariant
                self.wf(),
                self.src@ == s,
                s == old(self).src@,
                start == old(self).pos,
                self.pos > start,
                goal == grammar::elements(s, self.pos as int, branches_of(children@)),
                grammar::value(s, start as int) == grammar::container(
                    NodeKind::Array,
                    start as int,
                    goal,
                ),
            decreases s.len() - self.pos,
        {
            let value = match self.parse_value() {
                Ok(n) => n,
                Err(e) => {
                    return Err(e);
                },
            };
            let (trailing, saw_comma) = self.skip_trailing();
            push_child(&mut children, Child::Element { value: Box::new(value), trailing });
            if saw_comma {
                continue;
            }
            match self.expect(0x5d, "']' to close array") {
                Ok(_) => {},
                Err(e) => {
                    return Err(e);
                },
            }
            return Ok(
                Node {
                    kind: NodeKind::Array,
                    byte_start: start as u64,
                    byte_end: self.pos as u64,
                    content: Vec::new(),
                    children,
                },
            );
        }
    }
}

fn push_child(children: &mut Vec<Child>, c: Child)
    ensures
        final(children)@ == old(children)@.push(c),
        branches_of(final(children)@) == branches_of(old(children)@).push(branch_of(c)),
{
    assert(children@.push(c).drop_last() =~= children@);
    children.push(c);
}

fn empty_node(pos: u64) -> (n: Node)
    ensures
        tree_of(n) == grammar::leaf(NodeKind::Null, pos as int, pos as int, seq![]),
{
    let n = Node {
        kind: NodeKind::Null,
        byte_start: pos,
        byte_end: pos,
        content: Vec::new(),
        children: Vec::new(),
    };
    assert(branches_of(n.children@) =~= seq![]);
    n
}

/// The member that holds the whitespace of an empty object.
fn blank_member(start: u64, end: u64) -> (c: Child)
    ensures
        branch_of(c) == grammar::blank_member(start as int, end as int),
{
    Child::Member {
        key_range: start..start,
        key_decoded: String::new(),
        between_key_value: start..start,
        value: Box::new(empty_node(start)),
        trailing: start..end,
    }
}

/// The element that holds the whitespace behind an opening bracket.
fn blank_element(start: u64, end: u64) -> (c: Child)
    ensures
        branch_of(c) == grammar::blank_element(start as int, end as int),
{
    Child::Element { value: Box::new(empty_node(start)), trailing: start..end }
}

/// Parse a complete JSON document. Strict RFC 8259 (no comments, no trailing
/// commas).
pub fn parse(src: &[u8]) -> (r: Result<Document, ParseError>)
    ensures
        match grammar::document(src@) {
            grammar::Scan::Done { value, next: _ } => r matches Ok(d) && document_of(d) == value,
            grammar::Scan::Fail { at, msg } => r matches Err(e) && e.byte_offset == at && e.msg@
                == msg,
        },
        r matches Ok(d) ==> grammar::delimited(tree_of(d.root)),
        r matches Ok(d) ==> forall|base: int|
            0 <= base && base + src@.len() <= u64::MAX
                ==> #[trigger] alignment::document_alignable(document_of(d), base),
{
    proof {
        cover::document_covers_input(src@);
        assert(src.len() == src@.len());
        assert forall|base: int|
            0 <= base && base + src@.len() <= u64::MAX && grammar::document(src@) is Done implies
            #[trigger] alignment::document_alignable(
            grammar::document(src@)->value,
            base,
        ) by {
            cover::document_is_alignable(src@, base);
        }
    }
    let mut p = Parser::new(src);
    let leading = p.skip_ws();
    let root = match p.parse_value() {
        Ok(n) => n,
        Err(e) => {
            return Err(e);
        },
    };
    let trailing = p.skip_ws();
    if p.pos != src.len() {
        return Err(p.err("trailing data after root value"));
    }
    Ok(Document { leading_ws: leading, root, trailing_ws: trailing })
}

/// The byte ranges that a list of executable ranges denotes.
pub open spec fn spans(rs: Seq<Range<u64>>) -> Seq<grammar::Span> {
    rs.map_values(|r: Range<u64>| span(r))
}

fn push_range(out: &mut Vec<Range<u64>>, start: u64, end: u64)
    ensures
        spans(final(out)@) == spans(old(out)@) + grammar::leaf_range(
            grammar::Span { start: start as int, end: end as int },
        ),
{
    if start < end {
        out.push(start..end);
        assert(spans(out@) =~= spans(old(out)@) + seq![
            grammar::Span { start: start as int, end: end as int },
        ]);
    } else {
        assert(spans(out@) =~= spans(old(out)@) + Seq::<grammar::Span>::empty());
    }
}

/// Walk a document's tree and emit every leaf byte range in document order.
pub fn collect_ranges(doc: &Document) -> (r: Vec<Range<u64>>)
    requires
        grammar::delimited(tree_of(doc.root)),
    ensures
        spans(r@) == grammar::document_ranges(document_of(*doc)),
{
    let mut out: Vec<Range<u64>> = Vec::new();
    assert(spans(out@) =~= seq![]);
    push_range(&mut out, doc.leading_ws.start, doc.leading_ws.end);
    walk_node(&doc.root, &mut out);
    push_range(&mut out, doc.trailing_ws.start, doc.trailing_ws.end);
    assert(spans(out@) =~= grammar::document_ranges(document_of(*doc)));
    out
}

fn walk_node(n: &Node, out: &mut Vec<Range<u64>>)
    requires
        grammar::delimited(tree_of(*n)),
    ensures
        spans(final(out)@) == spans(old(out)@) + grammar::tree_ranges(tree_of(*n)),
    decreases n,
{
    let ghost before = spans(out@);
    if n.children.len() == 0 {
        if n.byte_start != n.byte_end {
            out.push(n.range());
            assert(spans(out@) =~= before + seq![
                grammar::Span { start: n.byte_start as int, end: n.byte_end as int },
            ]);
        } else {
            assert(spans(out@) =~= before + Seq::<grammar::Span>::empty());
        }
        return;
    }
    let ghost cs = n.children@;
    proof {
        lemma_branches_of_len(cs);
    }
    // Container: emit '{' or '[', then walk children, then '}' or ']'.
    let container = n.kind == NodeKind::Object || n.kind == NodeKind::Array;
    if container {
        push_range(out, n.byte_start, n.byte_start + 1);
    }
    let ghost open = spans(out@);
    let mut i: usize = 0;
    assert(cs.take(0) =~= seq![]);
    assert(spans(out@) =~= open + grammar::branches_ranges(branches_of(cs.take(0))));
    while i < n.children.len()
        invariant
            i <= cs.len(),
            cs == n.children@,
            grammar::all_delimited(branches_of(cs)),
            spans(out@) == open + grammar::branches_ranges(branches_of(cs.take(i as int))),
        decreases cs.len() - i,
    {
        let ghost here = spans(out@);
        proof {
            assert(cs.take(i + 1).drop_last() =~= cs.take(i as int));
            lemma_all_delimited_at(cs, i as int);
            assert(branches_of(cs.take(i + 1)).drop_last() =~= branches_of(cs.take(i as int)));
        }
        match &n.children[i] {
            Child::Member { key_range, key_decoded: _, between_key_value, value, trailing } => {
                push_range(out, key_range.start, key_range.end);
                push_range(out, between_key_value.start, between_key_value.end);
                walk_node(value, out);
                push_range(out, trailing.start, trailing.end);
            },
            Child::Element { value, trailing } => {
                walk_node(value, out);
                push_range(out, trailing.start, trailing.end);
            },
        }
        assert(spans(out@) =~= here + grammar::branch_ranges(branch_of(cs[i as int])));
        assert(spans(out@) =~= open + grammar::branches_ranges(branches_of(cs.take(i + 1))));
        i = i + 1;
    }
    assert(cs.take(cs.len() as int) =~= cs);
    if container {
        push_range(out, n.byte_end - 1, n.byte_end);
    }
    assert(spans(out@) =~= before + grammar::tree_ranges(tree_of(*n)));
}

/// A list of children denotes as many branches.
pub proof fn lemma_branches_of_len(cs: Seq<Child>)
    ensures
        branches_of(cs).len() == cs.len(),
    decreases cs.len(),
{
    if cs.len() > 0 {
        lemma_branches_of_len(cs.drop_last());
    }
}

/// The `i`-th child denotes the `i`-th branch.
pub proof fn lemma_branches_of_index(cs: Seq<Child>, i: int)
    requires
        0 <= i < cs.len(),
    ensures
        branches_of(cs).len() == cs.len(),
        branches_of(cs)[i] == branch_of(cs[i]),
    decreases cs.len(),
{
    lemma_branches_of_len(cs);
    lemma_branches_of_len(cs.drop_last());
    if i < cs.len() - 1 {
        lemma_branches_of_index(cs.drop_last(), i);
    }
}

proof fn lemma_all_delimited_at(cs: Seq<Child>, i: int)
    requires
        0 <= i < cs.len(),
        grammar::all_delimited(branches_of(cs)),
    ensures
        match cs[i] {
            Child::Member { value, .. } => grammar::delimited(tree_of(*value)),
            Child::Element { value, .. } => grammar::delimited(tree_of(*value)),
        },
    decreases cs.len(),
{
    lemma_branches_of_len(cs);
    if i < cs.len() - 1 {
        assert(branches_of(cs).drop_last() =~= branches_of(cs.drop_last()));
        lemma_all_delimited_at(cs.drop_last(), i);
    } else {
        lemma_branches_of_index(cs, i);
        assert(branches_of(cs).last() == branch_of(cs[i]));
    }
}

} // verus!
