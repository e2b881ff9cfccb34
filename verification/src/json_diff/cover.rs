//! The ranges of a parsed document cover its bytes exactly once.

use vstd::prelude::*;
use super::alignment;
use super::grammar;
use super::parse::NodeKind;

verus! {

/// The ranges are non-empty and follow one another without gap or overlap from
/// `start` to `end`.
pub open spec fn tiles(rs: Seq<grammar::Span>, start: int, end: int) -> bool
    decreases rs.len(),
{
    if rs.len() == 0 {
        start == end
    } else {
        rs.last().end == end && rs.last().start < end && tiles(
            rs.drop_last(),
            start,
            rs.last().start,
        )
    }
}

/// The bytes that the ranges select from `s`, in order.
pub open spec fn gather(s: Seq<u8>, rs: Seq<grammar::Span>) -> Seq<u8>
    decreases rs.len(),
{
    if rs.len() == 0 {
        seq![]
    } else {
        gather(s, rs.drop_last()) + s.subrange(rs.last().start, rs.last().end)
    }
}

pub proof fn lemma_tiles_order(rs: Seq<grammar::Span>, start: int, end: int)
    requires
        tiles(rs, start, end),
    ensures
        start <= end,
    decreases rs.len(),
{
    if rs.len() > 0 {
        lemma_tiles_order(rs.drop_last(), start, rs.last().start);
    }
}

pub proof fn lemma_tiles_concat(
    a: Seq<grammar::Span>,
    b: Seq<grammar::Span>,
    start: int,
    mid: int,
    end: int,
)
    requires
        tiles(a, start, mid),
        tiles(b, mid, end),
    ensures
        tiles(a + b, start, end),
    decreases b.len(),
{
    if b.len() == 0 {
        assert(a + b =~= a);
    } else {
        lemma_tiles_concat(a, b.drop_last(), start, mid, b.last().start);
        assert((a + b).drop_last() =~= a + b.drop_last());
    }
}

proof fn lemma_leaf_range_tiles(r: grammar::Span)
    requires
        r.start <= r.end,
    ensures
        tiles(grammar::leaf_range(r), r.start, r.end),
{
    reveal_with_fuel(tiles, 2);
    if r.start < r.end {
        assert(seq![r].drop_last() =~= seq![]);
    }
}

pub proof fn lemma_gather_tiles(s: Seq<u8>, rs: Seq<grammar::Span>, start: int, end: int)
    requires
        0 <= start,
        end <= s.len(),
        tiles(rs, start, end),
    ensures
        gather(s, rs) == s.subrange(start, end),
    decreases rs.len(),
{
    if rs.len() > 0 {
        lemma_tiles_order(rs.drop_last(), start, rs.last().start);
        lemma_gather_tiles(s, rs.drop_last(), start, rs.last().start);
        assert(s.subrange(start, rs.last().start) + s.subrange(rs.last().start, end)
            =~= s.subrange(start, end));
    } else {
        assert(s.subrange(start, end) =~= seq![]);
    }
}

/// A whitespace run ends inside the input, not before it starts.
pub proof fn lemma_ws_end_bounds(s: Seq<u8>, i: int)
    requires
        0 <= i <= s.len(),
    ensures
        i <= grammar::ws_end(s, i) <= s.len(),
    decreases s.len() - i,
{
    if i < s.len() && grammar::is_ws(s[i]) {
        lemma_ws_end_bounds(s, i + 1);
    }
}

proof fn lemma_digits_end_bounds(s: Seq<u8>, i: int)
    requires
        0 <= i <= s.len(),
    ensures
        i <= grammar::digits_end(s, i) <= s.len(),
    decreases s.len() - i,
{
    if i < s.len() && grammar::is_digit(s[i]) {
        lemma_digits_end_bounds(s, i + 1);
    }
}

/// Where reading stopped, on success or failure, is a position of the input.
pub open spec fn scan_within<T>(scan: grammar::Scan<T>, from: int, len: nat) -> bool {
    match scan {
        grammar::Scan::Done { value: _, next } => from < next <= len,
        grammar::Scan::Fail { at, msg: _ } => 0 <= at <= len,
    }
}

proof fn lemma_hex_number_within(s: Seq<u8>, i: int, n: nat, acc: int)
    requires
        0 <= i <= s.len(),
    ensures
        scan_within(grammar::hex_number(s, i, n, acc), i - 1, s.len()),
    decreases n,
{
    if n > 0 && i < s.len() && grammar::hex_value(s[i]) is Some {
        lemma_hex_number_within(
            s,
            i + 1,
            (n - 1) as nat,
            acc * 16 + grammar::hex_value(s[i])->0,
        );
    }
}

proof fn lemma_continuation_within(s: Seq<u8>, i: int, n: nat, taken: Seq<u8>)
    requires
        0 <= i <= s.len(),
    ensures
        scan_within(grammar::continuation(s, i, n, taken), i - 1, s.len()),
    decreases n,
{
    if n > 0 && i < s.len() && 0x80 <= s[i] <= 0xBF {
        lemma_continuation_within(s, i + 1, (n - 1) as nat, taken.push(s[i]));
    }
}

pub(crate) proof fn lemma_string_item_within(s: Seq<u8>, i: int)
    requires
        0 <= i < s.len(),
    ensures
        scan_within(grammar::string_item(s, i), i, s.len()),
{
    let b = s[i];
    if b == 0x5c {
        if i + 1 < s.len() && s[i + 1] == 0x75 {
            lemma_hex_number_within(s, i + 2, 4, 0);
            match grammar::hex_number(s, i + 2, 4, 0) {
                grammar::Scan::Done { value: _, next: j } => {
                    if grammar::at(s, j, 0x5c) && grammar::at(s, j + 1, 0x75) {
                        lemma_hex_number_within(s, j + 2, 4, 0);
                    }
                },
                grammar::Scan::Fail { .. } => {},
            }
        }
    } else if b >= 0x80 {
        match grammar::continuation_count(b) {
            Some(n) => lemma_continuation_within(s, i + 1, n, seq![b]),
            None => {},
        }
    }
}

proof fn lemma_string_rest_within(s: Seq<u8>, i: int, text: Seq<char>)
    requires
        0 <= i <= s.len(),
    ensures
        scan_within(grammar::string_rest(s, i, text), i, s.len()),
    decreases s.len() - i,
{
    if i < s.len() && s[i] != 0x22 {
        lemma_string_item_within(s, i);
        match grammar::string_item(s, i) {
            grammar::Scan::Done { value, next } => {
                lemma_string_rest_within(s, next, text + value);
            },
            grammar::Scan::Fail { .. } => {},
        }
    }
}

proof fn lemma_number_within(s: Seq<u8>, i: int)
    requires
        0 <= i < s.len(),
    ensures
        scan_within(grammar::number(s, i), i, s.len()),
{
    let first = if grammar::at(s, i, 0x2d) {
        i + 1
    } else {
        i
    };
    if first < s.len() {
        lemma_digits_end_bounds(s, first + 1);
        match grammar::integer_end(s, first) {
            Some(e) => {
                let after = if grammar::at(s, e, 0x2e) {
                    lemma_digits_end_bounds(s, e + 1);
                    grammar::digits_end(s, e + 1)
                } else {
                    e
                };
                if grammar::at(s, after, 0x65) || grammar::at(s, after, 0x45) {
                    lemma_digits_end_bounds(s, after + 1);
                    if after + 1 < s.len() {
                        lemma_digits_end_bounds(s, after + 2);
                    }
                }
            },
            None => {},
        }
    }
}

proof fn lemma_trailing_end_bounds(s: Seq<u8>, i: int)
    requires
        0 <= i <= s.len(),
    ensures
        i <= grammar::ws_end(s, i) <= grammar::trailing_end(s, i) <= s.len(),
{
    lemma_ws_end_bounds(s, i);
    let w = grammar::ws_end(s, i);
    if grammar::at(s, w, 0x2c) {
        lemma_ws_end_bounds(s, w + 1);
    }
}

/// Where the bytes of a child start.
pub open spec fn child_start(c: grammar::Branch) -> int {
    match c {
        grammar::Branch::Member { key, .. } => key.start,
        grammar::Branch::Element { value, .. } => value.start,
    }
}

/// Where the bytes of a child end.
pub open spec fn child_end(c: grammar::Branch) -> int {
    match c {
        grammar::Branch::Member { trailing, .. } => trailing.end,
        grammar::Branch::Element { trailing, .. } => trailing.end,
    }
}

/// The children follow one another without gap from `start` to `end`.
pub open spec fn contiguous(cs: Seq<grammar::Branch>, start: int, end: int) -> bool {
    if cs.len() == 0 {
        start == end
    } else {
        &&& child_start(cs[0]) == start
        &&& child_end(cs.last()) == end
        &&& forall|i: int|
            0 < i < cs.len() ==> #[trigger] child_start(cs[i]) == child_end(cs[i - 1])
    }
}

/// The parts of a value lie one behind the other, at every level.
pub open spec fn well_laid(t: grammar::Tree) -> bool
    decreases t,
{
    &&& t.start <= t.end
    &&& grammar::is_container(t.kind) ==> {
        &&& t.start + 2 <= t.end
        &&& contiguous(t.children, t.start + 1, t.end - 1)
        &&& all_laid(t.kind, t.children)
    }
}

/// [`well_laid`], for the children of a container of the given kind.
pub open spec fn all_laid(kind: NodeKind, cs: Seq<grammar::Branch>) -> bool
    decreases cs,
{
    cs.len() > 0 ==> all_laid(kind, cs.drop_last()) && child_laid(kind, cs.last())
}

/// [`well_laid`], for one child of a container of the given kind.
pub open spec fn child_laid(kind: NodeKind, c: grammar::Branch) -> bool
    decreases c,
{
    match c {
        grammar::Branch::Member { key, text, between, value, trailing } => {
            &&& kind == NodeKind::Object
            &&& key.start <= key.end
            &&& between.start == key.end
            &&& between.start <= between.end
            &&& value.start == between.end
            &&& trailing.start == value.end
            &&& trailing.start <= trailing.end
            &&& alignment::is_blank(text, key) ==> value.end == key.start
            &&& well_laid(*value)
        },
        grammar::Branch::Element { value, trailing } => {
            &&& kind == NodeKind::Array
            &&& trailing.start == value.end
            &&& trailing.start <= trailing.end
            &&& well_laid(*value)
        },
    }
}

/// The parts of a document lie one behind the other over `len` bytes.
pub open spec fn document_laid(d: grammar::DocumentTree, len: int) -> bool {
    &&& d.leading.start == 0
    &&& d.leading.start <= d.leading.end
    &&& d.root.start == d.leading.end
    &&& well_laid(d.root)
    &&& d.trailing.start == d.root.end
    &&& d.trailing.start <= d.trailing.end
    &&& d.trailing.end == len
}

/// What is known of a value that was read at `i`.
pub(crate) open spec fn value_covered(
    scan: grammar::Scan<grammar::Tree>,
    i: int,
    len: nat,
    base: int,
) -> bool {
    &&& scan_within(scan, i, len)
    &&& scan matches grammar::Scan::Done { value, next } ==> {
        &&& value.start == i
        &&& value.end == next
        &&& tiles(grammar::tree_ranges(value), i, next)
        &&& well_laid(value)
        &&& len <= u64::MAX ==> grammar::delimited(value)
        &&& base + len <= u64::MAX ==> alignment::alignable(value, base)
    }
}

/// What is known of the children of a container whose first byte is before
/// `start`: they cover everything up to the closing byte.
spec fn children_covered(
    scan: grammar::Scan<Seq<grammar::Branch>>,
    kind: NodeKind,
    start: int,
    i: int,
    len: nat,
    base: int,
) -> bool {
    &&& scan_within(scan, i, len)
    &&& scan matches grammar::Scan::Done { value, next } ==> {
        &&& value.len() > 0
        &&& tiles(grammar::branches_ranges(value), start, next - 1)
        &&& contiguous(value, start, next - 1)
        &&& all_laid(kind, value)
        &&& len <= u64::MAX ==> grammar::all_delimited(value)
        &&& base + len <= u64::MAX ==> alignment::all_alignable(kind, value, base)
    }
}

proof fn lemma_container_tiles(t: grammar::Tree)
    requires
        grammar::is_container(t.kind),
        t.children.len() > 0,
        tiles(grammar::branches_ranges(t.children), t.start + 1, t.end - 1),
    ensures
        tiles(grammar::tree_ranges(t), t.start, t.end),
{
    let open = grammar::Span { start: t.start, end: t.start + 1 };
    let close = grammar::Span { start: t.end - 1, end: t.end };
    lemma_leaf_range_tiles(open);
    lemma_leaf_range_tiles(close);
    let body = grammar::branches_ranges(t.children);
    lemma_tiles_concat(seq![open], body, t.start, t.start + 1, t.end - 1);
    lemma_tiles_concat(seq![open] + body, seq![close], t.start, t.end - 1, t.end);
}

proof fn lemma_push_branch_tiles(
    done: Seq<grammar::Branch>,
    c: grammar::Branch,
    start: int,
    mid: int,
    end: int,
)
    requires
        tiles(grammar::branches_ranges(done), start, mid),
        tiles(grammar::branch_ranges(c), mid, end),
    ensures
        tiles(grammar::branches_ranges(done.push(c)), start, end),
{
    assert(done.push(c).drop_last() =~= done);
    lemma_tiles_concat(
        grammar::branches_ranges(done),
        grammar::branch_ranges(c),
        start,
        mid,
        end,
    );
}

/// A sentinel child covers the whitespace that it stands for.
proof fn lemma_blank_tiles(start: int, end: int)
    requires
        start <= end,
    ensures
        tiles(grammar::branches_ranges(seq![grammar::blank_member(start, end)]), start, end),
        tiles(grammar::branches_ranges(seq![grammar::blank_element(start, end)]), start, end),
        grammar::all_delimited(seq![grammar::blank_member(start, end)]),
        grammar::all_delimited(seq![grammar::blank_element(start, end)]),
        contiguous(seq![grammar::blank_member(start, end)], start, end),
        contiguous(seq![grammar::blank_element(start, end)], start, end),
        all_laid(NodeKind::Object, seq![grammar::blank_member(start, end)]),
        all_laid(NodeKind::Array, seq![grammar::blank_element(start, end)]),
{
    let w = grammar::Span { start, end };
    lemma_leaf_range_tiles(w);
    let none = Seq::<grammar::Branch>::empty();
    let m = grammar::blank_member(start, end);
    let e = grammar::blank_element(start, end);
    assert(grammar::branch_ranges(m) =~= grammar::leaf_range(w));
    assert(grammar::branch_ranges(e) =~= grammar::leaf_range(w));
    assert(none.push(m) =~= seq![m]);
    assert(none.push(e) =~= seq![e]);
    lemma_push_branch_tiles(none, m, start, start, end);
    lemma_push_branch_tiles(none, e, start, start, end);
    assert(seq![m].drop_last() =~= none);
    assert(seq![e].drop_last() =~= none);
    reveal_with_fuel(grammar::all_delimited, 2);
    reveal_with_fuel(all_laid, 2);
    assert(child_laid(NodeKind::Object, m));
    assert(child_laid(NodeKind::Array, e));
}

proof fn lemma_blank_alignable(start: int, end: int, base: int)
    requires
        0 <= start <= end,
        0 <= base,
        base + end <= u64::MAX,
    ensures
        alignment::all_alignable(
            NodeKind::Object,
            seq![grammar::blank_member(start, end)],
            base,
        ),
        alignment::all_alignable(
            NodeKind::Array,
            seq![grammar::blank_element(start, end)],
            base,
        ),
{
    let m = grammar::blank_member(start, end);
    let e = grammar::blank_element(start, end);
    assert(seq![m].drop_last() =~= seq![]);
    assert(seq![e].drop_last() =~= seq![]);
    reveal_with_fuel(alignment::all_alignable, 2);
    assert(alignment::child_alignable(NodeKind::Object, m, base));
    assert(alignment::child_alignable(NodeKind::Array, e, base));
}

proof fn lemma_contiguous_push(cs: Seq<grammar::Branch>, c: grammar::Branch, start: int)
    requires
        contiguous(cs, start, child_start(c)),
    ensures
        contiguous(cs.push(c), start, child_end(c)),
{
    let more = cs.push(c);
    assert forall|i: int| 0 < i < more.len() implies #[trigger] child_start(more[i])
        == child_end(more[i - 1]) by {
        if i < cs.len() {
            assert(child_start(cs[i]) == child_end(cs[i - 1]));
        }
    }
}

pub(crate) proof fn lemma_value_covered(s: Seq<u8>, i: int, base: int)
    requires
        0 <= i <= s.len(),
        0 <= base,
    ensures
        value_covered(grammar::value(s, i), i, s.len(), base),
    decreases s.len() - i, 2nat,
{
    if i < s.len() {
        reveal_with_fuel(tiles, 2);
        if s[i] == 0x7b {
            let w = grammar::ws_end(s, i + 1);
            lemma_ws_end_bounds(s, i + 1);
            if grammar::at(s, w, 0x7d) {
                lemma_blank_tiles(i + 1, w);
                if base + s.len() <= u64::MAX {
                    lemma_blank_alignable(i + 1, w, base);
                }
                if w > i + 1 {
                    lemma_container_tiles(grammar::value(s, i)->value);
                } else {
                    assert(seq![grammar::Span { start: i, end: w + 1 }].drop_last() =~= seq![]);
                }
            } else {
                lemma_members_covered(s, w, i + 1, i + 1, seq![], base);
                match grammar::members(s, w, i + 1, seq![]) {
                    grammar::Scan::Done { .. } => lemma_container_tiles(
                        grammar::value(s, i)->value,
                    ),
                    grammar::Scan::Fail { .. } => {},
                }
            }
        } else if s[i] == 0x5b {
            let w = grammar::ws_end(s, i + 1);
            lemma_ws_end_bounds(s, i + 1);
            let blank = if w > i + 1 {
                seq![grammar::blank_element(i + 1, w)]
            } else {
                seq![]
            };
            lemma_blank_tiles(i + 1, w);
            if base + s.len() <= u64::MAX {
                lemma_blank_alignable(i + 1, w, base);
            }
            if grammar::at(s, w, 0x5d) {
                if w > i + 1 {
                    lemma_container_tiles(grammar::value(s, i)->value);
                } else {
                    assert(seq![grammar::Span { start: i, end: w + 1 }].drop_last() =~= seq![]);
                }
            } else {
                lemma_elements_covered(s, w, i + 1, blank, base);
                match grammar::elements(s, w, blank) {
                    grammar::Scan::Done { .. } => lemma_container_tiles(
                        grammar::value(s, i)->value,
                    ),
                    grammar::Scan::Fail { .. } => {},
                }
            }
        } else {
            lemma_string_rest_within(s, i + 1, seq![]);
            lemma_number_within(s, i);
            match grammar::value(s, i) {
                grammar::Scan::Done { value, next } => {
                    assert(seq![grammar::Span { start: i, end: next }].drop_last() =~= seq![]);
                },
                grammar::Scan::Fail { .. } => {},
            }
        }
    }
}

proof fn lemma_members_covered(
    s: Seq<u8>,
    i: int,
    start: int,
    lead: int,
    done: Seq<grammar::Branch>,
    base: int,
)
    requires
        0 <= base,
        base + s.len() <= u64::MAX ==> alignment::all_alignable(NodeKind::Object, done, base),
        contiguous(done, start, lead),
        all_laid(NodeKind::Object, done),
        0 <= start <= lead <= i <= s.len(),
        tiles(grammar::branches_ranges(done), start, lead),
        s.len() <= u64::MAX ==> grammar::all_delimited(done),
    ensures
        children_covered(
            grammar::members(s, i, lead, done),
            NodeKind::Object,
            start,
            i,
            s.len(),
            base,
        ),
    decreases s.len() - i, 1nat,
{
    if grammar::at(s, i, 0x22) {
        lemma_string_rest_within(s, i + 1, seq![]);
        match grammar::string_rest(s, i + 1, seq![]) {
            grammar::Scan::Done { value: text, next: key_end } => {
                let colon = grammar::ws_end(s, key_end);
                lemma_ws_end_bounds(s, key_end);
                if grammar::at(s, colon, 0x3a) {
                    let v = grammar::ws_end(s, colon + 1);
                    lemma_ws_end_bounds(s, colon + 1);
                    lemma_value_covered(s, v, base);
                    match grammar::value(s, v) {
                        grammar::Scan::Done { value, next } => {
                            let t = grammar::trailing_end(s, next);
                            lemma_trailing_end_bounds(s, next);
                            let key = grammar::Span { start: lead, end: key_end };
                            let between = grammar::Span { start: key_end, end: v };
                            let trailing = grammar::Span { start: next, end: t };
                            let c = grammar::Branch::Member {
                                key,
                                text,
                                between,
                                value: Box::new(value),
                                trailing,
                            };
                            lemma_leaf_range_tiles(key);
                            lemma_leaf_range_tiles(between);
                            lemma_leaf_range_tiles(trailing);
                            let a = grammar::leaf_range(key) + grammar::leaf_range(between);
                            lemma_tiles_concat(
                                grammar::leaf_range(key),
                                grammar::leaf_range(between),
                                lead,
                                key_end,
                                v,
                            );
                            let b = a + grammar::tree_ranges(value);
                            lemma_tiles_concat(a, grammar::tree_ranges(value), lead, v, next);
                            lemma_tiles_concat(b, grammar::leaf_range(trailing), lead, next, t);
                            lemma_push_branch_tiles(done, c, start, lead, t);
                            let more = done.push(c);
                            assert(more.drop_last() =~= done);
                            assert(child_laid(NodeKind::Object, c));
                            lemma_contiguous_push(done, c, start);
                            assert(base + s.len() <= u64::MAX ==> alignment::child_alignable(
                                NodeKind::Object,
                                c,
                                base,
                            ));
                            if grammar::at(s, grammar::ws_end(s, next), 0x2c) {
                                lemma_members_covered(s, t, start, t, more, base);
                            }
                        },
                        grammar::Scan::Fail { .. } => {},
                    }
                }
            },
            grammar::Scan::Fail { .. } => {},
        }
    }
}

proof fn lemma_elements_covered(
    s: Seq<u8>,
    i: int,
    start: int,
    done: Seq<grammar::Branch>,
    base: int,
)
    requires
        0 <= base,
        base + s.len() <= u64::MAX ==> alignment::all_alignable(NodeKind::Array, done, base),
        contiguous(done, start, i),
        all_laid(NodeKind::Array, done),
        0 <= start <= i <= s.len(),
        tiles(grammar::branches_ranges(done), start, i),
        s.len() <= u64::MAX ==> grammar::all_delimited(done),
    ensures
        children_covered(
            grammar::elements(s, i, done),
            NodeKind::Array,
            start,
            i,
            s.len(),
            base,
        ),
    decreases s.len() - i, 3nat,
{
    lemma_value_covered(s, i, base);
    match grammar::value(s, i) {
        grammar::Scan::Done { value, next } => {
            let t = grammar::trailing_end(s, next);
            lemma_trailing_end_bounds(s, next);
            let trailing = grammar::Span { start: next, end: t };
            let c = grammar::Branch::Element { value: Box::new(value), trailing };
            lemma_leaf_range_tiles(trailing);
            lemma_tiles_concat(
                grammar::tree_ranges(value),
                grammar::leaf_range(trailing),
                i,
                next,
                t,
            );
            lemma_push_branch_tiles(done, c, start, i, t);
            let more = done.push(c);
            assert(more.drop_last() =~= done);
            assert(child_laid(NodeKind::Array, c));
            lemma_contiguous_push(done, c, start);
            assert(base + s.len() <= u64::MAX ==> alignment::child_alignable(
                NodeKind::Array,
                c,
                base,
            ));
            if grammar::at(s, grammar::ws_end(s, next), 0x2c) {
                lemma_elements_covered(s, t, start, more, base);
            }
        },
        grammar::Scan::Fail { .. } => {},
    }
}

/// The tree of a document covers every byte of the input exactly once: its
/// leaf ranges follow one another from the first byte to the last, and the
/// bytes they select, one after the other, are the input.
pub proof fn document_covers_input(s: Seq<u8>)
    ensures
        grammar::document(s) matches grammar::Scan::Done { value, next } ==> {
            &&& tiles(grammar::document_ranges(value), 0, s.len() as int)
            &&& gather(s, grammar::document_ranges(value)) == s
            &&& s.len() <= u64::MAX ==> grammar::delimited(value.root)
            &&& document_laid(value, s.len() as int)
        },
{
    let start = grammar::ws_end(s, 0);
    lemma_ws_end_bounds(s, 0);
    lemma_value_covered(s, start, 0);
    match grammar::value(s, start) {
        grammar::Scan::Done { value, next } => {
            lemma_ws_end_bounds(s, next);
            let leading = grammar::Span { start: 0, end: start };
            let trailing = grammar::Span { start: next, end: grammar::ws_end(s, next) };
            lemma_leaf_range_tiles(leading);
            lemma_leaf_range_tiles(trailing);
            let a = grammar::leaf_range(leading);
            let b = grammar::tree_ranges(value);
            let c = grammar::leaf_range(trailing);
            lemma_tiles_concat(a, b, 0, start, next);
            lemma_tiles_concat(a + b, c, 0, next, trailing.end);
            if trailing.end == s.len() {
                lemma_gather_tiles(s, a + b + c, 0, s.len() as int);
                assert(s.subrange(0, s.len() as int) =~= s);
            }
        },
        grammar::Scan::Fail { .. } => {},
    }
}

/// A parsed document can be aligned at any place at which it fits into a file.
pub proof fn document_is_alignable(s: Seq<u8>, base: int)
    requires
        0 <= base,
        base + s.len() <= u64::MAX,
    ensures
        grammar::document(s) matches grammar::Scan::Done { value, next }
            ==> alignment::document_alignable(value, base),
{
    let start = grammar::ws_end(s, 0);
    lemma_ws_end_bounds(s, 0);
    lemma_value_covered(s, start, base);
    match grammar::value(s, start) {
        grammar::Scan::Done { value, next } => lemma_ws_end_bounds(s, next),
        grammar::Scan::Fail { .. } => {},
    }
}

/// An error names a position of the input, its end included.
pub proof fn error_is_inside_input(s: Seq<u8>)
    ensures
        grammar::document(s) matches grammar::Scan::Fail { at, msg } ==> 0 <= at <= s.len(),
{
    let start = grammar::ws_end(s, 0);
    lemma_ws_end_bounds(s, 0);
    lemma_value_covered(s, start, 0);
    match grammar::value(s, start) {
        grammar::Scan::Done { value, next } => lemma_ws_end_bounds(s, next),
        grammar::Scan::Fail { .. } => {},
    }
}

} // verus!
