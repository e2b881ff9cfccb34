//! Tensor-name parsing and architectural grouping.
//!
//! Detects transformer-style layouts (`{prefix}.layers.{N}.{sub_path}`) and
//! falls back to a generic name-tree grouping for everything else.

use vstd::prelude::*;
use vstd::string::StringExecFns;
use crate::hf_url;
use crate::text;
use crate::text::{chars_of, rfind_char, starts_with, str_eq, text_of};

verus! {

/// The texts that the first two groups of a regular expression capture in a
/// text, `None` where it does not match, lacks a group or is no expression.
pub uninterp spec fn regex_groups(pattern: Seq<char>, t: Seq<char>) -> Option<
    (Seq<char>, Seq<char>),
>;

/// The texts of an optional pair.
pub open spec fn pair_text(p: Option<(String, String)>) -> Option<(Seq<char>, Seq<char>)> {
    match p {
        Some((a, b)) => Some((a@, b@)),
        None => None,
    }
}

/// The expression for repeated transformer blocks. It captures the layer index
/// and the path inside the block, in the conventional naming of llama-family,
/// gpt-family, bert-family and t5-family checkpoints.
pub open spec fn block_pattern() -> Seq<char> {
    "^(?:model\\.|transformer\\.|backbone\\.|module\\.)?(?:layers|h|blocks|encoder\\.layer|decoder\\.layer)\\.(\\d+)\\.(.+)$"@
}

/// What may stand before the word for a block.
pub open spec fn lead(i: int) -> Seq<char> {
    if i == 0 {
        ""@
    } else if i == 1 {
        "model."@
    } else if i == 2 {
        "transformer."@
    } else if i == 3 {
        "backbone."@
    } else {
        "module."@
    }
}

/// The words for a block.
pub open spec fn block_word(j: int) -> Seq<char> {
    if j == 0 {
        "layers"@
    } else if j == 1 {
        "h"@
    } else if j == 2 {
        "blocks"@
    } else if j == 3 {
        "encoder.layer"@
    } else {
        "decoder.layer"@
    }
}

/// A name is one of the leads, one of the words, the digits and the path, with
/// dots between; the path has no line break.
pub open spec fn is_block_name(
    name: Seq<char>,
    i: int,
    j: int,
    digits: Seq<char>,
    sub: Seq<char>,
) -> bool {
    &&& 0 <= i < 5
    &&& 0 <= j < 5
    &&& is_numeral(digits)
    &&& sub.len() > 0
    &&& !sub.contains('\n')
    &&& name == lead(i) + block_word(j) + "."@ + digits + "."@ + sub
}

/// A name names a tensor of a block: the digits and the path inside the block.
pub open spec fn names_block(name: Seq<char>, digits: Seq<char>, sub: Seq<char>) -> bool {
    exists|i: int, j: int| #[trigger] is_block_name(name, i, j, digits, sub)
}

/// `regex::Regex::new` and `regex::Regex::captures`: what the first two groups
/// of the expression capture at its leftmost match. The result depends on the
/// expression and the text alone. Of the block expression the contract also
/// says what it captures in a text that is all ASCII: the digits and the path
/// of a block's tensor, and nothing in any other text.
#[verifier::external_body]
fn captured_groups(pattern: &str, t: &str) -> (r: Option<(String, String)>)
    ensures
        pair_text(r) == regex_groups(pattern@, t@),
        pattern@ == block_pattern() && text::is_ascii(t@) ==> match r {
            Some((digits, sub)) => names_block(t@, digits@, sub@),
            None => forall|digits: Seq<char>, sub: Seq<char>| !#[trigger]
                names_block(t@, digits, sub),
        },
{
    let re = regex::Regex::new(pattern).ok()?;
    let caps = re.captures(t)?;
    Some((caps.get(1)?.as_str().to_owned(), caps.get(2)?.as_str().to_owned()))
}

/// The expression for repeated transformer blocks. Lets other modules (e.g. the
/// architectural layout) project tensor names into (layer_idx, sub_path) using
/// the same canonical pattern.
pub fn block_regex_for_arch() -> (s: &'static str)
    ensures
        s@ == block_pattern(),
{
    "^(?:model\\.|transformer\\.|backbone\\.|module\\.)?(?:layers|h|blocks|encoder\\.layer|decoder\\.layer)\\.(\\d+)\\.(.+)$"
}

/// The layer index and the path inside the block that a tensor name holds, as
/// texts. What else than ASCII the expression takes for digits is left to it.
pub open spec fn block_parts(name: Seq<char>) -> Option<(Seq<char>, Seq<char>)> {
    if !text::is_ascii(name) {
        regex_groups(block_pattern(), name)
    } else if exists|p: (Seq<char>, Seq<char>)| #[trigger] names_block(name, p.0, p.1) {
        Some(choose|p: (Seq<char>, Seq<char>)| #[trigger] names_block(name, p.0, p.1))
    } else {
        None
    }
}

/// Two leads and words that begin one name are the same.
proof fn lemma_head(name: Seq<char>, i: int, j: int, k: int, l: int)
    requires
        0 <= i < 5,
        0 <= j < 5,
        0 <= k < 5,
        0 <= l < 5,
        text::begins(name, lead(i) + block_word(j) + "."@),
        text::begins(name, lead(k) + block_word(l) + "."@),
    ensures
        i == k,
        j == l,
{
    reveal_strlit("");
    reveal_strlit("model.");
    reveal_strlit("transformer.");
    reveal_strlit("backbone.");
    reveal_strlit("module.");
    reveal_strlit("layers");
    reveal_strlit("h");
    reveal_strlit("blocks");
    reveal_strlit("encoder.layer");
    reveal_strlit("decoder.layer");
    reveal_strlit(".");
    let a = lead(i) + block_word(j) + "."@;
    let b = lead(k) + block_word(l) + "."@;
    assert(name[0] == a[0] && name[0] == b[0]);
    assert(name[1] == a[1] && name[1] == b[1]);
    if i > 0 {
        assert(a[0] == lead(i)[0] && a[1] == lead(i)[1] && a[3] == lead(i)[3]);
        assert(name[3] == a[3]);
    } else {
        assert(a[0] == block_word(j)[0]);
        assert(a[1] == if block_word(j).len() > 1 {
            block_word(j)[1]
        } else {
            '.'
        });
    }
    if k > 0 {
        assert(b[0] == lead(k)[0] && b[1] == lead(k)[1] && b[3] == lead(k)[3]);
        assert(name[3] == b[3]);
    } else {
        assert(b[0] == block_word(l)[0]);
        assert(b[1] == if block_word(l).len() > 1 {
            block_word(l)[1]
        } else {
            '.'
        });
    }
    assert(i == k);
    let n = lead(i).len() as int;
    assert(a[n] == block_word(j)[0] && b[n] == block_word(l)[0]);
    assert(name[n] == a[n] && name[n] == b[n]);
}

/// A name is parted into digits and path in at most one way.
proof fn lemma_parted_once(
    name: Seq<char>,
    d: Seq<char>,
    s: Seq<char>,
    e: Seq<char>,
    t: Seq<char>,
)
    requires
        names_block(name, d, s),
        names_block(name, e, t),
    ensures
        d == e,
        s == t,
{
    let (i, j) = choose|i: int, j: int| #[trigger] is_block_name(name, i, j, d, s);
    let (k, l) = choose|k: int, l: int| #[trigger] is_block_name(name, k, l, e, t);
    reveal_strlit(".");
    let a = lead(i) + block_word(j) + "."@;
    let b = lead(k) + block_word(l) + "."@;
    let n = a.len() as int;
    assert(name.take(n) =~= a);
    assert(name.take(b.len() as int) =~= b);
    lemma_head(name, i, j, k, l);
    let m = d.len() as int;
    let o = e.len() as int;
    assert(forall|x: int| 0 <= x < m ==> name[n + x] == d[x]);
    assert(forall|x: int| 0 <= x < o ==> name[n + x] == e[x]);
    assert(name[n + m] == '.' && name[n + o] == '.');
    if m < o {
        assert('0' <= e[m] <= '9');
    }
    if o < m {
        assert('0' <= d[o] <= '9');
    }
    assert(d =~= e) by {
        assert forall|x: int| 0 <= x < m implies d[x] == e[x] by {
            assert(name[n + x] == d[x]);
        }
    }
    assert(s =~= name.skip(n + m + 1));
    assert(t =~= name.skip(n + m + 1));
}

/// The name of a block's tensor is parted into its layer digits and its path
/// inside the block.
pub proof fn block_names_are_parted(
    name: Seq<char>,
    i: int,
    j: int,
    digits: Seq<char>,
    sub: Seq<char>,
)
    requires
        text::is_ascii(name),
        is_block_name(name, i, j, digits, sub),
    ensures
        block_parts(name) == Some((digits, sub)),
{
    let p = (digits, sub);
    assert(names_block(name, p.0, p.1));
    let q = choose|q: (Seq<char>, Seq<char>)| #[trigger] names_block(name, q.0, q.1);
    lemma_parted_once(name, p.0, p.1, q.0, q.1);
}

/// The layer index and the path inside the block that a tensor name holds, as
/// texts.
pub fn block_captures(name: &str) -> (r: Option<(String, String)>)
    ensures
        pair_text(r) == block_parts(name@),
{
    let r = captured_groups(block_regex_for_arch(), name);
    proof {
        if text::is_ascii(name@) {
            match pair_text(r) {
                Some((digits, sub)) => {
                    let (i, j) = choose|i: int, j: int| #[trigger]
                        is_block_name(name@, i, j, digits, sub);
                    block_names_are_parted(name@, i, j, digits, sub);
                },
                None => {
                    assert forall|p: (Seq<char>, Seq<char>)| !#[trigger]
                        names_block(name@, p.0, p.1) by {}
                },
            }
        }
    }
    r
}

/// Where a tensor lives in the model's structural hierarchy.
#[derive(Debug, PartialEq, Eq, Hash)]
pub enum LayerSlot {
    /// Top-level singleton (embed_tokens, lm_head, final norm, …). Identified
    /// by its full tensor name suffix, after stripping any common architecture
    /// prefix shared across the whole checkpoint.
    TopLevel { name: String },
    /// One of the repeated transformer blocks. `idx` is the layer index;
    /// `sub_path` is the dot-separated path inside the block
    /// (e.g. `self_attn.q_proj.weight`).
    Block { idx: u32, sub_path: String },
    /// Generic group (non-transformer architectures). `group` is a dot-path
    /// prefix; `leaf` is the remaining tail.
    Generic { group: String, leaf: String },
}

/// Where a tensor lives.
pub ghost enum Place {
    TopLevel { name: Seq<char> },
    Block { idx: u32, sub_path: Seq<char> },
    Generic { group: Seq<char>, leaf: Seq<char> },
}

impl View for LayerSlot {
    type V = Place;

    open spec fn view(&self) -> Place {
        match self {
            LayerSlot::TopLevel { name } => Place::TopLevel { name: name@ },
            LayerSlot::Block { idx, sub_path } => Place::Block { idx: *idx, sub_path: sub_path@ },
            LayerSlot::Generic { group, leaf } => Place::Generic { group: group@, leaf: leaf@ },
        }
    }
}

/// Where the tensors live.
pub open spec fn places(v: Seq<LayerSlot>) -> Seq<Place> {
    v.map_values(|s: LayerSlot| s@)
}

/// Result of classifying every tensor in a checkpoint.
#[derive(Debug)]
pub struct ArchProfile {
    /// The expression for block tensors when the checkpoint was identified as
    /// transformer-style; non-matching tensors were classified as `TopLevel`.
    pub block_regex: Option<&'static str>,
    /// Common architecture prefix stripped from each tensor name (e.g. `model.`).
    /// Empty when no common prefix is found.
    pub prefix: String,
    /// Number of distinct layer indices observed; 0 unless transformer-style.
    pub num_layers: u64,
    /// Per-tensor classification, parallel to the input name list.
    pub slots: Vec<LayerSlot>,
}

/// What a checkpoint is classified as.
pub ghost struct Profile {
    pub block_regex: Option<Seq<char>>,
    pub prefix: Seq<char>,
    pub num_layers: int,
    pub slots: Seq<Place>,
}

impl View for ArchProfile {
    type V = Profile;

    open spec fn view(&self) -> Profile {
        Profile {
            block_regex: match self.block_regex {
                Some(t) => Some(t@),
                None => None,
            },
            prefix: self.prefix@,
            num_layers: self.num_layers as int,
            slots: places(self.slots@),
        }
    }
}

/// The texts of a list of names.
pub open spec fn name_texts(names: Seq<&str>) -> Seq<Seq<char>> {
    names.map_values(|s: &str| s@)
}

/// How many of the names begin with a prefix.
pub open spec fn with_prefix(names: Seq<Seq<char>>, p: Seq<char>) -> nat
    decreases names.len(),
{
    if names.len() == 0 {
        0
    } else {
        with_prefix(names.drop_last(), p) + if text::begins(names.last(), p) {
            1nat
        } else {
            0
        }
    }
}

/// At least four of five names begin with the prefix.
pub open spec fn is_common(names: Seq<Seq<char>>, p: Seq<char>) -> bool {
    with_prefix(names, p) * 5 >= names.len() * 4
}

/// The first of the known prefixes that most of the names share.
pub open spec fn common_prefix(names: Seq<Seq<char>>) -> Seq<char> {
    if names.len() == 0 {
        seq![]
    } else if is_common(names, "model."@) {
        "model."@
    } else if is_common(names, "transformer."@) {
        "transformer."@
    } else if is_common(names, "backbone."@) {
        "backbone."@
    } else if is_common(names, "module."@) {
        "module."@
    } else {
        seq![]
    }
}

fn count_with_prefix(names: &[&str], p: &str) -> (n: usize)
    ensures
        n == with_prefix(name_texts(names@), p@),
{
    let ghost ns = name_texts(names@);
    let mut n: usize = 0;
    let mut i: usize = 0;
    assert(ns.take(0) =~= seq![]);
    while i < names.len()
        invariant
            i <= names@.len(),
            n <= i,
            ns == name_texts(names@),
            n == with_prefix(ns.take(i as int), p@),
        decreases names@.len() - i,
    {
        assert(ns.take(i + 1).drop_last() =~= ns.take(i as int));
        assert(ns.take(i + 1).last() == names@[i as int]@);
        assert(i < names.len());
        if starts_with(names[i], p) {
            n = n + 1;
        }
        i = i + 1;
    }
    assert(ns.take(i as int) =~= ns);
    n
}

fn most_share(names: &[&str], p: &str) -> (r: bool)
    ensures
        r == is_common(name_texts(names@), p@),
{
    let n: usize = count_with_prefix(names, p);
    n as u128 * 5 >= names.len() as u128 * 4
}

/// Try to identify a common architecture prefix. Looks at every tensor name
/// in `names`; if a prefix like `model.` or `transformer.` is shared by
/// substantially all (>= 80%) of them, returns that prefix (with trailing dot).
/// Otherwise returns empty string.
pub fn detect_common_prefix(names: &[&str]) -> (s: String)
    ensures
        s@ == common_prefix(name_texts(names@)),
{
    if names.len() == 0 {
        String::new()
    } else if most_share(names, "model.") {
        "model.".to_owned()
    } else if most_share(names, "transformer.") {
        "transformer.".to_owned()
    } else if most_share(names, "backbone.") {
        "backbone.".to_owned()
    } else if most_share(names, "module.") {
        "module.".to_owned()
    } else {
        String::new()
    }
}

/// A name without the prefix, where it begins with it.
pub open spec fn unprefixed(name: Seq<char>, prefix: Seq<char>) -> Seq<char> {
    if text::begins(name, prefix) {
        name.skip(prefix.len() as int)
    } else {
        name
    }
}

fn without_prefix(name: &str, prefix: &str) -> (s: String)
    ensures
        s@ == unprefixed(name@, prefix@),
{
    if starts_with(name, prefix) {
        let v = chars_of(name);
        let p = chars_of(prefix);
        assert(v@.subrange(p@.len() as int, v@.len() as int) =~= v@.skip(p@.len() as int));
        text_of(&v, p.len(), v.len())
    } else {
        name.to_owned()
    }
}

/// The number that decimal digits denote.
pub open spec fn digits_value(s: Seq<char>) -> int
    decreases s.len(),
{
    if s.len() == 0 {
        0
    } else {
        digits_value(s.drop_last()) * 10 + (s.last() as int - '0' as int)
    }
}

/// The text is a non-empty run of decimal digits.
pub open spec fn is_numeral(s: Seq<char>) -> bool {
    s.len() > 0 && forall|i: int| 0 <= i < s.len() ==> '0' <= #[trigger] s[i] <= '9'
}

/// The layer index that a numeral denotes; 0 where it denotes none of 32 bits.
pub open spec fn layer_index(s: Seq<char>) -> u32 {
    if is_numeral(s) && digits_value(s) <= u32::MAX {
        digits_value(s) as u32
    } else {
        0
    }
}

proof fn lemma_digits_grow(s: Seq<char>, n: int)
    requires
        is_numeral(s),
        0 <= n <= s.len(),
    ensures
        0 <= digits_value(s.take(n)) <= digits_value(s),
    decreases s.len() - n, n,
{
    if n < s.len() {
        lemma_digits_grow(s, n + 1);
        assert(s.take(n + 1).drop_last() =~= s.take(n));
        assert('0' <= s[n] <= '9');
        lemma_digits_nonneg(s.take(n));
    } else {
        assert(s.take(n) =~= s);
        lemma_digits_nonneg(s);
    }
}

proof fn lemma_digits_nonneg(s: Seq<char>)
    requires
        forall|i: int| 0 <= i < s.len() ==> '0' <= #[trigger] s[i] <= '9',
    ensures
        digits_value(s) >= 0,
    decreases s.len(),
{
    if s.len() > 0 {
        assert('0' <= s[s.len() - 1] <= '9');
        assert forall|i: int| 0 <= i < s.len() - 1 implies '0' <= #[trigger] s.drop_last()[i]
            <= '9' by {
            assert(s.drop_last()[i] == s[i]);
        }
        lemma_digits_nonneg(s.drop_last());
    }
}

/// The layer index that a numeral denotes; 0 where it denotes none of 32 bits.
pub fn parse_layer_index(s: &str) -> (n: u32)
    ensures
        n == layer_index(s@),
{
    let v = chars_of(s);
    if v.len() == 0 {
        return 0;
    }
    let mut i: usize = 0;
    while i < v.len()
        invariant
            i <= v@.len(),
            v@ == s@,
            forall|k: int| 0 <= k < i ==> '0' <= #[trigger] v@[k] <= '9',
        decreases v@.len() - i,
    {
        if v[i] < '0' || v[i] > '9' {
            return 0;
        }
        i = i + 1;
    }
    let mut n: u64 = 0;
    let mut j: usize = 0;
    assert(v@.take(0) =~= seq![]);
    while j < v.len()
        invariant
            j <= v@.len(),
            v@ == s@,
            is_numeral(v@),
            n <= u32::MAX,
            n == digits_value(v@.take(j as int)),
        decreases v@.len() - j,
    {
        assert('0' <= v@[j as int] <= '9');
        assert(v@.take(j + 1).drop_last() =~= v@.take(j as int));
        n = n * 10 + (v[j] as u64 - '0' as u64);
        j = j + 1;
        if n > u32::MAX as u64 {
            proof {
                lemma_digits_grow(v@, j as int);
            }
            return 0;
        }
    }
    assert(v@.take(j as int) =~= v@);
    n as u32
}

/// Where a tensor lives if the checkpoint is transformer-style.
pub open spec fn block_place(
    name: Seq<char>,
    parts: Option<(Seq<char>, Seq<char>)>,
    prefix: Seq<char>,
) -> Place {
    match parts {
        Some((digits, sub)) => Place::Block { idx: layer_index(digits), sub_path: sub },
        None => Place::TopLevel { name: unprefixed(name, prefix) },
    }
}

/// How many names hold a block.
pub open spec fn block_count(parts: Seq<Option<(Seq<char>, Seq<char>)>>) -> nat
    decreases parts.len(),
{
    if parts.len() == 0 {
        0
    } else {
        block_count(parts.drop_last()) + if parts.last() is Some {
            1nat
        } else {
            0
        }
    }
}

/// The layer indices that the names hold, each once.
pub open spec fn layer_indices(parts: Seq<Option<(Seq<char>, Seq<char>)>>) -> Seq<u32>
    decreases parts.len(),
{
    if parts.len() == 0 {
        seq![]
    } else {
        let before = layer_indices(parts.drop_last());
        match parts.last() {
            Some((digits, _)) => if before.contains(layer_index(digits)) {
                before
            } else {
                before.push(layer_index(digits))
            },
            None => before,
        }
    }
}

/// At least one of five names holds a block, and two distinct layer indices
/// occur.
pub open spec fn looks_like_transformer(parts: Seq<Option<(Seq<char>, Seq<char>)>>) -> bool {
    block_count(parts) * 5 >= parts.len() && layer_indices(parts).len() >= 2
}

/// A name parted at its last dot.
pub open spec fn group_and_leaf(name: Seq<char>) -> (Seq<char>, Seq<char>) {
    let i = text::rfind_before(name, '.', name.len() as int);
    if i >= 0 {
        (name.take(i), name.skip(i + 1))
    } else {
        (seq![], name)
    }
}

/// How many names have a group.
pub open spec fn group_size(names: Seq<Seq<char>>, prefix: Seq<char>, g: Seq<char>) -> nat
    decreases names.len(),
{
    if names.len() == 0 {
        0
    } else {
        group_size(names.drop_last(), prefix, g) + if group_and_leaf(
            unprefixed(names.last(), prefix),
        ).0 == g {
            1nat
        } else {
            0
        }
    }
}

/// Where a tensor lives by its name alone: in its group, unless it is the only
/// one there.
pub open spec fn generic_place(names: Seq<Seq<char>>, prefix: Seq<char>, name: Seq<char>) -> Place {
    let (g, l) = group_and_leaf(unprefixed(name, prefix));
    if g.len() == 0 {
        Place::TopLevel { name: l }
    } else if group_size(names, prefix, g) <= 1 {
        Place::TopLevel { name: g + "."@ + l }
    } else {
        Place::Generic { group: g, leaf: l }
    }
}

/// What a checkpoint is classified as, given what the block expression captures
/// in each name.
pub open spec fn profile(
    names: Seq<Seq<char>>,
    parts: Seq<Option<(Seq<char>, Seq<char>)>>,
) -> Profile {
    let prefix = common_prefix(names);
    if looks_like_transformer(parts) {
        Profile {
            block_regex: Some(block_pattern()),
            prefix,
            num_layers: layer_indices(parts).len() as int,
            slots: Seq::new(
                names.len(),
                |i: int| block_place(names[i], parts[i], prefix),
            ),
        }
    } else {
        Profile {
            block_regex: None,
            prefix,
            num_layers: 0,
            slots: Seq::new(names.len(), |i: int| generic_place(names, prefix, names[i])),
        }
    }
}

/// What the block expression captures in each name.
pub open spec fn all_parts(names: Seq<Seq<char>>) -> Seq<Option<(Seq<char>, Seq<char>)>> {
    names.map_values(|s: Seq<char>| block_parts(s))
}

/// The texts of a list of optional pairs.
pub open spec fn pair_list(v: Seq<Option<(String, String)>>) -> Seq<
    Option<(Seq<char>, Seq<char>)>,
> {
    v.map_values(|p: Option<(String, String)>| pair_text(p))
}

fn split_last_dot(name: &str) -> (r: (String, String))
    ensures
        (r.0@, r.1@) == group_and_leaf(name@),
{
    let v = chars_of(name);
    match rfind_char(&v, '.') {
        Some(i) => {
            assert(i < v.len());
            assert(v@.subrange(0, i as int) =~= v@.take(i as int));
            assert(v@.subrange(i + 1, v@.len() as int) =~= v@.skip(i + 1));
            (text_of(&v, 0, i), text_of(&v, i + 1, v.len()))
        },
        None => (String::new(), name.to_owned()),
    }
}

fn count_group(names: &[&str], prefix: &str, g: &str) -> (n: usize)
    ensures
        n == group_size(name_texts(names@), prefix@, g@),
{
    let ghost ns = name_texts(names@);
    let mut n: usize = 0;
    let mut i: usize = 0;
    assert(ns.take(0) =~= seq![]);
    while i < names.len()
        invariant
            i <= names@.len(),
            n <= i,
            ns == name_texts(names@),
            n == group_size(ns.take(i as int), prefix@, g@),
        decreases names@.len() - i,
    {
        assert(ns.take(i + 1).drop_last() =~= ns.take(i as int));
        assert(ns.take(i + 1).last() == names@[i as int]@);
        assert(i < names.len());
        let (h, _) = split_last_dot(without_prefix(names[i], prefix).as_str());
        if str_eq(h.as_str(), g) {
            n = n + 1;
        }
        i = i + 1;
    }
    assert(ns.take(i as int) =~= ns);
    n
}

fn is_empty(s: &str) -> (r: bool)
    ensures
        r == (s@.len() == 0),
{
    proof {
        reveal_strlit("");
        if s@.len() == 0 {
            assert(s@ =~= ""@);
        }
    }
    str_eq(s, "")
}

fn generic_slot(names: &[&str], prefix: &str, name: &str) -> (s: LayerSlot)
    ensures
        s@ == generic_place(name_texts(names@), prefix@, name@),
{
    let (g, l) = split_last_dot(without_prefix(name, prefix).as_str());
    if is_empty(g.as_str()) {
        return LayerSlot::TopLevel { name: l };
    }
    if count_group(names, prefix, g.as_str()) <= 1 {
        LayerSlot::TopLevel { name: g.concat(".").concat(l.as_str()) }
    } else {
        LayerSlot::Generic { group: g, leaf: l }
    }
}

fn block_slot(name: &str, parts: &Option<(String, String)>, prefix: &str) -> (s: LayerSlot)
    ensures
        s@ == block_place(name@, pair_text(*parts), prefix@),
{
    match parts {
        Some((digits, sub)) => LayerSlot::Block {
            idx: parse_layer_index(digits.as_str()),
            sub_path: sub.clone(),
        },
        None => LayerSlot::TopLevel { name: without_prefix(name, prefix) },
    }
}

fn holds_index(v: &Vec<u32>, x: u32) -> (r: bool)
    ensures
        r == v@.contains(x),
{
    let mut i: usize = 0;
    while i < v.len()
        invariant
            i <= v@.len(),
            forall|k: int| 0 <= k < i ==> v@[k] != x,
        decreases v@.len() - i,
    {
        if v[i] == x {
            return true;
        }
        i = i + 1;
    }
    false
}

/// The number of distinct layer indices, where the names look like those of a
/// transformer.
fn transformer_layers(parts: &Vec<Option<(String, String)>>) -> (r: Option<usize>)
    ensures
        match r {
            Some(n) => looks_like_transformer(pair_list(parts@)) && n == layer_indices(
                pair_list(parts@),
            ).len(),
            None => !looks_like_transformer(pair_list(parts@)),
        },
{
    let ghost ps = pair_list(parts@);
    let mut n: usize = 0;
    let mut seen: Vec<u32> = Vec::new();
    let mut i: usize = 0;
    assert(ps.take(0) =~= seq![]);
    while i < parts.len()
        invariant
            i <= parts@.len(),
            n <= i,
            ps == pair_list(parts@),
            n == block_count(ps.take(i as int)),
            seen@ == layer_indices(ps.take(i as int)),
        decreases parts@.len() - i,
    {
        assert(ps.take(i + 1).drop_last() =~= ps.take(i as int));
        assert(ps.take(i + 1).last() == pair_text(parts@[i as int]));
        assert(i < parts.len());
        if let Some((digits, _)) = &parts[i] {
            n = n + 1;
            let idx: u32 = parse_layer_index(digits.as_str());
            if !holds_index(&seen, idx) {
                seen.push(idx);
            }
        }
        i = i + 1;
    }
    assert(ps.take(i as int) =~= ps);
    if n as u128 * 5 >= parts.len() as u128 && seen.len() >= 2 {
        Some(seen.len())
    } else {
        None
    }
}

/// Classify every tensor name, given what the block expression captures in it.
///
/// Heuristic: declare "transformer-style" if at least 20% of tensors look
/// like transformer-block parameters AND at least 2 distinct layer indices occur.
/// Otherwise fall back to generic grouping by name-tree: split each name into
/// (group, leaf) where group is everything up to the last dot. Singleton groups
/// (one tensor) become TopLevel; multi-tensor groups become Generic.
pub fn classify_captured(names: &[&str], parts: &Vec<Option<(String, String)>>) -> (r: ArchProfile)
    requires
        names@.len() == parts@.len(),
    ensures
        r@ == profile(name_texts(names@), pair_list(parts@)),
{
    let ghost ns = name_texts(names@);
    let ghost ps = pair_list(parts@);
    let prefix = detect_common_prefix(names);
    let layers = transformer_layers(parts);
    let mut slots: Vec<LayerSlot> = Vec::new();
    let mut i: usize = 0;
    while i < names.len()
        invariant
            i <= names@.len(),
            names@.len() == parts@.len(),
            slots@.len() == i,
            ns == name_texts(names@),
            ps == pair_list(parts@),
            prefix@ == common_prefix(ns),
            layers is Some == looks_like_transformer(ps),
            forall|k: int|
                0 <= k < i ==> (#[trigger] slots@[k])@ == (if looks_like_transformer(ps) {
                    block_place(ns[k], ps[k], prefix@)
                } else {
                    generic_place(ns, prefix@, ns[k])
                }),
        decreases names@.len() - i,
    {
        assert(ns[i as int] == names@[i as int]@);
        assert(ps[i as int] == pair_text(parts@[i as int]));
        let slot = if layers.is_some() {
            block_slot(names[i], &parts[i], prefix.as_str())
        } else {
            generic_slot(names, prefix.as_str(), names[i])
        };
        slots.push(slot);
        i = i + 1;
    }
    assert(places(slots@) =~= profile(ns, ps).slots);
    match layers {
        Some(n) => ArchProfile {
            block_regex: Some(block_regex_for_arch()),
            prefix,
            num_layers: n as u64,
            slots,
        },
        None => ArchProfile { block_regex: None, prefix, num_layers: 0, slots },
    }
}

/// Classify every tensor name. Returns an `ArchProfile` describing the
/// detected structure.
pub fn classify(names: &[&str]) -> (r: ArchProfile)
    ensures
        r@ == profile(name_texts(names@), all_parts(name_texts(names@))),
{
    let mut parts: Vec<Option<(String, String)>> = Vec::new();
    let mut i: usize = 0;
    while i < names.len()
        invariant
            i <= names@.len(),
            parts@.len() == i,
            forall|k: int|
                0 <= k < i ==> pair_text(#[trigger] parts@[k]) == block_parts(names@[k]@),
        decreases names@.len() - i,
    {
        parts.push(block_captures(names[i]));
        i = i + 1;
    }
    assert(pair_list(parts@) =~= all_parts(name_texts(names@)));
    classify_captured(names, &parts)
}

} // verus!
