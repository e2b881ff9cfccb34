//! What the places of tensors say about their names, and how the parts of a
//! block are ordered.

use vstd::prelude::*;
use super::name_tree;
use super::name_tree::Place;
use super::sub_path;
use crate::order;
use crate::text;

verus! {

/// The name is the given text, alone or behind the prefix that the names have
/// in common.
pub open spec fn spells(name: Seq<char>, prefix: Seq<char>, t: Seq<char>) -> bool {
    name == t || name == prefix + t
}

proof fn lemma_unprefixed(name: Seq<char>, prefix: Seq<char>)
    ensures
        spells(name, prefix, name_tree::unprefixed(name, prefix)),
{
    if text::begins(name, prefix) {
        assert(name =~= prefix + name.skip(prefix.len() as int));
    }
}

proof fn lemma_rfind(s: Seq<char>, c: char, to: int)
    requires
        0 <= to <= s.len(),
    ensures
        -1 <= text::rfind_before(s, c, to) < to || to == 0,
        text::rfind_before(s, c, to) >= 0 ==> s[text::rfind_before(s, c, to)] == c,
        forall|k: int| text::rfind_before(s, c, to) < k < to ==> #[trigger] s[k] != c,
    decreases to,
{
    if to > 0 && s[to - 1] != c {
        lemma_rfind(s, c, to - 1);
    }
}

/// A name is parted at its last dot: the leaf holds none.
pub proof fn leaves_hold_no_dot(name: Seq<char>)
    ensures
        ({
            let (g, l) = name_tree::group_and_leaf(name);
            &&& !l.contains('.')
            &&& name == (if name.contains('.') {
                g + seq!['.'] + l
            } else {
                l
            })
            &&& !name.contains('.') ==> g.len() == 0
        }),
{
    let n = name.len() as int;
    lemma_rfind(name, '.', n);
    let i = text::rfind_before(name, '.', n);
    let (g, l) = name_tree::group_and_leaf(name);
    if i >= 0 {
        assert(name.contains('.')) by {
            assert(name[i] == '.');
        }
        assert(name =~= g + seq!['.'] + l);
        assert forall|k: int| 0 <= k < l.len() implies l[k] != '.' by {
            assert(l[k] == name[i + 1 + k]);
        }
    } else {
        assert(forall|k: int| 0 <= k < n ==> #[trigger] name[k] != '.');
    }
}

/// The name is that of a block with the given number, and ends in the given
/// rest.
pub open spec fn is_block_of(name: Seq<char>, idx: u32, sub: Seq<char>) -> bool {
    exists|digits: Seq<char>|
        #![trigger name_tree::layer_index(digits)]
        name_tree::names_block(name, digits, sub) && idx == name_tree::layer_index(digits)
}

/// The place says what a tensor of the given name is called.
pub open spec fn place_spells(p: Place, name: Seq<char>, prefix: Seq<char>) -> bool {
    match p {
        Place::Block { idx, sub_path } => is_block_of(name, idx, sub_path),
        Place::TopLevel { name: t } => spells(name, prefix, t) || spells(
            name,
            prefix,
            seq!['.'] + t,
        ),
        Place::Generic { group, leaf } => spells(name, prefix, group + seq!['.'] + leaf)
            && !leaf.contains('.') && group.len() > 0,
    }
}

/// A place says what the tensor is called: the place of a block names the rest
/// of a block's name and the number in it, any other place spells the name, but
/// for the common prefix and a dot that the rest begins with.
pub proof fn places_spell_the_name(names: Seq<Seq<char>>, i: int)
    requires
        0 <= i < names.len(),
        text::is_ascii(names[i]),
    ensures
        ({
            let p = name_tree::profile(names, name_tree::all_parts(names));
            &&& p.slots.len() == names.len()
            &&& place_spells(p.slots[i], names[i], p.prefix)
        }),
{
    let parts = name_tree::all_parts(names);
    let p = name_tree::profile(names, parts);
    let name = names[i];
    assert(parts[i] == name_tree::block_parts(name));
    lemma_unprefixed(name, p.prefix);
    let rest = name_tree::unprefixed(name, p.prefix);
    leaves_hold_no_dot(rest);
    let (g, l) = name_tree::group_and_leaf(rest);
    reveal_strlit(".");
    assert("."@ =~= seq!['.']);
    if name_tree::looks_like_transformer(parts) {
        assert(p.slots[i] == name_tree::block_place(name, parts[i], p.prefix));
        match parts[i] {
            Some((digits, sub)) => {
                let q = choose|p: (Seq<char>, Seq<char>)| #[trigger]
                    name_tree::names_block(name, p.0, p.1);
                assert(q == (digits, sub));
                assert(name_tree::names_block(name, digits, sub));
                assert(p.slots[i] == Place::Block {
                    idx: name_tree::layer_index(digits),
                    sub_path: sub,
                });
                assert(is_block_of(name, name_tree::layer_index(digits), sub));
                assert(place_spells(p.slots[i], name, p.prefix));
            },
            None => {
                assert(p.slots[i] == Place::TopLevel { name: rest });
                assert(place_spells(p.slots[i], name, p.prefix));
            },
        }
    } else {
        assert(p.slots[i] == name_tree::generic_place(names, p.prefix, name));
        if g.len() == 0 {
            assert(p.slots[i] == Place::TopLevel { name: l });
            if rest.contains('.') {
                assert(rest =~= seq!['.'] + l);
                assert(spells(name, p.prefix, seq!['.'] + l));
            } else {
                assert(spells(name, p.prefix, l));
            }
        } else {
            assert(rest == g + seq!['.'] + l);
            assert(spells(name, p.prefix, g + seq!['.'] + l));
        }
        assert(place_spells(p.slots[i], name, p.prefix));
    }
}

proof fn lemma_digits(n: nat)
    ensures
        name_tree::digits_value(text::decimal(n)) == n,
        name_tree::is_numeral(text::decimal(n)),
    decreases n,
{
    reveal_with_fuel(name_tree::digits_value, 2);
    let s = text::decimal(n);
    if n < 10 {
        assert(s.drop_last() =~= Seq::<char>::empty());
        assert(name_tree::digits_value(Seq::<char>::empty()) == 0);
        assert((n + 48) as char as int == n + 48);
        assert(s[0] == (n + 48) as char);
    } else {
        lemma_digits(n / 10);
        let t = text::decimal(n / 10);
        assert(s.drop_last() =~= t);
        assert((n % 10 + 48) as char as int == n % 10 + 48);
        assert forall|i: int| 0 <= i < s.len() implies '0' <= #[trigger] s[i] <= '9' by {
            if i < t.len() {
                assert(s[i] == t[i]);
            } else {
                assert(s[i] == (n % 10 + 48) as char);
            }
        }
    }
}

/// The number of a block is read as it is written.
pub proof fn block_numbers_read_back(n: u32)
    ensures
        name_tree::layer_index(text::decimal(n as nat)) == n,
{
    lemma_digits(n as nat);
}

/// The numbers of the blocks are listed once each, and no others are.
pub proof fn block_numbers_are_listed_once(
    parts: Seq<Option<(Seq<char>, Seq<char>)>>,
    x: u32,
)
    ensures
        name_tree::layer_indices(parts).no_duplicates(),
        name_tree::layer_indices(parts).contains(x) <==> exists|i: int|
            0 <= i < parts.len() && (#[trigger] parts[i]) is Some && name_tree::layer_index(
                (parts[i]->0).0,
            ) == x,
    decreases parts.len(),
{
    if parts.len() > 0 {
        let init = parts.drop_last();
        let n = parts.len() - 1;
        let before = name_tree::layer_indices(init);
        let all = name_tree::layer_indices(parts);
        block_numbers_are_listed_once(init, x);
        if before.contains(x) {
            let i = choose|i: int|
                0 <= i < init.len() && (#[trigger] init[i]) is Some && name_tree::layer_index(
                    (init[i]->0).0,
                ) == x;
            assert(parts[i] == init[i]);
            let k = choose|k: int| 0 <= k < before.len() && before[k] == x;
            assert(all[k] == x);
        }
        match parts[n] {
            Some((digits, _)) => {
                let y = name_tree::layer_index(digits);
                if !before.contains(y) {
                    assert(all == before.push(y));
                    assert(all[all.len() - 1] == y);
                }
                if x == y {
                    assert(parts[n] is Some);
                    assert(all.contains(x));
                }
            },
            None => {},
        }
        if exists|i: int|
            0 <= i < parts.len() && (#[trigger] parts[i]) is Some && name_tree::layer_index(
                (parts[i]->0).0,
            ) == x {
            let i = choose|i: int|
                0 <= i < parts.len() && (#[trigger] parts[i]) is Some && name_tree::layer_index(
                    (parts[i]->0).0,
                ) == x;
            if i < n {
                assert(init[i] == parts[i]);
                assert(before.contains(x));
            }
        }
        if all.contains(x) && !before.contains(x) {
            let k = choose|k: int| 0 <= k < all.len() && all[k] == x;
            if k < before.len() {
                assert(before[k] == x);
            }
        }
    }
}

/// The common prefix is one that at least four in five names begin with.
pub proof fn prefixes_are_common(names: Seq<Seq<char>>)
    ensures
        ({
            let p = name_tree::common_prefix(names);
            p.len() > 0 ==> 5 * name_tree::with_prefix(names, p) >= 4 * names.len()
        }),
{
}

/// The name `a` is placed strictly before `b`.
pub open spec fn comes_before(a: Seq<char>, b: Seq<char>) -> bool {
    sub_path::sub_path_le(a, b) && !sub_path::sub_path_le(b, a)
}

/// The name belongs to an attention.
pub open spec fn is_attention(a: Seq<char>) -> bool {
    text::has(text::lowercase(a), "attn"@) || text::has(text::lowercase(a), "attention"@)
}

/// The name belongs to a feed-forward network.
pub open spec fn is_mlp(a: Seq<char>) -> bool {
    let t = text::lowercase(a);
    text::has(t, "mlp"@) || text::has(t, "feed_forward"@) || text::has(t, "gate_proj"@)
        || text::has(t, "up_proj"@) || text::has(t, "down_proj"@)
}

/// The name belongs to a norm.
pub open spec fn is_norm(a: Seq<char>) -> bool {
    text::has(text::lowercase(a), "norm"@) || text::has(text::lowercase(a), "ln_"@)
}

/// Within a block attention comes first, then the feed-forward network, then
/// the norms, then everything else.
pub proof fn blocks_begin_with_attention(a: Seq<char>, b: Seq<char>)
    ensures
        is_attention(a) && !is_attention(b) ==> comes_before(a, b),
        !is_attention(a) && is_mlp(a) && !is_attention(b) && !is_mlp(b) ==> comes_before(a, b),
        !is_attention(a) && !is_mlp(a) && is_norm(a) && !is_attention(b) && !is_mlp(b)
            && !is_norm(b) ==> comes_before(a, b),
{
}

/// The place of a projection within its group: query, key, value, output, gate,
/// up, down, and others behind them. The first that the name holds decides.
pub open spec fn projection(a: Seq<char>) -> int {
    let t = text::lowercase(a);
    if text::has(t, "q_proj"@) || text::has(t, "query"@) {
        0
    } else if text::has(t, "k_proj"@) || text::has(t, "key"@) {
        1
    } else if text::has(t, "v_proj"@) || text::has(t, "value"@) {
        2
    } else if text::has(t, "o_proj"@) || text::has(t, "output"@) {
        3
    } else if text::has(t, "gate_proj"@) {
        4
    } else if text::has(t, "up_proj"@) {
        5
    } else if text::has(t, "down_proj"@) {
        6
    } else {
        7
    }
}

/// Names of one group go by their projection, and names of one projection by
/// their text.
pub proof fn groups_go_by_projection(a: Seq<char>, b: Seq<char>)
    requires
        (is_attention(a) && is_attention(b)) || (!is_attention(a) && !is_attention(b) && is_mlp(a)
            && is_mlp(b)),
    ensures
        projection(a) < projection(b) ==> comes_before(a, b),
        projection(a) == projection(b) ==> (sub_path::sub_path_le(a, b) <==> order::text_le(a, b)),
{
}

} // verus!
