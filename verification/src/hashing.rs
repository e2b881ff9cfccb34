//! What is fed to the default hasher for texts and numbers.

use vstd::prelude::*;
use std::collections::hash_map::DefaultHasher;
use std::hash::Hasher;

verus! {

/// The bytes written to a hasher for a text: its UTF-8 encoding, and the
/// byte 0xff, which no text holds.
pub open spec fn text_writes(t: Seq<char>) -> Seq<Seq<u8>> {
    seq![vstd::utf8::encode_utf8(t), seq![0xffu8]]
}

/// Feeds a text to the hasher.
pub(crate) fn write_text(h: &mut DefaultHasher, t: &str)
    ensures
        final(h)@ == old(h)@ + text_writes(t@),
{
    h.write(t.as_bytes());
    let end: [u8; 1] = [0xff];
    assert(end@ =~= seq![0xffu8]);
    h.write(&end);
    assert(h@ =~= old(h)@ + text_writes(t@));
}

/// Feeds a number to the hasher, lowest byte first.
pub(crate) fn write_number(h: &mut DefaultHasher, n: u64)
    ensures
        final(h)@ == old(h)@.push(vstd::bytes::spec_u64_to_le_bytes(n)),
{
    let b = vstd::bytes::u64_to_le_bytes(n);
    h.write(b.as_slice());
}

/// Feeds one byte to the hasher.
pub(crate) fn write_byte(h: &mut DefaultHasher, b: u8)
    ensures
        final(h)@ == old(h)@.push(seq![b]),
{
    let a: [u8; 1] = [b];
    assert(a@ =~= seq![b]);
    h.write(&a);
}

} // verus!
