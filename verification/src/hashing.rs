//! Stable 64-bit hashes of numbers and texts.
//!
//! A text is hashed as its UTF-8 bytes followed by a byte that UTF-8 never
//! contains, so that no two lists of texts feed the hasher the same bytes.

use std::collections::hash_map::DefaultHasher;
use std::hash::Hasher;

use vstd::prelude::*;

verus! {

/// What hashing the text `s` writes.
pub open spec fn text_writes(s: Seq<char>) -> Seq<Seq<u8>> {
    seq![vstd::utf8::encode_utf8(s), seq![0xffu8]]
}

/// What hashing the number `n` writes.
pub open spec fn number_writes(n: u64) -> Seq<Seq<u8>> {
    seq![vstd::bytes::spec_u64_to_le_bytes(n)]
}

/// What hashing the byte string `b` writes: its length, then its bytes.
pub open spec fn bytes_writes(b: Seq<u8>) -> Seq<Seq<u8>> {
    number_writes(b.len() as u64) + seq![b]
}

/// The hash of everything written.
pub open spec fn hash_of(writes: Seq<Seq<u8>>) -> u64 {
    <DefaultHasher as vstd::std_specs::hash::DefaultHasherAdditionalSpecFns>::spec_finish(writes)
}

/// Hash the text `s`.
pub fn write_text(h: &mut DefaultHasher, s: &str)
    ensures
        final(h)@ == old(h)@ + text_writes(s@),
{
    h.write(s.as_bytes());
    let end: [u8; 1] = [0xff];
    h.write(&end);
    assert(end@ =~= seq![0xffu8]);
    assert(h@ =~= old(h)@ + text_writes(s@));
}

/// Hash the number `n`.
pub fn write_number(h: &mut DefaultHasher, n: u64)
    ensures
        final(h)@ == old(h)@ + number_writes(n),
{
    let bytes = vstd::bytes::u64_to_le_bytes(n);
    h.write(bytes.as_slice());
    assert(h@ =~= old(h)@ + number_writes(n));
}

/// Hash a text given as its UTF-8 bytes.
pub fn write_text_bytes(h: &mut DefaultHasher, b: &[u8])
    ensures
        final(h)@ == old(h)@ + seq![b@, seq![0xffu8]],
{
    h.write(b);
    let end: [u8; 1] = [0xff];
    h.write(&end);
    assert(end@ =~= seq![0xffu8]);
    assert(h@ =~= old(h)@ + seq![b@, seq![0xffu8]]);
}

/// Hash the byte string `b`.
pub fn write_bytes(h: &mut DefaultHasher, b: &[u8])
    ensures
        final(h)@ == old(h)@ + bytes_writes(b@),
{
    write_number(h, b.len() as u64);
    h.write(b);
    assert(h@ =~= old(h)@ + bytes_writes(b@));
}

/// Different texts are written as different bytes.
pub proof fn lemma_texts_apart(a: Seq<char>, b: Seq<char>)
    requires
        vstd::utf8::encode_utf8(a) == vstd::utf8::encode_utf8(b),
    ensures
        a == b,
{
    vstd::utf8::encode_utf8_decode_utf8(a);
    vstd::utf8::encode_utf8_decode_utf8(b);
}

/// Different numbers are written as different bytes.
pub proof fn lemma_numbers_apart(a: u64, b: u64)
    requires
        vstd::bytes::spec_u64_to_le_bytes(a) == vstd::bytes::spec_u64_to_le_bytes(b),
    ensures
        a == b,
{
    vstd::bytes::lemma_auto_spec_u64_to_from_le_bytes();
    assert(vstd::bytes::spec_u64_from_le_bytes(vstd::bytes::spec_u64_to_le_bytes(a)) == a);
    assert(vstd::bytes::spec_u64_from_le_bytes(vstd::bytes::spec_u64_to_le_bytes(b)) == b);
}

} // verus!
