//! Little-endian byte sequences.

use vstd::prelude::*;

verus! {

/// The two bytes of `x`, least significant first.
#[verifier::opaque]
pub open spec fn le16(x: u16) -> Seq<u8> {
    seq![(x % 256) as u8, (x / 256) as u8]
}

/// The four bytes of `x`, least significant first.
#[verifier::opaque]
pub open spec fn le32(x: u32) -> Seq<u8> {
    seq![
        (x % 256) as u8,
        (x / 256 % 256) as u8,
        (x / 65536 % 256) as u8,
        (x / 16777216) as u8,
    ]
}

/// The number whose bytes, least significant first, are `bytes`.
pub open spec fn le_value(bytes: Seq<u8>) -> nat
    decreases bytes.len(),
{
    if bytes.len() == 0 {
        0
    } else {
        bytes[0] as nat + 256 * le_value(bytes.drop_first())
    }
}

/// The bytes of a word, least significant first.
pub fn word_bytes(x: u32) -> (bytes: Vec<u8>)
    ensures
        bytes@ == le32(x),
        bytes@.len() == 4,
{
    let mut bytes: Vec<u8> = Vec::new();
    push_word(&mut bytes, x);
    proof {
        law_word_reads_back(x);
        assert(bytes@ =~= le32(x));
    }
    bytes
}

/// Appends the bytes of a half word, least significant first.
pub fn push_half(bytes: &mut Vec<u8>, x: u16)
    ensures
        final(bytes)@ == old(bytes)@ + le16(x),
{
    bytes.push((x % 256) as u8);
    bytes.push((x / 256) as u8);
    proof {
        reveal(le16);
        assert(bytes@ =~= old(bytes)@ + le16(x));
    }
}

/// Appends the bytes of a word, least significant first.
pub fn push_word(bytes: &mut Vec<u8>, x: u32)
    ensures
        final(bytes)@ == old(bytes)@ + le32(x),
{
    bytes.push((x % 256) as u8);
    bytes.push((x / 256 % 256) as u8);
    bytes.push((x / 65536 % 256) as u8);
    bytes.push((x / 16777216) as u8);
    proof {
        reveal(le32);
        assert(bytes@ =~= old(bytes)@ + le32(x));
    }
}

/// Reading the bytes of a half word back gives the half word.
pub proof fn law_half_reads_back(x: u16)
    ensures
        le16(x).len() == 2,
        le_value(le16(x)) == x,
{
    reveal(le16);
    reveal_with_fuel(le_value, 3);
}

/// Reading the bytes of a word back gives the word; reading only its first bytes
/// gives the word modulo the matching power of 256.
pub proof fn law_word_reads_back(x: u32)
    ensures
        le32(x).len() == 4,
        le_value(le32(x)) == x,
        le_value(le32(x).take(2)) == x % 65536,
        le_value(le32(x).take(1)) == x % 256,
{
    reveal(le32);
    reveal_with_fuel(le_value, 5);
}

} // verus!
