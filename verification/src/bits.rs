//! Bits of bytes and words, counted from the least significant.

use vstd::prelude::*;

verus! {

/// Bit `t` of a byte.
pub open spec fn byte_bit(byte: u8, t: int) -> bool {
    (byte >> (t as u8)) & 1 == 1
}

/// Bit `i` of a bitmap of bytes; bits past its end are clear.
pub open spec fn bitmap_bit(bitmap: Seq<u8>, i: int) -> bool {
    0 <= i / 8 < bitmap.len() && byte_bit(bitmap[i / 8], i % 8)
}

/// Bit `i` of a bitmap of words.
pub open spec fn word_bit(words: Seq<u64>, i: int) -> bool {
    (words[i / 64] >> ((i % 64) as u64)) & 1 == 1
}

/// Number of 64-bit words of a bitmap of `count` bits.
pub open spec fn bitmap_words(count: int) -> int {
    (count + 63) / 64
}

/// Sets bit `i` of a bitmap of words.
pub fn set_word_bit(words: &mut Vec<u64>, i: usize)
    requires
        i < 64 * old(words).len(),
    ensures
        final(words).len() == old(words).len(),
        forall|j: int|
            0 <= j < 64 * old(words).len() ==> (#[trigger] word_bit(final(words)@, j) <==> j == i
                || word_bit(old(words)@, j)),
{
    let w: usize = i / 64;
    let b: u64 = (i % 64) as u64;
    let word: u64 = words[w];
    words[w] = word | (1u64 << b);
    assert forall|j: int| 0 <= j < 64 * old(words).len() implies (#[trigger] word_bit(
        words@,
        j,
    ) <==> j == i || word_bit(old(words)@, j)) by {
        let t: u64 = (j % 64) as u64;
        assert(((word | (1u64 << b)) >> t) & 1 == 1 <==> t == b || (word >> t) & 1 == 1)
            by (bit_vector)
            requires
                b < 64,
                t < 64,
        ;
    }
}

/// A bitmap of `words` words with no bit set.
pub fn clear_words(words: usize) -> (bitmap: Vec<u64>)
    ensures
        bitmap.len() == words,
        forall|j: int| 0 <= j < 64 * words ==> !#[trigger] word_bit(bitmap@, j),
{
    let bitmap: Vec<u64> = vec![0u64; words];
    assert forall|j: int| 0 <= j < 64 * words implies !#[trigger] word_bit(bitmap@, j) by {
        let t: u64 = (j % 64) as u64;
        assert((0u64 >> t) & 1 == 0) by (bit_vector);
    }
    bitmap
}

/// Bit `i` of a bitmap of bytes is set exactly if byte `i / 8` is there and has
/// bit `i % 8` set.
pub proof fn bitmap_bit_is_tested_by_mask(bitmap: Seq<u8>, i: int)
    ensures
        bitmap_bit(bitmap, i) <==> 0 <= i < 8 * bitmap.len() && bitmap[i / 8] & (1u8 << ((i % 8)
            as u8)) != 0,
{
    if 0 <= i < 8 * bitmap.len() {
        byte_bit_is_tested_by_mask(bitmap[i / 8], i % 8);
    }
}

/// Bit `t` of a byte is set exactly if the byte has a bit in common with two to
/// the power `t`.
pub proof fn byte_bit_is_tested_by_mask(byte: u8, t: int)
    requires
        0 <= t < 8,
    ensures
        byte_bit(byte, t) <==> byte & (1u8 << (t as u8)) != 0,
{
    let u: u8 = t as u8;
    assert((byte >> u) & 1 == 1 <==> byte & (1u8 << u) != 0) by (bit_vector)
        requires
            u < 8,
    ;
}

/// Bit `i` of a bitmap of words is set exactly if word `i / 64` has a bit in
/// common with two to the power `i % 64`.
pub proof fn word_bit_is_tested_by_mask(words: Seq<u64>, i: int)
    requires
        0 <= i < 64 * words.len(),
    ensures
        word_bit(words, i) <==> words[i / 64] & (1u64 << ((i % 64) as u64)) != 0,
{
    let word: u64 = words[i / 64];
    let u: u64 = (i % 64) as u64;
    assert((word >> u) & 1 == 1 <==> word & (1u64 << u) != 0) by (bit_vector)
        requires
            u < 64,
    ;
}

/// A bitmap has room for its bits, and no word more than that takes.
pub proof fn bitmap_words_suffice(count: int)
    requires
        0 <= count,
    ensures
        64 * bitmap_words(count) - 64 < count <= 64 * bitmap_words(count),
{
}

} // verus!
