//! Putting the digits of a varint together that lie in machine words.

use crate::model::{lemma_payload_sums, low7, payload};
use vstd::prelude::*;

verus! {

/// The bytes of a word, least significant first.
pub open spec fn le_bytes(word: u32) -> Seq<u8> {
    seq![
        (word % 0x100) as u8,
        (word / 0x100 % 0x100) as u8,
        (word / 0x1_0000 % 0x100) as u8,
        (word / 0x100_0000) as u8,
    ]
}

/// What the first byte of a word carries.
spec fn one(word: u32) -> u64 {
    (word % 0x80) as u64
}

/// What the first two bytes of a word carry.
spec fn two(word: u32) -> u64 {
    (one(word) + word / 0x100 % 0x80 * 0x80) as u64
}

/// What the first three bytes of a word carry.
spec fn three(word: u32) -> u64 {
    (two(word) + word / 0x1_0000 % 0x80 * 0x4000) as u64
}

/// What the four bytes of a word carry.
spec fn four(word: u32) -> u64 {
    (three(word) + word / 0x100_0000 % 0x80 * 0x20_0000) as u64
}

/// A byte of a word carries the word's bits from its place on, but for the top one.
proof fn lemma_digits(word: u32)
    by (bit_vector)
    ensures
        word % 0x100 % 0x80 == one(word),
        word / 0x100 % 0x100 % 0x80 * 0x80 == two(word) - one(word),
        word / 0x1_0000 % 0x100 % 0x80 * 0x4000 == three(word) - two(word),
        word / 0x100_0000 % 0x80 * 0x20_0000 == four(word) - three(word),
{
}

/// What the bytes carry that lie in two words, and in the bytes behind these.
proof fn lemma_payload_words(low: u32, high: u32, tail: Seq<u8>)
    ensures
        ({
            let bytes = le_bytes(low) + le_bytes(high) + tail;
            &&& payload(bytes.take(2)) == two(low)
            &&& payload(bytes.take(3)) == three(low)
            &&& payload(bytes.take(4)) == four(low)
            &&& payload(bytes.take(5)) == four(low) + one(high) * 0x1000_0000
            &&& payload(bytes.take(6)) == four(low) + two(high) * 0x1000_0000
            &&& payload(bytes.take(7)) == four(low) + three(high) * 0x1000_0000
            &&& payload(bytes.take(8)) == four(low) + four(high) * 0x1000_0000
            &&& tail.len() > 0 ==> payload(bytes.take(9)) == payload(bytes.take(8)) + tail[0]
                % 0x80 * 0x100_0000_0000_0000
            &&& tail.len() > 1 ==> payload(bytes.take(10)) == payload(bytes.take(9)) + tail[1]
                % 0x80 * 0x8000_0000_0000_0000
        }),
{
    let bytes = le_bytes(low) + le_bytes(high) + tail;
    lemma_digits(low);
    lemma_digits(high);
    assert(bytes[0] % 0x80 == one(low));
    assert(bytes[1] % 0x80 * 0x80 == two(low) - one(low));
    assert(bytes[2] % 0x80 * 0x4000 == three(low) - two(low));
    assert(bytes[3] % 0x80 * 0x20_0000 == four(low) - three(low));
    assert(bytes[4] % 0x80 == one(high));
    assert(bytes[5] % 0x80 * 0x80 == two(high) - one(high));
    assert(bytes[6] % 0x80 * 0x4000 == three(high) - two(high));
    assert(bytes[7] % 0x80 * 0x20_0000 == four(high) - three(high));
    lemma_payload_sums(bytes);
}

/// The digits of one word do not overlap once they are in place.
proof fn lemma_join(x: u32)
    by (bit_vector)
    ensures
        ((x & 0x0000007f) | ((x & 0x00007f00) >> 1)) as u64 == two(x),
        ((x & 0x0000007f) | ((x & 0x007f0000) >> 2) | ((x & 0x00007f00) >> 1)) as u64 == three(x),
        ((x & 0x0000007f) | ((x & 0x7f000000) >> 3) | ((x & 0x007f0000) >> 2) | ((x & 0x00007f00)
            >> 1)) as u64 == four(x),
        four(x) < 0x1000_0000,
{
}

/// The digits of a second word do not overlap those of the first, which make up `value`.
proof fn lemma_join_high(value: u64, high: u32)
    by (bit_vector)
    requires
        value < 0x1000_0000,
    ensures
        value | (((high & 0x0000007f) as u64) << 28) == value + one(high) * 0x1000_0000,
        ((value + one(high) * 0x1000_0000) as u64) | (((high & 0x00007f00) as u64) << 27) == value
            + two(high) * 0x1000_0000,
        ((value + two(high) * 0x1000_0000) as u64) | (((high & 0x007f0000) as u64) << 26) == value
            + three(high) * 0x1000_0000,
        ((value + three(high) * 0x1000_0000) as u64) | (((high & 0x7f000000) as u64) << 25) == value
            + four(high) * 0x1000_0000,
{
}

/// The digit of the ninth byte does not overlap those of eight bytes, which make up `value`.
proof fn lemma_join_9(value: u64, byte_9: u8)
    by (bit_vector)
    requires
        value < 0x100_0000_0000_0000,
    ensures
        value | (((byte_9 & 0x7f) as u64) << 56) == value + byte_9 % 0x80 * 0x100_0000_0000_0000,
{
}

/// The bit of the tenth byte does not overlap the digits of nine bytes, which make up `value`.
proof fn lemma_join_10(value: u64, byte_10: u8)
    by (bit_vector)
    requires
        value < 0x8000_0000_0000_0000,
    ensures
        value | (((byte_10 & 0x01) as u64) << 63) == value + byte_10 % 2 * 0x8000_0000_0000_0000,
{
}

/// Joins the digits of the first two bytes of a word.
#[inline]
pub fn decode_varint_2(x: u32) -> (value: u64)
    ensures
        value == payload(le_bytes(x).take(2)),
{
    proof {
        lemma_join(x);
        lemma_payload_words(x, 0, Seq::empty());
        assert((le_bytes(x) + le_bytes(0) + Seq::empty()).take(2) == le_bytes(x).take(2));
    }
    ((x & 0x0000007f) | ((x & 0x00007f00) >> 1)) as u64
}

/// Joins the digits of the first three bytes of a word.
#[inline]
pub fn decode_varint_3(x: u32) -> (value: u64)
    ensures
        value == payload(le_bytes(x).take(3)),
{
    proof {
        lemma_join(x);
        lemma_payload_words(x, 0, Seq::empty());
        assert((le_bytes(x) + le_bytes(0) + Seq::empty()).take(3) == le_bytes(x).take(3));
    }
    ((x & 0x0000007f) | ((x & 0x007f0000) >> 2) | ((x & 0x00007f00) >> 1)) as u64
}

/// Joins the digits of the four bytes of a word.
#[inline]
pub fn decode_varint_4(x: u32) -> (value: u64)
    ensures
        value == payload(le_bytes(x)),
{
    proof {
        lemma_join(x);
        lemma_payload_words(x, 0, Seq::empty());
        assert((le_bytes(x) + le_bytes(0) + Seq::empty()).take(4) == le_bytes(x));
    }
    ((x & 0x0000007f) | ((x & 0x7f000000) >> 3) | ((x & 0x007f0000) >> 2) | ((x & 0x00007f00)
        >> 1)) as u64
}

/// Joins the digits of the first five bytes of two words.
#[inline]
pub fn decode_varint_5(low: u32, high: u32) -> (value: u64)
    ensures
        value == payload((le_bytes(low) + le_bytes(high)).take(5)),
{
    proof {
        let bytes = le_bytes(low) + le_bytes(high);
        lemma_join(low);
        lemma_join_high(four(low), high);
        lemma_payload_words(low, high, Seq::empty());
        assert(bytes + Seq::empty() == bytes);
        assert(bytes.take(4) == le_bytes(low));
    }
    decode_varint_4(low) | (((high & 0x0000007f) as u64) << 28)
}

/// Joins the digits of the first six bytes of two words.
#[inline]
pub fn decode_varint_6(low: u32, high: u32) -> (value: u64)
    ensures
        value == payload((le_bytes(low) + le_bytes(high)).take(6)),
{
    proof {
        let bytes = le_bytes(low) + le_bytes(high);
        lemma_join(low);
        lemma_join_high(four(low), high);
        lemma_payload_words(low, high, Seq::empty());
        assert(bytes + Seq::empty() == bytes);
    }
    decode_varint_5(low, high) | (((high & 0x00007f00) as u64) << 27)
}

/// Joins the digits of the first seven bytes of two words.
#[inline]
pub fn decode_varint_7(low: u32, high: u32) -> (value: u64)
    ensures
        value == payload((le_bytes(low) + le_bytes(high)).take(7)),
{
    proof {
        let bytes = le_bytes(low) + le_bytes(high);
        lemma_join(low);
        lemma_join_high(four(low), high);
        lemma_payload_words(low, high, Seq::empty());
        assert(bytes + Seq::empty() == bytes);
    }
    decode_varint_6(low, high) | (((high & 0x007f0000) as u64) << 26)
}

/// Joins the digits of the eight bytes of two words.
#[inline]
pub fn decode_varint_8(low: u32, high: u32) -> (value: u64)
    ensures
        value == payload(le_bytes(low) + le_bytes(high)),
{
    proof {
        let bytes = le_bytes(low) + le_bytes(high);
        lemma_join(low);
        lemma_join_high(four(low), high);
        lemma_payload_words(low, high, Seq::empty());
        assert(bytes + Seq::empty() == bytes);
        assert(bytes.take(8) == bytes);
    }
    decode_varint_7(low, high) | (((high & 0x7f000000) as u64) << 25)
}

/// Joins the digits of the eight bytes of two words and of a ninth byte.
#[inline]
pub fn decode_varint_9(low: u32, high: u32, byte_9: u8) -> (value: u64)
    ensures
        value == payload((le_bytes(low) + le_bytes(high)).push(byte_9)),
{
    let value: u64 = decode_varint_8(low, high);
    proof {
        let words = le_bytes(low) + le_bytes(high);
        let bytes = words + seq![byte_9];
        lemma_join(low);
        lemma_join(high);
        lemma_payload_words(low, high, seq![byte_9]);
        assert(bytes.take(8) == words);
        assert(bytes.take(9) == words.push(byte_9));
        lemma_join_9(value, byte_9);
    }
    value | (((byte_9 & 0x7f) as u64) << 56)
}

/// Joins the digits of the eight bytes of two words and of a ninth byte with the one bit of a
/// tenth byte for which there is room.
#[inline]
pub fn decode_varint_10(low: u32, high: u32, byte_9: u8, byte_10: u8) -> (value: u64)
    ensures
        value == payload((le_bytes(low) + le_bytes(high)).push(byte_9).push((byte_10 % 2) as u8)),
{
    let value: u64 = decode_varint_9(low, high, byte_9);
    proof {
        let bit = (byte_10 % 2) as u8;
        let words = le_bytes(low) + le_bytes(high);
        let bytes = words + seq![byte_9, bit];
        lemma_join(low);
        lemma_join(high);
        lemma_payload_words(low, high, seq![byte_9, bit]);
        assert(bytes.take(9) == words.push(byte_9));
        assert(bytes.take(10) == words.push(byte_9).push(bit));
        lemma_join_10(value, byte_10);
    }
    value | (((byte_10 & 0x01) as u64) << 63)
}

/// The bytes of a long word, least significant first.
#[verifier::opaque]
pub open spec fn le_bytes_long(word: u64) -> Seq<u8> {
    seq![
        (word % 0x100) as u8,
        (word / 0x100 % 0x100) as u8,
        (word / 0x1_0000 % 0x100) as u8,
        (word / 0x100_0000 % 0x100) as u8,
        (word / 0x1_0000_0000 % 0x100) as u8,
        (word / 0x100_0000_0000 % 0x100) as u8,
        (word / 0x1_0000_0000_0000 % 0x100) as u8,
        (word / 0x100_0000_0000_0000) as u8,
    ]
}

/// A word is made of its bytes.
proof fn lemma_load(b0: u8, b1: u8, b2: u8, b3: u8)
    by (bit_vector)
    ensures
        ({
            let word = (b0 as u32) | ((b1 as u32) << 8) | ((b2 as u32) << 16) | ((b3 as u32) << 24);
            &&& word % 0x100 == b0
            &&& word / 0x100 % 0x100 == b1
            &&& word / 0x1_0000 % 0x100 == b2
            &&& word / 0x100_0000 == b3
        }),
{
}

/// Reads the word that the four bytes from `at` on make up.
#[inline]
pub(crate) fn load_word(bytes: &[u8], at: usize) -> (word: u32)
    requires
        at + 4 <= bytes@.len(),
    ensures
        le_bytes(word) == bytes@.subrange(at as int, at + 4),
{
    proof {
        lemma_load(bytes@[at as int], bytes@[at + 1], bytes@[at + 2], bytes@[at + 3]);
    }
    (bytes[at] as u32) | ((bytes[at + 1] as u32) << 8) | ((bytes[at + 2] as u32) << 16) | ((bytes[at
        + 3] as u32) << 24)
}

/// A long word is made of two words.
proof fn lemma_load_long(low: u32, high: u32)
    by (bit_vector)
    ensures
        ({
            let word = (low as u64) | ((high as u64) << 32);
            &&& word % 0x100 == low % 0x100
            &&& word / 0x100 % 0x100 == low / 0x100 % 0x100
            &&& word / 0x1_0000 % 0x100 == low / 0x1_0000 % 0x100
            &&& word / 0x100_0000 % 0x100 == low / 0x100_0000
            &&& word / 0x1_0000_0000 % 0x100 == high % 0x100
            &&& word / 0x100_0000_0000 % 0x100 == high / 0x100 % 0x100
            &&& word / 0x1_0000_0000_0000 % 0x100 == high / 0x1_0000 % 0x100
            &&& word / 0x100_0000_0000_0000 == high / 0x100_0000
        }),
{
}

/// Reads the long word that the first eight bytes make up.
#[inline]
pub(crate) fn load_long(bytes: &[u8]) -> (word: u64)
    requires
        8 <= bytes@.len(),
    ensures
        le_bytes_long(word) == bytes@.take(8),
{
    let low = load_word(bytes, 0);
    let high = load_word(bytes, 4);
    proof {
        reveal(le_bytes_long);
        lemma_load_long(low, high);
        assert(bytes@.take(8) == le_bytes(low) + le_bytes(high));
    }
    (low as u64) | ((high as u64) << 32)
}

/// Shifting a long word cuts off its low bytes.
proof fn lemma_store(word: u64)
    by (bit_vector)
    ensures
        word as u8 == word % 0x100,
        (word >> 8) as u8 == word / 0x100 % 0x100,
        (word >> 16) as u8 == word / 0x1_0000 % 0x100,
        (word >> 24) as u8 == word / 0x100_0000 % 0x100,
        (word >> 32) as u8 == word / 0x1_0000_0000 % 0x100,
        (word >> 40) as u8 == word / 0x100_0000_0000 % 0x100,
        (word >> 48) as u8 == word / 0x1_0000_0000_0000 % 0x100,
        (word >> 56) as u8 == word / 0x100_0000_0000_0000,
{
}

/// Takes a long word apart into its bytes.
#[inline]
pub(crate) fn store_long(word: u64) -> (bytes: [u8; 8])
    ensures
        bytes@ == le_bytes_long(word),
{
    proof {
        reveal(le_bytes_long);
        lemma_store(word);
    }
    [
        word as u8,
        (word >> 8) as u8,
        (word >> 16) as u8,
        (word >> 24) as u8,
        (word >> 32) as u8,
        (word >> 40) as u8,
        (word >> 48) as u8,
        (word >> 56) as u8,
    ]
}

/// The bits of a long word in which its bytes carry digits.
pub(crate) const DIGIT_BITS: u64 = 0x7f7f_7f7f_7f7f_7f7f;

/// The lowest bit of every byte of a long word.
pub(crate) const LOWEST_BITS: u64 = 0x0101_0101_0101_0101;

/// What the masks do to every byte of a long word.
proof fn lemma_mask_bytes(word: u64)
    by (bit_vector)
    ensures
        ({
            let digits = word & 0x7f7f_7f7f_7f7f_7f7f;
            let flags = ((!word & !0x7f7f_7f7f_7f7f_7f7fu64) >> 7) & 0x0101_0101_0101_0101;
            &&& digits % 0x100 == word % 0x100 % 0x80
            &&& (flags % 0x100 == 0) == (word % 0x100 >= 0x80)
            &&& digits / 0x100 % 0x100 == word / 0x100 % 0x100 % 0x80
            &&& (flags / 0x100 % 0x100 == 0) == (word / 0x100 % 0x100 >= 0x80)
            &&& digits / 0x1_0000 % 0x100 == word / 0x1_0000 % 0x100 % 0x80
            &&& (flags / 0x1_0000 % 0x100 == 0) == (word / 0x1_0000 % 0x100 >= 0x80)
            &&& digits / 0x100_0000 % 0x100 == word / 0x100_0000 % 0x100 % 0x80
            &&& (flags / 0x100_0000 % 0x100 == 0) == (word / 0x100_0000 % 0x100 >= 0x80)
            &&& digits / 0x1_0000_0000 % 0x100 == word / 0x1_0000_0000 % 0x100 % 0x80
            &&& (flags / 0x1_0000_0000 % 0x100 == 0) == (word / 0x1_0000_0000 % 0x100 >= 0x80)
            &&& digits / 0x100_0000_0000 % 0x100 == word / 0x100_0000_0000 % 0x100 % 0x80
            &&& (flags / 0x100_0000_0000 % 0x100 == 0) == (word / 0x100_0000_0000 % 0x100 >= 0x80)
            &&& digits / 0x1_0000_0000_0000 % 0x100 == word / 0x1_0000_0000_0000 % 0x100 % 0x80
            &&& (flags / 0x1_0000_0000_0000 % 0x100 == 0) == (word / 0x1_0000_0000_0000 % 0x100
                >= 0x80)
            &&& digits / 0x100_0000_0000_0000 == word / 0x100_0000_0000_0000 % 0x80
            &&& (flags / 0x100_0000_0000_0000 == 0) == (word / 0x100_0000_0000_0000 >= 0x80)
            &&& (!word & !0x7f7f_7f7f_7f7f_7f7fu64 == 0) == (word % 0x100 >= 0x80
                && word / 0x100 % 0x100 >= 0x80
                && word / 0x1_0000 % 0x100 >= 0x80
                && word / 0x100_0000 % 0x100 >= 0x80
                && word / 0x1_0000_0000 % 0x100 >= 0x80
                && word / 0x100_0000_0000 % 0x100 >= 0x80
                && word / 0x1_0000_0000_0000 % 0x100 >= 0x80
                && word / 0x100_0000_0000_0000 >= 0x80)
        }),
{
}

/// Masking a long word masks its bytes, and flags those of which the top bit is clear.
pub(crate) proof fn lemma_masks(word: u64)
    ensures
        le_bytes_long(word).len() == 8,
        le_bytes_long(word & DIGIT_BITS) == low7(le_bytes_long(word)),
        forall|i: int|
            #![trigger le_bytes_long(word)[i]]
            0 <= i < 8 ==> (le_bytes_long(((!word & !DIGIT_BITS) >> 7) & LOWEST_BITS)[i] != 0) == (
            le_bytes_long(word)[i] < 0x80),
        !word & !DIGIT_BITS == 0 <==> forall|i: int| 0 <= i < 8 ==> le_bytes_long(word)[i] >= 0x80,
{
    reveal(le_bytes_long);
    lemma_mask_bytes(word);
    let bytes = le_bytes_long(word);
    if forall|i: int| 0 <= i < 8 ==> bytes[i] >= 0x80 {
        assert(bytes[0] >= 0x80 && bytes[1] >= 0x80 && bytes[2] >= 0x80 && bytes[3] >= 0x80);
        assert(bytes[4] >= 0x80 && bytes[5] >= 0x80 && bytes[6] >= 0x80 && bytes[7] >= 0x80);
    }
}

} // verus!
