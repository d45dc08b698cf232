//! Reading varints.

use crate::buf::{lemma_read_past, read_past, Buf};
use crate::error::DecodeError;
use crate::laws::lemma_decoded_prefix;
use crate::model::{
    base128, decoded, lemma_base128_step, lemma_decoded_none, lemma_decoded_some,
    lemma_payload_bound, lemma_payload_step, lemma_payload_sums, lemma_terminated_len, low7,
    payload, terminated_at, terminated_len, MAX_LEN,
};
use crate::words::{
    decode_varint_10, decode_varint_9, le_bytes, le_bytes_long, lemma_masks, load_long, load_word,
    store_long, DIGIT_BITS, LOWEST_BITS,
};
use vstd::arithmetic::power2::{lemma2_to64, lemma2_to64_rest, lemma_pow2_strictly_increases, pow2};
use vstd::bits::lemma_u64_shl_is_mul;
use vstd::prelude::*;

verus! {

/// Whether an error is the one that every decoding function gives.
pub open spec fn invalid_varint(error: DecodeError) -> bool {
    error@ == "invalid varint"@
}

/// Shifting a byte by whole digits multiplies it by powers of 128.
proof fn lemma_shift_byte(b: u32)
    by (bit_vector)
    requires
        b <= 0xff,
    ensures
        b << 7 == b * 0x80,
        b << 14 == b * 0x4000,
        b << 21 == b * 0x20_0000,
{
}

/// Shifting a number of four digits by four digits.
proof fn lemma_shift_28(part: u64)
    by (bit_vector)
    requires
        part <= 0xffff_ffff,
    ensures
        part << 28 == part * 0x1000_0000,
{
}

/// Shifting a byte by eight digits.
proof fn lemma_shift_56(part: u64)
    by (bit_vector)
    requires
        part <= 0xff,
    ensures
        part << 56 == part * 0x100_0000_0000_0000,
{
}

/// The number that the first `n` digits make.
#[verifier::opaque]
spec fn carried(digits: Seq<u8>, n: nat) -> nat {
    base128(digits.take(n as int))
}

/// None of the first `n` bytes ends a varint.
#[verifier::opaque]
spec fn continued(bytes: Seq<u8>, n: nat) -> bool {
    forall|i: int| 0 <= i < n ==> bytes[i] >= 0x80
}

/// A byte without its top bit.
spec fn digit(byte: u8) -> int {
    if byte < 0x80 {
        byte as int
    } else {
        byte - 0x80
    }
}

/// What a digit counts that stands after `n` others.
spec fn placed(digit: int, n: nat) -> int {
    if n == 0 {
        digit
    } else if n == 1 {
        digit * 0x80
    } else if n == 2 {
        digit * 0x4000
    } else if n == 3 {
        digit * 0x20_0000
    } else if n == 4 {
        digit * 0x1000_0000
    } else if n == 5 {
        digit * 0x8_0000_0000
    } else if n == 6 {
        digit * 0x400_0000_0000
    } else if n == 7 {
        digit * 0x2_0000_0000_0000
    } else if n == 8 {
        digit * 0x100_0000_0000_0000
    } else {
        digit * 0x8000_0000_0000_0000
    }
}

/// Places count by powers of 128.
proof fn lemma_placed(digit: int, n: nat)
    requires
        n < MAX_LEN,
    ensures
        placed(digit, n) == digit * pow2(7 * n),
{
    lemma2_to64();
    lemma2_to64_rest();
    assert(digit * pow2(0) == digit) by (nonlinear_arith)
        requires
            pow2(0) == 1,
    ;
}

/// No digits make nothing, and each adds what it counts in its place.
proof fn lemma_carried(digits: Seq<u8>, n: nat)
    requires
        n < digits.len(),
        n < MAX_LEN,
    ensures
        n == 0 ==> carried(digits, n) == 0,
        carried(digits, n + 1) == carried(digits, n) + placed(digits[n as int] as int, n),
{
    reveal(carried);
    lemma_base128_step(digits, n);
    lemma_placed(digits[n as int] as int, n);
}

/// What the byte after the first `n` adds to these.
proof fn lemma_next(bytes: Seq<u8>, n: nat)
    requires
        n < bytes.len(),
        n < MAX_LEN,
        n == 0 || continued(bytes, n),
    ensures
        n == 0 ==> carried(low7(bytes), n) == 0,
        carried(low7(bytes), n + 1) == carried(low7(bytes), n) + placed(digit(bytes[n as int]), n),
        bytes[n as int] >= 0x80 ==> continued(bytes, n + 1),
{
    reveal(continued);
    lemma_carried(low7(bytes), n);
}

/// A varint that ends with the byte after the first `n`.
proof fn lemma_found(bytes: Seq<u8>, n: nat)
    requires
        n < bytes.len(),
        n == 0 || continued(bytes, n),
        bytes[n as int] < 0x80,
        n < 9 || n == 9 && bytes[9] < 2,
    ensures
        carried(low7(bytes), n + 1) <= u64::MAX,
        decoded(bytes) == Some((carried(low7(bytes), n + 1) as u64, n + 1)),
{
    reveal(carried);
    reveal(continued);
    assert(low7(bytes.take(n as int + 1)) == low7(bytes).take(n as int + 1));
    lemma_decoded_some(bytes, n + 1);
}

/// Decodes the varint at the start of a slice, and tells its value and its length.
///
/// The slice must not be empty, and must either have room for the longest varint or end in a
/// byte that ends one.
#[inline]
pub fn decode_varint_slice(bytes: &[u8]) -> (res: Result<(u64, usize), DecodeError>)
    requires
        bytes@.len() > 0,
        bytes@.len() >= 10 || bytes@.last() < 0x80,
    ensures
        match decoded(bytes@) {
            Some((value, len)) => res matches Ok(pair) && pair.0 == value && pair.1 == len,
            None => res matches Err(error) && invalid_varint(error) && error@ == "invalid varint"@,
        },
{
    let mut b: u8 = bytes[0];
    let mut part0: u32 = b as u32;
    proof {
        lemma_next(bytes@, 0);
    }
    if b < 0x80 {
        proof {
            lemma_found(bytes@, 0);
        }
        return Ok((part0 as u64, 1));
    }
    part0 = part0 - 0x80;
    assert(part0 == carried(low7(bytes@), 1) && part0 < 0x80);
    b = bytes[1];
    proof {
        lemma_next(bytes@, 1);
        lemma_shift_byte(b as u32);
    }
    part0 = part0 + ((b as u32) << 7);
    if b < 0x80 {
        proof {
            lemma_found(bytes@, 1);
        }
        return Ok((part0 as u64, 2));
    }
    part0 = part0 - 0x4000;
    assert(part0 == carried(low7(bytes@), 2) && part0 < 0x4000);
    b = bytes[2];
    proof {
        lemma_next(bytes@, 2);
        lemma_shift_byte(b as u32);
    }
    part0 = part0 + ((b as u32) << 14);
    if b < 0x80 {
        proof {
            lemma_found(bytes@, 2);
        }
        return Ok((part0 as u64, 3));
    }
    part0 = part0 - 0x20_0000;
    assert(part0 == carried(low7(bytes@), 3) && part0 < 0x20_0000);
    b = bytes[3];
    proof {
        lemma_next(bytes@, 3);
        lemma_shift_byte(b as u32);
    }
    part0 = part0 + ((b as u32) << 21);
    if b < 0x80 {
        proof {
            lemma_found(bytes@, 3);
        }
        return Ok((part0 as u64, 4));
    }
    part0 = part0 - 0x1000_0000;
    assert(part0 == carried(low7(bytes@), 4) && part0 < 0x1000_0000);
    let value: u64 = part0 as u64;

    b = bytes[4];
    let mut part1: u32 = b as u32;
    proof {
        lemma_next(bytes@, 4);
    }
    if b < 0x80 {
        proof {
            lemma_shift_28(part1 as u64);
            lemma_found(bytes@, 4);
        }
        return Ok((value + ((part1 as u64) << 28), 5));
    }
    part1 = part1 - 0x80;
    assert(value + part1 * 0x1000_0000 == carried(low7(bytes@), 5) && part1 < 0x80);
    b = bytes[5];
    proof {
        lemma_next(bytes@, 5);
        lemma_shift_byte(b as u32);
    }
    part1 = part1 + ((b as u32) << 7);
    if b < 0x80 {
        proof {
            lemma_shift_28(part1 as u64);
            lemma_found(bytes@, 5);
        }
        return Ok((value + ((part1 as u64) << 28), 6));
    }
    part1 = part1 - 0x4000;
    assert(value + part1 * 0x1000_0000 == carried(low7(bytes@), 6) && part1 < 0x4000);
    b = bytes[6];
    proof {
        lemma_next(bytes@, 6);
        lemma_shift_byte(b as u32);
    }
    part1 = part1 + ((b as u32) << 14);
    if b < 0x80 {
        proof {
            lemma_shift_28(part1 as u64);
            lemma_found(bytes@, 6);
        }
        return Ok((value + ((part1 as u64) << 28), 7));
    }
    part1 = part1 - 0x20_0000;
    assert(value + part1 * 0x1000_0000 == carried(low7(bytes@), 7) && part1 < 0x20_0000);
    b = bytes[7];
    proof {
        lemma_next(bytes@, 7);
        lemma_shift_byte(b as u32);
    }
    part1 = part1 + ((b as u32) << 21);
    if b < 0x80 {
        proof {
            lemma_shift_28(part1 as u64);
            lemma_found(bytes@, 7);
        }
        return Ok((value + ((part1 as u64) << 28), 8));
    }
    part1 = part1 - 0x1000_0000;
    assert(value + part1 * 0x1000_0000 == carried(low7(bytes@), 8) && part1 < 0x1000_0000);
    proof {
        lemma_shift_28(part1 as u64);
    }
    let value: u64 = value + ((part1 as u64) << 28);

    b = bytes[8];
    let mut part2: u32 = b as u32;
    proof {
        lemma_next(bytes@, 8);
    }
    if b < 0x80 {
        proof {
            lemma_shift_56(part2 as u64);
            lemma_found(bytes@, 8);
        }
        return Ok((value + ((part2 as u64) << 56), 9));
    }
    part2 = part2 - 0x80;
    b = bytes[9];
    proof {
        lemma_next(bytes@, 9);
        lemma_shift_byte(b as u32);
    }
    part2 = part2 + ((b as u32) << 7);
    // One bit of the value is left for the tenth byte.
    if b < 0x02 {
        proof {
            lemma_shift_56(part2 as u64);
            lemma_found(bytes@, 9);
        }
        return Ok((value + ((part2 as u64) << 56), 10));
    }
    proof {
        reveal(continued);
        lemma_decoded_none(bytes@);
    }
    Err(DecodeError::new("invalid varint"))
}

/// The first of the flags that is set is the `n`th, or none of the first seven is, and `n` is
/// eight.
pub open spec fn completed_at(completions: Seq<bool>, n: nat) -> bool {
    &&& 1 <= n <= 8
    &&& forall|i: int| 0 <= i < n - 1 ==> !completions[i]
    &&& n < 8 ==> completions[n - 1]
}

/// What [`carried`] stands for.
proof fn lemma_carried_is(digits: Seq<u8>, n: nat)
    ensures
        carried(digits, n) == base128(digits.take(n as int)),
{
    reveal(carried);
}

/// Joins up to eight digits: those up to the first one that is marked as completing a varint.
/// Eight digits complete it, whether the eighth is marked or not.
pub fn decode_varint_8_or_less(uncompleted: [u8; 8], completions: [bool; 8]) -> (res: (u64, usize))
    ensures
        completed_at(completions@, res.1 as nat),
        1 <= res.1 <= 8,
        forall|i: int| 0 <= i < res.1 - 1 ==> !completions@[i],
        res.1 < 8 ==> completions@[res.1 - 1],
        res.0 == base128(uncompleted@.take(res.1 as int)),
{
    proof {
        lemma_carried(uncompleted@, 0);
        lemma_carried_is(uncompleted@, 1);
        lemma_shift_byte(uncompleted@[0] as u32);
    }
    let mut part0: u32 = uncompleted[0] as u32;
    if completions[0] {
        return (part0 as u64, 1);
    }
    proof {
        lemma_carried(uncompleted@, 1);
        lemma_carried_is(uncompleted@, 2);
        lemma_shift_byte(uncompleted@[1] as u32);
    }
    part0 = part0 + ((uncompleted[1] as u32) << 7);
    if completions[1] {
        return (part0 as u64, 2);
    }
    proof {
        lemma_carried(uncompleted@, 2);
        lemma_carried_is(uncompleted@, 3);
        lemma_shift_byte(uncompleted@[2] as u32);
    }
    part0 = part0 + ((uncompleted[2] as u32) << 14);
    if completions[2] {
        return (part0 as u64, 3);
    }
    proof {
        lemma_carried(uncompleted@, 3);
        lemma_carried_is(uncompleted@, 4);
        lemma_shift_byte(uncompleted@[3] as u32);
    }
    part0 = part0 + ((uncompleted[3] as u32) << 21);
    if completions[3] {
        return (part0 as u64, 4);
    }
    let value: u64 = part0 as u64;

    proof {
        lemma_carried(uncompleted@, 4);
        lemma_carried_is(uncompleted@, 5);
        lemma_shift_byte(uncompleted@[4] as u32);
    }
    let mut part1: u32 = uncompleted[4] as u32;
    proof {
        lemma_shift_28(part1 as u64);
    }
    if completions[4] {
        return (value + ((part1 as u64) << 28), 5);
    }
    proof {
        lemma_carried(uncompleted@, 5);
        lemma_carried_is(uncompleted@, 6);
        lemma_shift_byte(uncompleted@[5] as u32);
    }
    part1 = part1 + ((uncompleted[5] as u32) << 7);
    proof {
        lemma_shift_28(part1 as u64);
    }
    if completions[5] {
        return (value + ((part1 as u64) << 28), 6);
    }
    proof {
        lemma_carried(uncompleted@, 6);
        lemma_carried_is(uncompleted@, 7);
        lemma_shift_byte(uncompleted@[6] as u32);
    }
    part1 = part1 + ((uncompleted[6] as u32) << 14);
    proof {
        lemma_shift_28(part1 as u64);
    }
    if completions[6] {
        return (value + ((part1 as u64) << 28), 7);
    }
    proof {
        lemma_carried(uncompleted@, 7);
        lemma_carried_is(uncompleted@, 8);
        lemma_shift_byte(uncompleted@[7] as u32);
    }
    part1 = part1 + ((uncompleted[7] as u32) << 21);
    proof {
        lemma_shift_28(part1 as u64);
    }
    (value + ((part1 as u64) << 28), 8)
}

/// Putting a digit in place above a number that leaves room for it.
proof fn lemma_or_shifted(value: u64, digit: u64, shift: u64)
    by (bit_vector)
    requires
        shift < 64,
        value < 1u64 << shift,
    ensures
        value | (digit << shift) == value + (digit << shift),
{
}

/// A byte cut to seven bits.
proof fn lemma_low_bits(byte: u8)
    by (bit_vector)
    ensures
        byte & 0x7f == byte % 0x80,
{
}

/// What one more byte makes of the number that the bytes before it carry.
proof fn lemma_slow_step(bytes: Seq<u8>, count: nat, value: u64)
    requires
        count < bytes.len(),
        count < 9 || count == 9 && bytes[9] < 2,
        value == payload(bytes.take(count as int)),
    ensures
        value | ((bytes[count as int] & 0x7f) as u64) << ((count * 7) as u64) == payload(
            bytes.take(count as int + 1),
        ),
{
    let digit = (bytes[count as int] & 0x7f) as u64;
    let shift = (count * 7) as u64;
    lemma_low_bits(bytes[count as int]);
    lemma_payload_step(bytes, count);
    lemma2_to64_rest();
    lemma_payload_bound(bytes.take(count as int));
    lemma_payload_bound(bytes.take(count as int + 1));
    lemma_pow2_strictly_increases(shift as nat, 64);
    lemma_u64_shl_is_mul(1, shift);
    assert(digit * pow2(shift as nat) <= u64::MAX) by {
        if count < 9 {
            lemma_pow2_strictly_increases(shift as nat + 7, 64);
        } else {
            assert(pow2(63) == 0x8000_0000_0000_0000);
            assert(digit * pow2(63) <= u64::MAX) by (nonlinear_arith)
                requires
                    digit < 2,
                    pow2(63) == 0x8000_0000_0000_0000,
            ;
        }
    }
    lemma_u64_shl_is_mul(digit, shift);
    lemma_or_shifted(value, digit, shift);
}

/// How many bytes there are to read before it is clear that there is no varint: all of them, or
/// as many as a varint can have.
pub open spec fn given_up(bytes: Seq<u8>) -> nat {
    if bytes.len() < MAX_LEN {
        bytes.len()
    } else {
        MAX_LEN as nat
    }
}

/// Decodes a varint byte by byte, wherever the bytes lie.
///
/// Where there is none, as many bytes are gone as a varint could have had.
#[inline(never)]
pub fn decode_varint_slow(buf: &mut impl Buf) -> (res: Result<u64, DecodeError>)
    ensures
        match decoded(old(buf).unread()) {
            Some((value, len)) => {
                &&& res == Ok::<u64, DecodeError>(value)
                &&& read_past(*old(buf), len, *final(buf))
                &&& len <= old(buf).unread().len()
                &&& final(buf).unread() == old(buf).unread().skip(len as int)
                &&& final(buf).unread().len() == old(buf).unread().len() - len
                &&& forall|m: nat|
                    len + m <= old(buf).unread().len() ==> #[trigger] final(buf).front_at(m) == old(
                        buf,
                    ).front_at(len + m)
            },
            None => {
                &&& res matches Err(error) && invalid_varint(error) && error@ == "invalid varint"@
                &&& read_past(*old(buf), given_up(old(buf).unread()), *final(buf))
                &&& old(buf).unread().len() <= 10 ==> final(buf).unread().len() == 0
                &&& old(buf).unread().len() >= 10 ==> final(buf).unread() == old(
                    buf,
                ).unread().skip(10)
            },
        },
{
    let ghost bytes = buf.unread();
    let remaining = buf.remaining();
    let end: usize = if remaining < MAX_LEN {
        remaining
    } else {
        MAX_LEN
    };
    let mut value: u64 = 0;
    let mut count: usize = 0;
    proof {
        lemma_payload_sums(bytes);
    }
    while count < end
        invariant
            bytes == old(buf).unread(),
            end == given_up(bytes),
            count <= end,
            read_past(*old(buf), count as nat, *buf),
            forall|i: int| 0 <= i < count ==> bytes[i] >= 0x80,
            count < MAX_LEN ==> value == payload(bytes.take(count as int)),
        decreases end - count,
    {
        let ghost between = *buf;
        let byte = buf.get_u8();
        let shift: u64 = count as u64 * 7;
        proof {
            lemma_read_past(*old(buf), count as nat, between, 1, *buf);
            if count < 9 || byte < 2 {
                lemma_slow_step(bytes, count as nat, value);
            }
        }
        value = value | (((byte & 0x7f) as u64) << shift);
        if byte <= 0x7f {
            // One bit of the value is left for the tenth byte.
            if count == 9 && byte >= 0x02 {
                proof {
                    lemma_decoded_none(bytes);
                }
                return Err(DecodeError::new("invalid varint"));
            } else {
                proof {
                    lemma_decoded_some(bytes, count as nat + 1);
                }
                return Ok(value);
            }
        }
        count = count + 1;
    }
    proof {
        lemma_decoded_none(bytes);
    }
    Err(DecodeError::new("invalid varint"))
}

/// A varint that ends within the first long word is what the marked digits make.
proof fn lemma_within_8(unread: Seq<u8>, word: u64, flags: Seq<bool>, n: nat)
    requires
        unread.len() >= 8,
        le_bytes_long(word) == unread.take(8),
        !word & !DIGIT_BITS != 0,
        flags.len() == 8,
        forall|i: int|
            0 <= i < 8 ==> flags[i] == (le_bytes_long(((!word & !DIGIT_BITS) >> 7) & LOWEST_BITS)[i]
                != 0),
        completed_at(flags, n),
    ensures
        base128(le_bytes_long(word & DIGIT_BITS).take(n as int)) <= u64::MAX,
        decoded(unread) == Some(
            (base128(le_bytes_long(word & DIGIT_BITS).take(n as int)) as u64, n),
        ),
{
    lemma_masks(word);
    assert(forall|i: int| 0 <= i < 8 ==> le_bytes_long(word)[i] == unread[i]);
    assert forall|i: int| 0 <= i < 8 implies (#[trigger] unread[i] < 0x80) == flags[i] by {
        assert(le_bytes_long(word)[i] == unread[i]);
    }
    if n == 8 && unread[7] >= 0x80 {
        assert forall|i: int| 0 <= i < 8 implies le_bytes_long(word)[i] >= 0x80 by {
            assert((unread[i] < 0x80) == flags[i]);
        }
    }
    assert(terminated_at(unread, n));
    assert(low7(unread.take(8)).take(n as int) == low7(unread.take(n as int)));
    lemma_decoded_some(unread, n);
}

/// None of the bytes in a long word without flags ends a varint.
proof fn lemma_beyond_8(unread: Seq<u8>, word: u64)
    requires
        unread.len() >= 8,
        le_bytes_long(word) == unread.take(8),
        !word & !DIGIT_BITS == 0,
    ensures
        forall|i: int| 0 <= i < 8 ==> unread[i] >= 0x80,
{
    lemma_masks(word);
    assert(forall|i: int| 0 <= i < 8 ==> le_bytes_long(word)[i] == unread[i]);
}

/// A varint of nine bytes.
proof fn lemma_nine(unread: Seq<u8>, low: u32, high: u32, byte_9: u8)
    requires
        unread.len() >= 9,
        forall|i: int| 0 <= i < 8 ==> unread[i] >= 0x80,
        le_bytes(low) == unread.subrange(0, 4),
        le_bytes(high) == unread.subrange(4, 8),
        byte_9 == unread[8],
        byte_9 < 0x80,
    ensures
        payload((le_bytes(low) + le_bytes(high)).push(byte_9)) <= u64::MAX,
        decoded(unread) == Some(
            (payload((le_bytes(low) + le_bytes(high)).push(byte_9)) as u64, 9nat),
        ),
{
    assert((le_bytes(low) + le_bytes(high)).push(byte_9) == unread.take(9));
    lemma_decoded_some(unread, 9);
}

/// A varint of ten bytes.
proof fn lemma_ten(unread: Seq<u8>, low: u32, high: u32, byte_9: u8, byte_10: u8)
    requires
        unread.len() >= 10,
        forall|i: int| 0 <= i < 8 ==> unread[i] >= 0x80,
        le_bytes(low) == unread.subrange(0, 4),
        le_bytes(high) == unread.subrange(4, 8),
        byte_9 == unread[8],
        byte_9 >= 0x80,
        byte_10 == unread[9],
        byte_10 < 2,
    ensures
        payload((le_bytes(low) + le_bytes(high)).push(byte_9).push((byte_10 % 2) as u8))
            <= u64::MAX,
        decoded(unread) == Some(
            (
                payload(
                    (le_bytes(low) + le_bytes(high)).push(byte_9).push((byte_10 % 2) as u8),
                ) as u64,
                10nat,
            ),
        ),
{
    assert((le_bytes(low) + le_bytes(high)).push(byte_9).push(byte_10) == unread.take(10));
    lemma_decoded_some(unread, 10);
}

/// A front that is short, and ends a varint at the latest with its last byte.
proof fn lemma_short(front: Seq<u8>, unread: Seq<u8>)
    requires
        0 < front.len() < MAX_LEN,
        front.last() < 0x80,
        front.is_prefix_of(unread),
    ensures
        decoded(front) is Some,
        decoded(unread) == decoded(front),
        decoded(front).unwrap().1 <= front.len(),
{
    lemma_terminated_len(front);
    lemma_decoded_some(front, terminated_len(front).unwrap());
    lemma_decoded_prefix(front, unread);
}

/// Decodes the varint at the start of a buffer.
///
/// Where there is none, and the front of the buffer has room for the longest varint, the buffer
/// is left as it is. Where the front is shorter, as many bytes are gone as a varint could have
/// had.
#[inline]
pub fn decode_varint(buf: &mut impl Buf) -> (res: Result<u64, DecodeError>)
    ensures
        match decoded(old(buf).unread()) {
            Some((value, len)) => {
                &&& res == Ok::<u64, DecodeError>(value)
                &&& read_past(*old(buf), len, *final(buf))
                &&& len <= old(buf).unread().len()
                &&& final(buf).unread() == old(buf).unread().skip(len as int)
                &&& final(buf).unread().len() == old(buf).unread().len() - len
                &&& forall|m: nat|
                    len + m <= old(buf).unread().len() ==> #[trigger] final(buf).front_at(m) == old(
                        buf,
                    ).front_at(len + m)
            },
            None => {
                &&& res matches Err(error) && invalid_varint(error) && error@ == "invalid varint"@
                &&& if old(buf).front_at(0).len() >= 10 {
                    *final(buf) == *old(buf)
                } else {
                    &&& read_past(*old(buf), given_up(old(buf).unread()), *final(buf))
                    &&& old(buf).unread().len() <= 10 ==> final(buf).unread().len() == 0
                    &&& old(buf).unread().len() >= 10 ==> final(buf).unread() == old(
                        buf,
                    ).unread().skip(10)
                }
            },
        },
{
    let bytes = buf.chunk();
    let len = bytes.len();
    let ghost front = bytes@;
    let ghost unread = buf.unread();
    assert(forall|i: int| 0 <= i < len ==> front[i] == unread[i]);
    if len == 0 {
        return Err(DecodeError::new("invalid varint"));
    }
    let byte = bytes[0];
    if byte < 0x80 {
        // One byte.
        proof {
            lemma_payload_sums(unread);
            lemma_decoded_some(unread, 1);
        }
        buf.advance(1);
        Ok(byte as u64)
    } else if len >= MAX_LEN || (len >= 8 && bytes[len - 1] < 0x80) {
        let first_8 = load_long(bytes);
        let completions: u64 = !first_8 & !DIGIT_BITS;
        assert(front.take(8) == unread.take(8));
        if completions != 0 {
            // At most eight bytes.
            let flags = store_long((completions >> 7) & LOWEST_BITS);
            let flags: [bool; 8] = [
                flags[0] != 0,
                flags[1] != 0,
                flags[2] != 0,
                flags[3] != 0,
                flags[4] != 0,
                flags[5] != 0,
                flags[6] != 0,
                flags[7] != 0,
            ];
            let (value, advance) = decode_varint_8_or_less(store_long(first_8 & DIGIT_BITS), flags);
            proof {
                lemma_within_8(unread, first_8, flags@, advance as nat);
            }
            buf.advance(advance);
            Ok(value)
        } else {
            // Nine or ten bytes.
            let first_4 = load_word(bytes, 0);
            let second_4 = load_word(bytes, 4);
            proof {
                lemma_beyond_8(unread, first_8);
                assert(front.subrange(0, 4) == unread.subrange(0, 4));
                assert(front.subrange(4, 8) == unread.subrange(4, 8));
            }
            let byte_9 = bytes[8];
            if byte_9 < 0x80 {
                proof {
                    lemma_nine(unread, first_4, second_4, byte_9);
                }
                buf.advance(9);
                Ok(decode_varint_9(first_4, second_4, byte_9))
            } else {
                let byte_10 = bytes[9];
                if byte_10 > 0b0000_0001 {
                    // The tenth byte goes on, or its value does not fit.
                    proof {
                        lemma_decoded_none(unread);
                    }
                    return Err(DecodeError::new("invalid varint"));
                }
                proof {
                    lemma_ten(unread, first_4, second_4, byte_9, byte_10);
                }
                buf.advance(10);
                Ok(decode_varint_10(first_4, second_4, byte_9, byte_10))
            }
        }
    } else if bytes[len - 1] < 0x80 {
        // Fewer than eight bytes, the last of which ends a varint at the latest.
        proof {
            lemma_short(front, unread);
        }
        let (value, advance) = match decode_varint_slice(bytes) {
            Ok(pair) => pair,
            Err(error) => return Err(error),
        };
        buf.advance(advance);
        Ok(value)
    } else {
        // The varint may go on behind the front.
        decode_varint_slow(buf)
    }
}

} // verus!
