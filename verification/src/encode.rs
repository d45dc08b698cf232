//! Writing varints.

use crate::buf::BufMut;
use crate::laws::{lemma_leb128_len, lemma_leb128_len_u64, lemma_leb128_range};
use crate::model::{leb128, MAX_LEN};
use vstd::arithmetic::power2::{
    lemma2_to64_rest, lemma_pow2_pos, lemma_pow2_strictly_increases, pow2,
};
use vstd::bits::lemma_u64_shr_is_div;
use vstd::prelude::*;
use vstd::std_specs::bits::{axiom_u64_leading_zeros, u64_leading_zeros};

verus! {

/// Setting the lowest bit of a number does not change the bits above it.
proof fn lemma_or_one(value: u64, shift: u64)
    by (bit_vector)
    requires
        1 <= shift < 64,
    ensures
        (value | 1) >> shift == value >> shift,
        value <= value | 1,
        value | 1 != 0,
        (value >> shift) & 1 != 0 ==> value >> shift != 0,
{
}

/// The length of an encoding follows from the place of the highest bit.
proof fn lemma_len_from_log2(value: u64, log2value: u32)
    requires
        log2value + u64_leading_zeros(value | 1) == 63,
    ensures
        leb128(value as nat).len() == log2value / 7 + 1,
{
    let place = log2value as u64;
    let len = log2value as nat / 7 + 1;
    axiom_u64_leading_zeros(value | 1);
    lemma2_to64_rest();
    assert(value < pow2(place as nat + 1)) by {
        if place < 63 {
            lemma_or_one(value, (place + 1) as u64);
            lemma_u64_shr_is_div(value, (place + 1) as u64);
            let p = pow2(place as nat + 1);
            lemma_pow2_pos(place as nat + 1);
            assert(value < p) by (nonlinear_arith)
                requires
                    p > 0,
                    value as nat / p == 0,
            ;
        }
    }
    if place + 1 < 7 * len {
        lemma_pow2_strictly_increases(place as nat + 1, 7 * len);
    }
    if len > 1 {
        lemma_or_one(value, place);
        lemma_u64_shr_is_div(value, place);
        let p = pow2(place as nat);
        lemma_pow2_pos(place as nat);
        assert(value >= p) by (nonlinear_arith)
            requires
                p > 0,
                value as nat / p != 0,
        ;
        if 7 * (len - 1) < place {
            lemma_pow2_strictly_increases((7 * (len - 1)) as nat, place as nat);
        }
    }
    lemma_leb128_len(value as nat, len);
}

/// The length of the encoding of a number: from one to ten bytes.
#[inline]
pub fn encoded_len_varint(value: u64) -> (len: usize)
    ensures
        len == leb128(value as nat).len(),
        1 <= len <= 10,
        value < pow2(7 * len as nat),
        len > 1 ==> value >= pow2((7 * (len - 1)) as nat),
{
    proof {
        lemma_or_one(value, 1);
        axiom_u64_leading_zeros(value | 1);
    }
    let log2value: u32 = 63 - (value | 1).leading_zeros();
    proof {
        lemma_len_from_log2(value, log2value);
        lemma_leb128_range(value as nat);
    }
    ((log2value * 9 + (64 + 9)) / 64) as usize
}

/// Cutting a digit off a number.
proof fn lemma_split(value: u64)
    by (bit_vector)
    ensures
        (value & 0x7f) | 0x80 == 0x80 + value % 0x80,
        value >> 7 == value / 0x80,
{
}

/// Appends the encoding of a number to a buffer, which must have room for it. That takes ten
/// bytes at most.
#[inline]
pub fn encode_varint(value: u64, buf: &mut impl BufMut)
    requires
        old(buf).room() >= 10 || old(buf).room() >= leb128(value as nat).len(),
    ensures
        final(buf).written() == old(buf).written() + leb128(value as nat),
        final(buf).room() == old(buf).room() - leb128(value as nat).len(),
{
    let mut rest: u64 = value;
    let mut count: usize = 0;
    proof {
        lemma_leb128_len_u64(value);
    }
    while count < MAX_LEN
        invariant_except_break
            count + leb128(rest as nat).len() == leb128(value as nat).len() <= MAX_LEN,
            leb128(rest as nat).len() >= 1,
            buf.room() >= leb128(rest as nat).len(),
            buf.room() == old(buf).room() - count,
            buf.written() + leb128(rest as nat) == old(buf).written() + leb128(value as nat),
        ensures
            buf.written() == old(buf).written() + leb128(value as nat),
            buf.room() == old(buf).room() - leb128(value as nat).len(),
        decreases MAX_LEN - count,
    {
        let ghost before = buf.written();
        if rest < 0x80 {
            buf.put_u8(rest as u8);
            assert(before + leb128(rest as nat) == before.push(rest as u8));
            break;
        } else {
            proof {
                lemma_split(rest);
                lemma_leb128_len_u64((rest / 0x80) as u64);
            }
            let byte: u8 = ((rest & 0x7f) | 0x80) as u8;
            buf.put_u8(byte);
            assert(before + leb128(rest as nat) == before.push(byte) + leb128(rest as nat / 0x80));
            rest = rest >> 7;
        }
        count = count + 1;
    }
}

} // verus!
