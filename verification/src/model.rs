//! What varints are: the encoding of a number, and the number that a run of bytes starts with.
//!
//! A number is written in base 128, least significant digit first, one digit to a byte. Every
//! byte but the last has its top bit set.

use vstd::arithmetic::power2::{
    lemma2_to64, lemma2_to64_rest, lemma_pow2_adds, lemma_pow2_strictly_increases, pow2,
};
use vstd::prelude::*;

verus! {

/// The most bytes that a varint can have.
pub const MAX_LEN: usize = 10;

/// The encoding of `n`.
pub open spec fn leb128(n: nat) -> Seq<u8>
    decreases n,
{
    if n < 0x80 {
        seq![n as u8]
    } else {
        seq![(0x80 + n % 0x80) as u8] + leb128(n / 0x80)
    }
}

/// The number with the given digits in base 128, least significant first.
pub open spec fn base128(digits: Seq<u8>) -> nat
    decreases digits.len(),
{
    if digits.len() == 0 {
        0
    } else {
        digits[0] as nat + 0x80 * base128(digits.skip(1))
    }
}

/// The digits that the given bytes carry: each without its top bit.
pub open spec fn low7(bytes: Seq<u8>) -> Seq<u8> {
    bytes.map_values(|byte: u8| (byte % 0x80) as u8)
}

/// The number that the given bytes carry.
pub open spec fn payload(bytes: Seq<u8>) -> nat {
    base128(low7(bytes))
}

/// How many bytes there are up to the first one whose top bit is clear, that byte included.
pub open spec fn terminated_len(bytes: Seq<u8>) -> Option<nat>
    decreases bytes.len(),
{
    if bytes.len() == 0 {
        None
    } else if bytes[0] < 0x80 {
        Some(1)
    } else {
        match terminated_len(bytes.skip(1)) {
            Some(n) => Some(n + 1),
            None => None,
        }
    }
}

/// The varint at the start of `bytes`: its value and its length. There is none where no byte
/// ends it, where it is too long, and where its value does not fit.
pub open spec fn decoded(bytes: Seq<u8>) -> Option<(u64, nat)> {
    match terminated_len(bytes) {
        Some(n) => if n <= MAX_LEN && payload(bytes.take(n as int)) <= u64::MAX {
            Some((payload(bytes.take(n as int)) as u64, n))
        } else {
            None
        },
        None => None,
    }
}

/// `bytes` starts with `n` bytes of which only the last has its top bit clear.
pub open spec fn terminated_at(bytes: Seq<u8>, n: nat) -> bool {
    &&& 1 <= n <= bytes.len()
    &&& forall|i: int| 0 <= i < n - 1 ==> bytes[i] >= 0x80
    &&& bytes[n - 1] < 0x80
}

/// `terminated_len` is the one `n` for which `terminated_at` holds.
pub(crate) proof fn lemma_terminated_len(bytes: Seq<u8>)
    ensures
        terminated_len(bytes) matches Some(n) ==> terminated_at(bytes, n),
        terminated_len(bytes) is None ==> forall|i: int|
            0 <= i < bytes.len() ==> bytes[i] >= 0x80,
        forall|n: nat| terminated_at(bytes, n) ==> terminated_len(bytes) == Some(n),
    decreases bytes.len(),
{
    if bytes.len() > 0 && bytes[0] >= 0x80 {
        let rest = bytes.skip(1);
        lemma_terminated_len(rest);
        assert forall|i: int| 1 <= i < bytes.len() implies bytes[i] == rest[i - 1] by {}
        assert forall|n: nat| terminated_at(bytes, n) implies terminated_len(bytes) == Some(n) by {
            assert(terminated_at(rest, (n - 1) as nat)) by {
                assert forall|i: int| 0 <= i < n - 2 implies rest[i] >= 0x80 by {
                    assert(rest[i] == bytes[i + 1]);
                }
            }
        }
    }
}

/// One more digit at the end counts as many times as there are numbers with the digits before it.
proof fn lemma_base128_push(digits: Seq<u8>, digit: u8)
    ensures
        base128(digits.push(digit)) == base128(digits) + digit * pow2(7 * digits.len()),
    decreases digits.len(),
{
    lemma2_to64();
    if digits.len() == 0 {
        assert(base128(digits.push(digit).skip(1)) == 0);
        assert(digit * pow2(7 * digits.len()) == digit) by (nonlinear_arith)
            requires
                pow2(7 * digits.len()) == 1,
        ;
    } else {
        let rest = digits.skip(1);
        lemma_base128_push(rest, digit);
        assert(digits.push(digit).skip(1) == rest.push(digit));
        lemma_pow2_adds(7, 7 * rest.len());
        let weight = pow2(7 * rest.len());
        assert(pow2(7 * digits.len()) == 0x80 * weight);
        assert(0x80 * (digit * weight) == digit * (0x80 * weight)) by (nonlinear_arith);
    }
}

/// `n` digits make less than the `n`th power of 128.
proof fn lemma_base128_bound(digits: Seq<u8>)
    requires
        forall|i: int| 0 <= i < digits.len() ==> digits[i] < 0x80,
    ensures
        base128(digits) < pow2(7 * digits.len()),
    decreases digits.len(),
{
    lemma2_to64();
    if digits.len() > 0 {
        let rest = digits.skip(1);
        lemma_base128_bound(rest);
        lemma_pow2_adds(7, 7 * rest.len());
    }
}

/// What the digit after the first `k` adds to the number that these make.
pub(crate) proof fn lemma_base128_step(digits: Seq<u8>, k: nat)
    ensures
        k < digits.len() ==> base128(digits.take(k as int + 1)) == base128(digits.take(k as int))
            + digits[k as int] * pow2(7 * k),
{
    if k < digits.len() {
        assert(digits.take(k as int + 1) == digits.take(k as int).push(digits[k as int]));
        lemma_base128_push(digits.take(k as int), digits[k as int]);
    }
}

/// What the byte after the first `k` adds to the number that these carry.
pub(crate) proof fn lemma_payload_step(bytes: Seq<u8>, k: nat)
    ensures
        k < bytes.len() ==> payload(bytes.take(k as int + 1)) == payload(bytes.take(k as int)) + (
        bytes[k as int] % 0x80) * pow2(7 * k),
{
    if k < bytes.len() {
        assert(low7(bytes.take(k as int + 1)) == low7(bytes).take(k as int + 1));
        assert(low7(bytes.take(k as int)) == low7(bytes).take(k as int));
        lemma_base128_step(low7(bytes), k);
    }
}

/// `n` bytes carry less than the `n`th power of 128.
pub(crate) proof fn lemma_payload_bound(bytes: Seq<u8>)
    ensures
        payload(bytes) < pow2(7 * bytes.len()),
{
    lemma_base128_bound(low7(bytes));
}

/// The number that the first bytes carry, one byte after the other.
pub(crate) proof fn lemma_payload_sums(bytes: Seq<u8>)
    ensures
        payload(bytes.take(0)) == 0,
        bytes.len() > 0 ==> payload(bytes.take(1)) == bytes[0] % 0x80,
        bytes.len() > 1 ==> payload(bytes.take(2)) == payload(bytes.take(1)) + bytes[1] % 0x80
            * 0x80,
        bytes.len() > 2 ==> payload(bytes.take(3)) == payload(bytes.take(2)) + bytes[2] % 0x80
            * 0x4000,
        bytes.len() > 3 ==> payload(bytes.take(4)) == payload(bytes.take(3)) + bytes[3] % 0x80
            * 0x20_0000,
        bytes.len() > 4 ==> payload(bytes.take(5)) == payload(bytes.take(4)) + bytes[4] % 0x80
            * 0x1000_0000,
        bytes.len() > 5 ==> payload(bytes.take(6)) == payload(bytes.take(5)) + bytes[5] % 0x80
            * 0x8_0000_0000,
        bytes.len() > 6 ==> payload(bytes.take(7)) == payload(bytes.take(6)) + bytes[6] % 0x80
            * 0x400_0000_0000,
        bytes.len() > 7 ==> payload(bytes.take(8)) == payload(bytes.take(7)) + bytes[7] % 0x80
            * 0x2_0000_0000_0000,
        bytes.len() > 8 ==> payload(bytes.take(9)) == payload(bytes.take(8)) + bytes[8] % 0x80
            * 0x100_0000_0000_0000,
        bytes.len() > 9 ==> payload(bytes.take(10)) == payload(bytes.take(9)) + bytes[9] % 0x80
            * 0x8000_0000_0000_0000,
{
    lemma2_to64();
    lemma2_to64_rest();
    lemma_payload_step(bytes, 0);
    lemma_payload_step(bytes, 1);
    lemma_payload_step(bytes, 2);
    lemma_payload_step(bytes, 3);
    lemma_payload_step(bytes, 4);
    lemma_payload_step(bytes, 5);
    lemma_payload_step(bytes, 6);
    lemma_payload_step(bytes, 7);
    lemma_payload_step(bytes, 8);
    lemma_payload_step(bytes, 9);
    assert(low7(bytes.take(0)) == Seq::<u8>::empty());
    assert((bytes[0] % 0x80) * pow2(0) == bytes[0] % 0x80) by (nonlinear_arith)
        requires
            pow2(0) == 1,
    ;
}

/// Where a varint ends in time, and its tenth byte, if there is one, holds no more than the bit
/// that is left, the varint is what the bytes up to its end carry.
pub(crate) proof fn lemma_decoded_some(bytes: Seq<u8>, n: nat)
    requires
        terminated_at(bytes, n),
        n <= MAX_LEN,
        n == MAX_LEN ==> bytes[9] < 2,
    ensures
        payload(bytes.take(n as int)) <= u64::MAX,
        decoded(bytes) == Some((payload(bytes.take(n as int)) as u64, n)),
{
    lemma_terminated_len(bytes);
    lemma2_to64_rest();
    if n < MAX_LEN {
        lemma_base128_bound(low7(bytes.take(n as int)));
        lemma_pow2_strictly_increases(7 * n, 64);
    } else {
        lemma_base128_bound(low7(bytes.take(9)));
        lemma_payload_sums(bytes);
    }
}

/// Where none of the first nine bytes ends a varint, and the tenth, if there is one, holds more
/// than the bit that is left, there is no varint.
pub(crate) proof fn lemma_decoded_none(bytes: Seq<u8>)
    requires
        forall|i: int| 0 <= i < bytes.len() && i < 9 ==> bytes[i] >= 0x80,
        bytes.len() >= MAX_LEN ==> bytes[9] >= 2,
    ensures
        decoded(bytes) is None,
{
    lemma_terminated_len(bytes);
    lemma_payload_sums(bytes);
}

} // verus!
