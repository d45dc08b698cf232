//! What holds of varints as a whole.

use crate::buf::{
    chain_first, chain_last, lemma_chain_contents, lemma_slice_contents, read_past, Buf,
};
use crate::decode::{given_up, invalid_varint};
use crate::error::DecodeError;
use crate::model::{
    base128, decoded, leb128, lemma_base128_step, lemma_decoded_none, lemma_decoded_some,
    lemma_payload_bound, lemma_terminated_len, low7, payload, terminated_at, terminated_len,
    MAX_LEN,
};
use crate::words::le_bytes;
use bytes::buf::Chain;
use vstd::arithmetic::div_mod::{lemma_div_basics_2, lemma_div_denominator};
use vstd::arithmetic::power2::{
    lemma2_to64, lemma2_to64_rest, lemma_pow2_adds, lemma_pow2_pos, lemma_pow2_strictly_increases,
    pow2,
};
use vstd::prelude::*;

verus! {

/// A varint is not changed by what follows it: where there is one at the start of `bytes`, the
/// same one is at the start of everything that starts with `bytes`.
pub proof fn lemma_decoded_prefix(bytes: Seq<u8>, longer: Seq<u8>)
    requires
        decoded(bytes) is Some,
        bytes.is_prefix_of(longer),
    ensures
        decoded(longer) == decoded(bytes),
{
    lemma_terminated_len(bytes);
    lemma_terminated_len(longer);
    let n = terminated_len(bytes).unwrap();
    assert(forall|i: int| 0 <= i < bytes.len() ==> bytes[i] == longer[i]);
    assert(terminated_at(longer, n));
    assert(longer.take(n as int) == bytes.take(n as int));
}

/// An encoding has as many bytes as the number has digits in base 128, and at least one.
pub proof fn lemma_leb128_len(n: nat, len: nat)
    requires
        len >= 1,
        n < pow2(7 * len),
        len == 1 || n >= pow2((7 * (len - 1)) as nat),
    ensures
        leb128(n).len() == len,
    decreases len,
{
    lemma2_to64();
    if len > 1 {
        let rest = (len - 1) as nat;
        lemma_pow2_adds(7, 7 * rest);
        if len > 2 {
            lemma_pow2_adds(7, (7 * (rest - 1)) as nat);
            lemma_pow2_pos((7 * (rest - 1)) as nat);
        }
        lemma_leb128_len(n / 0x80, rest);
    }
}

/// A number is less than 128 to the power of the length of its encoding, and, where that has more
/// than one byte, not less than the power below.
pub proof fn lemma_leb128_range(n: nat)
    ensures
        leb128(n).len() >= 1,
        n < pow2(7 * leb128(n).len()),
        leb128(n).len() > 1 ==> n >= pow2((7 * (leb128(n).len() - 1)) as nat),
    decreases n,
{
    lemma2_to64();
    if n >= 0x80 {
        let len = leb128(n / 0x80).len();
        lemma_leb128_range(n / 0x80);
        lemma_pow2_adds(7, 7 * len);
        if len > 1 {
            lemma_pow2_adds(7, (7 * (len - 1)) as nat);
        }
    }
}

/// Cutting off a digit and then `k` more is cutting off all of them.
proof fn lemma_cut(n: nat, k: nat)
    ensures
        n / 0x80 / pow2(7 * k) == n / pow2(7 * (k + 1)),
{
    lemma2_to64();
    lemma_pow2_adds(7, 7 * k);
    lemma_pow2_pos(7 * k);
    lemma_div_denominator(n as int, 0x80, pow2(7 * k) as int);
}

/// Each byte of an encoding is the digit of the number that its place calls for, and has its top
/// bit set unless it is the last.
pub proof fn lemma_leb128_bytes(n: nat, i: nat)
    requires
        i < leb128(n).len(),
    ensures
        i < leb128(n).len() - 1 ==> leb128(n)[i as int] == 0x80 + n / pow2(7 * i) % 0x80,
        i == leb128(n).len() - 1 ==> leb128(n)[i as int] == n / pow2(7 * i) && leb128(n)[i as int]
            < 0x80,
    decreases n,
{
    lemma2_to64();
    if i == 0 {
        assert(n / pow2(0) == n) by {
            lemma_div_basics_2(n as int);
        }
    }
    if n >= 0x80 {
        lemma_leb128_range(n / 0x80);
        if i > 0 {
            lemma_leb128_bytes(n / 0x80, (i - 1) as nat);
            lemma_cut(n, (i - 1) as nat);
        }
    }
}

/// The digits of the number that bytes carry are those bytes without their top bits.
proof fn lemma_payload_digit(bytes: Seq<u8>, i: nat)
    requires
        i < bytes.len(),
    ensures
        payload(bytes) / pow2(7 * i) % 0x80 == bytes[i as int] % 0x80,
    decreases bytes.len(),
{
    lemma2_to64();
    let rest = bytes.skip(1);
    assert(low7(bytes).skip(1) == low7(rest));
    assert(payload(bytes) == bytes[0] % 0x80 + 0x80 * payload(rest));
    if i == 0 {
        lemma_div_basics_2(payload(bytes) as int);
    } else {
        lemma_payload_digit(rest, (i - 1) as nat);
        lemma_cut(payload(bytes), (i - 1) as nat);
    }
}

/// A varint ends with its first byte whose top bit is clear, within ten bytes, and its value has
/// the digits that its bytes carry and no others.
pub proof fn lemma_decoded_digits(bytes: Seq<u8>)
    ensures
        decoded(bytes) matches Some((value, len)) ==> {
            &&& 1 <= len <= 10
            &&& len <= bytes.len()
            &&& forall|i: int| 0 <= i < len - 1 ==> bytes[i] >= 0x80
            &&& bytes[len - 1] < 0x80
            &&& value < pow2(7 * len)
            &&& forall|i: nat|
                i < len ==> value as nat / (#[trigger] pow2(7 * i)) % 0x80 == bytes[i as int] % 0x80
        },
{
    lemma_terminated_len(bytes);
    if decoded(bytes) is Some {
        let (value, len) = decoded(bytes).unwrap();
        let own = bytes.take(len as int);
        lemma_payload_bound(own);
        assert forall|i: nat| i < len implies value as nat / (#[trigger] pow2(7 * i)) % 0x80
            == bytes[i as int] % 0x80 by {
            lemma_payload_digit(own, i);
        }
    }
}

/// There is no varint exactly where none of the first nine bytes has its top bit clear, and the
/// tenth, if there is one, is more than the one bit for which there is room.
pub proof fn lemma_decoded_refusal(bytes: Seq<u8>)
    ensures
        decoded(bytes) is None <==> (forall|i: int|
            0 <= i < bytes.len() && i < 9 ==> bytes[i] >= 0x80) && (bytes.len() >= 10 ==> bytes[9]
            >= 2),
{
    lemma_terminated_len(bytes);
    if (forall|i: int| 0 <= i < bytes.len() && i < 9 ==> bytes[i] >= 0x80) && (bytes.len() >= 10
        ==> bytes[9] >= 2) {
        lemma_decoded_none(bytes);
    } else if exists|i: int| 0 <= i < bytes.len() && i < 9 && bytes[i] < 0x80 {
        let n = terminated_len(bytes).unwrap();
        lemma_decoded_some(bytes, n);
    } else {
        assert(terminated_at(bytes, 10));
        lemma_decoded_some(bytes, 10);
    }
}

/// Digits add up: each counts as often as the power of 128 that its place calls for.
pub proof fn lemma_base128_sum(digits: Seq<u8>)
    ensures
        base128(digits) == digits.map(|i: int, digit: u8| digit * pow2((7 * i) as nat)).fold_left(
            0int,
            |sum: int, term: int| sum + term,
        ),
    decreases digits.len(),
{
    let terms = digits.map(|i: int, digit: u8| digit * pow2((7 * i) as nat));
    if digits.len() > 0 {
        let k = (digits.len() - 1) as nat;
        let front = digits.drop_last();
        lemma_base128_sum(front);
        lemma_base128_step(digits, k);
        assert(digits.take(k as int) == front);
        assert(digits.take(k as int + 1) == digits);
        assert(terms.drop_last() == front.map(
            |i: int, digit: u8| digit * pow2((7 * i) as nat),
        ));
    }
}

/// What bytes carry is what they add up to without their top bits.
pub proof fn lemma_payload_sum(bytes: Seq<u8>)
    ensures
        payload(bytes) == bytes.map(
            |i: int, byte: u8| (byte % 0x80) * pow2((7 * i) as nat),
        ).fold_left(0int, |sum: int, term: int| sum + term),
{
    lemma_base128_sum(low7(bytes));
    assert(low7(bytes).map(|i: int, digit: u8| digit * pow2((7 * i) as nat)) == bytes.map(
        |i: int, byte: u8| (byte % 0x80) * pow2((7 * i) as nat),
    ));
}

/// A word is what its four bytes make in base 256, least significant first.
pub proof fn lemma_le_bytes(word: u32)
    ensures
        le_bytes(word).len() == 4,
        word == le_bytes(word)[0] + 0x100 * le_bytes(word)[1] + 0x1_0000 * le_bytes(word)[2]
            + 0x100_0000 * le_bytes(word)[3],
{
}

/// Where there is no varint, a reader gives up after ten bytes, or after all of them where there
/// are fewer.
pub proof fn lemma_given_up(bytes: Seq<u8>)
    ensures
        given_up(bytes) <= 10,
        given_up(bytes) <= bytes.len(),
        given_up(bytes) == 10 || given_up(bytes) == bytes.len(),
{
}

/// Of two varints in a row, the second is found where the first one ends.
pub proof fn lemma_read_two<B: Buf>(before: B, between: B, first: u64, second: u64, rest: Seq<u8>)
    requires
        before.unread() == leb128(first as nat) + leb128(second as nat) + rest,
        read_past(before, leb128(first as nat).len(), between),
    ensures
        decoded(before.unread()) == Some((first, leb128(first as nat).len())),
        decoded(between.unread()) == Some((second, leb128(second as nat).len())),
        between.unread().skip(leb128(second as nat).len() as int) == rest,
{
    let tail = leb128(second as nat) + rest;
    assert(before.unread() == leb128(first as nat) + tail);
    assert(between.unread() == tail);
    lemma_roundtrip(first, tail);
    lemma_roundtrip(second, rest);
}

/// A varint in a slice is read from the slice's first bytes on, and what is left of the slice is
/// what follows it.
pub proof fn lemma_slice_decoded(before: &[u8], value: u64, rest: Seq<u8>, after: &[u8])
    requires
        before@ == leb128(value as nat) + rest,
        read_past(before, leb128(value as nat).len(), after),
    ensures
        decoded(before.unread()) == Some((value, leb128(value as nat).len())),
        after@ == rest,
{
    lemma_slice_contents(before);
    lemma_slice_contents(after);
    lemma_roundtrip(value, rest);
}

/// A varint is read across the border of two slices as if they were one, wherever the border is.
pub proof fn lemma_chain_decoded(chain: Chain<&[u8], &[u8]>, value: u64, rest: Seq<u8>)
    requires
        chain_first(chain) + chain_last(chain) == leb128(value as nat) + rest,
    ensures
        decoded(chain.unread()) == Some((value, leb128(value as nat).len())),
{
    lemma_chain_contents(chain);
    lemma_roundtrip(value, rest);
}

/// The error of decoding is described by these two words.
pub proof fn lemma_invalid_varint(error: DecodeError)
    ensures
        invalid_varint(error) <==> error@ == seq![
            'i',
            'n',
            'v',
            'a',
            'l',
            'i',
            'd',
            ' ',
            'v',
            'a',
            'r',
            'i',
            'n',
            't',
        ],
{
    reveal_strlit("invalid varint");
    assert("invalid varint"@ == seq![
        'i',
        'n',
        'v',
        'a',
        'l',
        'i',
        'd',
        ' ',
        'v',
        'a',
        'r',
        'i',
        'n',
        't',
    ]);
}

/// A number of at most so many digits has an encoding of at most so many bytes.
proof fn lemma_leb128_len_bound(n: nat, len: nat)
    requires
        len >= 1,
        n < pow2(7 * len),
    ensures
        1 <= leb128(n).len() <= len,
    decreases len,
{
    lemma2_to64();
    if n >= 0x80 {
        lemma_pow2_adds(7, (7 * (len - 1)) as nat);
        lemma_leb128_len_bound(n / 0x80, (len - 1) as nat);
    }
}

/// An encoding has from one to ten bytes.
pub proof fn lemma_leb128_len_u64(value: u64)
    ensures
        1 <= leb128(value as nat).len() <= MAX_LEN,
{
    lemma2_to64_rest();
    lemma_pow2_strictly_increases(64, 70);
    lemma_leb128_len_bound(value as nat, 10);
}

/// The encoding of a number is no longer than that of a greater one.
pub proof fn lemma_leb128_len_monotone(m: nat, n: nat)
    requires
        m <= n,
    ensures
        leb128(m).len() <= leb128(n).len(),
    decreases n,
{
    if m >= 0x80 {
        lemma_leb128_len_monotone(m / 0x80, n / 0x80);
    }
}

/// Only the last byte of an encoding has its top bit clear.
pub proof fn lemma_leb128_terminated(n: nat)
    ensures
        terminated_at(leb128(n), leb128(n).len()),
    decreases n,
{
    if n >= 0x80 {
        let rest = leb128(n / 0x80);
        lemma_leb128_terminated(n / 0x80);
        assert(forall|i: int| 0 < i < leb128(n).len() ==> leb128(n)[i] == rest[i - 1]);
    }
}

/// An encoding carries the number that it encodes.
pub proof fn lemma_leb128_payload(n: nat)
    ensures
        payload(leb128(n)) == n,
    decreases n,
{
    let digits = low7(leb128(n));
    if n < 0x80 {
        assert(base128(digits.skip(1)) == 0);
    } else {
        lemma_leb128_payload(n / 0x80);
        assert(digits.skip(1) == low7(leb128(n / 0x80)));
    }
}

/// Decoding gives back what was encoded, whatever follows it.
pub proof fn lemma_roundtrip(value: u64, rest: Seq<u8>)
    ensures
        decoded(leb128(value as nat) + rest) == Some((value, leb128(value as nat).len())),
{
    let bytes = leb128(value as nat);
    lemma_leb128_terminated(value as nat);
    lemma_leb128_payload(value as nat);
    lemma_leb128_len_u64(value);
    lemma_terminated_len(bytes);
    assert(bytes.take(bytes.len() as int) == bytes);
    assert(bytes.is_prefix_of(bytes + rest));
    lemma_decoded_prefix(bytes, bytes + rest);
}

/// A varint has from one to ten bytes, and all of them are there.
pub proof fn lemma_decoded_len(bytes: Seq<u8>)
    ensures
        decoded(bytes) matches Some((value, len)) ==> 1 <= len <= MAX_LEN && len <= bytes.len(),
{
    lemma_terminated_len(bytes);
}

/// The encodings of some numbers, one after the other.
pub open spec fn leb128_all(values: Seq<u64>) -> Seq<u8>
    decreases values.len(),
{
    if values.len() == 0 {
        Seq::empty()
    } else {
        leb128(values[0] as nat) + leb128_all(values.skip(1))
    }
}

/// Encodings one after the other are what is left of a list of them without its borders.
pub proof fn lemma_leb128_all(values: Seq<u64>)
    ensures
        leb128_all(values) == values.map_values(|value: u64| leb128(value as nat)).flatten(),
    decreases values.len(),
{
    let list = values.map_values(|value: u64| leb128(value as nat));
    if values.len() > 0 {
        lemma_leb128_all(values.skip(1));
        assert(list.drop_first() == values.skip(1).map_values(|value: u64| leb128(value as nat)));
    }
}

/// The varints that some bytes are made of, one after the other, if they are made of varints
/// throughout.
pub open spec fn decoded_all(bytes: Seq<u8>) -> Option<Seq<u64>>
    decreases bytes.len(),
{
    proof {
        lemma_decoded_len(bytes);
    }
    if bytes.len() == 0 {
        Some(Seq::empty())
    } else {
        match decoded(bytes) {
            Some((value, len)) => match decoded_all(bytes.skip(len as int)) {
                Some(values) => Some(seq![value] + values),
                None => None,
            },
            None => None,
        }
    }
}

/// Decoding until nothing is left gives back all that was encoded, in order.
pub proof fn lemma_roundtrip_all(values: Seq<u64>)
    ensures
        decoded_all(leb128_all(values)) == Some(values),
    decreases values.len(),
{
    if values.len() == 0 {
        assert(values == Seq::<u64>::empty());
    } else {
        let first = leb128(values[0] as nat);
        let rest = leb128_all(values.skip(1));
        lemma_leb128_len_u64(values[0]);
        lemma_roundtrip(values[0], rest);
        lemma_roundtrip_all(values.skip(1));
        assert((first + rest).skip(first.len() as int) == rest);
        assert(values == seq![values[0]] + values.skip(1));
    }
}

/// Bytes that end with the first one whose top bit is clear are no shorter than the encoding of
/// the number that they carry, and where they are no longer, they are that encoding.
proof fn lemma_shortest_payload(bytes: Seq<u8>)
    requires
        terminated_at(bytes, bytes.len()),
    ensures
        leb128(payload(bytes)).len() <= bytes.len(),
        leb128(payload(bytes)).len() == bytes.len() ==> bytes == leb128(payload(bytes)),
    decreases bytes.len(),
{
    let digits = low7(bytes);
    let tail = bytes.skip(1);
    assert(digits.skip(1) == low7(tail));
    if bytes.len() == 1 {
        assert(base128(digits.skip(1)) == 0);
        assert(bytes == leb128(payload(bytes)));
    } else {
        assert(forall|i: int| 0 <= i < tail.len() ==> tail[i] == bytes[i + 1]);
        assert(terminated_at(tail, tail.len()));
        lemma_shortest_payload(tail);
        if payload(bytes) >= 0x80 {
            assert(payload(bytes) / 0x80 == payload(tail));
            assert(bytes == seq![bytes[0]] + tail);
        }
    }
}

/// The encoding of a number is the shortest varint for it, and the only one of its length.
pub proof fn lemma_leb128_shortest(bytes: Seq<u8>)
    ensures
        decoded(bytes) matches Some((value, len)) ==> {
            &&& leb128(value as nat).len() <= len
            &&& leb128(value as nat).len() == len <==> bytes.take(len as int) == leb128(
                value as nat,
            )
        },
{
    lemma_terminated_len(bytes);
    if decoded(bytes) is Some {
        lemma_shortest_payload(bytes.take(decoded(bytes).unwrap().1 as int));
    }
}

/// Different numbers have different encodings, and none starts with that of another.
pub proof fn lemma_prefix_free(a: u64, b: u64)
    requires
        leb128(a as nat).is_prefix_of(leb128(b as nat)),
    ensures
        a == b,
{
    let none = Seq::<u8>::empty();
    lemma_roundtrip(a, none);
    lemma_roundtrip(b, none);
    assert(leb128(a as nat) + none == leb128(a as nat));
    assert(leb128(b as nat) + none == leb128(b as nat));
    lemma_decoded_prefix(leb128(a as nat), leb128(b as nat));
}

/// An encoding that is cut short is no varint.
pub proof fn lemma_truncated(value: u64, len: nat)
    requires
        len < leb128(value as nat).len(),
    ensures
        decoded(leb128(value as nat).take(len as int)) is None,
{
    lemma_leb128_terminated(value as nat);
    lemma_terminated_len(leb128(value as nat).take(len as int));
}

/// There is no varint exactly where no byte among the first ten ends one, or the number does not
/// fit that the bytes up to it carry.
pub proof fn lemma_refused(bytes: Seq<u8>)
    ensures
        decoded(bytes) is None <==> forall|n: nat|
            #[trigger] terminated_at(bytes, n) ==> n > MAX_LEN || payload(bytes.take(n as int))
                > u64::MAX,
{
    lemma_terminated_len(bytes);
}

} // verus!
