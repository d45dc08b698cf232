use varint::{
    decode_varint, decode_varint_slow, encode_varint, encoded_len_varint,
};

fn check(value: u64, encoded: &[u8]) {
    // Small buffer.
    let mut buf = Vec::with_capacity(1);
    encode_varint(value, &mut buf);
    assert_eq!(buf, encoded);

    // Large buffer.
    let mut buf = Vec::with_capacity(100);
    encode_varint(value, &mut buf);
    assert_eq!(buf, encoded);

    assert_eq!(encoded_len_varint(value), encoded.len());

    let mut encoded_copy = encoded;
    let roundtrip_value = decode_varint(&mut encoded_copy).expect("decoding failed");
    assert_eq!(value, roundtrip_value);

    let mut encoded_copy = encoded;
    let roundtrip_value = decode_varint_slow(&mut encoded_copy).expect("slow decoding failed");
    assert_eq!(value, roundtrip_value);
}

#[test]
fn varint() {
    check(2u64.pow(0) - 1, &[0x00]);
    check(2u64.pow(0), &[0x01]);

    check(2u64.pow(7) - 1, &[0x7F]);
    check(2u64.pow(7), &[0x80, 0x01]);
    check(300, &[0xAC, 0x02]);

    check(2u64.pow(14) - 1, &[0xFF, 0x7F]);
    check(2u64.pow(14), &[0x80, 0x80, 0x01]);

    check(2u64.pow(21) - 1, &[0xFF, 0xFF, 0x7F]);
    check(2u64.pow(21), &[0x80, 0x80, 0x80, 0x01]);

    check(2u64.pow(28) - 1, &[0xFF, 0xFF, 0xFF, 0x7F]);
    check(2u64.pow(28), &[0x80, 0x80, 0x80, 0x80, 0x01]);

    check(2u64.pow(35) - 1, &[0xFF, 0xFF, 0xFF, 0xFF, 0x7F]);
    check(2u64.pow(35), &[0x80, 0x80, 0x80, 0x80, 0x80, 0x01]);

    check(2u64.pow(42) - 1, &[0xFF, 0xFF, 0xFF, 0xFF, 0xFF, 0x7F]);
    check(2u64.pow(42), &[0x80, 0x80, 0x80, 0x80, 0x80, 0x80, 0x01]);

    check(2u64.pow(49) - 1, &[0xFF, 0xFF, 0xFF, 0xFF, 0xFF, 0xFF, 0x7F]);
    check(2u64.pow(49), &[0x80, 0x80, 0x80, 0x80, 0x80, 0x80, 0x80, 0x01]);

    check(2u64.pow(56) - 1, &[0xFF, 0xFF, 0xFF, 0xFF, 0xFF, 0xFF, 0xFF, 0x7F]);
    check(2u64.pow(56), &[0x80, 0x80, 0x80, 0x80, 0x80, 0x80, 0x80, 0x80, 0x01]);

    check(2u64.pow(63) - 1, &[0xFF, 0xFF, 0xFF, 0xFF, 0xFF, 0xFF, 0xFF, 0xFF, 0x7F]);
    check(2u64.pow(63), &[0x80, 0x80, 0x80, 0x80, 0x80, 0x80, 0x80, 0x80, 0x80, 0x01]);

    check(u64::MAX, &[0xFF, 0xFF, 0xFF, 0xFF, 0xFF, 0xFF, 0xFF, 0xFF, 0xFF, 0x01]);
}

const U64_MAX_PLUS_ONE: &[u8] = &[0xFF, 0xFF, 0xFF, 0xFF, 0xFF, 0xFF, 0xFF, 0xFF, 0xFF, 0x02];

#[test]
fn varint_overflow() {
    let mut copy = U64_MAX_PLUS_ONE;
    decode_varint(&mut copy).expect_err("decoding u64::MAX + 1 succeeded");
}

#[test]
fn variant_slow_overflow() {
    let mut copy = U64_MAX_PLUS_ONE;
    decode_varint_slow(&mut copy).expect_err("slow decoding u64::MAX + 1 succeeded");
}

/// A run of numbers of all sizes, the same each time.
fn numbers(seed: u64, count: usize) -> Vec<u64> {
    let mut state = seed;
    let mut out = Vec::new();
    for i in 0..count {
        state = state.wrapping_mul(6364136223846793005).wrapping_add(1442695040888963407);
        let shift = (state >> 33) % 64;
        out.push(if i % 5 == 4 { state } else { state >> shift });
    }
    out
}

#[test]
fn check_roundtrip() {
    for seed in 0..200 {
        let nums = numbers(seed, (seed % 16) as usize);
        let mut buf = Vec::with_capacity(1);
        for num in &nums {
            encode_varint(*num, &mut buf);
        }
        let mut slice = buf.as_slice();
        let mut out_nums = Vec::with_capacity(nums.len());
        while !slice.is_empty() {
            let num = decode_varint(&mut slice).unwrap();
            out_nums.push(num);
        }
        assert_eq!(out_nums, nums);
    }
}
