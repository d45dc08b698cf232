use varint::{
    decode_varint, decode_varint_10, decode_varint_2, decode_varint_3, decode_varint_4,
    decode_varint_5, decode_varint_6, decode_varint_7, decode_varint_8, decode_varint_8_or_less,
    decode_varint_9, decode_varint_slice, encode_varint, encoded_len_varint,
};

#[test]
fn slice_gives_value_and_length() {
    assert_eq!(decode_varint_slice(&[0x00]), Ok((0, 1)));
    assert_eq!(decode_varint_slice(&[0xAC, 0x02]), Ok((300, 2)));
    assert_eq!(decode_varint_slice(&[0xAC, 0x02, 0x80, 0x01]), Ok((300, 2)));
    for len in 1..11 {
        let mut bytes = vec![0x82u8; len - 1];
        bytes.push(0x01);
        let mut value = 1u64 << (7 * (len - 1));
        for i in 0..len - 1 {
            value += 2 << (7 * i);
        }
        assert_eq!(decode_varint_slice(&bytes), Ok((value, len)));
    }
}

#[test]
fn slice_of_ten_bytes_may_go_on() {
    let error = decode_varint_slice(&[0x80; 10]).unwrap_err();
    assert_eq!(error.description(), "invalid varint");
    let error = decode_varint_slice(&[0xFF; 11]).unwrap_err();
    assert_eq!(error.description(), "invalid varint");
    let mut bytes = [0xFF; 10];
    bytes[9] = 0x01;
    assert_eq!(decode_varint_slice(&bytes), Ok((u64::MAX, 10)));
    bytes[9] = 0x02;
    assert!(decode_varint_slice(&bytes).is_err());
}

#[test]
fn digits_of_one_word() {
    assert_eq!(decode_varint_2(0x0000_02AC), 300);
    assert_eq!(decode_varint_2(0xFFFF_FFFF), (1 << 14) - 1);
    assert_eq!(decode_varint_3(0xFF01_8080), 1 << 14);
    assert_eq!(decode_varint_3(0xFFFF_FFFF), (1 << 21) - 1);
    assert_eq!(decode_varint_4(0x0180_8080), 1 << 21);
    assert_eq!(decode_varint_4(0x0483_8281), 1 + (2 << 7) + (3 << 14) + (4 << 21));
    assert_eq!(decode_varint_4(0xFFFF_FFFF), (1 << 28) - 1);
}

#[test]
fn digits_of_two_words() {
    let low = 0x8483_8281;
    let high = 0x0887_8685;
    let mut value: u64 = 1 + (2 << 7) + (3 << 14) + (4 << 21) + (5 << 28);
    assert_eq!(decode_varint_5(low, high), value);
    value += 6 << 35;
    assert_eq!(decode_varint_6(low, high), value);
    value += 7 << 42;
    assert_eq!(decode_varint_7(low, high), value);
    value += 8 << 49;
    assert_eq!(decode_varint_8(low, high), value);
    assert_eq!(decode_varint_8(u32::MAX, u32::MAX), (1 << 56) - 1);
    value += 9 << 56;
    assert_eq!(decode_varint_9(low, high, 0x09), value);
    assert_eq!(decode_varint_9(low, high, 0x89), value);
    assert_eq!(decode_varint_10(low, high, 0x89, 0x00), value);
    value += 1 << 63;
    assert_eq!(decode_varint_10(low, high, 0x89, 0x01), value);
    assert_eq!(decode_varint_10(low, high, 0x89, 0xFF), value);
    assert_eq!(decode_varint_10(u32::MAX, u32::MAX, 0xFF, 0x01), u64::MAX);
}

#[test]
fn eight_digits_or_less() {
    let digits = [1, 2, 3, 4, 5, 6, 7, 8];
    let mut value = 0;
    for n in 0..8 {
        value += (n as u64 + 1) << (7 * n);
        let mut completions = [false; 8];
        completions[n] = true;
        assert_eq!(decode_varint_8_or_less(digits, completions), (value, n + 1));
        completions[7] = true;
        assert_eq!(decode_varint_8_or_less(digits, completions), (value, n + 1));
    }
    assert_eq!(decode_varint_8_or_less(digits, [false; 8]), (value, 8));
    // Digits are taken as they are.
    let mut completions = [false; 8];
    completions[1] = true;
    assert_eq!(decode_varint_8_or_less([0xFF; 8], completions), (255 + 255 * 128, 2));
}

#[test]
fn encoded_len_at_every_power_of_two() {
    assert_eq!(encoded_len_varint(0), 1);
    for bit in 0..64 {
        let value = 1u64 << bit;
        assert_eq!(encoded_len_varint(value), bit / 7 + 1);
        let mut buf = Vec::new();
        encode_varint(value, &mut buf);
        assert_eq!(buf.len(), bit / 7 + 1);
        let mut buf = Vec::new();
        encode_varint(value - 1, &mut buf);
        assert_eq!(encoded_len_varint(value - 1), buf.len());
    }
    assert_eq!(encoded_len_varint(u64::MAX), 10);
}

#[test]
fn encoding_is_the_shortest_varint() {
    let mut padded: &[u8] = &[0xAC, 0x82, 0x00];
    let value = decode_varint(&mut padded).unwrap();
    assert_eq!(value, 300);
    let mut buf = Vec::new();
    encode_varint(value, &mut buf);
    assert_eq!(buf, [0xAC, 0x02]);
}

#[test]
fn no_encoding_starts_another() {
    let values = [0, 1, 127, 128, 129, 300, 16383, 16384, 1 << 35, u64::MAX - 1, u64::MAX];
    for a in values {
        for b in values {
            let mut first = Vec::new();
            encode_varint(a, &mut first);
            let mut second = Vec::new();
            encode_varint(b, &mut second);
            assert_eq!(second.starts_with(&first), a == b);
            assert!(a > b || first.len() <= second.len());
        }
    }
}
