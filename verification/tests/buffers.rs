use bytes::Buf as _;
use varint::{decode_varint, decode_varint_slow, encode_varint, BufMut as _, DecodeError};

const LONG: [u8; 10] = [0xFF, 0xFF, 0xFF, 0xFF, 0xFF, 0xFF, 0xFF, 0xFF, 0xFF, 0x01];

fn invalid(result: Result<u64, DecodeError>) {
    assert_eq!(result.unwrap_err().description(), "invalid varint");
}

#[test]
fn error_keeps_its_description() {
    let error = DecodeError::new("some reason");
    assert_eq!(error.description(), "some reason");
    assert_eq!(error.clone(), error);
    assert_ne!(error, DecodeError::new("another reason"));
}

#[test]
fn encode_appends() {
    let mut buf = vec![0x05, 0x06];
    let room = buf.remaining_mut();
    encode_varint(300, &mut buf);
    assert_eq!(buf, [0x05, 0x06, 0xAC, 0x02]);
    assert_eq!(buf.remaining_mut(), room - 2);
    assert_eq!(buf.remaining_mut(), isize::MAX as usize - 4);
}

#[test]
fn decode_leaves_what_follows() {
    let bytes = [0xAC, 0x02, 0x80, 0x07];
    let mut slice = &bytes[..];
    assert_eq!(decode_varint(&mut slice), Ok(300));
    assert_eq!(slice, [0x80, 0x07]);
    let mut slice = &bytes[..];
    assert_eq!(decode_varint_slow(&mut slice), Ok(300));
    assert_eq!(slice, [0x80, 0x07]);
}

#[test]
fn decode_every_length_before_other_bytes() {
    for len in 1..11 {
        // The value with a one in every digit, and bytes behind it that go on or do not.
        for tail in 0..12 {
            for filler in [0x00, 0x81, 0xFF] {
                let mut bytes = vec![0x81u8; len - 1];
                bytes.push(0x01);
                bytes.resize(len + tail, filler);
                let mut value = 0u64;
                for i in 0..len {
                    value += 1 << (7 * i);
                }
                let mut slice = &bytes[..];
                assert_eq!(decode_varint(&mut slice), Ok(value));
                assert_eq!(slice, &bytes[len..]);
                let mut slice = &bytes[..];
                assert_eq!(decode_varint_slow(&mut slice), Ok(value));
                assert_eq!(slice, &bytes[len..]);
            }
        }
    }
}

#[test]
fn empty_buffer_is_invalid() {
    let mut slice: &[u8] = &[];
    invalid(decode_varint(&mut slice));
    invalid(decode_varint_slow(&mut slice));
}

#[test]
fn truncated_encoding_is_invalid() {
    for len in 0..10 {
        let mut slice = &LONG[..len];
        invalid(decode_varint(&mut slice));
        assert!(slice.is_empty());
        let mut slice = &LONG[..len];
        invalid(decode_varint_slow(&mut slice));
        assert!(slice.is_empty());
    }
}

#[test]
fn refused_long_front_is_left_alone() {
    let mut bytes = [0xFF; 12];
    let mut slice = &bytes[..];
    invalid(decode_varint(&mut slice));
    assert_eq!(slice.len(), 12);
    let mut slice = &bytes[..];
    invalid(decode_varint_slow(&mut slice));
    assert_eq!(slice.len(), 2);

    // The tenth byte ends the varint, but its value does not fit.
    bytes[9] = 0x02;
    let mut slice = &bytes[..];
    invalid(decode_varint(&mut slice));
    assert_eq!(slice.len(), 12);
    let mut slice = &bytes[..];
    invalid(decode_varint_slow(&mut slice));
    assert_eq!(slice.len(), 2);
}

#[test]
fn longer_than_needed_is_accepted() {
    let mut slice: &[u8] = &[0x80, 0x80, 0x00];
    assert_eq!(decode_varint(&mut slice), Ok(0));
    assert!(slice.is_empty());
    let mut slice: &[u8] = &[0x80, 0x80, 0x80, 0x80, 0x80, 0x80, 0x80, 0x80, 0x80, 0x00];
    assert_eq!(decode_varint(&mut slice), Ok(0));
    let mut slice: &[u8] = &[0x80, 0x80, 0x80, 0x80, 0x80, 0x80, 0x80, 0x80, 0x80, 0x80, 0x00];
    invalid(decode_varint(&mut slice));
}

#[test]
fn decode_across_a_border() {
    let bytes = [0xFF, 0xFF, 0xFF, 0xFF, 0xFF, 0xFF, 0xFF, 0xFF, 0xFF, 0x01, 0x03];
    for border in 0..12 {
        let mut chain = (&bytes[..border]).chain(&bytes[border..]);
        assert_eq!(decode_varint(&mut chain), Ok(u64::MAX));
        assert_eq!(chain.remaining(), 1);
        assert_eq!(decode_varint(&mut chain), Ok(3));
        assert_eq!(chain.remaining(), 0);
        invalid(decode_varint(&mut chain));

        let mut chain = (&bytes[..border]).chain(&bytes[border..]);
        assert_eq!(decode_varint_slow(&mut chain), Ok(u64::MAX));
        assert_eq!(decode_varint_slow(&mut chain), Ok(3));
        assert_eq!(chain.remaining(), 0);
        invalid(decode_varint_slow(&mut chain));
    }
}

#[test]
fn decode_within_the_parts_of_a_chain() {
    let first = [0x05, 0xAC, 0x02];
    let last = [0x07];
    let mut chain = (&first[..]).chain(&last[..]);
    assert_eq!(decode_varint(&mut chain), Ok(5));
    assert_eq!(chain.first_ref().len(), 2);
    assert_eq!(decode_varint(&mut chain), Ok(300));
    assert_eq!(chain.first_ref().len(), 0);
    assert_eq!(decode_varint(&mut chain), Ok(7));
    assert_eq!(chain.last_ref().len(), 0);
}

#[test]
fn refused_across_a_border() {
    let bytes = [0xFF; 13];
    for border in 0..14 {
        let mut chain = (&bytes[..border]).chain(&bytes[border..]);
        invalid(decode_varint(&mut chain));
        let front = if border == 0 { 13 } else { border };
        assert_eq!(chain.remaining(), if front >= 10 { 13 } else { 3 });

        let mut chain = (&bytes[..border]).chain(&bytes[border..]);
        invalid(decode_varint_slow(&mut chain));
        assert_eq!(chain.remaining(), 3);
    }
}

#[test]
fn the_library_reads_through_its_own_trait() {
    let bytes = [0x81, 0x01];
    let mut slice = &bytes[..];
    assert_eq!(varint::Buf::remaining(&slice), 2);
    assert_eq!(varint::Buf::chunk(&slice), [0x81, 0x01]);
    assert_eq!(varint::Buf::get_u8(&mut slice), 0x81);
    varint::Buf::advance(&mut slice, 1);
    assert_eq!(varint::Buf::remaining(&slice), 0);

    let mut chain = (&bytes[..1]).chain(&bytes[1..]);
    assert_eq!(varint::Buf::remaining(&chain), 2);
    assert_eq!(varint::Buf::chunk(&chain), [0x81]);
    assert_eq!(varint::Buf::get_u8(&mut chain), 0x81);
    assert_eq!(varint::Buf::chunk(&chain), [0x01]);
    varint::Buf::advance(&mut chain, 1);
    assert_eq!(varint::Buf::chunk(&chain), []);
}
