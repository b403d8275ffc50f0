use sqlite_varint::{varint, VarintError};

fn assert_varint_decodes_to(buffer: Vec<u8>, expected: i64) {
    assert_eq!(varint(buffer).unwrap().0, expected)
}

#[test]
fn zero() {
    assert_varint_decodes_to(vec![0], 0i64);
}

#[test]
fn one() {
    assert_varint_decodes_to(vec![1], 1i64);
}

#[test]
fn eight_bits() {
    assert_varint_decodes_to(vec![0b1000_0001, 0b0000_0000], 128i64);
}

#[test]
fn nine_bytes() {
    let buffer = vec![
        0b1000_0001,
        0b1000_0000,
        0b1000_0000,
        0b1000_0000,
        0b1000_0000,
        0b1000_0000,
        0b1000_0000,
        0b1000_0000,
        0b0000_0000,
    ];
    assert_varint_decodes_to(buffer, 1 << 57);
}

#[test]
fn zero_takes_one_byte() {
    assert_eq!(varint(vec![0x00]), Ok((0, 1)));
}

#[test]
fn one_takes_one_byte() {
    assert_eq!(varint(vec![0x01]), Ok((1, 1)));
}

#[test]
fn two_bytes_give_fourteen_bits() {
    assert_eq!(varint(vec![0x81, 0x00]), Ok((128, 2)));
    assert_eq!(varint(vec![0x81, 0x01]), Ok((129, 2)));
    assert_eq!(varint(vec![0xff, 0x7f]), Ok((16383, 2)));
}

#[test]
fn three_bytes_give_twenty_one_bits() {
    assert_eq!(varint(vec![0x81, 0x80, 0x00]), Ok((16384, 3)));
    assert_eq!(varint(vec![0x82, 0x83, 0x04]), Ok((2 * 16384 + 3 * 128 + 4, 3)));
    assert_eq!(varint(vec![0xff, 0xff, 0x7f]), Ok((2_097_151, 3)));
}

#[test]
fn nine_bytes_are_all_counted() {
    let buffer = vec![0x81, 0x80, 0x80, 0x80, 0x80, 0x80, 0x80, 0x80, 0x00];
    assert_eq!(varint(buffer), Ok((1 << 57, 9)));
}

#[test]
fn eight_bytes_give_fifty_six_bits() {
    let buffer = vec![0xff, 0xff, 0xff, 0xff, 0xff, 0xff, 0xff, 0x7f];
    assert_eq!(varint(buffer), Ok(((1 << 56) - 1, 8)));
    let buffer = vec![0x81, 0x80, 0x80, 0x80, 0x80, 0x80, 0x80, 0x00];
    assert_eq!(varint(buffer), Ok((1 << 49, 8)));
}

#[test]
fn ninth_byte_gives_all_eight_bits() {
    let buffer = vec![0x80, 0x80, 0x80, 0x80, 0x80, 0x80, 0x80, 0x80, 0x80];
    assert_eq!(varint(buffer), Ok((128, 9)));
    let buffer = vec![0x80, 0x80, 0x80, 0x80, 0x80, 0x80, 0x80, 0x80, 0xff];
    assert_eq!(varint(buffer), Ok((255, 9)));
    let buffer = vec![0x80, 0x80, 0x80, 0x80, 0x80, 0x80, 0x80, 0x81, 0x00];
    assert_eq!(varint(buffer), Ok((256, 9)));
}

#[test]
fn ninth_byte_always_ends_the_encoding() {
    let buffer = vec![0x80, 0x80, 0x80, 0x80, 0x80, 0x80, 0x80, 0x80, 0x80, 0x05, 0x06];
    assert_eq!(varint(buffer), Ok((128, 9)));
}

#[test]
fn sign_bit_folds_into_negative_range() {
    let buffer = vec![0xff, 0xff, 0xff, 0xff, 0xff, 0xff, 0xff, 0xff, 0xff];
    assert_eq!(varint(buffer), Ok((-1, 9)));
    let buffer = vec![0xff, 0xff, 0xff, 0xff, 0xff, 0xff, 0xff, 0xff, 0xfe];
    assert_eq!(varint(buffer), Ok((-2, 9)));
    let buffer = vec![0xc0, 0x80, 0x80, 0x80, 0x80, 0x80, 0x80, 0x80, 0x00];
    assert_eq!(varint(buffer), Ok((i64::MIN, 9)));
    let buffer = vec![0xc0, 0x80, 0x80, 0x80, 0x80, 0x80, 0x80, 0x80, 0x01];
    assert_eq!(varint(buffer), Ok((i64::MIN + 1, 9)));
}

#[test]
fn largest_value_keeps_its_sign() {
    let buffer = vec![0xbf, 0xff, 0xff, 0xff, 0xff, 0xff, 0xff, 0xff, 0xff];
    assert_eq!(varint(buffer), Ok((i64::MAX, 9)));
}

#[test]
fn short_encodings_are_never_negative() {
    assert_eq!(varint(vec![0x7f]), Ok((127, 1)));
    assert_eq!(varint(vec![0x40]), Ok((64, 1)));
    assert_eq!(varint(vec![0xc0, 0x00]), Ok((8192, 2)));
    let buffer = vec![0xc0, 0x80, 0x80, 0x80, 0x80, 0x80, 0x80, 0x00];
    assert_eq!(varint(buffer), Ok((1 << 55, 8)));
}

#[test]
fn leading_zero_digits_are_accepted() {
    assert_eq!(varint(vec![0x80, 0x00]), Ok((0, 2)));
    assert_eq!(varint(vec![0x80, 0x80, 0x05]), Ok((5, 3)));
    let buffer = vec![0x80, 0x80, 0x80, 0x80, 0x80, 0x80, 0x80, 0x80, 0x00];
    assert_eq!(varint(buffer), Ok((0, 9)));
}

#[test]
fn every_single_byte_without_high_bit_is_its_own_value() {
    for byte in 0x00u8..=0x7f {
        assert_eq!(varint(vec![byte]), Ok((i64::from(byte), 1)));
    }
}

#[test]
fn bytes_after_the_encoding_are_left_alone() {
    assert_eq!(varint(vec![0x01, 0xff, 0xff]), Ok((1, 1)));
    assert_eq!(varint(vec![0x81, 0x00, 0x81]), Ok((128, 2)));
    assert_eq!(varint(vec![0x00, 0x00]), Ok((0, 1)));
}

#[test]
fn consumption_stays_within_nine_bytes_and_the_buffer() {
    let buffers: Vec<Vec<u8>> = vec![
        vec![0x00],
        vec![0x7f, 0x01],
        vec![0x81, 0x00],
        vec![0xff, 0xff, 0x00, 0x12],
        vec![0xff; 9],
        vec![0xff; 10],
        vec![0xff; 64],
        vec![0x80, 0x80, 0x80, 0x80, 0x80, 0x80, 0x80, 0x00, 0xff, 0xff],
    ];
    for buffer in buffers {
        let len = buffer.len();
        let (_, consumed) = varint(buffer).unwrap();
        assert!(1 <= consumed && consumed <= 9);
        assert!(consumed <= len);
    }
}

#[test]
fn only_the_first_nine_bytes_matter() {
    let mut buffer = vec![0xff; 9];
    let alone = varint(buffer.clone());
    buffer.extend_from_slice(&[0x00, 0x11, 0x22]);
    assert_eq!(varint(buffer), alone);
    assert_eq!(alone, Ok((-1, 9)));
}

#[test]
fn empty_buffer_is_truncated() {
    assert_eq!(varint(vec![]), Err(VarintError::TruncatedInput));
}

#[test]
fn missing_terminator_is_truncated() {
    assert_eq!(varint(vec![0x80]), Err(VarintError::TruncatedInput));
    assert_eq!(varint(vec![0x81, 0xff]), Err(VarintError::TruncatedInput));
    assert_eq!(varint(vec![0xff; 7]), Err(VarintError::TruncatedInput));
}

#[test]
fn missing_ninth_byte_is_truncated() {
    assert_eq!(varint(vec![0xff; 8]), Err(VarintError::TruncatedInput));
    assert_eq!(
        varint(vec![0x81, 0x80, 0x80, 0x80, 0x80, 0x80, 0x80, 0x80]),
        Err(VarintError::TruncatedInput)
    );
}

#[test]
fn one_byte_short_is_always_truncated() {
    let encodings: Vec<Vec<u8>> = vec![
        vec![0x00],
        vec![0x7f],
        vec![0x81, 0x00],
        vec![0xff, 0xff, 0x7f],
        vec![0x81, 0x82, 0x83, 0x04],
        vec![0x81, 0x82, 0x83, 0x84, 0x85, 0x86, 0x87, 0x08],
        vec![0x81, 0x80, 0x80, 0x80, 0x80, 0x80, 0x80, 0x80, 0x00],
        vec![0xff; 9],
    ];
    for encoding in encodings {
        let needed = encoding.len();
        assert_eq!(varint(encoding.clone()).unwrap().1, needed);
        for available in 0..needed {
            let cut = encoding[..available].to_vec();
            assert_eq!(varint(cut), Err(VarintError::TruncatedInput));
        }
    }
}

#[test]
fn decoding_twice_gives_the_same_answer() {
    let buffers: Vec<Vec<u8>> = vec![
        vec![],
        vec![0x00],
        vec![0x81, 0x00],
        vec![0x81],
        vec![0xff; 8],
        vec![0xff; 9],
        vec![0xc0, 0x80, 0x80, 0x80, 0x80, 0x80, 0x80, 0x80, 0x37, 0x99],
    ];
    for buffer in buffers {
        let first = varint(buffer.clone());
        let second = varint(buffer.clone());
        assert_eq!(first, second);
    }
}
