use bitcoin_num::serialize::{decode_hex, encode_hex, HexError};

#[test]
fn encodes_lowercase_two_digits_per_byte() {
    assert_eq!(encode_hex(&[0xde, 0xad, 0xbe, 0xef, 0x01, 0x0a]), "deadbeef010a");
    assert_eq!(encode_hex(&[]), "");
}

#[test]
fn decodes_either_case() {
    assert_eq!(decode_hex(b"deadBEEF010a"), Ok(vec![0xde, 0xad, 0xbe, 0xef, 0x01, 0x0a]));
    assert_eq!(decode_hex(b""), Ok(vec![]));
}

#[test]
fn hex_round_trip() {
    let bytes: Vec<u8> = (0..=255).collect();
    let text = encode_hex(&bytes);
    assert_eq!(decode_hex(text.as_bytes()), Ok(bytes));
}

#[test]
fn odd_length_is_refused() {
    assert_eq!(decode_hex(b"abc"), Err(HexError::OddLength));
    assert_eq!(decode_hex(b"zzz"), Err(HexError::OddLength));
}

#[test]
fn first_bad_digit_is_reported() {
    assert_eq!(
        decode_hex(b"01zg"),
        Err(HexError::InvalidHexCharacter { c: 'z', index: 2 })
    );
    assert_eq!(
        decode_hex(b"0 g1"),
        Err(HexError::InvalidHexCharacter { c: ' ', index: 1 })
    );
}
