//! Hex text for byte buffers: the encoding and decoding behind the
//! string form that serializers write and read.
use vstd::prelude::*;

verus! {

#[verifier::external_type_specification]
pub struct ExFromHexError(hex::FromHexError);

/// The lowercase hex digit of a value below sixteen.
pub open spec fn hex_digit(d: int) -> char {
    if d < 10 {
        (48 + d) as char
    } else {
        (87 + d) as char
    }
}

/// Two lowercase hex digits for each byte of `b`, the high half of the byte first.
pub open spec fn hex_text(b: Seq<u8>) -> Seq<char> {
    Seq::new(
        2 * b.len(),
        |i: int|
            if i % 2 == 0 {
                hex_digit((b[i / 2] / 16) as int)
            } else {
                hex_digit((b[i / 2] % 16) as int)
            },
    )
}

/// `c` is the code of a hex digit, in either case.
pub open spec fn is_hex_digit(c: u8) -> bool {
    (48 <= c <= 57) || (65 <= c <= 70) || (97 <= c <= 102)
}

/// The value of the hex digit whose code is `c`.
pub open spec fn digit_value(c: u8) -> int {
    if c <= 57 {
        c - 48
    } else if c <= 70 {
        c - 55
    } else {
        c - 87
    }
}

/// Every byte of `s` is the code of a hex digit.
pub open spec fn all_hex(s: Seq<u8>) -> bool {
    forall|i: int| 0 <= i < s.len() ==> is_hex_digit(#[trigger] s[i])
}

/// `k` is the position of the first byte of `s` that is not a hex digit.
pub open spec fn first_non_hex(s: Seq<u8>, k: int) -> bool {
    &&& 0 <= k < s.len()
    &&& !is_hex_digit(s[k])
    &&& forall|j: int| 0 <= j < k ==> is_hex_digit(#[trigger] s[j])
}

/// The bytes that the pairs of hex digits in `s` stand for, the high half first.
pub open spec fn hex_bytes(s: Seq<u8>) -> Seq<u8> {
    Seq::new(
        s.len() / 2,
        |i: int| (16 * digit_value(s[2 * i]) + digit_value(s[2 * i + 1])) as u8,
    )
}

/// `e` reports the first byte of `s` that is not a hex digit: its position,
/// and the byte as a character.
pub open spec fn names_first_non_hex(e: hex::FromHexError, s: Seq<u8>) -> bool {
    match e {
        hex::FromHexError::InvalidHexCharacter { c, index } => first_non_hex(s, index as int) && c
            == s[index as int] as char,
        _ => false,
    }
}

/// Why a hex text could not be decoded.
#[derive(Debug, Clone, Copy, PartialEq, Eq)]
pub enum HexError {
    /// The byte at `index` is not a hex digit; `c` is that byte as a character.
    InvalidHexCharacter { c: char, index: usize },
    /// The text holds an odd number of bytes.
    OddLength,
}

/// Relies on `hex::encode`: two lowercase digits per byte, the high half first.
#[verifier::external_body]
fn hex_encode(data: &[u8]) -> (r: String)
    ensures
        r@ == hex_text(data@),
{
    hex::encode(data)
}

/// Relies on `hex::decode`: an odd length is refused first; then the first
/// byte that is not a digit of either case is reported with its position;
/// otherwise each pair of digits gives one byte.
#[verifier::external_body]
fn hex_decode(data: &[u8]) -> (r: Result<Vec<u8>, hex::FromHexError>)
    ensures
        data@.len() % 2 == 1 ==> (r matches Err(hex::FromHexError::OddLength)),
        data@.len() % 2 == 0 && all_hex(data@) ==> r is Ok && r->Ok_0@ == hex_bytes(data@),
        data@.len() % 2 == 0 && !all_hex(data@) ==> r is Err && names_first_non_hex(
            r->Err_0,
            data@,
        ),
{
    hex::decode(data)
}

/// The lowercase hex text of `data`.
pub fn encode_hex(data: &[u8]) -> (r: String)
    ensures
        r@ == hex_text(data@),
{
    hex_encode(data)
}

/// The bytes that the hex text `data` stands for; digits of either case are read.
pub fn decode_hex(data: &[u8]) -> (r: Result<Vec<u8>, HexError>)
    ensures
        data@.len() % 2 == 1 <==> (r matches Err(HexError::OddLength)),
        (r matches Ok(v)) <==> data@.len() % 2 == 0 && all_hex(data@),
        r matches Ok(v) ==> v@ == hex_bytes(data@),
        r matches Err(HexError::InvalidHexCharacter { c, index }) ==> data@.len() % 2 == 0
            && first_non_hex(data@, index as int) && c == data@[index as int] as char,
{
    match hex_decode(data) {
        Ok(v) => Ok(v),
        Err(hex::FromHexError::InvalidHexCharacter { c, index }) => Err(
            HexError::InvalidHexCharacter { c, index },
        ),
        Err(hex::FromHexError::OddLength) => Err(HexError::OddLength),
        Err(hex::FromHexError::InvalidStringLength) => {
            proof {
                assert(false);
            }
            Err(HexError::OddLength)
        },
    }
}

} // verus!
