//! Hexadecimal text for raw address bytes.

use crate::error::RitError;
use vstd::prelude::*;
use vstd::string::*;
use vstd::utf8::*;

verus! {

/// The lower-case hexadecimal digit for a value below 16.
pub open spec fn hex_digit(v: int) -> u8 {
    if v < 10 {
        (48 + v) as u8
    } else {
        (87 + v) as u8
    }
}

/// The hexadecimal text of `data`: two lower-case digits per byte, high half first.
pub open spec fn hex_digits(data: Seq<u8>) -> Seq<u8> {
    Seq::new(
        2 * data.len(),
        |i: int|
            if i % 2 == 0 {
                hex_digit(data[i / 2] as int / 16)
            } else {
                hex_digit(data[i / 2] as int % 16)
            },
    )
}

/// The value of a hexadecimal digit of either case; `None` for any other byte.
pub open spec fn hex_value(c: u8) -> Option<int> {
    if 48 <= c <= 57 {
        Some(c - 48)
    } else if 97 <= c <= 102 {
        Some(c - 87)
    } else if 65 <= c <= 70 {
        Some(c - 55)
    } else {
        None
    }
}

/// Whether `text` is an even number of hexadecimal digits.
pub open spec fn is_hex(text: Seq<u8>) -> bool {
    text.len() % 2 == 0 && forall|i: int| 0 <= i < text.len() ==> hex_value(#[trigger] text[i]) is Some
}

/// The bytes that hexadecimal `text` writes.
pub open spec fn hex_bytes(text: Seq<u8>) -> Seq<u8> {
    Seq::new(
        text.len() / 2,
        |i: int| (hex_value(text[2 * i])->0 * 16 + hex_value(text[2 * i + 1])->0) as u8,
    )
}

/// Whether `b` is a lower-case hexadecimal digit.
pub open spec fn is_lower_hex(b: u8) -> bool {
    48 <= b <= 57 || 97 <= b <= 102
}

/// Whether `text` is an address: 40 lower-case hexadecimal digits.
pub open spec fn is_address(text: Seq<u8>) -> bool {
    text.len() == 40 && forall|i: int| 0 <= i < text.len() ==> is_lower_hex(#[trigger] text[i])
}

/// The failure of `hex::decode`.
#[verifier::external_type_specification]
#[verifier::external_body]
pub struct ExFromHexError(hex::FromHexError);

/// `hex::encode`. Trusted: the result is ASCII, two lower-case digits for
/// each byte of the argument, the high four bits first.
#[verifier::external_body]
fn hex_encode(data: &[u8]) -> (text: String)
    ensures
        encode_utf8(text@) == hex_digits(data@),
{
    hex::encode(data)
}

/// `hex::decode`. Trusted: it succeeds exactly when the text is an even
/// number of hexadecimal digits of either case, and then returns the byte
/// that each pair writes.
#[verifier::external_body]
fn hex_decode(text: &str) -> (res: Result<Vec<u8>, hex::FromHexError>)
    ensures
        res is Ok <==> is_hex(text.spec_bytes()),
        res matches Ok(data) ==> data@ == hex_bytes(text.spec_bytes()),
{
    hex::decode(text)
}

/// The hexadecimal text of `data`.
pub fn to_hex(data: &[u8]) -> (text: String)
    ensures
        encode_utf8(text@) == hex_digits(data@),
{
    hex_encode(data)
}

/// The bytes that `text` writes in hexadecimal.
pub fn from_hex(text: &str) -> (res: Result<Vec<u8>, RitError>)
    ensures
        is_hex(text.spec_bytes()) ==> res is Ok && res->Ok_0@ == hex_bytes(text.spec_bytes()),
        !is_hex(text.spec_bytes()) ==> res == Err::<Vec<u8>, RitError>(RitError::InvalidAddress),
{
    match hex_decode(text) {
        Ok(data) => Ok(data),
        Err(_) => Err(RitError::InvalidAddress),
    }
}

/// Hexadecimal text is as long as twice its bytes, decodes, and decodes to those bytes.
pub proof fn lemma_hex_roundtrip(data: Seq<u8>)
    ensures
        hex_digits(data).len() == 2 * data.len(),
        forall|i: int| 0 <= i < 2 * data.len() ==> is_lower_hex(#[trigger] hex_digits(data)[i]),
        is_hex(hex_digits(data)),
        hex_bytes(hex_digits(data)) == data,
{
    let text = hex_digits(data);
    assert forall|i: int| 0 <= i < text.len() implies is_lower_hex(#[trigger] text[i])
        && hex_value(text[i]) is Some by {
        let b = data[i / 2];
        assert(0 <= b as int / 16 < 16);
        assert(0 <= b as int % 16 < 16);
    }
    let back = hex_bytes(text);
    assert(back.len() == data.len());
    assert forall|i: int| 0 <= i < data.len() implies back[i] == data[i] by {
        let b = data[i];
        assert((2 * i) % 2 == 0);
        assert((2 * i + 1) % 2 == 1);
        assert((2 * i) / 2 == i);
        assert((2 * i + 1) / 2 == i);
        assert(hex_value(text[2 * i]) == Some(b as int / 16));
        assert(hex_value(text[2 * i + 1]) == Some(b as int % 16));
    }
    assert(back =~= data);
}

/// Lower-case hexadecimal text of even length is what encoding its bytes gives back.
pub proof fn lemma_hex_canonical(text: Seq<u8>)
    requires
        text.len() % 2 == 0,
        forall|i: int| 0 <= i < text.len() ==> is_lower_hex(#[trigger] text[i]),
    ensures
        is_hex(text),
        hex_bytes(text).len() * 2 == text.len(),
        hex_digits(hex_bytes(text)) == text,
{
    assert forall|i: int| 0 <= i < text.len() implies hex_value(#[trigger] text[i]) is Some by {
        assert(is_lower_hex(text[i]));
    }
    let data = hex_bytes(text);
    let again = hex_digits(data);
    assert(again.len() == text.len());
    assert forall|i: int| 0 <= i < text.len() implies again[i] == text[i] by {
        let k = i / 2;
        assert(is_lower_hex(text[2 * k]));
        assert(is_lower_hex(text[2 * k + 1]));
        let hi = hex_value(text[2 * k])->0;
        let lo = hex_value(text[2 * k + 1])->0;
        assert(0 <= hi < 16 && 0 <= lo < 16);
        assert(data[k] == hi * 16 + lo);
        assert((hi * 16 + lo) / 16 == hi);
        assert((hi * 16 + lo) % 16 == lo);
        if i % 2 == 0 {
            assert(i == 2 * k);
        } else {
            assert(i == 2 * k + 1);
        }
    }
    assert(again =~= text);
}

/// The hexadecimal text of 20 bytes is an address.
pub proof fn lemma_hex_of_digest(data: Seq<u8>)
    requires
        data.len() == 20,
    ensures
        is_address(hex_digits(data)),
{
    lemma_hex_roundtrip(data);
}

} // verus!
