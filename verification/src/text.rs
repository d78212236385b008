//! Text on the wire.
//!
//! A text travels as the length of its UTF-8 encoding, as a 64-bit integer,
//! and the encoding itself.

use crate::bytes::{
    get_le, le_bytes, le_value, lemma_le_bytes_len, lemma_le_bytes_of_value,
    lemma_le_value_of_bytes, lemma_radix_values, put_le,
};
use crate::error::DecodeError;
use vstd::prelude::*;
use vstd::slice::{slice_subrange, slice_to_vec};
use vstd::utf8::{
    decode_utf8, decode_utf8_encode_utf8, encode_utf8, encode_utf8_decode_utf8,
    encode_utf8_valid_utf8, valid_utf8,
};

verus! {

/// The error of `String::from_utf8`, which the decoder only tells from
/// success.
#[verifier::external_type_specification]
#[verifier::external_body]
pub struct ExFromUtf8Error(std::string::FromUtf8Error);

/// `String::from_utf8` of the standard library makes a string of bytes that
/// are UTF-8, and that string then has exactly those bytes; it fails on bytes
/// that are not UTF-8.
pub assume_specification[ String::from_utf8 ](vec: Vec<u8>) -> (r: Result<
    String,
    std::string::FromUtf8Error,
>)
    ensures
        match r {
            Ok(s) => encode_utf8(s@) == vec@,
            Err(_) => !valid_utf8(vec@),
        },
;

/// The bytes of a text on the wire.
pub open spec fn text_wire(text: Seq<char>) -> Seq<u8> {
    le_bytes(encode_utf8(text).len(), 8) + encode_utf8(text)
}

/// The text that a byte string holds, or the reason for which it holds none.
pub open spec fn parse_text(b: Seq<u8>) -> Result<Seq<char>, DecodeError> {
    if b.len() < 8 {
        Err(DecodeError::Truncated)
    } else if b.len() < 8 + le_value(b.subrange(0, 8)) {
        Err(DecodeError::Truncated)
    } else if b.len() > 8 + le_value(b.subrange(0, 8)) {
        Err(DecodeError::TrailingBytes)
    } else if !valid_utf8(b.subrange(8, b.len() as int)) {
        Err(DecodeError::InvalidText)
    } else {
        Ok(decode_utf8(b.subrange(8, b.len() as int)))
    }
}

/// Decoding the bytes of a text gives the text.
pub proof fn lemma_text_round_trip(text: Seq<char>)
    requires
        encode_utf8(text).len() <= u64::MAX,
    ensures
        parse_text(text_wire(text)) == Ok::<Seq<char>, DecodeError>(text),
{
    let b = text_wire(text);
    let raw = encode_utf8(text);
    lemma_radix_values();
    lemma_le_bytes_len(raw.len(), 8);
    lemma_le_value_of_bytes(raw.len(), 8);
    encode_utf8_valid_utf8(text);
    encode_utf8_decode_utf8(text);
    assert(b.subrange(0, 8) =~= le_bytes(raw.len(), 8));
    assert(b.subrange(8, b.len() as int) =~= raw);
}

/// Only the bytes of a text decode to it.
pub proof fn lemma_text_exact(b: Seq<u8>)
    requires
        parse_text(b) is Ok,
    ensures
        text_wire(parse_text(b)->Ok_0) == b,
{
    let raw = b.subrange(8, b.len() as int);
    lemma_le_bytes_of_value(b.subrange(0, 8));
    decode_utf8_encode_utf8(raw);
}

/// Appends the bytes of a text.
pub(crate) fn put_text(out: &mut Vec<u8>, text: &str)
    ensures
        final(out)@ == old(out)@ + text_wire(text@),
        encode_utf8(text@).len() <= usize::MAX,
{
    let raw = text.as_bytes();
    put_le(out, raw.len() as u128, 8);
    let mut i: usize = 0;
    while i < raw.len()
        invariant
            i <= raw.len(),
            raw@ == encode_utf8(text@),
            out@ == old(out)@ + le_bytes(raw@.len(), 8) + raw@.take(i as int),
        decreases raw.len() - i,
    {
        out.push(raw[i]);
        i = i + 1;
    }
}

/// Reads the text that the bytes from `at` on hold.
pub(crate) fn get_text(bytes: &[u8], at: usize) -> (r: Result<String, DecodeError>)
    requires
        at <= bytes.len(),
    ensures
        match r {
            Ok(s) => parse_text(bytes@.subrange(at as int, bytes.len() as int)) == Ok::<
                Seq<char>,
                DecodeError,
            >(s@),
            Err(e) => parse_text(bytes@.subrange(at as int, bytes.len() as int)) == Err::<
                Seq<char>,
                DecodeError,
            >(e),
        },
{
    let ghost window = bytes@.subrange(at as int, bytes.len() as int);
    if bytes.len() - at < 8 {
        return Err(DecodeError::Truncated);
    }
    proof {
        assert(window.subrange(0, 8) =~= bytes@.subrange(at as int, at + 8));
        assert(window.subrange(8, window.len() as int) =~= bytes@.subrange(
            at + 8,
            bytes.len() as int,
        ));
    }
    let announced: u128 = get_le(bytes, at, 8);
    let rest: u128 = (bytes.len() - at - 8) as u128;
    if rest < announced {
        Err(DecodeError::Truncated)
    } else if rest > announced {
        Err(DecodeError::TrailingBytes)
    } else {
        let raw = slice_to_vec(slice_subrange(bytes, at + 8, bytes.len()));
        match String::from_utf8(raw) {
            Ok(s) => {
                proof {
                    encode_utf8_valid_utf8(s@);
                    encode_utf8_decode_utf8(s@);
                }
                Ok(s)
            },
            Err(_) => Err(DecodeError::InvalidText),
        }
    }
}

} // verus!
