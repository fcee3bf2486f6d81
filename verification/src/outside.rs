//! What the crate takes from other crates and from the standard library without
//! proof: each item below states what is believed of one outside function.
use chrono::{DateTime, Utc};
use sha2::{Digest, Sha256};
use vstd::prelude::*;
use vstd::utf8::{decode_utf8, valid_utf8};

verus! {

/// The SHA-256 digest of a byte string.
pub uninterp spec fn sha256_digest(data: Seq<u8>) -> Seq<u8>;

/// `sha2`'s `Sha256::digest`: the digest depends on the bytes alone and is always
/// 32 bytes long. How it is computed is not stated.
#[verifier::external_body]
pub(crate) fn sha256(data: &[u8]) -> (digest: Vec<u8>)
    ensures
        digest@ == sha256_digest(data@),
        digest@.len() == 32,
{
    Sha256::digest(data).to_vec()
}

/// The lower-case hexadecimal digit of a number below sixteen.
pub open spec fn hex_digit(d: int) -> char {
    if d < 10 {
        (48 + d) as char
    } else {
        (87 + d) as char
    }
}

/// Two lower-case hexadecimal digits for each byte, the high one first.
pub open spec fn hex_spec(bytes: Seq<u8>) -> Seq<char> {
    Seq::new(
        2 * bytes.len(),
        |i: int|
            if i % 2 == 0 {
                hex_digit(bytes[i / 2] as int / 16)
            } else {
                hex_digit(bytes[i / 2] as int % 16)
            },
    )
}

/// `hex`'s `encode`: two lower-case hexadecimal digits for each byte.
#[verifier::external_body]
pub(crate) fn hex_encode(bytes: &[u8]) -> (text: String)
    ensures
        text@ == hex_spec(bytes@),
{
    hex::encode(bytes)
}

/// `rand`'s `random`: sixteen bytes from the thread's generator. Nothing is known
/// of their values.
#[verifier::external_body]
pub(crate) fn random_bytes() -> (bytes: [u8; 16]) {
    rand::random::<[u8; 16]>()
}

/// A byte string as text, with a replacement character for what is not UTF-8.
pub uninterp spec fn lossy_text(bytes: Seq<u8>) -> Seq<char>;

/// The standard library's `String::from_utf8_lossy`: valid UTF-8 is decoded as it
/// is. Of other byte strings only this is stated, that the text depends on the
/// bytes alone.
#[verifier::external_body]
pub(crate) fn utf8_lossy(bytes: &[u8]) -> (text: String)
    ensures
        text@ == lossy_text(bytes@),
        valid_utf8(bytes@) ==> text@ == decode_utf8(bytes@),
{
    String::from_utf8_lossy(bytes).into_owned()
}

/// A moment, as seconds and nanoseconds since 1970, written out in UTC; nothing for
/// a moment outside the calendar's range.
pub uninterp spec fn utc_date_text(secs: i64, nanos: u32) -> Option<Seq<char>>;

/// `chrono`'s `DateTime::<Utc>::from_timestamp`, whose date is then written with
/// its `Display`: the text depends on the two numbers alone. Its form and the
/// calendar's range are not stated.
#[verifier::external_body]
pub(crate) fn utc_date(secs: i64, nanos: u32) -> (text: Option<String>)
    ensures
        match text {
            Some(t) => utc_date_text(secs, nanos) == Some(t@),
            None => utc_date_text(secs, nanos) is None,
        },
{
    match DateTime::<Utc>::from_timestamp(secs, nanos) {
        Some(date) => Some(date.to_string()),
        None => None,
    }
}

} // verus!
