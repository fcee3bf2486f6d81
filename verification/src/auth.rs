//! Password authentication.
use crate::outside::{hex_digit, hex_encode, hex_spec, sha256, sha256_digest};
use vstd::prelude::*;
use vstd::utf8::encode_utf8;

verus! {

/// The form in which a password is kept and sent: the SHA-256 digest of its UTF-8
/// bytes, in hexadecimal digits.
pub open spec fn password_hash_spec(password: Seq<char>) -> Seq<char> {
    hex_spec(sha256_digest(encode_utf8(password)))
}

/// A byte string in lower-case hexadecimal digits.
pub fn hex_string(bytes: &[u8]) -> (text: String)
    ensures
        text@ == hex_spec(bytes@),
{
    hex_encode(bytes)
}

/// The form in which a password is kept and sent.
pub fn hash_password(pw: &str) -> (hash: String)
    ensures
        hash@ == password_hash_spec(pw@),
        hash@ == hex_spec(sha256_digest(encode_utf8(pw@))),
        hash@.len() == 64,
{
    let digest = sha256(pw.as_bytes());
    hex_string(digest.as_slice())
}

/// Different byte strings have different hexadecimal forms, so that comparing two
/// password hashes compares the digests themselves.
pub proof fn law_hex_tells_bytes_apart(a: Seq<u8>, b: Seq<u8>)
    requires
        hex_spec(a) == hex_spec(b),
    ensures
        a == b,
{
    assert(hex_spec(a).len() == 2 * a.len());
    assert(hex_spec(b).len() == 2 * b.len());
    assert forall|i: int| 0 <= i < a.len() implies a[i] == b[i] by {
        let x = a[i] as int;
        let y = b[i] as int;
        assert(hex_spec(a)[2 * i] == hex_digit(x / 16));
        assert(hex_spec(b)[2 * i] == hex_digit(y / 16));
        assert(hex_spec(a)[2 * i + 1] == hex_digit(x % 16));
        assert(hex_spec(b)[2 * i + 1] == hex_digit(y % 16));
        lemma_hex_digits_differ(x / 16, y / 16);
        lemma_hex_digits_differ(x % 16, y % 16);
    }
    assert(a =~= b);
}

proof fn lemma_hex_digits_differ(x: int, y: int)
    requires
        0 <= x < 16,
        0 <= y < 16,
    ensures
        hex_digit(x) == hex_digit(y) ==> x == y,
{
    let c = hex_digit(x);
    let d = hex_digit(y);
    assert(c as int == if x < 10 {
        48 + x
    } else {
        87 + x
    });
    assert(d as int == if y < 10 {
        48 + y
    } else {
        87 + y
    });
}

/// A password is kept and sent as the hexadecimal digits of the digest of all its bytes, so
/// two passwords have one hash only if their digests are the same.
pub proof fn law_hashes_tell_digests_apart(password: Seq<char>, other: Seq<char>)
    ensures
        password_hash_spec(password) == hex_spec(sha256_digest(encode_utf8(password))),
        password_hash_spec(password) == password_hash_spec(other) <==> sha256_digest(
            encode_utf8(password),
        ) == sha256_digest(encode_utf8(other)),
{
    if password_hash_spec(password) == password_hash_spec(other) {
        law_hex_tells_bytes_apart(
            sha256_digest(encode_utf8(password)),
            sha256_digest(encode_utf8(other)),
        );
    }
}

} // verus!
