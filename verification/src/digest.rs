//! Digests of email addresses and their hexadecimal form.

use vstd::prelude::*;
use vstd::utf8::encode_utf8;
use sha2::Digest;

verus! {

/// The SHA-256 digest of `data`.
pub uninterp spec fn sha256_digest(data: Seq<u8>) -> Seq<u8>;

/// The sixteen digits of lower-case hexadecimal notation.
pub open spec fn hex_digits() -> Seq<char> {
    seq!['0', '1', '2', '3', '4', '5', '6', '7', '8', '9', 'a', 'b', 'c', 'd', 'e', 'f']
}

/// `bytes` in lower-case hexadecimal: two digits for each byte, the high
/// half first.
pub open spec fn hex_encoding(bytes: Seq<u8>) -> Seq<char> {
    Seq::new(
        2 * bytes.len(),
        |i: int|
            if i % 2 == 0 {
                hex_digits()[(bytes[i / 2] / 16) as int]
            } else {
                hex_digits()[(bytes[i / 2] % 16) as int]
            },
    )
}

/// The digest under which an email address is looked for: the SHA-256 of
/// its UTF-8 bytes, in lower-case hexadecimal.
pub open spec fn email_digest_hex(email: Seq<char>) -> Seq<char> {
    hex_encoding(sha256_digest(encode_utf8(email)))
}

/// `sha2::Sha256::digest`, from the `Digest` trait: hashes `data` in one call.
/// The result is a function of the bytes alone, named [`sha256_digest`] here,
/// and is always 32 bytes long.
#[verifier::external_body]
pub(crate) fn sha256(data: &[u8]) -> (digest: Vec<u8>)
    ensures
        digest@ == sha256_digest(data@),
        digest@.len() == 32,
{
    sha2::Sha256::digest(data).to_vec()
}

/// `hex::encode`: writes each byte as two lower-case hexadecimal digits, the
/// high four bits first, in the order of the bytes.
#[verifier::external_body]
pub(crate) fn hex_lower(bytes: &[u8]) -> (text: String)
    ensures
        text@ == hex_encoding(bytes@),
{
    hex::encode(bytes)
}

/// The digest of `email` in lower-case hexadecimal.
pub fn digest_hex(email: &str) -> (text: String)
    ensures
        text@ == email_digest_hex(email@),
        text@.len() == 64,
{
    let digest = sha256(email.as_bytes());
    hex_lower(digest.as_slice())
}

/// Every character of a hexadecimal encoding is one of the sixteen
/// lower-case digits.
pub proof fn lemma_hex_encoding_digits(bytes: Seq<u8>, i: int)
    requires
        0 <= i < 2 * bytes.len(),
    ensures
        hex_digits().contains(hex_encoding(bytes)[i]),
{
    let byte = bytes[i / 2];
    let nibble = if i % 2 == 0 {
        (byte / 16) as int
    } else {
        (byte % 16) as int
    };
    assert(0 <= nibble < 16);
    assert(hex_encoding(bytes)[i] == hex_digits()[nibble]);
}

/// Different digits are different characters.
proof fn lemma_hex_digits_distinct(a: int, b: int)
    requires
        0 <= a < 16,
        0 <= b < 16,
        hex_digits()[a] == hex_digits()[b],
    ensures
        a == b,
{
}

/// The hexadecimal form tells digests apart: two byte strings with the same
/// encoding are the same.
pub proof fn lemma_hex_encoding_injective(first: Seq<u8>, second: Seq<u8>)
    requires
        hex_encoding(first) == hex_encoding(second),
    ensures
        first == second,
{
    let h1 = hex_encoding(first);
    let h2 = hex_encoding(second);
    assert(h1.len() == 2 * first.len() && h2.len() == 2 * second.len());
    assert forall|i: int| 0 <= i < first.len() implies first[i] == second[i] by {
        assert(h1[2 * i] == hex_digits()[(first[(2 * i) / 2] / 16) as int]);
        assert(h2[2 * i] == hex_digits()[(second[(2 * i) / 2] / 16) as int]);
        assert(h1[2 * i + 1] == hex_digits()[(first[(2 * i + 1) / 2] % 16) as int]);
        assert(h2[2 * i + 1] == hex_digits()[(second[(2 * i + 1) / 2] % 16) as int]);
        lemma_hex_digits_distinct((first[i] / 16) as int, (second[i] / 16) as int);
        lemma_hex_digits_distinct((first[i] % 16) as int, (second[i] % 16) as int);
    }
    assert(first =~= second);
}

/// Matching is case-sensitive: a target with any character besides `0-9` and
/// `a-f`, such as an upper-case digit, is the digest of no email address.
pub proof fn lemma_digest_hex_is_lower_case(email: Seq<char>, target: Seq<char>)
    requires
        exists|i: int| 0 <= i < target.len() && !hex_digits().contains(#[trigger] target[i]),
    ensures
        email_digest_hex(email) != target,
{
    let i = choose|i: int| 0 <= i < target.len() && !hex_digits().contains(#[trigger] target[i]);
    let bytes = sha256_digest(encode_utf8(email));
    if email_digest_hex(email) == target {
        lemma_hex_encoding_digits(bytes, i);
    }
}

/// Equal addresses have equal digests: the digest depends on nothing but the
/// characters of the address.
pub proof fn lemma_digest_hex_deterministic(first: Seq<char>, second: Seq<char>)
    requires
        first == second,
    ensures
        email_digest_hex(first) == email_digest_hex(second),
{
}

} // verus!
