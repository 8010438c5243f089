//! The fingerprint engine: a fixed-size digest of a file's content, written
//! as lower-case hexadecimal text.
//!
//! Equal fingerprints are treated as equal content. The digest is MD5: fast,
//! and not meant to withstand an adversary.

use vstd::prelude::*;
use vstd::string::*;

verus! {

/// The MD5 digest of a byte sequence.
pub uninterp spec fn md5_digest(bytes: Seq<u8>) -> Seq<u8>;

/// Calls `md5hash::MD5Hasher::hash` and takes the digest's sixteen bytes.
///
/// Trusted: the result is the MD5 digest of `bytes`, a function of the bytes
/// alone. The hasher keeps no state between calls and reads nothing else.
#[verifier::external_body]
fn md5(bytes: &[u8]) -> (digest: [u8; 16])
    ensures
        digest@ == md5_digest(bytes@),
{
    md5hash::MD5Hasher::hash(&bytes).into()
}

/// The sixteen hexadecimal digits, in order, lower case.
pub open spec fn hex_digits() -> Seq<char> {
    "0123456789abcdef"@
}

/// Two lower-case hexadecimal digits for each byte, high nibble first.
pub open spec fn hex_lower(bytes: Seq<u8>) -> Seq<char>
    decreases bytes.len(),
{
    if bytes.len() == 0 {
        Seq::empty()
    } else {
        hex_lower(bytes.drop_last()).push(hex_digits()[bytes.last() as int / 16]).push(
            hex_digits()[bytes.last() as int % 16],
        )
    }
}

/// The fingerprint of a file's content: its MD5 digest in hexadecimal.
pub open spec fn fingerprint_of(content: Seq<u8>) -> Seq<char> {
    hex_lower(md5_digest(content))
}

/// Hexadecimal text has two characters per byte.
pub proof fn lemma_hex_length(bytes: Seq<u8>)
    ensures
        hex_lower(bytes).len() == 2 * bytes.len(),
    decreases bytes.len(),
{
    if bytes.len() > 0 {
        lemma_hex_length(bytes.drop_last());
    }
}

/// Identical content has identical fingerprints.
pub proof fn lemma_fingerprint_is_deterministic(first: Seq<u8>, second: Seq<u8>)
    requires
        first == second,
    ensures
        fingerprint_of(first) == fingerprint_of(second),
{
}

/// Writes `bytes` as lower-case hexadecimal text.
pub fn to_hex(bytes: &[u8]) -> (text: String)
    ensures
        text@ == hex_lower(bytes@),
{
    let digits = "0123456789abcdef";
    proof {
        reveal_strlit("0123456789abcdef");
    }
    let mut text = String::new();
    let mut done: usize = 0;
    while done < bytes.len()
        invariant
            done <= bytes.len(),
            digits@ == hex_digits(),
            digits@.len() == 16,
            text@ == hex_lower(bytes@.take(done as int)),
        decreases bytes.len() - done,
    {
        let byte = bytes[done];
        let high: usize = (byte / 16) as usize;
        let low: usize = (byte % 16) as usize;
        let ghost before = text@;
        text.append(digits.substring_char(high, high + 1));
        text.append(digits.substring_char(low, low + 1));
        proof {
            let next = bytes@.take(done + 1);
            assert(next.drop_last() =~= bytes@.take(done as int));
            assert(next.last() == byte);
            assert(text@ =~= before.push(hex_digits()[high as int]).push(hex_digits()[low as int]));
        }
        done += 1;
    }
    assert(bytes@.take(done as int) =~= bytes@);
    text
}

/// Computes the fingerprint of a file's content: thirty-two hexadecimal
/// digits, the same for the same bytes.
pub fn hash_file(content: &[u8]) -> (hash: String)
    ensures
        hash@ == fingerprint_of(content@),
        hash@.len() == 32,
{
    let digest = md5(content);
    proof {
        lemma_hex_length(digest@);
    }
    to_hex(digest.as_slice())
}

} // verus!
