//! The hasher: SHA-256 digests and their lower-case hexadecimal spelling.

use crate::text::{ascii_chars, is_ascii_bytes, string_from_ascii};
use sha2::Digest;
use sha2::Sha256;
use vstd::prelude::*;

verus! {

/// The SHA-256 digest of a byte sequence.
pub uninterp spec fn sha256(bytes: Seq<u8>) -> Seq<u8>;

/// Computes a SHA-256 digest.
///
/// Trusted: this is `sha2::Sha256::digest`, a pure function of its input
/// whose 32-byte output is what `sha256` names.
#[verifier::external_body]
fn sha256_digest(bytes: &[u8]) -> (out: [u8; 32])
    ensures
        out@ == sha256(bytes@),
{
    Sha256::digest(bytes).into()
}

/// Hashes `bytes` with SHA-256.
pub fn hash_bytes(bytes: &[u8]) -> (out: [u8; 32])
    ensures
        out@ == sha256(bytes@),
        out@.len() == 32,
{
    sha256_digest(bytes)
}

/// The lower-case hexadecimal digit for a value below sixteen, as an ASCII byte.
pub open spec fn hex_digit(nibble: u8) -> u8 {
    if nibble < 10 {
        (0x30 + nibble) as u8
    } else {
        (0x61 + (nibble - 10)) as u8
    }
}

/// The ASCII bytes of the lower-case hexadecimal spelling of `bytes`: two
/// digits per byte, high nibble first.
pub open spec fn hex_bytes(bytes: Seq<u8>) -> Seq<u8> {
    Seq::new(
        2 * bytes.len(),
        |i: int|
            if i % 2 == 0 {
                hex_digit(bytes[i / 2] / 16)
            } else {
                hex_digit(bytes[i / 2] % 16)
            },
    )
}

/// The lower-case hexadecimal spelling of `bytes`.
pub open spec fn hex(bytes: Seq<u8>) -> Seq<char> {
    ascii_chars(hex_bytes(bytes))
}

fn hex_digit_of(nibble: u8) -> (d: u8)
    requires
        nibble < 16,
    ensures
        d == hex_digit(nibble),
        d < 0x80,
{
    if nibble < 10 {
        0x30 + nibble
    } else {
        0x61 + (nibble - 10)
    }
}

/// Spells `bytes` in lower-case hexadecimal.
pub fn bytes_to_hex(bytes: &[u8]) -> (out: String)
    ensures
        out@ == hex(bytes@),
        out@.len() == 2 * bytes@.len(),
{
    let mut digits: Vec<u8> = Vec::new();
    let mut i: usize = 0;
    while i < bytes.len()
        invariant
            i <= bytes.len(),
            digits@.len() == 2 * i,
            forall|k: int| 0 <= k < digits@.len() ==> digits@[k] == #[trigger] hex_bytes(bytes@)[k],
            is_ascii_bytes(digits@),
        decreases bytes.len() - i,
    {
        let b = bytes[i];
        let hi = hex_digit_of(b / 16);
        let lo = hex_digit_of(b % 16);
        digits.push(hi);
        digits.push(lo);
        i = i + 1;
    }
    assert(digits@ =~= hex_bytes(bytes@));
    string_from_ascii(digits.as_slice())
}

} // verus!
