//! SHA3-256 digests and their lowercase hexadecimal text.

use vstd::prelude::*;
use sha3::Digest;
use crate::text::string_of;

verus! {

/// The SHA3-256 digest of `data`, as the sha3 crate computes it.
pub uninterp spec fn sha3_256_of(data: Seq<u8>) -> Seq<u8>;

/// `sha3::Sha3_256::digest`: the 32-byte SHA3-256 digest of `data`. The
/// contract names the digest and states its length (the hash's fixed output
/// size); the hash function itself is not restated.
#[verifier::external_body]
fn sha3_256(data: &[u8]) -> (digest: Vec<u8>)
    ensures
        digest@ == sha3_256_of(data@),
        digest@.len() == 32,
{
    sha3::Sha3_256::digest(data).to_vec()
}

/// The lowercase hexadecimal digit for `0 <= d < 16`.
pub open spec fn hex_digit(d: int) -> char {
    if d < 10 {
        (d + 48) as char
    } else {
        (d + 87) as char
    }
}

/// Each byte as two lowercase hexadecimal digits, high digit first, as
/// `format!("{:02x}", byte)` writes it, in order.
pub open spec fn hex_lower(bytes: Seq<u8>) -> Seq<char>
    decreases bytes.len(),
{
    if bytes.len() == 0 {
        seq![]
    } else {
        hex_lower(bytes.drop_last()) + seq![
            hex_digit((bytes.last() / 16) as int),
            hex_digit((bytes.last() % 16) as int),
        ]
    }
}

proof fn lemma_hex_len(bytes: Seq<u8>)
    ensures
        hex_lower(bytes).len() == 2 * bytes.len(),
    decreases bytes.len(),
{
    if bytes.len() > 0 {
        lemma_hex_len(bytes.drop_last());
    }
}

fn hex_char(d: u8) -> (c: char)
    requires
        d < 16,
    ensures
        c == hex_digit(d as int),
{
    if d < 10 {
        (d + 48) as char
    } else {
        (d + 87) as char
    }
}

/// The lowercase hexadecimal text of `bytes`, two digits per byte.
pub fn to_hex_lower(bytes: &[u8]) -> (s: String)
    ensures
        s@ == hex_lower(bytes@),
        s@.len() == 2 * bytes@.len(),
{
    let mut chars: Vec<char> = Vec::new();
    let mut k: usize = 0;
    while k < bytes.len()
        invariant
            k <= bytes@.len(),
            chars@ == hex_lower(bytes@.subrange(0, k as int)),
        decreases bytes@.len() - k,
    {
        let byte = bytes[k];
        chars.push(hex_char(byte / 16));
        chars.push(hex_char(byte % 16));
        proof {
            let next = bytes@.subrange(0, k + 1);
            assert(next.drop_last() =~= bytes@.subrange(0, k as int));
            assert(chars@ =~= hex_lower(next));
        }
        k = k + 1;
    }
    assert(bytes@.subrange(0, k as int) =~= bytes@);
    proof {
        lemma_hex_len(bytes@);
    }
    string_of(chars.as_slice())
}

/// The SHA3-256 digest of `data` in lowercase hexadecimal, 64 digits, as the
/// hashing tool prints it after a file's name.
pub fn digest_hex(data: &[u8]) -> (s: String)
    ensures
        s@ == hex_lower(sha3_256_of(data@)),
        s@.len() == 64,
{
    let digest = sha3_256(data);
    to_hex_lower(digest.as_slice())
}

} // verus!
