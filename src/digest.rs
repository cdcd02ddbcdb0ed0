//! Integrity strings `sha256:<lowercase hex>` of artifact bytes.
use vstd::prelude::*;

verus! {

/// The SHA-256 digest of `data`.
pub uninterp spec fn sha256_of(data: Seq<u8>) -> Seq<u8>;

/// Relies on `sha2::Sha256` through `sha2::Digest::digest`: the SHA-256 digest
/// of the bytes, which depends on the bytes alone.
#[verifier::external_body]
fn sha256(data: &[u8]) -> (r: Vec<u8>)
    ensures
        r@ == sha256_of(data@),
{
    <sha2::Sha256 as sha2::Digest>::digest(data).to_vec()
}

pub open spec fn hex_digit(n: u8) -> char {
    if n < 10 {
        ((n + 48) as u8) as char
    } else {
        ((n + 87) as u8) as char
    }
}

/// Two lowercase hex digits per byte, high nibble first.
pub open spec fn hex_lower(b: Seq<u8>) -> Seq<char>
    decreases b.len(),
{
    if b.len() == 0 {
        Seq::<char>::empty()
    } else {
        seq![hex_digit(b[0] / 16), hex_digit(b[0] % 16)] + hex_lower(b.drop_first())
    }
}

/// Relies on `hex::encode`: each byte becomes two lowercase hex digits,
/// high nibble first.
#[verifier::external_body]
fn hex_encode(data: &[u8]) -> (r: String)
    ensures
        r@ == hex_lower(data@),
{
    hex::encode(data)
}

pub open spec fn integrity_prefix() -> Seq<char> {
    seq!['s', 'h', 'a', '2', '5', '6', ':']
}

/// The integrity string of artifact bytes.
pub open spec fn integrity_text(data: Seq<u8>) -> Seq<char> {
    integrity_prefix() + hex_lower(sha256_of(data))
}

/// `sha256:` followed by the lowercase hex SHA-256 digest of `data`.
pub fn integrity_of(data: &[u8]) -> (r: String)
    ensures
        r@ == integrity_text(data@),
{
    proof {
        reveal_strlit("sha256:");
    }
    let digest = sha256(data);
    let hex = hex_encode(digest.as_slice());
    let mut out = String::from_str("sha256:");
    out.append(hex.as_str());
    assert("sha256:"@ =~= integrity_prefix());
    out
}

} // verus!
