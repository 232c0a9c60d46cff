use vstd::prelude::*;

verus! {

/// The lower-case hex digest that SHA-256 assigns to a byte sequence. The
/// engine treats the hash as a black box: nothing is assumed about the digest
/// beyond it being a function of the input bytes.
pub uninterp spec fn digest_of(bytes: Seq<u8>) -> Seq<char>;

/// Relies on sha256::digest for &[u8], which returns the hex encoding of the
/// SHA-256 hash of the bytes: a function of the input bytes alone.
#[verifier::external_body]
pub fn hash_bytes(bytes: &[u8]) -> (r: String)
    ensures
        r@ == digest_of(bytes@),
{
    sha256::digest(bytes)
}

/// Digest of a string's UTF-8 bytes.
pub fn hash_str(s: &str) -> (r: String)
    ensures
        r@ == digest_of(vstd::utf8::encode_utf8(s@)),
{
    let bytes = s.as_bytes_vec();
    hash_bytes(bytes.as_slice())
}

} // verus!
