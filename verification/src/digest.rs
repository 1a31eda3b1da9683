//! Content addressing: a deterministic, collision-resistant, filesystem-safe
//! name for a byte blob, used for content-addressed blob naming,
//! cross-archive deduplication and recompression-cache keys.
use vstd::prelude::*;

verus! {

/// The digest name of a byte sequence. Equal bytes always give the equal
/// name; the name depends on nothing but the bytes.
pub uninterp spec fn digest_of(data: Seq<u8>) -> Seq<char>;

/// Relies on blake3::hash and blake3::Hash's Display impl: a deterministic
/// lowercase-hex digest of the input bytes, depending on the bytes alone.
#[verifier::external_body]
pub(crate) fn digest_string(data: &Vec<u8>) -> (r: String)
    ensures
        r@ == digest_of(data@),
{
    blake3::hash(data.as_slice()).to_string()
}

} // verus!
