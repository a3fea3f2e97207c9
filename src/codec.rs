//! Calls into the encoding and digest crates. Each function here is trusted:
//! its contract restates what the named crate documents, over a name for
//! results that would take pages to state.

use vstd::prelude::*;
use base64::Engine;
use sha1::Digest;
use crate::checksum::{crc32_ieee, fnv1a64};

verus! {

/// What the standard base64 alphabet (with padding) decodes `text` to, or
/// `None` where it is not valid base64.
pub uninterp spec fn base64_decoded(text: Seq<u8>) -> Option<Seq<u8>>;

/// What percent-decoding `text` and reading the bytes as UTF-8 gives, or
/// `None` where the bytes are not UTF-8.
pub uninterp spec fn percent_decoded(text: Seq<char>) -> Option<Seq<char>>;

/// MD5 digest of a byte sequence.
pub uninterp spec fn md5_digest(data: Seq<u8>) -> Seq<u8>;

/// SHA-1 digest of a byte sequence.
pub uninterp spec fn sha1_digest(data: Seq<u8>) -> Seq<u8>;

/// SHA-256 digest of a byte sequence.
pub uninterp spec fn sha256_digest(data: Seq<u8>) -> Seq<u8>;

/// Relies on base64's `STANDARD.decode`: decodes padded standard base64,
/// and fails on anything else.
#[verifier::external_body]
pub(crate) fn decode_base64(text: &[u8]) -> (r: Option<Vec<u8>>)
    ensures
        match r {
            Some(v) => base64_decoded(text@) == Some(v@),
            None => base64_decoded(text@).is_none(),
        },
{
    base64::engine::general_purpose::STANDARD.decode(text).ok()
}

/// Relies on urlencoding's `decode`: replaces each `%xx` by its byte and reads
/// the result as UTF-8.
#[verifier::external_body]
pub(crate) fn decode_percent(text: &str) -> (r: Option<String>)
    ensures
        match r {
            Some(v) => percent_decoded(text@) == Some(v@),
            None => percent_decoded(text@).is_none(),
        },
{
    urlencoding::decode(text).ok().map(|s| s.into_owned())
}

/// Relies on md5's `compute`: the sixteen-byte MD5 digest.
#[verifier::external_body]
pub(crate) fn md5_bytes(data: &[u8]) -> (r: Vec<u8>)
    ensures
        r@ == md5_digest(data@),
{
    md5::compute(data).0.to_vec()
}

/// Relies on sha1's `Sha1::digest`: the twenty-byte SHA-1 digest.
#[verifier::external_body]
pub(crate) fn sha1_bytes(data: &[u8]) -> (r: Vec<u8>)
    ensures
        r@ == sha1_digest(data@),
{
    sha1::Sha1::digest(data).to_vec()
}

/// Relies on sha2's `Sha256::digest`: the thirty-two-byte SHA-256 digest.
#[verifier::external_body]
pub(crate) fn sha256_bytes(data: &[u8]) -> (r: Vec<u8>)
    ensures
        r@ == sha256_digest(data@),
{
    sha2::Sha256::digest(data).to_vec()
}

/// Relies on crc32fast's `Hasher`: the CRC-32 (IEEE) checksum of the bytes.
#[verifier::external_body]
pub(crate) fn crc32(data: &[u8]) -> (r: u32)
    ensures
        r == crc32_ieee(data@),
{
    let mut hasher = crc32fast::Hasher::new();
    hasher.update(data);
    hasher.finalize()
}

/// Relies on fnv's `FnvHasher`: starting from the 64-bit offset basis, each
/// byte passed to `write` is XORed in and the state multiplied by the 64-bit
/// prime; `finish` returns the state.
#[verifier::external_body]
pub(crate) fn fnv64(data: &[u8]) -> (r: u64)
    ensures
        r == fnv1a64(data@),
{
    let mut hasher = fnv::FnvHasher::default();
    std::hash::Hasher::write(&mut hasher, data);
    std::hash::Hasher::finish(&hasher)
}

} // verus!
