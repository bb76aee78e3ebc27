//! Digests, text encodings, randomness and key derivation: what the library
//! has from `ring`, `base64` and `x25519-dalek`, each behind one function.

use base64::engine::general_purpose::{STANDARD, URL_SAFE_NO_PAD};
use base64::Engine;
use ring::digest::{digest, SHA1_FOR_LEGACY_USE_ONLY, SHA256};
use ring::rand::{SecureRandom, SystemRandom};
use vstd::prelude::*;
use vstd::utf8::encode_utf8;

verus! {

/// Most bytes that one digest can take: the bit length must fit in 64 bits.
pub const MAX_DIGEST_INPUT: u64 = 0x1fff_ffff_ffff_ffff;

/// The SHA-256 digest of `data`.
pub uninterp spec fn sha256_digest(data: Seq<u8>) -> Seq<u8>;

/// The SHA-1 digest of `data`.
pub uninterp spec fn sha1_digest(data: Seq<u8>) -> Seq<u8>;

/// Standard base64 of `data`, padded.
pub uninterp spec fn base64_text(data: Seq<u8>) -> Seq<char>;

/// What standard padded base64 decodes `text` to, if it is well formed.
pub uninterp spec fn base64_bytes(text: Seq<char>) -> Option<Seq<u8>>;

/// URL-safe base64 of `data`, without padding.
pub uninterp spec fn base64url_text(data: Seq<u8>) -> Seq<char>;

/// What URL-safe unpadded base64 decodes `text` to, if it is well formed.
pub uninterp spec fn base64url_bytes(text: Seq<char>) -> Option<Seq<u8>>;

/// The X25519 public key of a 32-byte private key.
pub uninterp spec fn x25519_public(private: Seq<u8>) -> Seq<u8>;

/// `ring::digest::digest` with SHA-256: a 32-byte digest of the whole input.
/// It panics on an input whose bit length does not fit in 64 bits.
#[verifier::external_body]
pub(crate) fn sha256(data: &[u8]) -> (out: Vec<u8>)
    requires
        data@.len() <= MAX_DIGEST_INPUT,
    ensures
        out@ == sha256_digest(data@),
        out@.len() == 32,
{
    digest(&SHA256, data).as_ref().to_vec()
}

/// `ring::digest::digest` with SHA-1: a 20-byte digest of the whole input.
/// It panics on an input whose bit length does not fit in 64 bits.
#[verifier::external_body]
pub(crate) fn sha1(data: &[u8]) -> (out: Vec<u8>)
    requires
        data@.len() <= MAX_DIGEST_INPUT,
    ensures
        out@ == sha1_digest(data@),
        out@.len() == 20,
{
    digest(&SHA1_FOR_LEGACY_USE_ONLY, data).as_ref().to_vec()
}

/// `Engine::encode` of the standard padded engine. What it writes, `decode` of
/// the same engine reads back. It panics where the text would not fit in
/// memory.
#[verifier::external_body]
pub(crate) fn encode_base64(data: &[u8]) -> (text: String)
    requires
        data@.len() <= usize::MAX / 4,
    ensures
        text@ == base64_text(data@),
        base64_bytes(text@) == Some(data@),
{
    STANDARD.encode(data)
}

/// `Engine::decode` of the standard padded engine.
#[verifier::external_body]
pub(crate) fn decode_base64(text: &str) -> (data: Option<Vec<u8>>)
    ensures
        data is Some <==> base64_bytes(text@) is Some,
        data matches Some(bytes) ==> base64_bytes(text@) == Some(bytes@),
{
    STANDARD.decode(text).ok()
}

/// `Engine::encode` of the URL-safe unpadded engine. What it writes, `decode`
/// of the same engine reads back; three bytes become four characters, and what
/// is left over one more character than bytes. It panics where the text would
/// not fit in memory.
#[verifier::external_body]
pub(crate) fn encode_base64url(data: &[u8]) -> (text: String)
    requires
        data@.len() <= usize::MAX / 4,
    ensures
        text@ == base64url_text(data@),
        base64url_bytes(text@) == Some(data@),
        encode_utf8(text@).len() == (data@.len() * 4 + 2) / 3,
{
    URL_SAFE_NO_PAD.encode(data)
}

/// `Engine::decode` of the URL-safe unpadded engine.
#[verifier::external_body]
pub(crate) fn decode_base64url(text: &str) -> (data: Option<Vec<u8>>)
    ensures
        data is Some <==> base64url_bytes(text@) is Some,
        data matches Some(bytes) ==> base64url_bytes(text@) == Some(bytes@),
{
    URL_SAFE_NO_PAD.decode(text).ok()
}

/// `SystemRandom::fill`: 32 bytes of the system's randomness, or `None` where
/// it has none to give. Nothing is claimed of the bytes.
#[verifier::external_body]
pub(crate) fn random_bytes() -> (bytes: Option<[u8; 32]>)
{
    let mut buf = [0u8; 32];
    SystemRandom::new().fill(&mut buf).ok()?;
    Some(buf)
}

/// `x25519_dalek::PublicKey::from` a `StaticSecret`: the public key of a
/// private key.
#[verifier::external_body]
pub(crate) fn derive_public(private: [u8; 32]) -> (public: [u8; 32])
    ensures
        public@ == x25519_public(private@),
{
    x25519_dalek::PublicKey::from(&x25519_dalek::StaticSecret::from(private)).to_bytes()
}

} // verus!
