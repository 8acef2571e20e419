//! Calls into the hashing, signature, encoding and randomness crates.
//!
//! Each function here makes one call into an outside crate; its
//! contract is taken on trust. Results that are functions of the
//! arguments alone are named by the uninterpreted spec functions below,
//! so that the rest of the library can state exactly which bytes are
//! hashed, signed or checked.
use vstd::prelude::*;

use ed25519_dalek::Signer;
use rand_core::RngCore;

verus! {

/// The BLAKE3 hash (default 32-byte output) of `data`.
pub uninterp spec fn blake3_digest(data: Seq<u8>) -> Seq<u8>;

/// The Ed25519 verifying key (compressed point) derived from a 32-byte
/// secret seed.
pub uninterp spec fn ed25519_public_key(seed: Seq<u8>) -> Seq<u8>;

/// The Ed25519 signature of `msg` under the key derived from `seed`
/// (RFC 8032 signing is deterministic).
pub uninterp spec fn ed25519_signature(seed: Seq<u8>, msg: Seq<u8>) -> Seq<u8>;

/// Whether 32 bytes decode to an Ed25519 curve point usable as a
/// verifying key.
pub uninterp spec fn ed25519_key_valid(pk: Seq<u8>) -> bool;

/// Whether `sig` is accepted by strict Ed25519 verification of `msg`
/// under the verifying key `pk`.
pub uninterp spec fn ed25519_verifies(pk: Seq<u8>, msg: Seq<u8>, sig: Seq<u8>) -> bool;

/// The lowercase bech32m string for human-readable part `hrp` and
/// payload `data`.
pub uninterp spec fn bech32m_encoding(hrp: Seq<char>, data: Seq<u8>) -> Seq<char>;

/// The human-readable part and payload of a bech32 or bech32m string,
/// or `None` when the string does not decode (bad characters, bad
/// checksum, bad length).
pub uninterp spec fn bech32_decoding(s: Seq<char>) -> Option<(Seq<char>, Seq<u8>)>;

/// The bytes that a hexadecimal string denotes, or `None` when the
/// string has odd length or a non-hex character.
pub uninterp spec fn hex_decoding(s: Seq<char>) -> Option<Seq<u8>>;

/// `blake3::hash`: the 32-byte BLAKE3 digest of `data`.
#[verifier::external_body]
pub(crate) fn blake3_hash(data: &[u8]) -> (out: [u8; 32])
    ensures
        out@ == blake3_digest(data@),
{
    *blake3::hash(data).as_bytes()
}

/// `SigningKey::from_bytes(seed).verifying_key().to_bytes()`: the
/// verifying key of a secret seed.
#[verifier::external_body]
pub(crate) fn ed25519_public(seed: &[u8; 32]) -> (out: [u8; 32])
    ensures
        out@ == ed25519_public_key(seed@),
{
    ed25519_dalek::SigningKey::from_bytes(seed).verifying_key().to_bytes()
}

/// `SigningKey::sign`: the signature of `msg` under the key of `seed`.
/// Only the name of the result is claimed. In particular nothing says
/// that strict verification accepts it: the signer does not rule out a
/// nonce whose commitment has small order, which `verify_strict` rejects.
#[verifier::external_body]
pub(crate) fn ed25519_sign(seed: &[u8; 32], msg: &[u8]) -> (out: [u8; 64])
    ensures
        out@ == ed25519_signature(seed@, msg@),
{
    ed25519_dalek::SigningKey::from_bytes(seed).sign(msg).to_bytes()
}

/// `VerifyingKey::from_bytes`: whether `pk` decodes to a curve point.
#[verifier::external_body]
pub(crate) fn ed25519_decode_key(pk: &[u8; 32]) -> (r: bool)
    ensures
        r == ed25519_key_valid(pk@),
{
    ed25519_dalek::VerifyingKey::from_bytes(pk).is_ok()
}

/// `VerifyingKey::verify_strict`: whether `sig` verifies over `msg`
/// under `pk`. A key that does not decode verifies nothing.
#[verifier::external_body]
pub(crate) fn ed25519_verify_strict(pk: &[u8; 32], msg: &[u8], sig: &[u8; 64]) -> (r: bool)
    ensures
        r == ed25519_verifies(pk@, msg@, sig@),
        !ed25519_key_valid(pk@) ==> !r,
{
    match ed25519_dalek::VerifyingKey::from_bytes(pk) {
        Ok(vk) => vk.verify_strict(msg, &ed25519_dalek::Signature::from_bytes(sig)).is_ok(),
        Err(_) => false,
    }
}

/// Whether a human-readable part is made of printable ASCII other than
/// uppercase letters, which the encoder writes as it is and the decoder
/// reads back as it is.
pub open spec fn lowercase_hrp(hrp: Seq<char>) -> bool {
    forall|i: int| 0 <= i < hrp.len() ==> 33 <= ((#[trigger] hrp[i]) as u32) <= 126 && !(65 <= (hrp[i] as u32) <= 90)
}

/// `bech32::encode::<Bech32m>`: the bech32m string of `data` under the
/// human-readable part `hrp`. For a lowercase part the string starts
/// with the part and the separator `1`, and `bech32::decode` gives back
/// the part and the data (the crate's round trip). The part must be
/// ASCII, so that its byte length is its character count and fits the
/// parser's 83-byte buffer;
/// the bounds keep the encoded string under the bech32m code length,
/// the only case in which encoding fails.
#[verifier::external_body]
pub(crate) fn bech32m_encode(hrp: &str, data: &[u8]) -> (r: String)
    requires
        vstd::string::is_ascii(hrp),
        1 <= hrp@.len() <= 83,
        data@.len() <= 500,
    ensures
        r@ == bech32m_encoding(hrp@, data@),
        lowercase_hrp(hrp@) ==> r@.len() > hrp@.len() && r@.subrange(0, hrp@.len() + 1int) == hrp@.push('1'),
        lowercase_hrp(hrp@) ==> bech32_decoding(r@) == Some((hrp@, data@)),
{
    match bech32::encode::<bech32::Bech32m>(bech32::Hrp::parse_unchecked(hrp), data) {
        Ok(s) => s,
        Err(_) => String::new(),
    }
}

/// `bech32::decode`: the human-readable part and payload of `s`.
#[verifier::external_body]
pub(crate) fn bech32_decode(s: &str) -> (r: Option<(String, Vec<u8>)>)
    ensures
        match r {
            Some((h, d)) => bech32_decoding(s@) == Some((h@, d@)),
            None => bech32_decoding(s@) is None,
        },
{
    match bech32::decode(s) {
        Ok((hrp, data)) => Some((hrp.as_str().to_owned(), data)),
        Err(_) => None,
    }
}

/// `hex::decode`: the bytes denoted by a hexadecimal string.
#[verifier::external_body]
pub(crate) fn hex_decode(s: &str) -> (r: Option<Vec<u8>>)
    ensures
        match r {
            Some(d) => hex_decoding(s@) == Some(d@),
            None => hex_decoding(s@) is None,
        },
{
    match hex::decode(s) {
        Ok(d) => Some(d),
        Err(_) => None,
    }
}

/// `OsRng::fill_bytes`: 32 bytes from the operating system's
/// cryptographically secure generator. Nothing is stated of the bytes.
#[verifier::external_body]
pub(crate) fn random_seed() -> (r: [u8; 32]) {
    let mut seed = [0u8; 32];
    rand_core::OsRng.fill_bytes(&mut seed);
    seed
}

} // verus!
