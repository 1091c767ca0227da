//! The cryptographic primitives, taken on trust from the `disco`,
//! `rand` and `data-encoding` crates. Nothing in this file is proved: each
//! function states what the primitive it calls is documented to return.
use data_encoding::BASE32;
use disco::ed25519::{Keypair, PublicKey, SecretKey, Signature};
use disco::symmetric::DiscoHash;
use rand::rngs::OsRng;
use vstd::prelude::*;

verus! {

/// The 32-byte output of the keyed sponge after absorbing `data`.
pub uninterp spec fn digest(data: Seq<u8>) -> Seq<u8>;

/// Whether `bytes` are the encoding of an Ed25519 public key.
pub uninterp spec fn public_key_valid(bytes: Seq<u8>) -> bool;

/// Whether `bytes` are the encoding of an Ed25519 signature.
pub uninterp spec fn signature_valid(bytes: Seq<u8>) -> bool;

/// Whether `bytes` are the encoding of an Ed25519 keypair.
pub uninterp spec fn keypair_valid(bytes: Seq<u8>) -> bool;

/// Whether the signature `sig` on `msg` verifies under the public key `key`.
pub uninterp spec fn signature_verifies(key: Seq<u8>, msg: Seq<u8>, sig: Seq<u8>) -> bool;

/// The signature that the keypair `keypair` makes on `msg`.
pub uninterp spec fn signature_of(keypair: Seq<u8>, msg: Seq<u8>) -> Seq<u8>;

/// The public key that belongs to the 32-byte secret key `secret`.
pub uninterp spec fn public_of(secret: Seq<u8>) -> Seq<u8>;

/// Whether the public half of the keypair `keypair` (its last 32 bytes) is
/// the public key that belongs to its secret half (its first 32 bytes).
pub open spec fn halves_match(keypair: Seq<u8>) -> bool {
    keypair.len() == 64 && keypair.subrange(32, 64) == public_of(keypair.subrange(0, 32))
}

/// The padded base32 text of `bytes`.
pub uninterp spec fn base32(bytes: Seq<u8>) -> Seq<char>;

/// `DiscoHash::new(32)`, one `write` of `data`, then `sum`: the digest is a
/// function of the bytes absorbed. `DiscoHash` documents that absorbing a
/// byte string in several writes equals absorbing it in one.
#[verifier::external_body]
pub(crate) fn disco_digest(data: &[u8]) -> (out: [u8; 32])
    ensures
        out@ == digest(data@),
{
    let mut hasher = DiscoHash::new(32);
    hasher.write(data);
    let sum = hasher.sum();
    let mut out = [0u8; 32];
    out.copy_from_slice(&sum);
    out
}

/// `DiscoHash::new(32)` followed at once by `sum`, with nothing absorbed.
/// Nothing is claimed of the bytes that come out.
#[verifier::external_body]
pub(crate) fn disco_digest_unwritten() -> (out: [u8; 32]) {
    let sum = DiscoHash::new(32).sum();
    let mut out = [0u8; 32];
    out.copy_from_slice(&sum);
    out
}

/// `PublicKey::from_bytes`: succeeds exactly on the valid encodings, which all
/// have 32 bytes.
#[verifier::external_body]
pub(crate) fn public_key_parses(bytes: &[u8]) -> (ok: bool)
    ensures
        ok == public_key_valid(bytes@),
        ok ==> bytes@.len() == 32,
{
    PublicKey::from_bytes(bytes).is_ok()
}

/// `Signature::from_bytes`: succeeds exactly on the valid encodings, which all
/// have 64 bytes.
#[verifier::external_body]
pub(crate) fn signature_parses(bytes: &[u8]) -> (ok: bool)
    ensures
        ok == signature_valid(bytes@),
        ok ==> bytes@.len() == 64,
{
    Signature::from_bytes(bytes).is_ok()
}

/// `Keypair::from_bytes`: succeeds exactly on the valid encodings, which all
/// have 64 bytes. It parses the last 32 of them with `PublicKey::from_bytes`,
/// so they are a valid public key; it does not hold the two halves against
/// each other.
#[verifier::external_body]
pub(crate) fn keypair_parses(bytes: &[u8]) -> (ok: bool)
    ensures
        ok == keypair_valid(bytes@),
        ok ==> bytes@.len() == 64,
        ok ==> public_key_valid(bytes@.subrange(32, 64)),
{
    Keypair::from_bytes(bytes).is_ok()
}

/// `PublicKey::verify` on the parsed key and signature. The answer is a
/// function of the three byte strings; it is `false` where the key or the
/// signature does not parse.
#[verifier::external_body]
pub(crate) fn ed25519_verify(key: &[u8], msg: &[u8], sig: &[u8]) -> (ok: bool)
    ensures
        ok == signature_verifies(key@, msg@, sig@),
{
    match (PublicKey::from_bytes(key), Signature::from_bytes(sig)) {
        (Ok(key), Ok(sig)) => key.verify(msg, &sig).is_ok(),
        _ => false,
    }
}

/// `Keypair::sign` with the keypair parsed from `keypair`. Ed25519 signing
/// is deterministic: the signature is a function of the keypair and the
/// message. Where the public half is the one that belongs to the secret
/// half, the signature verifies under the public half, as the crate's
/// documentation shows for a keypair that it generated; for other keypairs
/// nothing is claimed.
#[verifier::external_body]
pub(crate) fn ed25519_sign(keypair: &[u8], msg: &[u8]) -> (sig: [u8; 64])
    requires
        keypair_valid(keypair@),
    ensures
        sig@ == signature_of(keypair@, msg@),
        halves_match(keypair@) ==> signature_verifies(keypair@.subrange(32, 64), msg@, sig@),
{
    match Keypair::from_bytes(keypair) {
        Ok(pair) => pair.sign(msg).to_bytes(),
        Err(_) => [0u8; 64],
    }
}

/// `PublicKey::from` on the secret key with the bytes `secret`: the public
/// key that belongs to it, a function of those bytes.
#[verifier::external_body]
pub(crate) fn ed25519_public(secret: &[u8; 32]) -> (key: [u8; 32])
    ensures
        key@ == public_of(secret@),
{
    match SecretKey::from_bytes(secret) {
        Ok(secret) => PublicKey::from(&secret).to_bytes(),
        Err(_) => [0u8; 32],
    }
}

/// `Keypair::generate` with the operating system's random numbers, then
/// `to_bytes`: secret half first, public half second. What comes out parses
/// as a keypair, so its public half parses as a public key, and that half
/// was made from the secret half by `PublicKey::from`; which keypair it is
/// depends on chance.
#[verifier::external_body]
pub(crate) fn ed25519_generate() -> (keypair: [u8; 64])
    ensures
        keypair_valid(keypair@),
        public_key_valid(keypair@.subrange(32, 64)),
        halves_match(keypair@),
{
    Keypair::generate(&mut OsRng).to_bytes()
}

/// `BASE32.encode`.
#[verifier::external_body]
pub(crate) fn base32_encode(bytes: &[u8]) -> (text: String)
    ensures
        text@ == base32(bytes@),
{
    BASE32.encode(bytes)
}

} // verus!
