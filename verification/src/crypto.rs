//! Trusted bindings to the cryptographic primitives the wire format uses:
//! SHA3-512 as the pre-hash, Ed25519 for signing and verification.
//!
//! What the outside calls return is named by uninterpreted functions; the
//! bindings state only what the crates' documentation promises.

use vstd::prelude::*;

use ed25519_dalek::Signer;
use ed25519_dalek::Verifier;
use sha3::Digest;

verus! {

/// The SHA3-512 digest of the input bytes.
pub uninterp spec fn sha3_512_of(data: Seq<u8>) -> Seq<u8>;

/// The Ed25519 public key derived from 32 secret-key bytes.
pub uninterp spec fn ed25519_pk_of(sk: Seq<u8>) -> Seq<u8>;

/// The Ed25519 signature of a message under a secret key.
pub uninterp spec fn ed25519_sig_of(sk: Seq<u8>, msg: Seq<u8>) -> Seq<u8>;

/// Whether a signature verifies for a message under 32 public-key bytes.
pub uninterp spec fn ed25519_verifies(pk: Seq<u8>, msg: Seq<u8>, sig: Seq<u8>) -> bool;

/// Relies on sha3::Sha3_512 (via the Digest trait): the digest is 64 bytes
/// and depends on the input bytes alone.
#[verifier::external_body]
pub(crate) fn sha3_512(data: &Vec<u8>) -> (r: Vec<u8>)
    ensures
        r@ == sha3_512_of(data@),
        r@.len() == 64,
{
    sha3::Sha3_512::digest(data.as_slice()).to_vec()
}

/// Relies on ed25519_dalek::SigningKey::verifying_key (with from_bytes to
/// decode the key): the public key is a function of the secret-key bytes
/// alone.
#[verifier::external_body]
pub fn derive_public_key(sk: &[u8; 32]) -> (r: [u8; 32])
    ensures
        r@ == ed25519_pk_of(sk@),
{
    ed25519_dalek::SigningKey::from_bytes(sk).verifying_key().to_bytes()
}

/// Relies on ed25519_dalek's Signer::sign: Ed25519 signing is deterministic
/// (RFC 8032), so the signature is a function of key and message, and a
/// signature it produces verifies under the signer's public key.
#[verifier::external_body]
pub(crate) fn sign_message(sk: &[u8; 32], msg: &Vec<u8>) -> (r: [u8; 64])
    ensures
        r@ == ed25519_sig_of(sk@, msg@),
        ed25519_verifies(ed25519_pk_of(sk@), msg@, r@),
{
    let key = ed25519_dalek::SigningKey::from_bytes(sk);
    key.sign(msg.as_slice()).to_bytes()
}

/// Relies on ed25519_dalek::VerifyingKey::verify (with from_bytes to decode
/// the key and Signature::from_bytes for the signature): acceptance is a
/// function of key, message and signature bytes alone; a key that does not
/// decode accepts nothing.
#[verifier::external_body]
pub(crate) fn verify_signature(pk: &[u8; 32], msg: &Vec<u8>, sig: &[u8; 64]) -> (r: bool)
    ensures
        r == ed25519_verifies(pk@, msg@, sig@),
{
    match ed25519_dalek::VerifyingKey::from_bytes(pk) {
        Ok(key) => key.verify(msg.as_slice(), &ed25519_dalek::Signature::from_bytes(sig)).is_ok(),
        Err(_) => false,
    }
}

/// A player's long-term signing identity, held as raw bytes. The public half
/// is always the one derived from the secret half.
pub struct Keys {
    pub secret: [u8; 32],
    pub public: [u8; 32],
}

impl Keys {
    /// The public half matches the secret half.
    pub open spec fn wf(&self) -> bool {
        self.public@ == ed25519_pk_of(self.secret@)
    }

    /// Build a keypair from its secret half, deriving the public half.
    pub fn from_secret(secret: [u8; 32]) -> (r: Keys)
        ensures
            r.wf(),
            r.secret@ == secret@,
    {
        let public = derive_public_key(&secret);
        Keys { secret, public }
    }
}

} // verus!
