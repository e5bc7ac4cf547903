//! Trusted adapter around the cryptographic primitives: SHA-256 digests,
//! RSA PKCS#1 v1.5 signing and verification, and a seeded random generator.
//!
//! Everything the rest of the library assumes about the outside crates is
//! concentrated in the contracts of this module.

use vstd::prelude::*;

use rsa::signature::{SignatureEncoding, Signer};

verus! {

#[verifier::external_type_specification]
#[verifier::external_body]
pub struct ExRsaPrivateKey(rsa::RsaPrivateKey);

#[verifier::external_type_specification]
#[verifier::external_body]
pub struct ExStdRng(rand::rngs::StdRng);

/// The SHA-256 digest of a byte sequence: a pure function of the bytes alone.
pub uninterp spec fn sha256_spec(bytes: Seq<u8>) -> Seq<u8>;

/// Whether RSA PKCS#1 v1.5 verification with SHA-256 accepts `sig` as a
/// signature over `msg` under the public key with big-endian exponent bytes
/// `e` and modulus bytes `n`: a pure function of those four byte strings.
pub uninterp spec fn rsa_verify_spec(e: Seq<u8>, n: Seq<u8>, msg: Seq<u8>, sig: Seq<u8>) -> bool;

/// Relies on sha2::Sha256::digest: the 32-byte SHA-256 digest of the input,
/// depending on the input bytes alone.
#[verifier::external_body]
pub fn sha256(bytes: &Vec<u8>) -> (r: [u8; 32])
    ensures
        r@ == sha256_spec(bytes@),
{
    let digest = <sha2::Sha256 as sha2::Digest>::digest(bytes.as_slice());
    digest.into()
}

/// Relies on rsa::pkcs1v15::SigningKey::try_sign (RSA PKCS#1 v1.5 over
/// SHA-256). Nothing is assumed of the returned signature bytes; whether
/// they verify is only ever observed through `rsa_verify`. Nothing when the
/// call fails, as it does for a key whose modulus is too small to carry a
/// SHA-256 signature.
#[verifier::external_body]
pub fn sign(sk: &rsa::RsaPrivateKey, msg: &Vec<u8>) -> (r: Option<Vec<u8>>)
{
    let key = rsa::pkcs1v15::SigningKey::<sha2::Sha256>::new(sk.clone());
    match Signer::try_sign(&key, msg.as_slice()) {
        Ok(signature) => Some(signature.to_vec()),
        Err(_) => None,
    }
}

/// Relies on rsa::RsaPublicKey::new, rsa::pkcs1v15::Signature::try_from and
/// rsa::pkcs1v15::VerifyingKey::verify: all three are deterministic in their
/// byte inputs, so the verdict is a function of `(e, n, msg, sig)`; a key or
/// signature that cannot be rebuilt from its bytes never verifies.
#[verifier::external_body]
pub fn rsa_verify(e: &Vec<u8>, n: &Vec<u8>, msg: &Vec<u8>, sig: &Vec<u8>) -> (r: bool)
    ensures
        r == rsa_verify_spec(e@, n@, msg@, sig@),
{
    let key = match rsa::RsaPublicKey::new(
        rsa::BigUint::from_bytes_be(n.as_slice()),
        rsa::BigUint::from_bytes_be(e.as_slice()),
    ) {
        Ok(k) => k,
        Err(_) => return false,
    };
    let vk = rsa::pkcs1v15::VerifyingKey::<sha2::Sha256>::new(key);
    let signature = match rsa::pkcs1v15::Signature::try_from(sig.as_slice()) {
        Ok(s) => s,
        Err(_) => return false,
    };
    rsa::signature::Verifier::verify(&vk, msg.as_slice(), &signature).is_ok()
}

/// Relies on rand::Rng::gen_range: a draw below `bound` from the given
/// generator. Nothing is assumed beyond the range of the result.
#[verifier::external_body]
pub fn rand_below(rng: &mut rand::rngs::StdRng, bound: u32) -> (r: u32)
    requires
        bound >= 1,
    ensures
        r < bound,
{
    rand::Rng::gen_range(rng, 0..bound)
}

} // verus!
