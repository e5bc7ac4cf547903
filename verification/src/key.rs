//! The public half of an RSA key pair, held as plain bytes.
//!
//! The library never looks inside an RSA key object; all it ever reads of a
//! verifier are the big-endian bytes of the public exponent `e` and the
//! modulus `n`. Holding those bytes directly keeps serialization and key
//! comparison fully verified; verification itself goes through
//! `crate::crypto::rsa_verify` on the same bytes.

use vstd::prelude::*;

use crate::bytes::{bytes_eq, copy_bytes};

verus! {

/// The mathematical content of a `VerifierKey`: the two byte strings.
#[verifier::ext_equal]
pub struct VerifierKeyModel {
    pub e: Seq<u8>,
    pub n: Seq<u8>,
}

/// A verifying key: big-endian bytes of the RSA public exponent and modulus.
pub struct VerifierKey {
    e: Vec<u8>,
    n: Vec<u8>,
}

impl View for VerifierKey {
    type V = VerifierKeyModel;

    closed spec fn view(&self) -> VerifierKeyModel {
        VerifierKeyModel { e: self.e@, n: self.n@ }
    }
}

impl VerifierKey {
    /// Builds a key from the big-endian bytes of `e` and `n`.
    pub fn new(e: Vec<u8>, n: Vec<u8>) -> (r: Self)
        ensures
            r@ == (VerifierKeyModel { e: e@, n: n@ }),
    {
        VerifierKey { e, n }
    }

    /// The big-endian bytes of the public exponent.
    pub fn e_bytes(&self) -> (r: &Vec<u8>)
        ensures
            r@ == self@.e,
    {
        &self.e
    }

    /// The big-endian bytes of the modulus.
    pub fn n_bytes(&self) -> (r: &Vec<u8>)
        ensures
            r@ == self@.n,
    {
        &self.n
    }

    /// Whether two keys hold the same exponent and modulus bytes.
    pub fn key_eq(&self, other: &VerifierKey) -> (r: bool)
        ensures
            r == (self@ == other@),
    {
        let r = bytes_eq(&self.e, &other.e) && bytes_eq(&self.n, &other.n);
        proof {
            if self@.e == other@.e && self@.n == other@.n {
                assert(self@ =~= other@);
            }
        }
        r
    }
}

impl Clone for VerifierKey {
    fn clone(&self) -> (r: Self)
        ensures
            r@ == self@,
    {
        VerifierKey { e: copy_bytes(&self.e), n: copy_bytes(&self.n) }
    }
}

} // verus!
