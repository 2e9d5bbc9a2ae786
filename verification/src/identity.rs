//! Identities: a private key generates exactly one public key, and only the
//! public half is ever stored by the engine.

use vstd::prelude::*;

use crate::hash::{
    bytes_eq, clone_bytes, digest_of, hex_decode, hex_str_of, is_hex_encoding, ParseError,
    HASH_LEN,
};

verus! {

/// A stable author identifier: the public half of a key pair.
#[derive(Debug, PartialEq, Eq, PartialOrd, Ord, Hash)]
pub struct PublicKey {
    pub bytes: Vec<u8>,
}

impl View for PublicKey {
    type V = Seq<u8>;

    open spec fn view(&self) -> Seq<u8> {
        self.bytes@
    }
}

impl Clone for PublicKey {
    fn clone(&self) -> (r: Self)
        ensures
            r@ == self@,
    {
        PublicKey { bytes: clone_bytes(&self.bytes) }
    }
}

impl PublicKey {
    /// Whether the identifier has the fixed size.
    pub open spec fn wf(&self) -> bool {
        self@.len() == HASH_LEN
    }

    /// Builds a public key directly from identifier bytes.
    pub fn from_bytes(bytes: Vec<u8>) -> (r: PublicKey)
        ensures
            r@ == bytes@,
    {
        PublicKey { bytes }
    }

    /// Whether two keys identify the same author.
    pub fn equals(&self, other: &PublicKey) -> (r: bool)
        ensures
            r == (self@ == other@),
    {
        bytes_eq(&self.bytes, &other.bytes)
    }

    /// The hexadecimal string form of the identifier.
    pub fn to_string(&self) -> (r: String)
        ensures
            r@ == hex_str_of(self@),
            r@.len() == 2 * self@.len(),
    {
        crate::hash::encode_hex(&self.bytes)
    }

    /// Parses the hexadecimal string form of an identifier; fails exactly on
    /// strings that are not such an encoding.
    pub fn from_string(s: &str) -> (r: Result<PublicKey, ParseError>)
        ensures
            match r {
                Ok(k) => is_hex_encoding(s@) && k@ == hex_decode(s@) && k.wf(),
                Err(_) => !is_hex_encoding(s@),
            },
    {
        match crate::hash::decode_hex(s) {
            Ok(bytes) => Ok(PublicKey { bytes }),
            Err(e) => Err(e),
        }
    }
}

/// The private half of a key pair. It is generated locally, projects to
/// exactly one public key, and is never retained by the engine.
#[derive(Debug)]
pub struct PrivateKey {
    pub bytes: Vec<u8>,
}

impl View for PrivateKey {
    type V = Seq<u8>;

    open spec fn view(&self) -> Seq<u8> {
        self.bytes@
    }
}

impl PrivateKey {
    /// Generates a fresh key pair from local randomness.
    pub fn new() -> (r: PrivateKey)
        ensures
            r@.len() == HASH_LEN,
    {
        PrivateKey { bytes: random_bytes() }
    }

    /// Projects the public half; the same private key always yields the same
    /// public key.
    pub fn public_key(&self) -> (r: PublicKey)
        ensures
            r@ == digest_of(self@),
            r.wf(),
    {
        let h = crate::hash::Hash::new(self.bytes.as_slice());
        PublicKey { bytes: h.bytes }
    }
}

/// Relies on rand::random: 32 bytes drawn from the thread-local
/// cryptographically secure generator. Nothing is promised of the values.
#[verifier::external_body]
fn random_bytes() -> (r: Vec<u8>)
    ensures
        r@.len() == HASH_LEN,
{
    rand::random::<[u8; 32]>().to_vec()
}

} // verus!
