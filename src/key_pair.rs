//! An Ed25519 identity key pair, kept with the PKCS#8 document it was read from.
use ring::error::KeyRejected;
use ring::signature::{Ed25519KeyPair, KeyPair as _};
use vstd::prelude::*;

verus! {

/// The length of the PKCS#8 document of an Ed25519 key pair.
pub const DOCUMENT_LEN: usize = 85;

#[verifier::external_type_specification]
#[verifier::external_body]
pub struct ExEd25519KeyPair(Ed25519KeyPair);

#[verifier::external_type_specification]
#[verifier::external_body]
pub struct ExKeyRejected(KeyRejected);

/// Whether the Ed25519 PKCS#8 v2 parser accepts a document.
pub uninterp spec fn pkcs8_accepts(document: Seq<u8>) -> bool;

/// Relies on `Ed25519KeyPair::from_pkcs8`: it parses a PKCS#8 v2 document
/// and checks the key pair in it, or rejects it; the verdict depends on the
/// document's bytes alone.
#[verifier::external_body]
fn parse_pkcs8(document: &[u8]) -> (r: Result<Ed25519KeyPair, KeyRejected>)
    ensures
        r is Ok <==> pkcs8_accepts(document@),
{
    Ed25519KeyPair::from_pkcs8(document)
}

/// Relies on `Ed25519KeyPair::sign`: the 64-byte signature of `message`.
#[verifier::external_body]
fn sign_with(key: &Ed25519KeyPair, message: &[u8]) -> (r: [u8; 64]) {
    let mut out = [0u8; 64];
    out.copy_from_slice(key.sign(message).as_ref());
    out
}

/// Relies on `ring::signature::KeyPair::public_key` for `Ed25519KeyPair`:
/// the 32-byte public key.
#[verifier::external_body]
fn public_key_of(key: &Ed25519KeyPair) -> (r: [u8; 32]) {
    let mut out = [0u8; 32];
    out.copy_from_slice(key.public_key().as_ref());
    out
}

/// A key pair that could not be read or made.
#[derive(Copy, Clone, Debug)]
pub struct KeyGenerationError;

impl KeyGenerationError {
    /// A description of the error.
    pub fn description(&self) -> (r: &'static str)
        ensures
            r@ == "key generation failed"@,
    {
        "key generation failed"
    }
}

/// An Ed25519 key pair and the PKCS#8 document that holds it.
pub struct KeyPair {
    bytes: [u8; 85],
    keypair: Ed25519KeyPair,
}

impl View for KeyPair {
    type V = Seq<u8>;

    /// The PKCS#8 document.
    closed spec fn view(&self) -> Seq<u8> {
        self.bytes@
    }
}

impl KeyPair {
    /// Reads a key pair from its PKCS#8 document. A document that is not
    /// exactly 85 bytes long is an error; so is one that the Ed25519 parser
    /// rejects.
    pub fn from_bytes(bytes: &[u8]) -> (r: Result<KeyPair, KeyGenerationError>)
        ensures
            r is Ok <==> bytes@.len() == DOCUMENT_LEN && pkcs8_accepts(bytes@),
            r matches Ok(k) ==> k@ == bytes@,
    {
        if bytes.len() != DOCUMENT_LEN {
            return Err(KeyGenerationError);
        }
        let mut document = [0u8; 85];
        let mut i: usize = 0;
        while i < DOCUMENT_LEN
            invariant
                i <= DOCUMENT_LEN,
                bytes@.len() == DOCUMENT_LEN,
                forall|k: int| 0 <= k < i ==> document@[k] == bytes@[k],
            decreases DOCUMENT_LEN - i,
        {
            document[i] = bytes[i];
            i = i + 1;
        }
        proof {
            assert(document@ =~= bytes@);
        }
        match parse_pkcs8(&document) {
            Ok(keypair) => Ok(KeyPair { bytes: document, keypair }),
            Err(_) => Err(KeyGenerationError),
        }
    }

    /// The signature of `message` under this key pair.
    pub fn sign(&self, message: &[u8]) -> [u8; 64] {
        sign_with(&self.keypair, message)
    }

    /// The public half of the key pair.
    pub fn public_key(&self) -> [u8; 32] {
        public_key_of(&self.keypair)
    }

    /// The PKCS#8 document.
    pub fn as_bytes(&self) -> (r: &[u8; 85])
        ensures
            r@ == self@,
    {
        &self.bytes
    }
}

} // verus!
