//! Signed envelopes and the trusted cryptographic primitives they rest on.
//!
//! A `SignedData` envelope binds a payload to the peer identity of its
//! signer: the signature covers the SHA-256 digest of the payload's stable
//! binary encoding (see `codec`). The cryptographic work — hashing, Ed25519
//! signing and verification, protobuf key decoding, peer-id derivation — is
//! done by outside crates behind the trusted items in this module; their
//! results are named by uninterpreted spec functions over plain byte and
//! character sequences, and everything the library proves about envelopes
//! is stated over those names.

use vstd::prelude::*;

verus! {

use crate::codec::{encode_message, spec_encode_message};
use crate::strings::str_eq_chars;
use crate::sync::{P2PMessage, SyncMessage};

/// SHA-256 digest of a byte sequence; the result of `sha2::Sha256::digest`.
pub uninterp spec fn sha256_of(bytes: Seq<u8>) -> Seq<u8>;

/// Whether the bytes are a protobuf encoding of a valid public key; whether
/// `libp2p::identity::PublicKey::try_decode_protobuf` succeeds on them.
pub uninterp spec fn pk_decodes(bytes: Seq<u8>) -> bool;

/// The peer identifier derived from a protobuf-encoded public key: the
/// string form of `PublicKey::try_decode_protobuf(bytes).to_peer_id()`.
pub uninterp spec fn peer_id_of(bytes: Seq<u8>) -> Seq<char>;

/// Whether the key encoded in `pk` accepts `sig` as a signature over `msg`;
/// the result of `PublicKey::verify`.
pub uninterp spec fn sig_verifies(pk: Seq<u8>, msg: Seq<u8>, sig: Seq<u8>) -> bool;

/// Whether a string parses as a peer identifier; whether
/// `str::parse::<libp2p::PeerId>` succeeds on it.
pub uninterp spec fn is_peer_id(s: Seq<char>) -> bool;

/// The protobuf encoding of a keypair's public key: the result of
/// `keypair.public().encode_protobuf()`, a function of the keypair alone.
pub uninterp spec fn kp_bytes_of(k: libp2p::identity::Keypair) -> Seq<u8>;

#[verifier::external_type_specification]
#[verifier::external_body]
pub struct ExKeypair(libp2p::identity::Keypair);

/// Failure of a local signing operation.
#[derive(Debug, Clone, Copy, PartialEq, Eq, Structural)]
pub enum CryptoError {
    SigningFailed,
}

/// Relies on `sha2::Sha256::digest`: the digest depends on the input bytes
/// alone and is 32 bytes long.
#[verifier::external_body]
pub fn sha256(bytes: &Vec<u8>) -> (r: Vec<u8>)
    ensures
        r@ == sha256_of(bytes@),
        r@.len() == 32,
{
    <sha2::Sha256 as sha2::Digest>::digest(bytes.as_slice()).to_vec()
}

/// Relies on `Keypair::sign` and `PublicKey::encode_protobuf`: a signature
/// produced with a keypair verifies under the same keypair's public key,
/// and the encoding of that key decodes back to a key. The signature and
/// the encoded key must come from one keypair for that link to hold, so
/// this one wrapper returns both. In this build the keypair is always an
/// Ed25519 keypair, whose signing arm is infallible, so the wrapper
/// always succeeds.
#[verifier::external_body]
pub fn sign_digest(keypair: &libp2p::identity::Keypair, digest: &Vec<u8>) -> (r: Result<
    (Vec<u8>, Vec<u8>),
    CryptoError,
>)
    ensures
        r is Ok,
        r matches Ok(p) ==> p.1@ == kp_bytes_of(*keypair) && pk_decodes(p.1@) && sig_verifies(
            p.1@,
            digest@,
            p.0@,
        ),
{
    let pk = keypair.public().encode_protobuf();
    match keypair.sign(digest.as_slice()) {
        Ok(sig) => Ok((sig, pk)),
        Err(_) => Err(CryptoError::SigningFailed),
    }
}

/// Relies on `PublicKey::encode_protobuf`: the encoding of a keypair's
/// public key depends on the keypair alone and decodes back to a key.
#[verifier::external_body]
pub fn keypair_public_bytes(keypair: &libp2p::identity::Keypair) -> (r: Vec<u8>)
    ensures
        r@ == kp_bytes_of(*keypair),
        pk_decodes(r@),
{
    keypair.public().encode_protobuf()
}

/// Relies on `PublicKey::try_decode_protobuf` and `to_peer_id`: whether the
/// bytes decode to a key, and the peer identifier that key derives to.
#[verifier::external_body]
pub fn derive_peer_id(bytes: &Vec<u8>) -> (r: Option<String>)
    ensures
        r is Some <==> pk_decodes(bytes@),
        r matches Some(s) ==> s@ == peer_id_of(bytes@),
{
    match libp2p::identity::PublicKey::try_decode_protobuf(bytes.as_slice()) {
        Ok(pk) => Some(pk.to_peer_id().to_string()),
        Err(_) => None,
    }
}

/// Relies on `PublicKey::try_decode_protobuf` and `PublicKey::verify`:
/// decode the key and check the signature over the message.
#[verifier::external_body]
pub fn verify_signature(pk_bytes: &Vec<u8>, msg: &Vec<u8>, sig: &Vec<u8>) -> (r: bool)
    ensures
        r == (pk_decodes(pk_bytes@) && sig_verifies(pk_bytes@, msg@, sig@)),
{
    match libp2p::identity::PublicKey::try_decode_protobuf(pk_bytes.as_slice()) {
        Ok(pk) => pk.verify(msg.as_slice(), sig.as_slice()),
        Err(_) => false,
    }
}

/// Relies on `str::parse::<libp2p::PeerId>`: whether a string is a valid
/// peer identifier.
#[verifier::external_body]
pub fn peer_id_str_valid(s: &str) -> (r: bool)
    ensures
        r == is_peer_id(s@),
{
    s.parse::<libp2p::PeerId>().is_ok()
}

/// The digest an envelope's signature covers: SHA-256 of the payload's
/// stable binary encoding.
pub open spec fn envelope_digest(data: P2PMessage) -> Seq<u8> {
    sha256_of(spec_encode_message(data))
}

/// An envelope is authentic for public-key bytes `pk` when the bytes decode
/// to a key, the declared signer is the identity that key derives to, and
/// the key accepts the signature over the payload digest.
pub open spec fn envelope_authentic(e: SignedData, pk: Seq<u8>) -> bool {
    &&& pk_decodes(pk)
    &&& e.signer@ == peer_id_of(pk)
    &&& sig_verifies(pk, envelope_digest(e.data), e.signature@)
}

/// A payload bound to its signer: the signature covers the SHA-256 digest
/// of the payload's stable binary encoding, and `signer` is the peer
/// identity derived from the signing keypair's public key.
#[derive(Debug, Clone)]
pub struct SignedData {
    pub data: P2PMessage,
    pub signature: Vec<u8>,
    pub signer: String,
}

impl SignedData {
    /// Sign a payload, returning the envelope together with the signer's
    /// protobuf-encoded public key. Signing always succeeds: the payload's
    /// encoding is total and the Ed25519 signing arm is infallible.
    pub fn new_with_key(data: P2PMessage, keypair: &libp2p::identity::Keypair) -> (r: Result<
        (SignedData, Vec<u8>),
        CryptoError,
    >)
        ensures
            r is Ok,
            r matches Ok(p) ==> p.0.data == data && p.1@ == kp_bytes_of(*keypair)
                && envelope_authentic(p.0, p.1@),
    {
        let bytes = encode_message(&data);
        let digest = sha256(&bytes);
        match sign_digest(keypair, &digest) {
            Ok((signature, pk_bytes)) => {
                let signer = match derive_peer_id(&pk_bytes) {
                    Some(s) => s,
                    None => {
                        proof {
                            assert(false);
                        }
                        String::new()
                    },
                };
                Ok((SignedData { data, signature, signer }, pk_bytes))
            },
            Err(e) => {
                proof {
                    assert(false);
                }
                Err(e)
            },
        }
    }

    /// Sign a payload with the given keypair. Signing always succeeds,
    /// and the envelope is authentic for the keypair's public key.
    pub fn new(data: P2PMessage, keypair: &libp2p::identity::Keypair) -> (r: Result<
        SignedData,
        CryptoError,
    >)
        ensures
            r is Ok,
            r matches Ok(e) ==> e.data == data && envelope_authentic(e, kp_bytes_of(*keypair)),
    {
        match Self::new_with_key(data, keypair) {
            Ok((e, pk_bytes)) => {
                proof {
                    assert(envelope_authentic(e, pk_bytes@));
                }
                Ok(e)
            },
            Err(err) => Err(err),
        }
    }

    /// Check the envelope against a keypair's own public key: true exactly
    /// when the envelope is authentic for that keypair's public key.
    pub fn verify(&self, keypair: &libp2p::identity::Keypair) -> (r: bool)
        ensures
            r == envelope_authentic(*self, kp_bytes_of(*keypair)),
    {
        let pk_bytes = keypair_public_bytes(keypair);
        self.verify_with_public_key(&pk_bytes)
    }

    /// Check the envelope against explicit public-key bytes: the declared
    /// signer must equal the identity the key derives to, and the key must
    /// accept the signature over the payload digest.
    pub fn verify_with_public_key(&self, public_key: &Vec<u8>) -> (r: bool)
        ensures
            r == envelope_authentic(*self, public_key@),
    {
        let derived = match derive_peer_id(public_key) {
            Some(s) => s,
            None => {
                return false;
            },
        };
        if !str_eq_chars(derived.as_str(), self.signer.as_str()) {
            return false;
        }
        let bytes = encode_message(&self.data);
        let digest = sha256(&bytes);
        verify_signature(public_key, &digest, &self.signature)
    }
}

/// Law: an envelope that is authentic for a public key — as every envelope
/// returned by `SignedData::new_with_key` is, for the signing keypair's
/// public key — passes `verify_with_public_key` with that key: signing and
/// verifying with the same keypair is the identity on acceptance, for every
/// payload the wire format carries.
pub proof fn lemma_sign_then_verify(e: SignedData, pk: Seq<u8>)
    requires
        envelope_authentic(e, pk),
    ensures
        pk_decodes(pk),
        e.signer@ == peer_id_of(pk),
        sig_verifies(pk, sha256_of(spec_encode_message(e.data)), e.signature@),
{
}

/// The kind of mutation a wire-form sync record carries.
#[derive(Debug, Clone)]
pub enum SyncOperation {
    Put,
    Delete,
}

/// Flattened wire form of a store mutation: a delete carries no value.
#[derive(Debug, Clone)]
pub struct SignedSyncMessage {
    pub key: String,
    pub value: Option<String>,
    pub timestamp: i64,
    pub operation: SyncOperation,
}

impl From<SyncMessage> for SignedSyncMessage {
    fn from(msg: SyncMessage) -> (r: SignedSyncMessage) {
        match msg {
            SyncMessage::Put { key, value, timestamp } => SignedSyncMessage {
                key,
                value: Some(value),
                timestamp,
                operation: SyncOperation::Put,
            },
            SyncMessage::Delete { key, timestamp } => SignedSyncMessage {
                key,
                value: None,
                timestamp,
                operation: SyncOperation::Delete,
            },
        }
    }
}

impl vstd::std_specs::convert::FromSpecImpl<SyncMessage> for SignedSyncMessage {
    open spec fn obeys_from_spec() -> bool {
        true
    }

    open spec fn from_spec(msg: SyncMessage) -> SignedSyncMessage {
        match msg {
            SyncMessage::Put { key, value, timestamp } => SignedSyncMessage {
                key,
                value: Some(value),
                timestamp,
                operation: SyncOperation::Put,
            },
            SyncMessage::Delete { key, timestamp } => SignedSyncMessage {
                key,
                value: None,
                timestamp,
                operation: SyncOperation::Delete,
            },
        }
    }
}

impl SignedSyncMessage {
    /// Unflatten into a store mutation. A put record without a value falls
    /// back to an empty value string; the forward conversion never
    /// produces such a record, and the contract says nothing of it.
    pub fn to_sync(self) -> (r: SyncMessage)
        ensures
            self.operation matches SyncOperation::Put ==> (self.value matches Some(v) ==> (r
                matches SyncMessage::Put { key, value, timestamp } && key == self.key && value
                == v && timestamp == self.timestamp)),
            self.operation matches SyncOperation::Delete ==> (r matches SyncMessage::Delete {
                key,
                timestamp,
            } && key == self.key && timestamp == self.timestamp),
    {
        match self.operation {
            SyncOperation::Put => SyncMessage::Put {
                key: self.key,
                value: match self.value {
                    Some(v) => v,
                    None => String::new(),
                },
                timestamp: self.timestamp,
            },
            SyncOperation::Delete => SyncMessage::Delete {
                key: self.key,
                timestamp: self.timestamp,
            },
        }
    }
}

impl From<SignedSyncMessage> for SyncMessage {
    /// See `SignedSyncMessage::to_sync`, which carries the contract; the
    /// put-without-value case makes a value no spec value can name, so
    /// this impl claims no `from_spec`.
    fn from(msg: SignedSyncMessage) -> (r: SyncMessage) {
        msg.to_sync()
    }
}

impl vstd::std_specs::convert::FromSpecImpl<SignedSyncMessage> for SyncMessage {
    open spec fn obeys_from_spec() -> bool {
        false
    }

    open spec fn from_spec(msg: SignedSyncMessage) -> SyncMessage {
        SyncMessage::Delete { key: msg.key, timestamp: msg.timestamp }
    }
}

/// Law: flattening a mutation to its wire record and unflattening it is
/// the identity — for both puts and deletes, whatever record shape
/// `to_sync` returned under its contract.
pub proof fn lemma_sync_conversion_round_trip(m: SyncMessage, s: SignedSyncMessage, r: SyncMessage)
    requires
        s == <SignedSyncMessage as vstd::std_specs::convert::FromSpec<SyncMessage>>::from_spec(m),
        s.operation matches SyncOperation::Put ==> (s.value matches Some(v) ==> (r
            matches SyncMessage::Put { key, value, timestamp } && key == s.key && value == v
            && timestamp == s.timestamp)),
        s.operation matches SyncOperation::Delete ==> (r matches SyncMessage::Delete {
            key,
            timestamp,
        } && key == s.key && timestamp == s.timestamp),
    ensures
        r == m,
{
    match m {
        SyncMessage::Put { key, value, timestamp } => {
            assert(s.operation is Put && s.value == Some(value));
        },
        SyncMessage::Delete { key, timestamp } => {
            assert(s.operation is Delete);
        },
    }
}

} // verus!
