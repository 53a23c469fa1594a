//! Peer identity: the long public key, its hash, and the conversions
//! between a secp256k1 public key and the 64-byte identifier sent on the wire.

use vstd::prelude::*;
use crate::primitives::{H256, H512};
use crate::util::{keccak256, keccak256_digest};

verus! {

/// Keccak-256 of a peer's public key; the key under which peers are filed.
pub type PeerIdHash = H256;

/// The 64 bytes X‖Y of an uncompressed secp256k1 public key.
pub type PeerIdPubKey = H512;

/// How the transport names a peer.
pub type PeerId = PeerIdPubKey;

/// Why a byte string is not a public key.
#[derive(Clone, Copy, Debug, PartialEq, Eq)]
pub enum KeyError {
    /// The bytes are not the uncompressed form: 65 bytes starting with 0x04.
    NotUncompressed,
    /// The bytes do not describe a point of the curve.
    InvalidPublicKey,
}

/// A secp256k1 public key in uncompressed form: the tag 0x04, then X and Y.
#[derive(Clone, Copy, Debug, PartialEq, Eq)]
pub struct PublicKey {
    bytes: [u8; 65],
}

/// The error of the `secp256k1` crate, of which nothing is looked at.
#[verifier::external_type_specification]
#[verifier::external_body]
pub struct ExSecpError(secp256k1::Error);

/// Whether `secp256k1::PublicKey::from_slice` accepts a byte string.
pub uninterp spec fn secp256k1_accepts(data: Seq<u8>) -> bool;

/// Calls `secp256k1::PublicKey::from_slice` and keeps only whether the
/// bytes were accepted as a key.
#[verifier::external_body]
fn check_public_key(data: &[u8]) -> (r: Result<(), secp256k1::Error>)
    ensures
        r is Ok <==> secp256k1_accepts(data@),
{
    match secp256k1::PublicKey::from_slice(data) {
        Ok(_) => Ok(()),
        Err(e) => Err(e),
    }
}

impl View for PublicKey {
    type V = Seq<u8>;

    closed spec fn view(&self) -> Seq<u8> {
        self.bytes@
    }
}

/// The uncompressed encoding of the key with identifier bytes `id`.
pub open spec fn uncompressed(id: Seq<u8>) -> Seq<u8> {
    seq![4u8] + id
}

impl PublicKey {
    /// A key is 65 bytes, tagged 0x04, that secp256k1 accepts.
    pub open spec fn wf(&self) -> bool {
        &&& self@.len() == 65
        &&& self@[0] == 4
        &&& secp256k1_accepts(self@)
    }

    /// Reads a key from its 65-byte uncompressed encoding.
    pub fn from_slice(data: &[u8]) -> (r: Result<PublicKey, KeyError>)
        ensures
            match r {
                Ok(pk) => pk.wf() && pk@ == data@,
                Err(KeyError::NotUncompressed) => !(data@.len() == 65 && data@[0] == 4),
                Err(KeyError::InvalidPublicKey) => data@.len() == 65 && data@[0] == 4
                    && !secp256k1_accepts(data@),
            },
    {
        if data.len() != 65 || data[0] != 4 {
            return Err(KeyError::NotUncompressed);
        }
        match check_public_key(data) {
            Err(_) => Err(KeyError::InvalidPublicKey),
            Ok(()) => {
                let mut bytes = [0u8; 65];
                let mut i: usize = 0;
                while i < 65
                    invariant
                        i <= 65,
                        data@.len() == 65,
                        forall|j: int| 0 <= j < i ==> bytes@[j] == data@[j],
                    decreases 65 - i,
                {
                    bytes[i] = data[i];
                    i += 1;
                }
                assert(bytes@ =~= data@);
                Ok(PublicKey { bytes })
            },
        }
    }

    /// The 65-byte uncompressed encoding.
    pub fn serialize_uncompressed(&self) -> (out: [u8; 65])
        ensures
            out@ == self@,
    {
        self.bytes
    }
}

/// The identifier of a key: its encoding without the leading tag.
pub open spec fn peer_id_of(pk: Seq<u8>) -> Seq<u8> {
    pk.subrange(1, 65)
}

/// The wire identifier of a public key: X‖Y, the tag byte dropped.
pub fn peer_id_from_pub_key(pk: &PublicKey) -> (id: PeerIdPubKey)
    ensures
        id@ == peer_id_of(pk@),
{
    let mut out = [0u8; 64];
    let mut i: usize = 0;
    while i < 64
        invariant
            i <= 64,
            forall|j: int| 0 <= j < i ==> out@[j] == pk.bytes@[j + 1],
        decreases 64 - i,
    {
        out[i] = pk.bytes[i + 1];
        i += 1;
    }
    assert(out@ =~= peer_id_of(pk@));
    H512(out)
}

/// The encoding of the key with identifier `id`, if there is such a key:
/// if secp256k1 accepts the identifier with the tag put in front.
pub open spec fn key_of_peer_id(id: Seq<u8>) -> Option<Seq<u8>> {
    if secp256k1_accepts(uncompressed(id)) {
        Some(uncompressed(id))
    } else {
        None
    }
}

/// The public key with wire identifier `id`, if the 64 bytes are the
/// coordinates of a curve point.
pub fn pub_key_from_peer_id(id: PeerIdPubKey) -> (r: Result<PublicKey, KeyError>)
    ensures
        match r {
            Ok(pk) => pk.wf() && key_of_peer_id(id@) == Some(pk@),
            Err(e) => e == KeyError::InvalidPublicKey && key_of_peer_id(id@) is None,
        },
{
    let mut s = [0u8; 65];
    s[0] = 4;
    let mut i: usize = 0;
    while i < 64
        invariant
            i <= 64,
            s@[0] == 4,
            forall|j: int| 0 <= j < i ==> s@[j + 1] == id.0@[j],
        decreases 64 - i,
    {
        s[i + 1] = id.0[i];
        i += 1;
    }
    assert(s@ =~= uncompressed(id@));
    match check_public_key(s.as_slice()) {
        Ok(()) => Ok(PublicKey { bytes: s }),
        Err(_) => Err(KeyError::InvalidPublicKey),
    }
}

/// Keccak-256 of the identifier.
pub fn peer_id_hash_from_peer_id(id: PeerIdPubKey) -> (hash: PeerIdHash)
    ensures
        hash@ == keccak256_digest(id@),
{
    keccak256(id.0.as_slice())
}

/// Taking the identifier of a key and turning it back into a key gives the
/// key one started with.
pub proof fn peer_id_round_trip(pk: PublicKey)
    requires
        pk.wf(),
    ensures
        key_of_peer_id(peer_id_of(pk@)) == Some(pk@),
{
    assert(uncompressed(peer_id_of(pk@)) =~= pk@);
}

} // verus!
