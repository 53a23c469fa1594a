//! Peer identifiers as the sentry sees them.

use vstd::prelude::*;
use crate::peer_id::{peer_id_hash_from_peer_id, PeerId, PeerIdHash};
use crate::util::keccak256_digest;

verus! {

/// The identifier under which the sentry files a peer: the hash of its key.
pub type SentryPeerId = PeerIdHash;

/// The identifier under which the transport knows a peer: its public key.
pub type P2PPeerId = PeerId;

/// The sentry's identifier for a transport-level peer.
pub fn sentry_peer_id_from_p2p_peer_id(p2p_peer_id: P2PPeerId) -> (out: SentryPeerId)
    ensures
        out@ == keccak256_digest(p2p_peer_id@),
{
    peer_id_hash_from_peer_id(p2p_peer_id)
}

} // verus!
