//! The `eth` capability server: what the node keeps of every peer and how
//! that changes when a peer connects, speaks or leaves.
//!
//! The server is a state machine.  Its state is a plain value and every
//! entry point says, as a function of the state before and of its input,
//! what the state is afterwards and what is to be sent where.  The caller
//! owns the channels: it hands the events of the transport in and carries
//! out what the server hands back.

use vstd::prelude::*;
use crate::block_tracker::BlockTracker;
use crate::eth::{
    capability_name, decode_status, encode_status, eth_name, status_decoding, status_encoding,
    EthMessageId, EthProtocolVersion, FullStatusData, FullStatusView, InboundMessage,
    InboundMessageView,
};
use crate::events::{
    outbound_views, CapabilityId, CapabilityVersion, DisconnectReason, InboundEvent,
    InboundEventView, Message, MessageView, OutboundEvent, OutboundEventView, PeerEvent,
    PeersReply, PeersReplyView,
};
use crate::keyed::{distinct_keys, key_set, KeyedList};
use crate::peer_id::{peer_id_hash_from_peer_id, PeerId, PeerIdHash};
use crate::pipes::{Pipes, PipesView, CHANNEL_CAPACITY};
use crate::primitives::{H256, H512};
use crate::util::keccak256_digest;

verus! {

/// The state of a capability server, as a mathematical value.
#[verifier::ext_equal]
pub struct ServerView {
    /// The outbound pipe of every connected peer.
    pub pipes: Map<Seq<u8>, PipesView>,
    /// The best block of every tracked peer.
    pub blocks: Map<Seq<u8>, u64>,
    /// The chain status that the node announces, once it has been set.
    pub status: Option<FullStatusView>,
    /// The version of the capability that the node was started with.
    pub protocol_version: EthProtocolVersion,
    /// The peers that completed the status handshake.
    pub valid: Set<Seq<u8>>,
    /// Whether the node takes no new peers for now.
    pub no_new_peers: bool,
    /// The hashes of the peer keys seen so far.
    pub cache: Map<Seq<u8>, Seq<u8>>,
}

/// What handling one event amounts to, as a mathematical value.
#[verifier::ext_equal]
pub struct HandledView {
    /// A reply for the peer, or the reason to end its session.
    pub result: Result<Option<MessageView>, DisconnectReason>,
    /// What to report downstream of the peer's coming or going.
    pub peer_event: Option<PeersReplyView>,
    /// The message to hand downstream.
    pub forward: Option<InboundMessageView>,
}

/// What handling one event amounts to.
#[derive(Debug, PartialEq, Eq)]
pub struct Handled {
    /// A reply for the peer, or the reason to end its session.
    pub result: Result<Option<Message>, DisconnectReason>,
    /// What to report downstream of the peer's coming or going.  Nothing is
    /// lost if nobody listens.
    pub peer_event: Option<PeersReply>,
    /// The message to hand downstream.
    pub forward: Option<InboundMessage>,
}

impl View for Handled {
    type V = HandledView;

    open spec fn view(&self) -> HandledView {
        HandledView {
            result: match self.result {
                Ok(Some(m)) => Ok(Some(m@)),
                Ok(None) => Ok(None),
                Err(reason) => Err(reason),
            },
            peer_event: match self.peer_event {
                Some(e) => Some(e@),
                None => None,
            },
            forward: match self.forward {
                Some(m) => Some(m@),
                None => None,
            },
        }
    }
}

/// Where a peer stands with the server.
#[derive(Clone, Copy, Debug, PartialEq, Eq, Structural)]
pub enum PeerState {
    /// The peer has no pipe: it never connected, or it was torn down.
    Disconnected,
    /// The peer has a pipe and has not completed the status handshake.
    AwaitingStatus,
    /// The peer has a pipe and completed the status handshake.
    Valid,
}

/// Nothing to reply, report or forward.
pub open spec fn quiet() -> HandledView {
    HandledView { result: Ok(None), peer_event: None, forward: None }
}

/// The session is to end for `reason`.
pub open spec fn failed(reason: DisconnectReason) -> HandledView {
    HandledView { result: Err(reason), peer_event: None, forward: None }
}

/// The version of the `eth` capability among negotiated capabilities: that
/// of the first capability with this name.
pub open spec fn eth_version(caps: Seq<CapabilityId>) -> Option<CapabilityVersion>
    decreases caps.len(),
{
    if caps.len() == 0 {
        None
    } else if caps[0].name@ == eth_name() {
        Some(caps[0].version)
    } else {
        eth_version(caps.drop_first())
    }
}

/// The events that a peer's pipe starts with: the node's status message if
/// the node has a status, the request to disconnect otherwise.
pub open spec fn first_events(
    status: Option<FullStatusView>,
    version: Option<CapabilityVersion>,
) -> Seq<OutboundEventView> {
    match status {
        Some(full) => seq![
            OutboundEventView::Message {
                capability_name: eth_name(),
                message: MessageView {
                    id: EthMessageId::Status.index(),
                    data: status_encoding(full.status_message(version.unwrap())),
                },
            },
        ],
        None => seq![
            OutboundEventView::Disconnect { reason: DisconnectReason::DisconnectRequested },
        ],
    }
}

impl ServerView {
    /// The state after the hash of peer key `id` was looked up.
    pub open spec fn remember(self, id: Seq<u8>) -> ServerView {
        ServerView { cache: self.cache.insert(id, keccak256_digest(id)), ..self }
    }

    /// The state after `peer` was set up with a pipe that starts with
    /// `first`: the pipe exists and the peer is tracked at block zero.
    pub open spec fn setup(self, peer: Seq<u8>, first: Seq<OutboundEventView>) -> ServerView {
        ServerView {
            pipes: self.pipes.insert(peer, PipesView { first, queued: Seq::empty() }),
            blocks: self.blocks.insert(peer, 0),
            ..self
        }
    }

    /// The state after the peer with key `id` connected and negotiated the
    /// `eth` capability in the given version.
    pub open spec fn connect(self, id: Seq<u8>, version: Option<CapabilityVersion>) -> ServerView {
        self.remember(id).setup(keccak256_digest(id), first_events(self.status, version))
    }

    /// The state after `peer` was torn down: no pipe, no tracked block, not
    /// valid.
    pub open spec fn teardown(self, peer: Seq<u8>) -> ServerView {
        ServerView {
            pipes: self.pipes.remove(peer),
            blocks: self.blocks.remove(peer),
            valid: self.valid.remove(peer),
            ..self
        }
    }

    /// The state after a message of `peer` was handled, and what is to be
    /// done about it.  `subscribers` says whether anybody listens downstream.
    pub open spec fn handle_message(self, peer: Seq<u8>, message: MessageView, subscribers: bool) -> (
        ServerView,
        HandledView,
    ) {
        match EthMessageId::of_index(message.id) {
            None => (self, quiet()),
            Some(EthMessageId::Status) => match status_decoding(message.data) {
                Err(_) => (self, failed(DisconnectReason::ProtocolBreach)),
                Ok(remote) => match self.status {
                    None => (self, quiet()),
                    Some(full) => if full.accepts(remote.fork_id) {
                        (
                            ServerView { valid: self.valid.insert(peer), ..self },
                            HandledView {
                                result: Ok(None),
                                peer_event: Some(
                                    PeersReplyView { peer_id: peer, event: PeerEvent::Connect },
                                ),
                                forward: None,
                            },
                        )
                    } else {
                        (self, failed(DisconnectReason::UselessPeer))
                    },
                },
            },
            Some(id) => if !self.valid.contains(peer) {
                (self, quiet())
            } else if subscribers {
                (
                    self,
                    HandledView {
                        result: Ok(None),
                        peer_event: None,
                        forward: Some(
                            InboundMessageView { id, data: message.data, peer_id: peer },
                        ),
                    },
                )
            } else {
                (
                    ServerView { status: None, ..self },
                    failed(DisconnectReason::ClientQuitting),
                )
            },
        }
    }

    /// The state after an event of `peer` was handled, and what is to be
    /// done about it.  An event of a peer that has no pipe, because it never
    /// connected or was torn down, changes nothing and leads to nothing:
    /// a peer is torn down once for every time it connected, and nothing
    /// goes downstream in its name while it is not connected.
    pub open spec fn handle(self, peer: Seq<u8>, event: InboundEventView, subscribers: bool) -> (
        ServerView,
        HandledView,
    ) {
        if !self.pipes.contains_key(peer) {
            (self, quiet())
        } else {
            match event {
                InboundEventView::Disconnect { reason } => (
                    self.teardown(peer),
                    HandledView {
                        result: Ok(None),
                        peer_event: Some(
                            PeersReplyView { peer_id: peer, event: PeerEvent::Disconnect },
                        ),
                        forward: None,
                    },
                ),
                InboundEventView::Message { capability_name, message } => self.handle_message(
                    peer,
                    message,
                    subscribers,
                ),
            }
        }
    }

    /// Whether the peer with key `id` may be taken in: it has no pipe yet,
    /// and where the node has a status to announce, the capability was
    /// negotiated.
    pub open spec fn may_connect(self, id: Seq<u8>, version: Option<CapabilityVersion>) -> bool {
        !self.pipes.contains_key(keccak256_digest(id)) && (self.status is Some ==> version
            is Some)
    }

    /// The state after the peer with key `id` asked to be taken in: it is
    /// taken in if it may be, and otherwise only its hash is remembered.
    pub open spec fn try_connect(self, id: Seq<u8>, version: Option<CapabilityVersion>) -> ServerView {
        if self.may_connect(id, version) {
            self.connect(id, version)
        } else {
            self.remember(id)
        }
    }

    /// What the transport gets when it asks for the next outbound event of
    /// `peer`: the event at the head of the peer's pipe; nothing while the
    /// pipe is empty; and the request to disconnect where the pipe is gone,
    /// which is how a session learns that it is over.
    pub open spec fn next_event(self, peer: Seq<u8>) -> Option<OutboundEventView> {
        if !self.pipes.contains_key(peer) {
            Some(OutboundEventView::Disconnect { reason: DisconnectReason::DisconnectRequested })
        } else if self.pipes[peer].pending().len() > 0 {
            Some(self.pipes[peer].pending()[0])
        } else {
            None
        }
    }

    /// What the peer is to be told after its event was handled: a reply of
    /// the capability, or that its session ends.
    pub open spec fn answer(handled: HandledView) -> Option<OutboundEventView> {
        match handled.result {
            Ok(None) => None,
            Ok(Some(message)) => Some(
                OutboundEventView::Message { capability_name: eth_name(), message },
            ),
            Err(reason) => Some(OutboundEventView::Disconnect { reason }),
        }
    }

    /// The state after `event` was sent into the pipe of `peer`; unchanged
    /// if the peer has no pipe or the pipe's queue is full.
    pub open spec fn send(self, peer: Seq<u8>, event: OutboundEventView) -> ServerView {
        if self.pipes.contains_key(peer) {
            ServerView { pipes: self.pipes.insert(peer, self.pipes[peer].send(event)), ..self }
        } else {
            self
        }
    }

    /// The state after the next event was taken from the pipe of `peer`.
    pub open spec fn advance(self, peer: Seq<u8>) -> ServerView {
        if self.pipes.contains_key(peer) {
            ServerView { pipes: self.pipes.insert(peer, self.pipes[peer].advance()), ..self }
        } else {
            self
        }
    }

    /// The state after the transport reported `event` of the peer with key
    /// `id`: the event is handled and the answer, if any, is sent into the
    /// peer's pipe.
    pub open spec fn peer_event(self, id: Seq<u8>, event: InboundEventView, subscribers: bool) -> ServerView {
        let peer = keccak256_digest(id);
        let (next, handled) = self.remember(id).handle(peer, event, subscribers);
        match ServerView::answer(handled) {
            None => next,
            Some(out) => next.send(peer, out),
        }
    }

    /// Where `peer` stands.
    pub open spec fn peer_state(self, peer: Seq<u8>) -> PeerState {
        if !self.pipes.contains_key(peer) {
            PeerState::Disconnected
        } else if self.valid.contains(peer) {
            PeerState::Valid
        } else {
            PeerState::AwaitingStatus
        }
    }

    /// Whether a message is a status message that lets its sender in: it
    /// is well-formed, the node has a status, and the fork identifiers
    /// get on.
    pub open spec fn completes_handshake(self, message: MessageView) -> bool {
        &&& EthMessageId::of_index(message.id) == Some(EthMessageId::Status)
        &&& status_decoding(message.data) is Ok
        &&& self.status is Some
        &&& self.status.unwrap().accepts(status_decoding(message.data).unwrap().fork_id)
    }

    /// Every valid peer has a pipe.
    pub open spec fn valid_have_pipes(self) -> bool {
        self.valid.subset_of(self.pipes.dom())
    }

    /// The peers with a pipe are the peers with a tracked block.
    pub open spec fn pipes_are_tracked(self) -> bool {
        self.pipes.dom() == self.blocks.dom()
    }

    /// Every remembered hash is the Keccak-256 digest of its key.
    pub open spec fn cache_is_sound(self) -> bool {
        forall|id: Seq<u8>| #[trigger]
            self.cache.contains_key(id) ==> self.cache[id] == keccak256_digest(id)
    }
}

/// The views of the pipes in a map.
pub open spec fn pipe_views(m: Map<Seq<u8>, Pipes>) -> Map<Seq<u8>, PipesView> {
    Map::new(|k: Seq<u8>| m.contains_key(k), |k: Seq<u8>| m[k]@)
}

/// The views of the hashes in a map.
pub open spec fn hash_views(m: Map<Seq<u8>, H256>) -> Map<Seq<u8>, Seq<u8>> {
    Map::new(|k: Seq<u8>| m.contains_key(k), |k: Seq<u8>| m[k]@)
}

/// The view of a status that may not be set.
pub open spec fn status_view(status: Option<FullStatusData>) -> Option<FullStatusView> {
    match status {
        Some(full) => Some(full@),
        None => None,
    }
}

/// The `eth` capability server.
pub struct CapabilityServerImpl {
    peer_pipes: KeyedList<H256, Pipes>,
    block_tracker: BlockTracker,
    status_message: Option<FullStatusData>,
    protocol_version: EthProtocolVersion,
    valid_peers: KeyedList<H256, ()>,
    no_new_peers: bool,
    peer_id_cache: KeyedList<H512, H256>,
}

impl View for CapabilityServerImpl {
    type V = ServerView;

    closed spec fn view(&self) -> ServerView {
        ServerView {
            pipes: pipe_views(self.peer_pipes.map()),
            blocks: self.block_tracker.block_by_peer(),
            status: status_view(self.status_message),
            protocol_version: self.protocol_version,
            valid: self.valid_peers.map().dom(),
            no_new_peers: self.no_new_peers,
            cache: hash_views(self.peer_id_cache.map()),
        }
    }
}

/// A handle for sending to one peer, held by whoever found the peer
/// connected.
#[derive(Clone, Copy, Debug, PartialEq, Eq)]
pub struct OutboundSender {
    peer: PeerIdHash,
}

impl OutboundSender {
    /// The peer that the handle sends to.
    pub closed spec fn peer(&self) -> Seq<u8> {
        self.peer@
    }

    /// The peer that the handle sends to.
    pub fn peer_id(&self) -> (peer: PeerIdHash)
        ensures
            peer@ == self.peer(),
    {
        self.peer
    }
}

/// Why an event did not enter a pipe.  The event comes back.
#[derive(Debug, PartialEq, Eq)]
pub enum SendError {
    /// The queue of the pipe is full.
    Full(OutboundEvent),
    /// The peer has no pipe any more.
    Closed(OutboundEvent),
}

/// What is to be done after an event of the transport was taken in.
#[derive(Debug, PartialEq, Eq)]
pub struct PeerEventOutcome {
    /// What to report downstream of the peer's coming or going.
    pub peer_event: Option<PeersReply>,
    /// The message to hand downstream.
    pub forward: Option<InboundMessage>,
    /// The answer for the peer, where the queue of its pipe had no room for
    /// it: to be sent again once the transport has taken an event.
    pub unsent: Option<OutboundEvent>,
}

/// The version of the `eth` capability among negotiated capabilities.
fn find_eth_version(caps: &Vec<CapabilityId>) -> (r: Option<CapabilityVersion>)
    requires
        forall|i: int| 0 <= i < caps@.len() ==> (#[trigger] caps@[i]).name.wf(),
    ensures
        r == eth_version(caps@),
{
    let name = capability_name();
    let mut i: usize = 0;
    assert(caps@.skip(0) =~= caps@);
    while i < caps.len()
        invariant
            i <= caps@.len(),
            name.wf(),
            name@ == eth_name(),
            forall|j: int| 0 <= j < caps@.len() ==> (#[trigger] caps@[j]).name.wf(),
            eth_version(caps@) == eth_version(caps@.skip(i as int)),
        decreases caps@.len() - i,
    {
        let ghost rest = caps@.skip(i as int);
        proof {
            assert(rest[0] == caps@[i as int]);
            assert(rest.drop_first() =~= caps@.skip(i + 1));
        }
        if caps[i].name.same(&name) {
            return Some(caps[i].version);
        }
        i += 1;
    }
    None
}

impl CapabilityServerImpl {
    /// The representation invariant: the parts are well-formed, every
    /// remembered hash is right, exactly the peers with a pipe are
    /// tracked, and every valid peer has a pipe.
    pub closed spec fn wf(&self) -> bool {
        &&& self.peer_pipes.wf()
        &&& forall|k: Seq<u8>| #[trigger]
            self.peer_pipes.map().contains_key(k) ==> self.peer_pipes.map()[k]@.wf()
        &&& self.block_tracker.wf()
        &&& self.valid_peers.wf()
        &&& self.peer_id_cache.wf()
        &&& self@.cache_is_sound()
        &&& self@.pipes_are_tracked()
        &&& self@.valid_have_pipes()
    }

    /// A server without peers and without a status, which takes no new
    /// peers until a status is set.
    pub fn new(protocol_version: EthProtocolVersion) -> (out: CapabilityServerImpl)
        ensures
            out.wf(),
            out@ == (ServerView {
                pipes: Map::empty(),
                blocks: Map::empty(),
                status: None,
                protocol_version,
                valid: Set::empty(),
                no_new_peers: true,
                cache: Map::empty(),
            }),
    {
        let out = CapabilityServerImpl {
            peer_pipes: KeyedList::new(),
            block_tracker: BlockTracker::new(),
            status_message: None,
            protocol_version,
            valid_peers: KeyedList::new(),
            no_new_peers: true,
            peer_id_cache: KeyedList::new(),
        };
        proof {
            assert(out@.pipes =~= Map::empty());
            assert(out@.cache =~= Map::empty());
            assert(out@.valid =~= Set::empty());
            assert(out@.pipes.dom() =~= out@.blocks.dom());
        }
        out
    }

    /// The hash of a peer's key, remembered from the first time it was
    /// asked for.
    pub fn get_hash(&mut self, p2p_peer_id: PeerId) -> (hash: PeerIdHash)
        requires
            old(self).wf(),
        ensures
            final(self).wf(),
            hash@ == keccak256_digest(p2p_peer_id@),
            final(self)@ == old(self)@.remember(p2p_peer_id@),
    {
        let cached: Option<H256> = match self.peer_id_cache.get(&p2p_peer_id) {
            Some(value) => Some(*value),
            None => None,
        };
        match cached {
            Some(value) => {
                proof {
                    assert(self@.cache.contains_key(p2p_peer_id@));
                    assert(self@.cache =~= self@.cache.insert(
                        p2p_peer_id@,
                        keccak256_digest(p2p_peer_id@),
                    ));
                }
                value
            },
            None => {
                let ghost before = self@;
                let hash = peer_id_hash_from_peer_id(p2p_peer_id);
                self.peer_id_cache.insert(p2p_peer_id, hash);
                proof {
                    assert(self@.cache =~= before.cache.insert(p2p_peer_id@, hash@));
                    assert(self@.pipes =~= before.pipes);
                }
                hash
            },
        }
    }

    /// Gives `peer` its pipe and starts tracking it at block zero.
    fn setup_peer(&mut self, peer: PeerIdHash, p: Pipes)
        requires
            old(self).wf(),
            p@.wf(),
            !old(self)@.pipes.contains_key(peer@),
        ensures
            final(self).wf(),
            final(self)@ == (ServerView {
                pipes: old(self)@.pipes.insert(peer@, p@),
                blocks: old(self)@.blocks.insert(peer@, 0),
                ..old(self)@
            }),
    {
        let ghost before = self@;
        self.peer_pipes.insert(peer, p);
        self.block_tracker.set_block_number(peer, 0, true);
        proof {
            assert(self@.pipes =~= before.pipes.insert(peer@, p@));
            assert(self@.pipes.dom() =~= self@.blocks.dom());
            assert(self@.cache =~= before.cache);
        }
    }

    /// Whether `peer` has a pipe.
    pub fn has_pipes(&self, peer: &PeerIdHash) -> (r: bool)
        requires
            self.wf(),
        ensures
            r == self@.pipes.contains_key(peer@),
    {
        self.peer_pipes.contains(peer)
    }

    /// A handle for sending to `peer`, if the peer has a pipe.
    pub fn sender(&self, peer: PeerIdHash) -> (r: Option<OutboundSender>)
        requires
            self.wf(),
        ensures
            match r {
                Some(s) => self@.pipes.contains_key(peer@) && s.peer() == peer@,
                None => !self@.pipes.contains_key(peer@),
            },
    {
        if self.peer_pipes.contains(&peer) {
            Some(OutboundSender { peer })
        } else {
            None
        }
    }

    /// Sends `event` into the pipe of the handle's peer.
    pub fn send(&mut self, to: &OutboundSender, event: OutboundEvent) -> (r: Result<(), SendError>)
        requires
            old(self).wf(),
        ensures
            final(self).wf(),
            final(self)@ == old(self)@.send(to.peer(), event@),
            match r {
                Ok(_) => old(self)@.pipes.contains_key(to.peer()) && old(self)@.pipes[to.peer()].queued.len()
                    < CHANNEL_CAPACITY,
                Err(SendError::Full(back)) => back@ == event@ && old(self)@.pipes.contains_key(
                    to.peer(),
                ) && old(self)@.pipes[to.peer()].queued.len() >= CHANNEL_CAPACITY,
                Err(SendError::Closed(back)) => back@ == event@ && !old(self)@.pipes.contains_key(
                    to.peer(),
                ),
            },
    {
        let ghost before = self@;
        let ghost ev = event@;
        match self.peer_pipes.remove(&to.peer) {
            None => {
                proof {
                    assert(self@.pipes =~= before.pipes);
                }
                Err(SendError::Closed(event))
            },
            Some(mut pipes) => {
                let ghost p0 = pipes@;
                let r = pipes.try_send(event);
                self.peer_pipes.insert(to.peer, pipes);
                proof {
                    assert(self@.pipes =~= before.pipes.insert(to.peer(), p0.send(ev)));
                    assert(self@.pipes.dom() =~= before.pipes.dom());
                }
                match r {
                    Ok(_) => Ok(()),
                    Err(back) => Err(SendError::Full(back)),
                }
            },
        }
    }

    /// Forgets `peer`: its pipe, its tracked block and its standing as a
    /// valid peer.  The result is what to report downstream: that the peer
    /// left, if it had a pipe, and nothing if there was no session to end.
    pub fn teardown_peer(&mut self, peer: PeerIdHash) -> (reply: Option<PeersReply>)
        requires
            old(self).wf(),
        ensures
            final(self).wf(),
            final(self)@ == old(self)@.teardown(peer@),
            crate::eth::reply_view(reply) == (if old(self)@.pipes.contains_key(peer@) {
                Some(PeersReplyView { peer_id: peer@, event: PeerEvent::Disconnect })
            } else {
                None
            }),
    {
        let ghost before = self@;
        let connected = self.peer_pipes.contains(&peer);
        self.peer_pipes.remove(&peer);
        self.block_tracker.remove_peer(peer);
        self.valid_peers.remove(&peer);
        proof {
            assert(self@.pipes =~= before.pipes.remove(peer@));
            assert(self@.valid =~= before.valid.remove(peer@));
            assert(self@.pipes.dom() =~= self@.blocks.dom());
            assert(self@.cache =~= before.cache);
        }
        if connected {
            Some(PeersReply { peer_id: peer, event: PeerEvent::Disconnect })
        } else {
            None
        }
    }

    /// The peers that have a pipe, each once.
    pub fn all_peers(&self) -> (out: Vec<PeerIdHash>)
        requires
            self.wf(),
        ensures
            distinct_keys(out@),
            key_set(out@) == self@.pipes.dom(),
    {
        let out = self.peer_pipes.keys();
        proof {
            assert(self@.pipes.dom() =~= self.peer_pipes.map().dom());
        }
        out
    }

    /// The number of peers that completed the status handshake.
    pub fn connected_peers(&self) -> (n: usize)
        requires
            self.wf(),
        ensures
            self@.valid.finite(),
            n == self@.valid.len(),
    {
        self.valid_peers.len()
    }

    /// Sets the chain status that the node announces and lets new peers in.
    pub fn set_status(&mut self, message: FullStatusData)
        requires
            old(self).wf(),
        ensures
            final(self).wf(),
            final(self)@ == (ServerView {
                status: Some(message@),
                no_new_peers: false,
                ..old(self)@
            }),
    {
        self.status_message = Some(message);
        self.no_new_peers = false;
    }

    /// Takes note that nobody listens downstream any more, which a failed
    /// hand-over of a message shows: the status is dropped, and the result
    /// is the reason with which the session of the message's sender ends.
    pub fn downstream_gone(&mut self) -> (reason: DisconnectReason)
        requires
            old(self).wf(),
        ensures
            final(self).wf(),
            final(self)@ == (ServerView { status: None, ..old(self)@ }),
            reason == DisconnectReason::ClientQuitting,
    {
        self.status_message = None;
        DisconnectReason::ClientQuitting
    }

    /// Whether the node takes no new peers for now.
    pub fn no_new_peers(&self) -> (r: bool)
        ensures
            r == self@.no_new_peers,
    {
        self.no_new_peers
    }

    /// Whether a chain status is set.
    pub fn has_status(&self) -> (r: bool)
        ensures
            r == self@.status is Some,
    {
        self.status_message.is_some()
    }

    /// Whether `peer` completed the status handshake.
    pub fn is_valid(&self, peer: &PeerIdHash) -> (r: bool)
        requires
            self.wf(),
        ensures
            r == self@.valid.contains(peer@),
    {
        self.valid_peers.contains(peer)
    }

    /// Where `peer` stands.
    pub fn peer_state(&self, peer: &PeerIdHash) -> (r: PeerState)
        requires
            self.wf(),
        ensures
            r == self@.peer_state(peer@),
    {
        if !self.peer_pipes.contains(peer) {
            PeerState::Disconnected
        } else if self.valid_peers.contains(peer) {
            PeerState::Valid
        } else {
            PeerState::AwaitingStatus
        }
    }

    /// The best block tracked for `peer`.
    pub fn tracked_block(&self, peer: &PeerIdHash) -> (r: Option<u64>)
        requires
            self.wf(),
        ensures
            r == (if self@.blocks.contains_key(peer@) {
                Some(self@.blocks[peer@])
            } else {
                None
            }),
    {
        self.block_tracker.block_of(peer)
    }

    /// The version of the capability that the node was started with.
    pub fn protocol_version(&self) -> (v: EthProtocolVersion)
        ensures
            v == self@.protocol_version,
    {
        self.protocol_version
    }

    /// Takes in a peer that has connected and negotiated `caps`.  The peer
    /// gets a pipe that starts with the node's status message or, while the
    /// node has no status, with the request to disconnect.
    pub fn on_peer_connect(&mut self, p2p_peer_id: PeerId, caps: &Vec<CapabilityId>)
        requires
            old(self).wf(),
            forall|i: int| 0 <= i < caps@.len() ==> (#[trigger] caps@[i]).name.wf(),
            !old(self)@.pipes.contains_key(keccak256_digest(p2p_peer_id@)),
            old(self)@.status is Some ==> eth_version(caps@) is Some,
        ensures
            final(self).wf(),
            final(self)@ == old(self)@.connect(p2p_peer_id@, eth_version(caps@)),
    {
        let ghost before = self@;
        let peer = self.get_hash(p2p_peer_id);
        let mut events: Vec<OutboundEvent> = Vec::new();
        match &self.status_message {
            Some(full) => {
                let version = find_eth_version(caps).unwrap();
                let status_message = full.status_message(version);
                events.push(
                    OutboundEvent::Message {
                        capability_name: capability_name(),
                        message: Message {
                            id: EthMessageId::Status.to_usize(),
                            data: encode_status(&status_message),
                        },
                    },
                );
            },
            None => {
                events.push(
                    OutboundEvent::Disconnect { reason: DisconnectReason::DisconnectRequested },
                );
            },
        }
        proof {
            assert(outbound_views(events@) =~= first_events(before.status, eth_version(caps@)));
        }
        self.setup_peer(peer, Pipes::new(events));
    }

    /// Handles one event of `peer`.  `subscribers` says whether anybody
    /// listens for messages downstream.  An event of a peer that has no
    /// pipe is passed over.
    pub fn handle_event(&mut self, peer: PeerIdHash, event: InboundEvent, subscribers: bool) -> (out:
        Handled)
        requires
            old(self).wf(),
        ensures
            final(self).wf(),
            (final(self)@, out@) == old(self)@.handle(peer@, event@, subscribers),
    {
        let ghost before = self@;
        if !self.peer_pipes.contains(&peer) {
            return Handled { result: Ok(None), peer_event: None, forward: None };
        }
        match event {
            InboundEvent::Disconnect { reason } => {
                let reply = self.teardown_peer(peer);
                Handled { result: Ok(None), peer_event: reply, forward: None }
            },
            InboundEvent::Message { capability_name, message } => {
                let Message { id, data } = message;
                let valid_peer = self.valid_peers.contains(&peer);
                match EthMessageId::from_usize(id) {
                    None => Handled { result: Ok(None), peer_event: None, forward: None },
                    Some(EthMessageId::Status) => {
                        match decode_status(data.as_slice()) {
                            Err(_) => Handled {
                                result: Err(DisconnectReason::ProtocolBreach),
                                peer_event: None,
                                forward: None,
                            },
                            Ok(remote) => {
                                let verdict: Option<bool> = match &self.status_message {
                                    None => None,
                                    Some(full) => Some(full.accepts(&remote.fork_id)),
                                };
                                match verdict {
                                    None => Handled {
                                        result: Ok(None),
                                        peer_event: None,
                                        forward: None,
                                    },
                                    Some(false) => Handled {
                                        result: Err(DisconnectReason::UselessPeer),
                                        peer_event: None,
                                        forward: None,
                                    },
                                    Some(true) => {
                                        self.valid_peers.insert(peer, ());
                                        proof {
                                            assert(self@.valid =~= before.valid.insert(peer@));
                                        }
                                        Handled {
                                            result: Ok(None),
                                            peer_event: Some(
                                                PeersReply {
                                                    peer_id: peer,
                                                    event: PeerEvent::Connect,
                                                },
                                            ),
                                            forward: None,
                                        }
                                    },
                                }
                            },
                        }
                    },
                    Some(inbound_id) => {
                        if !valid_peer {
                            Handled { result: Ok(None), peer_event: None, forward: None }
                        } else if subscribers {
                            Handled {
                                result: Ok(None),
                                peer_event: None,
                                forward: Some(
                                    InboundMessage { id: inbound_id, data, peer_id: peer },
                                ),
                            }
                        } else {
                            self.status_message = None;
                            Handled {
                                result: Err(DisconnectReason::ClientQuitting),
                                peer_event: None,
                                forward: None,
                            }
                        }
                    },
                }
            },
        }
    }

    /// Takes in an event that the transport reports of the peer with key
    /// `p2p_peer_id`: the event is handled, and the answer for the peer, if
    /// there is one, goes into the peer's pipe.
    pub fn on_peer_event(&mut self, p2p_peer_id: PeerId, event: InboundEvent, subscribers: bool) -> (out:
        PeerEventOutcome)
        requires
            old(self).wf(),
        ensures
            final(self).wf(),
            final(self)@ == old(self)@.peer_event(p2p_peer_id@, event@, subscribers),
            ({
                let peer = keccak256_digest(p2p_peer_id@);
                let (next, handled) = old(self)@.remember(p2p_peer_id@).handle(
                    peer,
                    event@,
                    subscribers,
                );
                &&& crate::eth::reply_view(out.peer_event) == handled.peer_event
                &&& crate::eth::forward_view(out.forward) == handled.forward
                &&& match out.unsent {
                    Some(back) => ServerView::answer(handled) == Some(back@) && next.pipes[peer].queued.len()
                        >= CHANNEL_CAPACITY,
                    None => ServerView::answer(handled) is None || next.pipes[peer].queued.len()
                        < CHANNEL_CAPACITY,
                }
            }),
    {
        let peer = self.get_hash(p2p_peer_id);
        let handled = self.handle_event(peer, event, subscribers);
        let Handled { result, peer_event, forward } = handled;
        let answer: Option<OutboundEvent> = match result {
            Ok(None) => None,
            Ok(Some(message)) => Some(
                OutboundEvent::Message { capability_name: capability_name(), message },
            ),
            Err(reason) => Some(OutboundEvent::Disconnect { reason }),
        };
        match answer {
            None => PeerEventOutcome { peer_event, forward, unsent: None },
            Some(event) => {
                let to = self.sender(peer).unwrap();
                match self.send(&to, event) {
                    Ok(_) => PeerEventOutcome { peer_event, forward, unsent: None },
                    Err(SendError::Full(back)) => PeerEventOutcome {
                        peer_event,
                        forward,
                        unsent: Some(back),
                    },
                    Err(SendError::Closed(back)) => PeerEventOutcome {
                        peer_event,
                        forward,
                        unsent: Some(back),
                    },
                }
            },
        }
    }

    /// The next outbound event of the peer with key `p2p_peer_id`, or
    /// nothing while none waits in the peer's pipe.
    pub fn next(&mut self, p2p_peer_id: PeerId) -> (r: Option<OutboundEvent>)
        requires
            old(self).wf(),
            old(self)@.pipes.contains_key(keccak256_digest(p2p_peer_id@)),
        ensures
            final(self).wf(),
            final(self)@ == old(self)@.remember(p2p_peer_id@).advance(
                keccak256_digest(p2p_peer_id@),
            ),
            ({
                let pending = old(self)@.pipes[keccak256_digest(p2p_peer_id@)].pending();
                match r {
                    Some(event) => pending.len() > 0 && event@ == pending[0],
                    None => pending.len() == 0,
                }
            }),
    {
        let peer = self.get_hash(p2p_peer_id);
        let ghost before = self@;
        match self.peer_pipes.remove(&peer) {
            None => None,
            Some(mut pipes) => {
                let ghost p0 = pipes@;
                let r = pipes.next();
                self.peer_pipes.insert(peer, pipes);
                proof {
                    assert(self@.pipes =~= before.pipes.insert(peer@, p0.advance()));
                    assert(self@.pipes.dom() =~= before.pipes.dom());
                }
                r
            },
        }
    }
}

/// Why a step of the server was not taken.
#[derive(Clone, Copy, Debug, PartialEq, Eq, Structural)]
pub enum StepError {
    /// The peer has a pipe already.
    AlreadyConnected,
    /// The node has a status to announce and the peer did not negotiate
    /// the capability.
    CapabilityMissing,
    /// The peer has no pipe.
    NotConnected,
}

impl CapabilityServerImpl {
    /// Takes in a peer that has connected, if the peer has no pipe yet and,
    /// where the node has a status, negotiated the capability.  Otherwise
    /// only the peer's hash is remembered.
    pub fn try_on_peer_connect(&mut self, p2p_peer_id: PeerId, caps: &Vec<CapabilityId>) -> (r:
        Result<(), StepError>)
        requires
            old(self).wf(),
            forall|i: int| 0 <= i < caps@.len() ==> (#[trigger] caps@[i]).name.wf(),
        ensures
            final(self).wf(),
            final(self)@ == old(self)@.try_connect(p2p_peer_id@, eth_version(caps@)),
            r is Ok <==> old(self)@.may_connect(p2p_peer_id@, eth_version(caps@)),
            match r {
                Ok(_) => {
                    &&& !old(self)@.pipes.contains_key(keccak256_digest(p2p_peer_id@))
                    &&& old(self)@.status is Some ==> eth_version(caps@) is Some
                    &&& final(self)@ == old(self)@.connect(p2p_peer_id@, eth_version(caps@))
                },
                Err(StepError::AlreadyConnected) => {
                    &&& old(self)@.pipes.contains_key(keccak256_digest(p2p_peer_id@))
                    &&& final(self)@ == old(self)@.remember(p2p_peer_id@)
                },
                Err(_) => {
                    &&& r == Err::<(), StepError>(StepError::CapabilityMissing)
                    &&& !old(self)@.pipes.contains_key(keccak256_digest(p2p_peer_id@))
                    &&& old(self)@.status is Some
                    &&& eth_version(caps@) is None
                    &&& final(self)@ == old(self)@.remember(p2p_peer_id@)
                },
            },
    {
        let ghost before = self@;
        let peer = self.get_hash(p2p_peer_id);
        if self.has_pipes(&peer) {
            return Err(StepError::AlreadyConnected);
        }
        if self.has_status() && find_eth_version(caps).is_none() {
            return Err(StepError::CapabilityMissing);
        }
        self.on_peer_connect(p2p_peer_id, caps);
        proof {
            let r = before.remember(p2p_peer_id@);
            assert(r.remember(p2p_peer_id@) =~= r);
            assert(r.connect(p2p_peer_id@, eth_version(caps@)) =~= before.connect(
                p2p_peer_id@,
                eth_version(caps@),
            ));
        }
        Ok(())
    }

    /// Takes in an event that the transport reports of a peer, and says so
    /// where the peer has no pipe: then the event is passed over and only
    /// the peer's hash is remembered.
    pub fn try_on_peer_event(&mut self, p2p_peer_id: PeerId, event: InboundEvent, subscribers: bool) -> (r:
        Result<PeerEventOutcome, StepError>)
        requires
            old(self).wf(),
        ensures
            final(self).wf(),
            final(self)@ == old(self)@.peer_event(p2p_peer_id@, event@, subscribers),
            match r {
                Ok(out) => {
                    let peer = keccak256_digest(p2p_peer_id@);
                    let (next, handled) = old(self)@.remember(p2p_peer_id@).handle(
                        peer,
                        event@,
                        subscribers,
                    );
                    &&& old(self)@.pipes.contains_key(peer)
                    &&& crate::eth::reply_view(out.peer_event) == handled.peer_event
                    &&& crate::eth::forward_view(out.forward) == handled.forward
                    &&& match out.unsent {
                        Some(back) => ServerView::answer(handled) == Some(back@) && next.pipes[peer].queued.len()
                            >= CHANNEL_CAPACITY,
                        None => ServerView::answer(handled) is None || next.pipes[peer].queued.len()
                            < CHANNEL_CAPACITY,
                    }
                },
                Err(e) => {
                    &&& e == StepError::NotConnected
                    &&& !old(self)@.pipes.contains_key(keccak256_digest(p2p_peer_id@))
                    &&& final(self)@ == old(self)@.remember(p2p_peer_id@)
                },
            },
    {
        let ghost before = self@;
        let peer = self.get_hash(p2p_peer_id);
        if !self.has_pipes(&peer) {
            return Err(StepError::NotConnected);
        }
        let ghost ev = event@;
        let out = self.on_peer_event(p2p_peer_id, event, subscribers);
        proof {
            let r = before.remember(p2p_peer_id@);
            assert(r.remember(p2p_peer_id@) =~= r);
        }
        Ok(out)
    }

    /// What the transport gets when it asks for the next outbound event of
    /// a peer: the event at the head of the peer's pipe, which is taken out;
    /// nothing while the pipe is empty; and the request to disconnect where
    /// the peer's pipe is gone.
    pub fn try_next(&mut self, p2p_peer_id: PeerId) -> (r: Option<OutboundEvent>)
        requires
            old(self).wf(),
        ensures
            final(self).wf(),
            final(self)@ == old(self)@.remember(p2p_peer_id@).advance(
                keccak256_digest(p2p_peer_id@),
            ),
            outbound_view(r) == old(self)@.next_event(keccak256_digest(p2p_peer_id@)),
    {
        let ghost before = self@;
        let peer = self.get_hash(p2p_peer_id);
        if !self.has_pipes(&peer) {
            return Some(
                OutboundEvent::Disconnect { reason: DisconnectReason::DisconnectRequested },
            );
        }
        let r = self.next(p2p_peer_id);
        proof {
            let s = before.remember(p2p_peer_id@);
            assert(s.remember(p2p_peer_id@) =~= s);
        }
        r
    }
}

/// The view of an outbound event that may be absent.
pub open spec fn outbound_view(event: Option<OutboundEvent>) -> Option<OutboundEventView> {
    match event {
        Some(e) => Some(e@),
        None => None,
    }
}

impl CapabilityServerImpl {
    /// In every state of the server, each remembered hash is the
    /// Keccak-256 digest of its key, every valid peer has a pipe, exactly
    /// the peers with a pipe are tracked, and no pipe holds more than its
    /// queue allows.
    pub proof fn state_is_sound(&self)
        requires
            self.wf(),
        ensures
            self@.cache_is_sound(),
            self@.valid_have_pipes(),
            self@.pipes_are_tracked(),
            forall|peer: Seq<u8>| #[trigger]
                self@.pipes.contains_key(peer) ==> self@.pipes[peer].wf(),
    {
    }
}

/// Every valid peer has a pipe, and this stays so across every step: a
/// connect, a teardown, a look-up, a send, a taking of the next event, and
/// the handling of any event of any peer.  Handling an event makes nobody
/// valid but the peer whose event it is, and that peer only if it has a
/// pipe and the event is a status message that completes the handshake.
pub proof fn valid_peers_keep_pipes(
    s: ServerView,
    id: Seq<u8>,
    peer: Seq<u8>,
    version: Option<CapabilityVersion>,
    event: InboundEventView,
    out: OutboundEventView,
    subscribers: bool,
)
    requires
        s.valid_have_pipes(),
    ensures
        s.connect(id, version).valid_have_pipes(),
        s.try_connect(id, version).valid_have_pipes(),
        s.teardown(peer).valid_have_pipes(),
        s.remember(id).valid_have_pipes(),
        s.send(peer, out).valid_have_pipes(),
        s.advance(peer).valid_have_pipes(),
        s.handle(peer, event, subscribers).0.valid_have_pipes(),
        s.peer_event(id, event, subscribers).valid_have_pipes(),
        forall|p: Seq<u8>|
            #[trigger] s.handle(peer, event, subscribers).0.valid.contains(p) && !s.valid.contains(
                p,
            ) ==> p == peer && s.pipes.contains_key(peer) && (event matches InboundEventView::Message {
                message,
                ..
            } && s.completes_handshake(message)),
{
    let h = s.handle(peer, event, subscribers).0;
    assert forall|p: Seq<u8>| h.valid.contains(p) implies h.pipes.dom().contains(p) by {
        assert(s.pipes.dom().contains(p) || p == peer);
    }
    let hashed = keccak256_digest(id);
    let r = s.remember(id);
    let (next, handled) = r.handle(hashed, event, subscribers);
    assert forall|p: Seq<u8>| next.valid.contains(p) implies next.pipes.dom().contains(p) by {
        assert(r.pipes.dom().contains(p) || p == hashed);
    }
    assert(next.valid_have_pipes());
    match ServerView::answer(handled) {
        None => {},
        Some(o) => {
            assert(next.send(hashed, o).valid_have_pipes());
        },
    }
}

/// The life of a peer.  A peer that connects awaits the status handshake.
/// While it waits, a message lets it in exactly if it is a status message
/// that completes the handshake, and then it is reported downstream as
/// connected; any other message leaves it waiting.  A valid peer stays
/// valid whatever it sends.  A disconnect ends a peer and is reported
/// downstream.  Of a peer that is not connected every event is passed
/// over: nothing changes, and nothing is reported or forwarded.
pub proof fn peer_life_cycle(
    s: ServerView,
    id: Seq<u8>,
    peer: Seq<u8>,
    version: Option<CapabilityVersion>,
    capability_name: Seq<u8>,
    message: MessageView,
    reason: DisconnectReason,
    subscribers: bool,
)
    ensures
        s.peer_state(keccak256_digest(id)) == PeerState::Disconnected && !s.valid.contains(
            keccak256_digest(id),
        ) ==> s.connect(id, version).peer_state(keccak256_digest(id))
            == PeerState::AwaitingStatus,
        s.peer_state(peer) == PeerState::AwaitingStatus ==> s.handle(
            peer,
            InboundEventView::Message { capability_name, message },
            subscribers,
        ).0.peer_state(peer) == (if s.completes_handshake(message) {
            PeerState::Valid
        } else {
            PeerState::AwaitingStatus
        }),
        s.peer_state(peer) == PeerState::AwaitingStatus ==> (s.handle(
            peer,
            InboundEventView::Message { capability_name, message },
            subscribers,
        ).1.peer_event == Some(PeersReplyView { peer_id: peer, event: PeerEvent::Connect })
            <==> s.completes_handshake(message)),
        s.peer_state(peer) == PeerState::Valid ==> s.handle(
            peer,
            InboundEventView::Message { capability_name, message },
            subscribers,
        ).0.peer_state(peer) == PeerState::Valid,
        s.handle(peer, InboundEventView::Disconnect { reason }, subscribers).0.peer_state(peer)
            == PeerState::Disconnected,
        s.peer_state(peer) != PeerState::Disconnected ==> s.handle(
            peer,
            InboundEventView::Disconnect { reason },
            subscribers,
        ).1.peer_event == Some(PeersReplyView { peer_id: peer, event: PeerEvent::Disconnect }),
        s.peer_state(peer) == PeerState::Disconnected ==> s.handle(
            peer,
            InboundEventView::Disconnect { reason },
            subscribers,
        ) == (s, quiet()),
        s.peer_state(peer) == PeerState::Disconnected ==> s.handle(
            peer,
            InboundEventView::Message { capability_name, message },
            subscribers,
        ) == (s, quiet()),
{
}

/// Exactly the peers with a pipe are tracked, and this stays so across
/// every step of the server.
pub proof fn tracked_peers_are_connected(
    s: ServerView,
    id: Seq<u8>,
    peer: Seq<u8>,
    version: Option<CapabilityVersion>,
    event: InboundEventView,
    subscribers: bool,
)
    requires
        s.pipes_are_tracked(),
    ensures
        s.connect(id, version).pipes_are_tracked(),
        s.connect(id, version).blocks[keccak256_digest(id)] == 0,
        s.teardown(peer).pipes_are_tracked(),
        s.handle(peer, event, subscribers).0.pipes_are_tracked(),
        s.peer_event(id, event, subscribers).pipes_are_tracked(),
{
    let c = s.connect(id, version);
    assert(c.pipes.dom() =~= c.blocks.dom());
    let t = s.teardown(peer);
    assert(t.pipes.dom() =~= t.blocks.dom());
    let h = s.handle(peer, event, subscribers).0;
    assert(h.pipes.dom() =~= h.blocks.dom());
    let hashed = keccak256_digest(id);
    let (next, handled) = s.remember(id).handle(hashed, event, subscribers);
    assert(next.pipes.dom() =~= next.blocks.dom());
    match ServerView::answer(handled) {
        None => {},
        Some(o) => {
            let n2 = next.send(hashed, o);
            assert(n2.pipes.dom() =~= n2.blocks.dom());
        },
    }
}

/// After its teardown a peer has left no trace: it has no pipe, no tracked
/// block and is not valid.  Until it connects again, whatever is reported of
/// it, be it a message, a status message that would complete the handshake,
/// or another disconnect, changes nothing and leads to nothing being
/// reported or forwarded downstream.
pub proof fn torn_down_peer_is_silent(
    s: ServerView,
    peer: Seq<u8>,
    event: InboundEventView,
    subscribers: bool,
)
    ensures
        !s.teardown(peer).pipes.contains_key(peer),
        !s.teardown(peer).blocks.contains_key(peer),
        !s.teardown(peer).valid.contains(peer),
        s.teardown(peer).teardown(peer) == s.teardown(peer),
        s.teardown(peer).handle(peer, event, subscribers) == (s.teardown(peer), quiet()),
{
    let t = s.teardown(peer);
    let tt = t.teardown(peer);
    assert(tt.pipes =~= t.pipes);
    assert(tt.blocks =~= t.blocks);
    assert(tt.valid =~= t.valid);
    assert(tt =~= t);
}

/// While the node has no status, a peer that connects finds exactly one
/// event in its pipe, the request to disconnect, and nothing that it sends
/// is forwarded downstream or makes it valid.
pub proof fn without_status_peers_are_turned_away(
    s: ServerView,
    id: Seq<u8>,
    version: Option<CapabilityVersion>,
    capability_name: Seq<u8>,
    message: MessageView,
    subscribers: bool,
)
    requires
        s.status is None,
        !s.valid.contains(keccak256_digest(id)),
    ensures
        s.connect(id, version).pipes[keccak256_digest(id)].pending() == seq![
            OutboundEventView::Disconnect { reason: DisconnectReason::DisconnectRequested },
        ],
        s.connect(id, version).handle(
            keccak256_digest(id),
            InboundEventView::Message { capability_name, message },
            subscribers,
        ).1.forward is None,
        s.connect(id, version).handle(
            keccak256_digest(id),
            InboundEventView::Message { capability_name, message },
            subscribers,
        ).0.valid == s.valid,
{
    let c = s.connect(id, version);
    let peer = keccak256_digest(id);
    assert(c.pipes[peer].pending() =~= seq![
        OutboundEventView::Disconnect { reason: DisconnectReason::DisconnectRequested },
    ]);
}

} // verus!
