//! What travels between the transport and a capability server: capability
//! names, messages, the events of a session, and what is reported downstream.

use vstd::prelude::*;
use crate::peer_id::PeerIdHash;

verus! {

/// The name of a capability: at most eight ASCII bytes.
#[derive(Clone, Copy, Debug, PartialEq, Eq, Hash)]
pub struct CapabilityName {
    bytes: [u8; 8],
    len: u8,
}

impl View for CapabilityName {
    type V = Seq<u8>;

    closed spec fn view(&self) -> Seq<u8> {
        self.bytes@.take(self.len as int)
    }
}

/// The bytes are ASCII.
pub open spec fn is_ascii_bytes(s: Seq<u8>) -> bool {
    forall|i: int| 0 <= i < s.len() ==> s[i] < 128
}

impl CapabilityName {
    /// The name has a length that fits, is ASCII, and unused bytes are zero.
    pub closed spec fn wf(&self) -> bool {
        &&& self.len <= 8
        &&& is_ascii_bytes(self@)
        &&& forall|i: int| self.len <= i < 8 ==> self.bytes@[i] == 0
    }

    /// A name has at most eight bytes, all of them ASCII.
    pub proof fn name_is_short_ascii(&self)
        requires
            self.wf(),
        ensures
            self@.len() <= 8,
            is_ascii_bytes(self@),
    {
    }

    /// The name spelled by the first `len` bytes of `bytes`.
    pub fn from_array(bytes: [u8; 8], len: u8) -> (n: CapabilityName)
        requires
            len <= 8,
            is_ascii_bytes(bytes@.take(len as int)),
            forall|i: int| len <= i < 8 ==> bytes@[i] == 0,
        ensures
            n.wf(),
            n@ == bytes@.take(len as int),
    {
        CapabilityName { bytes, len }
    }

    /// The name spelled by `name`, if that is at most eight ASCII bytes.
    pub fn new(name: &[u8]) -> (r: Option<CapabilityName>)
        ensures
            match r {
                Some(n) => n.wf() && n@ == name@,
                None => name@.len() > 8 || !is_ascii_bytes(name@),
            },
    {
        if name.len() > 8 {
            return None;
        }
        let mut bytes = [0u8; 8];
        let mut i: usize = 0;
        while i < name.len()
            invariant
                i <= name@.len() <= 8,
                forall|j: int| 0 <= j < i ==> bytes@[j] == name@[j] && name@[j] < 128,
                forall|j: int| i <= j < 8 ==> bytes@[j] == 0,
            decreases name@.len() - i,
        {
            if name[i] >= 128 {
                return None;
            }
            bytes[i] = name[i];
            i += 1;
        }
        let out = CapabilityName { bytes, len: name.len() as u8 };
        assert(out@ =~= name@);
        Some(out)
    }

    /// Whether two names spell the same.
    pub fn same(&self, other: &CapabilityName) -> (r: bool)
        requires
            self.wf(),
            other.wf(),
        ensures
            r == (self@ == other@),
    {
        if self.len != other.len {
            assert(self@.len() != other@.len());
            return false;
        }
        let mut i: usize = 0;
        while i < self.len as usize
            invariant
                i <= self.len <= 8,
                self.len == other.len,
                forall|j: int| 0 <= j < i ==> self.bytes@[j] == other.bytes@[j],
            decreases self.len - i,
        {
            if self.bytes[i] != other.bytes[i] {
                assert(self@[i as int] != other@[i as int]);
                return false;
            }
            i += 1;
        }
        assert(self@ =~= other@);
        true
    }

    /// The bytes of the name.
    pub fn to_vec(&self) -> (out: Vec<u8>)
        requires
            self.wf(),
        ensures
            out@ == self@,
    {
        let mut out: Vec<u8> = Vec::new();
        let mut i: usize = 0;
        while i < self.len as usize
            invariant
                i <= self.len <= 8,
                out@ == self.bytes@.take(i as int),
            decreases self.len - i,
        {
            out.push(self.bytes[i]);
            assert(out@ =~= self.bytes@.take(i + 1));
            i += 1;
        }
        out
    }
}

/// The version of a capability.
pub type CapabilityVersion = usize;

/// A capability: its name and its version.
#[derive(Clone, Copy, Debug, PartialEq, Eq, Hash)]
pub struct CapabilityId {
    pub name: CapabilityName,
    pub version: CapabilityVersion,
}

/// A message of a capability: its index within the capability and its
/// body, which is opaque here.
#[derive(Clone, Debug, PartialEq, Eq)]
pub struct Message {
    pub id: usize,
    pub data: Vec<u8>,
}

/// The mathematical content of a [`Message`].
pub struct MessageView {
    pub id: usize,
    pub data: Seq<u8>,
}

impl View for Message {
    type V = MessageView;

    open spec fn view(&self) -> MessageView {
        MessageView { id: self.id, data: self.data@ }
    }
}

/// Why a session ends.
#[derive(Clone, Copy, Debug, PartialEq, Eq, Structural)]
pub enum DisconnectReason {
    DisconnectRequested,
    TcpSubsystemError,
    ProtocolBreach,
    UselessPeer,
    TooManyPeers,
    AlreadyConnected,
    IncompatibleP2PProtocolVersion,
    NullNodeIdentity,
    ClientQuitting,
    UnexpectedIdentity,
    ConnectedToSelf,
    PingTimeout,
}

/// What the transport reports of a peer.
#[derive(Clone, Debug, PartialEq, Eq)]
pub enum InboundEvent {
    /// The session is over.
    Disconnect { reason: DisconnectReason },
    /// The peer sent a message of the named capability.
    Message { capability_name: CapabilityName, message: Message },
}

/// The mathematical content of an [`InboundEvent`].
pub enum InboundEventView {
    Disconnect { reason: DisconnectReason },
    Message { capability_name: Seq<u8>, message: MessageView },
}

impl View for InboundEvent {
    type V = InboundEventView;

    open spec fn view(&self) -> InboundEventView {
        match *self {
            InboundEvent::Disconnect { reason } => InboundEventView::Disconnect { reason },
            InboundEvent::Message { capability_name, message } => InboundEventView::Message {
                capability_name: capability_name@,
                message: message@,
            },
        }
    }
}

/// What a capability server asks the transport to do for a peer.
#[derive(Clone, Debug, PartialEq, Eq)]
pub enum OutboundEvent {
    /// End the session.
    Disconnect { reason: DisconnectReason },
    /// Send a message of the named capability.
    Message { capability_name: CapabilityName, message: Message },
}

/// The mathematical content of an [`OutboundEvent`].
pub enum OutboundEventView {
    Disconnect { reason: DisconnectReason },
    Message { capability_name: Seq<u8>, message: MessageView },
}

impl View for OutboundEvent {
    type V = OutboundEventView;

    open spec fn view(&self) -> OutboundEventView {
        match *self {
            OutboundEvent::Disconnect { reason } => OutboundEventView::Disconnect { reason },
            OutboundEvent::Message { capability_name, message } => OutboundEventView::Message {
                capability_name: capability_name@,
                message: message@,
            },
        }
    }
}

/// The views of a list of outbound events.
pub open spec fn outbound_views(events: Seq<OutboundEvent>) -> Seq<OutboundEventView> {
    Seq::new(events.len(), |i: int| events[i]@)
}

/// Whether a peer came or went.
#[derive(Clone, Copy, Debug, PartialEq, Eq, Structural)]
pub enum PeerEvent {
    Connect,
    Disconnect,
}

/// Reported downstream when a peer completes the handshake or leaves.
#[derive(Clone, Copy, Debug, PartialEq, Eq)]
pub struct PeersReply {
    pub peer_id: PeerIdHash,
    pub event: PeerEvent,
}

/// The mathematical content of a [`PeersReply`].
pub struct PeersReplyView {
    pub peer_id: Seq<u8>,
    pub event: PeerEvent,
}

impl View for PeersReply {
    type V = PeersReplyView;

    open spec fn view(&self) -> PeersReplyView {
        PeersReplyView { peer_id: self.peer_id@, event: self.event }
    }
}

} // verus!
