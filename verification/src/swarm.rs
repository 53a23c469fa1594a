//! Who may connect: the admission rules of the connection manager and the
//! count of the peers it has let in.
//!
//! The manager knows the peers it is connected to and the peers it is
//! dialing.  A candidate is let in only if new peers are wanted at all, its
//! address passes the filter, it is not the node itself, it is not known
//! already, and there is room.  The two sets never hold more peers than the
//! limit the manager was made with.

use vstd::prelude::*;
use crate::events::{CapabilityId, CapabilityVersion, DisconnectReason};
use crate::keyed::KeyedList;
use vstd::slice::slice_subrange;
use crate::node_record::{
    dec_digits, decimal, find_first, ip_round_trip, ip_text, ip_text_is_unique, lemma_dec_digits,
    lemma_dec_value, lemma_first_index, lemma_ip_text_free_of, lemma_join_split,
    lemma_split_joined, parse_decimal, parse_ip, parse_ipv4, push_decimal, push_ipv4,
    split_at_first, NodeRecord, NodeRecordView,
};
use crate::peer_id::PeerId;
use crate::primitives::H512;

verus! {

/// Largest frame that the transport takes, in bytes.
pub const FRAME_SIZE: usize = 2097120;

/// Whether a frame of `len` bytes is within the limit; a longer frame is a
/// breach of the protocol.
pub fn check_frame_size(len: usize) -> (r: Result<(), DisconnectReason>)
    ensures
        len <= FRAME_SIZE ==> r is Ok,
        len > FRAME_SIZE ==> r == Err::<(), DisconnectReason>(DisconnectReason::ProtocolBreach),
{
    if len <= FRAME_SIZE {
        Ok(())
    } else {
        Err(DisconnectReason::ProtocolBreach)
    }
}

/// A capability as a mathematical value: the bytes of its name and its
/// version.
pub open spec fn capability(c: CapabilityId) -> (Seq<u8>, CapabilityVersion) {
    (c.name@, c.version)
}

/// Whether `caps` lists the capability `c`.
pub open spec fn lists(caps: Seq<CapabilityId>, c: (Seq<u8>, CapabilityVersion)) -> bool {
    exists|i: int| 0 <= i < caps.len() && capability(#[trigger] caps[i]) == c
}

/// Whether `caps` lists the capability `c`.
fn is_listed(caps: &Vec<CapabilityId>, c: &CapabilityId) -> (r: bool)
    requires
        c.name.wf(),
        forall|i: int| 0 <= i < caps@.len() ==> (#[trigger] caps@[i]).name.wf(),
    ensures
        r == lists(caps@, capability(*c)),
{
    let mut i: usize = 0;
    while i < caps.len()
        invariant
            i <= caps@.len(),
            c.name.wf(),
            forall|j: int| 0 <= j < caps@.len() ==> (#[trigger] caps@[j]).name.wf(),
            forall|j: int| 0 <= j < i ==> capability(#[trigger] caps@[j]) != capability(*c),
        decreases caps@.len() - i,
    {
        if caps[i].version == c.version && caps[i].name.same(&c.name) {
            return true;
        }
        i += 1;
    }
    false
}

/// The capabilities of a session: those of ours that the remote side
/// lists too, in our order.
pub open spec fn shared(ours: Seq<CapabilityId>, theirs: Seq<CapabilityId>) -> Seq<CapabilityId>
    decreases ours.len(),
{
    if ours.len() == 0 {
        Seq::empty()
    } else if lists(theirs, capability(ours.last())) {
        shared(ours.drop_last(), theirs).push(ours.last())
    } else {
        shared(ours.drop_last(), theirs)
    }
}

/// The capabilities of a session: those of ours that the remote side
/// lists too, in our order.
pub fn shared_capabilities(ours: &Vec<CapabilityId>, theirs: &Vec<CapabilityId>) -> (out: Vec<
    CapabilityId,
>)
    requires
        forall|i: int| 0 <= i < ours@.len() ==> (#[trigger] ours@[i]).name.wf(),
        forall|i: int| 0 <= i < theirs@.len() ==> (#[trigger] theirs@[i]).name.wf(),
    ensures
        out@ == shared(ours@, theirs@),
        forall|i: int| 0 <= i < out@.len() ==> (#[trigger] out@[i]).name.wf(),
{
    let mut out: Vec<CapabilityId> = Vec::new();
    let mut i: usize = 0;
    proof {
        assert(ours@.take(0) =~= Seq::<CapabilityId>::empty());
    }
    while i < ours.len()
        invariant
            i <= ours@.len(),
            forall|j: int| 0 <= j < ours@.len() ==> (#[trigger] ours@[j]).name.wf(),
            forall|j: int| 0 <= j < theirs@.len() ==> (#[trigger] theirs@[j]).name.wf(),
            out@ == shared(ours@.take(i as int), theirs@),
            forall|j: int| 0 <= j < out@.len() ==> (#[trigger] out@[j]).name.wf(),
        decreases ours@.len() - i,
    {
        let c = ours[i];
        proof {
            let next = ours@.take(i + 1);
            assert(next.drop_last() =~= ours@.take(i as int));
            assert(next.last() == c);
        }
        if is_listed(theirs, &c) {
            out.push(c);
        }
        i += 1;
    }
    proof {
        assert(ours@.take(i as int) =~= ours@);
    }
    out
}

/// A session has exactly the capabilities that both sides list.
pub proof fn shared_is_the_intersection(
    ours: Seq<CapabilityId>,
    theirs: Seq<CapabilityId>,
    c: (Seq<u8>, CapabilityVersion),
)
    ensures
        lists(shared(ours, theirs), c) <==> lists(ours, c) && lists(theirs, c),
    decreases ours.len(),
{
    let s = shared(ours, theirs);
    if ours.len() > 0 {
        let front = ours.drop_last();
        let last = ours.last();
        let sf = shared(front, theirs);
        shared_is_the_intersection(front, theirs, c);
        if lists(s, c) {
            let x = choose|x: int| 0 <= x < s.len() && capability(#[trigger] s[x]) == c;
            if x < sf.len() {
                assert(s[x] == sf[x]);
                assert(lists(sf, c));
                let y = choose|y: int| 0 <= y < front.len() && capability(#[trigger] front[y]) == c;
                assert(ours[y] == front[y]);
            } else {
                assert(s[x] == last);
                assert(ours[ours.len() - 1] == last);
            }
        }
        if lists(ours, c) && lists(theirs, c) {
            let y = choose|y: int| 0 <= y < ours.len() && capability(#[trigger] ours[y]) == c;
            if y < front.len() {
                assert(front[y] == ours[y]);
                assert(lists(front, c));
                let x = choose|x: int| 0 <= x < sf.len() && capability(#[trigger] sf[x]) == c;
                assert(s[x] == sf[x]);
            } else {
                assert(s[s.len() - 1] == last);
            }
        }
    } else {
        if lists(s, c) {
            let x = choose|x: int| 0 <= x < s.len() && capability(#[trigger] s[x]) == c;
        }
        if lists(ours, c) {
            let y = choose|y: int| 0 <= y < ours.len() && capability(#[trigger] ours[y]) == c;
        }
    }
}

/// An IPv4 address as a number, the first byte the most significant.
pub open spec fn ip_number(ip: Seq<u8>) -> u32 {
    (ip[0] as u32 * 0x100_0000 + ip[1] as u32 * 0x1_0000 + ip[2] as u32 * 0x100
        + ip[3] as u32) as u32
}

/// Whether `ip` lies in the range of addresses that share the first
/// `prefix_len` bits with `network`.
pub open spec fn in_range(network: Seq<u8>, prefix_len: u8, ip: Seq<u8>) -> bool {
    prefix_len == 0 || (ip_number(ip) >> ((32 - prefix_len) as u32)) == (ip_number(network) >> ((32
        - prefix_len) as u32))
}

/// A range of IPv4 addresses: those that share a prefix with one address.
#[derive(Clone, Copy, Debug, PartialEq, Eq)]
pub struct Cidr {
    network: [u8; 4],
    prefix_len: u8,
}

/// The mathematical content of a [`Cidr`].
pub struct CidrView {
    pub network: Seq<u8>,
    pub prefix_len: u8,
}

impl View for Cidr {
    type V = CidrView;

    closed spec fn view(&self) -> CidrView {
        CidrView { network: self.network@, prefix_len: self.prefix_len }
    }
}

/// An IPv4 address as a number.
fn ip_to_u32(ip: &[u8; 4]) -> (n: u32)
    ensures
        n == ip_number(ip@),
{
    (ip[0] as u32) * 0x100_0000 + (ip[1] as u32) * 0x1_0000 + (ip[2] as u32) * 0x100 + (
    ip[3] as u32)
}

impl Cidr {
    /// The prefix is at most 32 bits long.
    pub closed spec fn wf(&self) -> bool {
        self.prefix_len <= 32
    }

    /// The range of the addresses that share `prefix_len` bits with
    /// `network`, if `prefix_len` is at most 32.
    pub fn new(network: [u8; 4], prefix_len: u8) -> (r: Option<Cidr>)
        ensures
            match r {
                Some(c) => c.wf() && c@.network == network@ && c@.prefix_len == prefix_len
                    && prefix_len <= 32,
                None => prefix_len > 32,
            },
    {
        if prefix_len > 32 {
            None
        } else {
            Some(Cidr { network, prefix_len })
        }
    }

    /// Whether `ip` lies in the range.
    pub fn contains(&self, ip: &[u8; 4]) -> (r: bool)
        requires
            self.wf(),
        ensures
            r == in_range(self@.network, self@.prefix_len, ip@),
    {
        if self.prefix_len == 0 {
            return true;
        }
        let drop: u32 = 32 - self.prefix_len as u32;
        (ip_to_u32(ip) >> drop) == (ip_to_u32(&self.network) >> drop)
    }
}

/// The ASCII code of `/`.
pub const SLASH: u8 = 0x2f;

/// The range that `s` is the text of: an IPv4 address, a slash, and the
/// length of the prefix, a decimal number up to 32.
pub open spec fn parse_cidr(s: Seq<u8>) -> Option<CidrView> {
    match split_at_first(s, SLASH) {
        None => None,
        Some((h, l)) => if parse_ip(h) is Some && decimal(l, 32) is Some {
            Some(
                CidrView { network: parse_ip(h).unwrap(), prefix_len: decimal(l, 32).unwrap() as u8 },
            )
        } else {
            None
        },
    }
}

/// The text of a range.
pub open spec fn cidr_text(c: CidrView) -> Seq<u8> {
    ip_text(c.network) + seq![SLASH] + dec_digits(c.prefix_len as nat)
}

impl Cidr {
    /// The range that `s` is the text of.
    pub fn parse(s: &[u8]) -> (r: Option<Cidr>)
        ensures
            match r {
                Some(c) => c.wf() && parse_cidr(s@) == Some(c@),
                None => parse_cidr(s@) is None,
            },
    {
        let at = match find_first(s, SLASH) {
            None => { return None; },
            Some(i) => i,
        };
        proof {
            lemma_first_index(s@, SLASH);
            assert(at < s@.len());
        }
        let n = s.len();
        let h = slice_subrange(s, 0, at);
        let l = slice_subrange(s, at + 1, n);
        let network = match parse_ipv4(h) {
            None => { return None; },
            Some(ip) => ip,
        };
        let prefix_len = match parse_decimal(l, 32) {
            None => { return None; },
            Some(v) => v as u8,
        };
        Some(Cidr { network, prefix_len })
    }

    /// The text of the range.
    pub fn to_text(&self) -> (out: Vec<u8>)
        requires
            self.wf(),
        ensures
            out@ == cidr_text(self@),
    {
        let mut out: Vec<u8> = Vec::new();
        push_ipv4(&mut out, &self.network);
        out.push(SLASH);
        push_decimal(&mut out, self.prefix_len as u32);
        proof {
            assert(out@ =~= cidr_text(self@));
        }
        out
    }
}

/// The text of a range is read back as the range, and a text that is read
/// as a range is the text of that range.
pub proof fn cidr_round_trip(c: CidrView, s: Seq<u8>)
    ensures
        c.network.len() == 4 && c.prefix_len <= 32 ==> parse_cidr(cidr_text(c)) == Some(c),
        parse_cidr(s) is Some ==> s == cidr_text(parse_cidr(s).unwrap()),
{
    if c.network.len() == 4 && c.prefix_len <= 32 {
        let h = ip_text(c.network);
        let dl = dec_digits(c.prefix_len as nat);
        lemma_dec_digits(c.prefix_len as nat);
        lemma_ip_text_free_of(c.network, SLASH);
        lemma_split_joined(h, SLASH, dl);
        ip_round_trip(c.network);
    }
    if parse_cidr(s) is Some {
        let (h, l) = split_at_first(s, SLASH).unwrap();
        lemma_join_split(s, SLASH);
        ip_text_is_unique(h);
        lemma_dec_value(l);
    }
}

/// Why a candidate was not let in.
#[derive(Clone, Copy, Debug, PartialEq, Eq, Structural)]
pub enum Refusal {
    /// No new peers are wanted for now.
    NoNewPeers,
    /// The candidate's address is outside the permitted range.
    Filtered,
    /// The candidate is the node itself.
    ConnectedToSelf,
    /// The candidate is connected already.
    AlreadyConnected,
    /// The candidate is being dialed already.
    AlreadyDialing,
    /// The limit of peers is reached.
    TooManyPeers,
}

impl Refusal {
    /// The reason that the remote side is given, where it is given one.
    pub open spec fn reason(self) -> Option<DisconnectReason> {
        match self {
            Refusal::ConnectedToSelf => Some(DisconnectReason::ConnectedToSelf),
            Refusal::AlreadyConnected => Some(DisconnectReason::AlreadyConnected),
            Refusal::TooManyPeers => Some(DisconnectReason::TooManyPeers),
            _ => None,
        }
    }

    /// The reason that the remote side is given, where it is given one.
    pub fn disconnect_reason(self) -> (r: Option<DisconnectReason>)
        ensures
            r == self.reason(),
    {
        match self {
            Refusal::ConnectedToSelf => Some(DisconnectReason::ConnectedToSelf),
            Refusal::AlreadyConnected => Some(DisconnectReason::AlreadyConnected),
            Refusal::TooManyPeers => Some(DisconnectReason::TooManyPeers),
            _ => None,
        }
    }
}

/// The state of the connection manager, as a mathematical value.
#[verifier::ext_equal]
pub struct SwarmView {
    /// The most peers that may be connected or dialing at once.
    pub max_peers: nat,
    /// The node's own identifier.
    pub own_id: Seq<u8>,
    /// The permitted range of addresses, if there is one.
    pub cidr: Option<CidrView>,
    /// The peers that are connected.
    pub connected: Set<Seq<u8>>,
    /// The peers that are being dialed.
    pub dialing: Set<Seq<u8>>,
}

impl SwarmView {
    /// Whether `candidate` may be let in, and why not otherwise.  The rules
    /// are applied in this order: new peers are wanted; the address passes
    /// the filter; the candidate is not the node itself; it is neither
    /// connected nor being dialed; there is room.
    pub open spec fn admission(self, no_new_peers: bool, candidate: NodeRecordView) -> Result<
        (),
        Refusal,
    > {
        if no_new_peers {
            Err(Refusal::NoNewPeers)
        } else if self.cidr is Some && !in_range(
            self.cidr.unwrap().network,
            self.cidr.unwrap().prefix_len,
            candidate.addr.ip,
        ) {
            Err(Refusal::Filtered)
        } else if candidate.id == self.own_id {
            Err(Refusal::ConnectedToSelf)
        } else if self.connected.contains(candidate.id) {
            Err(Refusal::AlreadyConnected)
        } else if self.dialing.contains(candidate.id) {
            Err(Refusal::AlreadyDialing)
        } else if self.connected.len() + self.dialing.len() >= self.max_peers {
            Err(Refusal::TooManyPeers)
        } else {
            Ok(())
        }
    }

    /// The sets are finite, share no peer, and hold no more peers than the
    /// limit.
    pub open spec fn within_limit(self) -> bool {
        &&& self.connected.finite()
        &&& self.dialing.finite()
        &&& self.connected.disjoint(self.dialing)
        &&& self.connected.len() + self.dialing.len() <= self.max_peers
    }

    /// The state after `candidate` was put among the peers being dialed,
    /// if it may be let in.
    pub open spec fn add_peer(self, no_new_peers: bool, candidate: NodeRecordView) -> SwarmView {
        if self.admission(no_new_peers, candidate) is Ok {
            SwarmView { dialing: self.dialing.insert(candidate.id), ..self }
        } else {
            self
        }
    }

    /// The state after `candidate`, who connected by itself, was put among
    /// the connected peers, if it may be let in.
    pub open spec fn accept(self, no_new_peers: bool, candidate: NodeRecordView) -> SwarmView {
        if self.admission(no_new_peers, candidate) is Ok {
            SwarmView { connected: self.connected.insert(candidate.id), ..self }
        } else {
            self
        }
    }

    /// The state after the dialing of `id` came to an end: the peer is no
    /// longer being dialed, and connected if the dialing succeeded.
    pub open spec fn dial_finished(self, id: Seq<u8>, success: bool) -> SwarmView {
        if !self.dialing.contains(id) {
            self
        } else if success {
            SwarmView {
                dialing: self.dialing.remove(id),
                connected: self.connected.insert(id),
                ..self
            }
        } else {
            SwarmView { dialing: self.dialing.remove(id), ..self }
        }
    }

    /// The state after the session with `id` ended.
    pub open spec fn disconnected(self, id: Seq<u8>) -> SwarmView {
        SwarmView { connected: self.connected.remove(id), ..self }
    }
}

/// The connection manager's record of its peers.
pub struct Swarm {
    max_peers: usize,
    own_id: PeerId,
    cidr: Option<Cidr>,
    connected: KeyedList<H512, ()>,
    dialing: KeyedList<H512, ()>,
}

/// The view of a range that may be absent.
pub open spec fn cidr_view(c: Option<Cidr>) -> Option<CidrView> {
    match c {
        Some(c) => Some(c@),
        None => None,
    }
}

impl View for Swarm {
    type V = SwarmView;

    closed spec fn view(&self) -> SwarmView {
        SwarmView {
            max_peers: self.max_peers as nat,
            own_id: self.own_id@,
            cidr: cidr_view(self.cidr),
            connected: self.connected.map().dom(),
            dialing: self.dialing.map().dom(),
        }
    }
}

impl Swarm {
    /// The representation invariant, which includes that the peers are
    /// within the limit.
    pub closed spec fn wf(&self) -> bool {
        &&& self.connected.wf()
        &&& self.dialing.wf()
        &&& (self.cidr matches Some(c) ==> c.wf())
        &&& self@.within_limit()
    }

    /// A manager without peers.
    pub fn new(max_peers: usize, own_id: PeerId, cidr: Option<Cidr>) -> (out: Swarm)
        requires
            cidr matches Some(c) ==> c.wf(),
        ensures
            out.wf(),
            out@ == (SwarmView {
                max_peers: max_peers as nat,
                own_id: own_id@,
                cidr: cidr_view(cidr),
                connected: Set::empty(),
                dialing: Set::empty(),
            }),
    {
        let out = Swarm {
            max_peers,
            own_id,
            cidr,
            connected: KeyedList::new(),
            dialing: KeyedList::new(),
        };
        proof {
            assert(out@.connected =~= Set::empty());
            assert(out@.dialing =~= Set::empty());
        }
        out
    }

    /// The number of connected peers.
    pub fn connected_peers(&self) -> (n: usize)
        requires
            self.wf(),
        ensures
            n == self@.connected.len(),
    {
        self.connected.len()
    }

    /// The number of peers being dialed.
    pub fn dialing(&self) -> (n: usize)
        requires
            self.wf(),
        ensures
            n == self@.dialing.len(),
    {
        self.dialing.len()
    }

    /// Whether `candidate` may be let in, and why not otherwise.
    pub fn check_candidate(&self, candidate: &NodeRecord, no_new_peers: bool) -> (r: Result<
        (),
        Refusal,
    >)
        requires
            self.wf(),
        ensures
            r == self@.admission(no_new_peers, candidate@),
    {
        if no_new_peers {
            return Err(Refusal::NoNewPeers);
        }
        match &self.cidr {
            Some(c) => {
                if !c.contains(&candidate.addr.ip) {
                    return Err(Refusal::Filtered);
                }
            },
            None => {},
        }
        if candidate.id.same(&self.own_id) {
            return Err(Refusal::ConnectedToSelf);
        }
        if self.connected.contains(&candidate.id) {
            return Err(Refusal::AlreadyConnected);
        }
        if self.dialing.contains(&candidate.id) {
            return Err(Refusal::AlreadyDialing);
        }
        let connected = self.connected.len();
        let dialing = self.dialing.len();
        if connected + dialing >= self.max_peers {
            return Err(Refusal::TooManyPeers);
        }
        Ok(())
    }

    /// Puts `candidate` among the peers being dialed, if it may be let in.
    pub fn add_peer(&mut self, candidate: NodeRecord, no_new_peers: bool) -> (r: Result<(), Refusal>)
        requires
            old(self).wf(),
        ensures
            final(self).wf(),
            r == old(self)@.admission(no_new_peers, candidate@),
            final(self)@ == old(self)@.add_peer(no_new_peers, candidate@),
    {
        let ghost before = self@;
        match self.check_candidate(&candidate, no_new_peers) {
            Err(e) => Err(e),
            Ok(_) => {
                self.dialing.insert(candidate.id, ());
                proof {
                    assert(self@.dialing =~= before.dialing.insert(candidate@.id));
                    assert(self@.connected.disjoint(self@.dialing));
                }
                Ok(())
            },
        }
    }

    /// Puts `candidate`, who connected by itself, among the connected
    /// peers, if it may be let in.
    pub fn accept(&mut self, candidate: NodeRecord, no_new_peers: bool) -> (r: Result<(), Refusal>)
        requires
            old(self).wf(),
        ensures
            final(self).wf(),
            r == old(self)@.admission(no_new_peers, candidate@),
            final(self)@ == old(self)@.accept(no_new_peers, candidate@),
    {
        let ghost before = self@;
        match self.check_candidate(&candidate, no_new_peers) {
            Err(e) => Err(e),
            Ok(_) => {
                self.connected.insert(candidate.id, ());
                proof {
                    assert(self@.connected =~= before.connected.insert(candidate@.id));
                    assert(self@.connected.disjoint(self@.dialing));
                }
                Ok(())
            },
        }
    }

    /// Records that the dialing of `id` came to an end.  The result says
    /// whether the peer was being dialed.
    pub fn dial_finished(&mut self, id: PeerId, success: bool) -> (was_dialing: bool)
        requires
            old(self).wf(),
        ensures
            final(self).wf(),
            was_dialing == old(self)@.dialing.contains(id@),
            final(self)@ == old(self)@.dial_finished(id@, success),
    {
        let ghost before = self@;
        match self.dialing.remove(&id) {
            None => {
                proof {
                    assert(self@.dialing =~= before.dialing);
                }
                false
            },
            Some(_) => {
                proof {
                    assert(self@.dialing =~= before.dialing.remove(id@));
                    assert(!before.connected.contains(id@));
                }
                if success {
                    self.connected.insert(id, ());
                    proof {
                        assert(self@.connected =~= before.connected.insert(id@));
                        assert(self@.connected.disjoint(self@.dialing));
                    }
                }
                true
            },
        }
    }

    /// Records that the session with `id` ended.
    pub fn disconnected(&mut self, id: PeerId)
        requires
            old(self).wf(),
        ensures
            final(self).wf(),
            final(self)@ == old(self)@.disconnected(id@),
    {
        let ghost before = self@;
        self.connected.remove(&id);
        proof {
            assert(self@.connected =~= before.connected.remove(id@));
            assert(self@.connected.disjoint(self@.dialing));
        }
    }

    /// The limit is a hard cap: in every state of the manager the connected
    /// peers and the peers being dialed are together no more than the limit.
    pub proof fn peer_cap_holds(&self)
        requires
            self.wf(),
        ensures
            self@.within_limit(),
            self@.connected.len() + self@.dialing.len() <= self@.max_peers,
    {
    }
}

/// The limit holds across every step of the manager.
pub proof fn steps_keep_the_limit(
    s: SwarmView,
    no_new_peers: bool,
    candidate: NodeRecordView,
    id: Seq<u8>,
    success: bool,
)
    requires
        s.within_limit(),
    ensures
        s.add_peer(no_new_peers, candidate).within_limit(),
        s.accept(no_new_peers, candidate).within_limit(),
        s.dial_finished(id, success).within_limit(),
        s.disconnected(id).within_limit(),
{
    let d = s.dial_finished(id, success);
    if s.dialing.contains(id) {
        assert(!s.connected.contains(id));
    }
    assert(d.within_limit());
    let x = s.disconnected(id);
    assert(x.within_limit());
}

/// While no new peers are wanted, nobody is let in, neither by dialing nor
/// by accepting, and the state stays as it is.
pub proof fn no_new_peers_stops_admission(s: SwarmView, candidate: NodeRecordView)
    ensures
        s.admission(true, candidate) == Err::<(), Refusal>(Refusal::NoNewPeers),
        s.add_peer(true, candidate) == s,
        s.accept(true, candidate) == s,
{
}

/// The node does not connect to itself: a candidate with the node's own
/// identifier is refused whenever it gets as far as that rule, and no peer
/// is recorded for it.
pub proof fn self_dial_is_refused(s: SwarmView, no_new_peers: bool, candidate: NodeRecordView)
    requires
        candidate.id == s.own_id,
    ensures
        s.admission(no_new_peers, candidate) is Err,
        !no_new_peers && (s.cidr is Some ==> in_range(
            s.cidr.unwrap().network,
            s.cidr.unwrap().prefix_len,
            candidate.addr.ip,
        )) ==> s.admission(no_new_peers, candidate) == Err::<(), Refusal>(Refusal::ConnectedToSelf),
        s.add_peer(no_new_peers, candidate) == s,
        s.accept(no_new_peers, candidate) == s,
{
}

} // verus!
