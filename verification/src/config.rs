//! What the node is started with: its key, the sizes of its channels, and
//! which sources of peer addresses it runs with what settings.

use vstd::prelude::*;
use vstd::string::StringExecFns;
use crate::eth::{capability_name, eth_name, EthProtocolVersion};
use crate::events::CapabilityId;
use crate::node_record::{
    parse_enode, NodeRecord, NodeRecordView, ParseError, SocketAddr, SocketAddrView,
};
use crate::util::{from_hex, hex_decoded, is_hex};

verus! {

/// How many inbound messages are buffered downstream for every permitted
/// peer.
pub const BUFFERING_FACTOR: usize = 5;

/// How many outbound messages of the `eth` capability wait per peer.
pub const ETH_QUEUE_DEPTH: usize = 17;

/// How many candidates the newer discovery protocol yields per poll.
pub const DISCV5_LOOKUP_SIZE: usize = 20;

/// The capacity of the channel of inbound messages for a node that
/// permits `max_peers` peers, if that is a capacity a channel can have:
/// positive and not beyond what fits.
pub fn data_channel_capacity(max_peers: usize) -> (r: Option<usize>)
    ensures
        match r {
            Some(n) => n == max_peers * BUFFERING_FACTOR && 0 < n,
            None => max_peers == 0 || max_peers * BUFFERING_FACTOR > usize::MAX,
        },
{
    if max_peers == 0 {
        return None;
    }
    max_peers.checked_mul(BUFFERING_FACTOR)
}

/// The capacity of the channel of peer events for a node that permits
/// `max_peers` peers, if that is positive.
pub fn peers_channel_capacity(max_peers: usize) -> (r: Option<usize>)
    ensures
        r == (if max_peers == 0 {
            None
        } else {
            Some(max_peers)
        }),
{
    if max_peers == 0 {
        None
    } else {
        Some(max_peers)
    }
}

/// The capabilities that the node offers, each with the depth of its
/// outbound queue: the `eth` capability in the node's version.
pub fn capabilities(protocol_version: EthProtocolVersion) -> (out: Vec<(CapabilityId, usize)>)
    ensures
        out@.len() == 1,
        out@[0].0.name.wf(),
        out@[0].0.name@ == eth_name(),
        out@[0].0.version == protocol_version.number(),
        out@[0].1 == ETH_QUEUE_DEPTH,
{
    let mut out: Vec<(CapabilityId, usize)> = Vec::new();
    out.push(
        (
            CapabilityId { name: capability_name(), version: protocol_version.to_usize() },
            ETH_QUEUE_DEPTH,
        ),
    );
    out
}

/// The name under which the node presents itself to its peers: `sentry/v`
/// and the version of the program.
pub fn client_version(version: &str) -> (out: String)
    ensures
        out@ == "sentry/v"@ + version@,
{
    let out = String::from_str("sentry/v");
    out.concat(version)
}

/// The address on which the node listens on `port`: every interface.
pub fn listen_address(port: u16) -> (addr: SocketAddr)
    ensures
        addr@ == (SocketAddrView { ip: seq![0u8, 0u8, 0u8, 0u8], port }),
{
    let addr = SocketAddr { ip: [0, 0, 0, 0], port };
    assert(addr@.ip =~= seq![0u8, 0u8, 0u8, 0u8]);
    addr
}

/// A secp256k1 secret key.
#[derive(Clone, Copy, Debug, PartialEq, Eq)]
pub struct SecretKey {
    bytes: [u8; 32],
}

impl View for SecretKey {
    type V = Seq<u8>;

    closed spec fn view(&self) -> Seq<u8> {
        self.bytes@
    }
}

/// Why a text is not a node key.
#[derive(Clone, Copy, Debug, PartialEq, Eq, Structural)]
pub enum NodeKeyError {
    /// The text is not an even number of hexadecimal digits.
    MalformedHex,
    /// The bytes are not a secret key of the curve.
    InvalidSecretKey,
}

/// Whether `secp256k1::SecretKey::from_slice` accepts a byte string.
pub uninterp spec fn secp256k1_accepts_secret(data: Seq<u8>) -> bool;

/// Calls `secp256k1::SecretKey::from_slice` and keeps only whether the
/// bytes were accepted as a key.  The outside function accepts nothing but
/// 32 bytes.
#[verifier::external_body]
fn check_secret_key(data: &[u8]) -> (r: Result<(), secp256k1::Error>)
    ensures
        r is Ok <==> secp256k1_accepts_secret(data@),
        r is Ok ==> data@.len() == 32,
{
    match secp256k1::SecretKey::from_slice(data) {
        Ok(_) => Ok(()),
        Err(e) => Err(e),
    }
}

impl SecretKey {
    /// The bytes are a secret key of the curve.
    pub open spec fn wf(&self) -> bool {
        self@.len() == 32 && secp256k1_accepts_secret(self@)
    }

    /// The secret key with the given bytes.
    pub fn from_slice(data: &[u8]) -> (r: Option<SecretKey>)
        ensures
            match r {
                Some(key) => key.wf() && key@ == data@,
                None => !secp256k1_accepts_secret(data@),
            },
    {
        match check_secret_key(data) {
            Err(_) => None,
            Ok(_) => {
                let mut bytes = [0u8; 32];
                let mut i: usize = 0;
                while i < 32
                    invariant
                        i <= 32,
                        data@.len() == 32,
                        forall|j: int| 0 <= j < i ==> bytes@[j] == data@[j],
                    decreases 32 - i,
                {
                    bytes[i] = data[i];
                    i += 1;
                }
                assert(bytes@ =~= data@);
                Some(SecretKey { bytes })
            },
        }
    }

    /// The bytes of the key.
    pub fn secret_bytes(&self) -> (out: [u8; 32])
        ensures
            out@ == self@,
    {
        self.bytes
    }
}

/// The node key that is configured as the hexadecimal text `text`.
pub fn parse_node_key(text: &[u8]) -> (r: Result<SecretKey, NodeKeyError>)
    ensures
        match r {
            Ok(key) => is_hex(text@) && key.wf() && key@ == hex_decoded(text@),
            Err(NodeKeyError::MalformedHex) => !is_hex(text@),
            Err(NodeKeyError::InvalidSecretKey) => is_hex(text@) && !secp256k1_accepts_secret(
                hex_decoded(text@),
            ),
        },
{
    match from_hex(text) {
        None => Err(NodeKeyError::MalformedHex),
        Some(bytes) => match SecretKey::from_slice(bytes.as_slice()) {
            None => Err(NodeKeyError::InvalidSecretKey),
            Some(key) => Ok(key),
        },
    }
}

/// A source of peer addresses.
#[derive(Clone, Copy, Debug, PartialEq, Eq, Structural)]
pub enum DiscoverySource {
    /// The tree of node records published in the DNS.
    DnsDisc,
    /// The legacy discovery protocol.
    DiscV4,
    /// The newer discovery protocol.
    DiscV5,
    /// The peers that were configured by hand.
    StaticPeers,
}

/// The sources that run, in the order in which they are started: none of
/// the discovery protocols where discovery is switched off, the newer
/// protocol only where it is asked for, and the configured peers where
/// there are any.
pub open spec fn sources(no_discovery: bool, discv5: bool, have_static_peers: bool) -> Seq<
    DiscoverySource,
> {
    (if no_discovery {
        Seq::<DiscoverySource>::empty()
    } else if discv5 {
        seq![DiscoverySource::DnsDisc, DiscoverySource::DiscV4, DiscoverySource::DiscV5]
    } else {
        seq![DiscoverySource::DnsDisc, DiscoverySource::DiscV4]
    }) + (if have_static_peers {
        seq![DiscoverySource::StaticPeers]
    } else {
        Seq::<DiscoverySource>::empty()
    })
}

/// The sources that run.  Where the result is empty, the node will not
/// look for peers.
pub fn discovery_sources(no_discovery: bool, discv5: bool, have_static_peers: bool) -> (out: Vec<
    DiscoverySource,
>)
    ensures
        out@ == sources(no_discovery, discv5, have_static_peers),
{
    let mut out: Vec<DiscoverySource> = Vec::new();
    if !no_discovery {
        out.push(DiscoverySource::DnsDisc);
        out.push(DiscoverySource::DiscV4);
        if discv5 {
            out.push(DiscoverySource::DiscV5);
        }
    }
    if have_static_peers {
        out.push(DiscoverySource::StaticPeers);
    }
    assert(out@ =~= sources(no_discovery, discv5, have_static_peers));
    out
}

/// The texts up to `n` are all node records, and `out` holds them.
pub open spec fn parsed_up_to(texts: Seq<Vec<u8>>, out: Seq<NodeRecord>, n: int) -> bool {
    &&& out.len() == n
    &&& forall|i: int|
        0 <= i < n ==> parse_enode((#[trigger] texts[i])@) == Ok::<NodeRecordView, ParseError>(
            out[i]@,
        )
}

/// The node records that `texts` are the texts of, or the error of the
/// first text that is none.
pub fn parse_node_records(texts: &Vec<Vec<u8>>) -> (r: Result<Vec<NodeRecord>, ParseError>)
    ensures
        match r {
            Ok(out) => parsed_up_to(texts@, out@, texts@.len() as int),
            Err(e) => exists|k: int, front: Seq<NodeRecord>|
                0 <= k < texts@.len() && #[trigger] parsed_up_to(texts@, front, k) && parse_enode(
                    texts@[k]@,
                ) == Err::<NodeRecordView, ParseError>(e),
        },
{
    let mut out: Vec<NodeRecord> = Vec::new();
    let mut i: usize = 0;
    while i < texts.len()
        invariant
            i <= texts@.len(),
            parsed_up_to(texts@, out@, i as int),
        decreases texts@.len() - i,
    {
        match NodeRecord::parse(texts[i].as_slice()) {
            Err(e) => {
                assert(parsed_up_to(texts@, out@, i as int));
                return Err(e);
            },
            Ok(record) => {
                out.push(record);
            },
        }
        i += 1;
    }
    Ok(out)
}

/// The settings of the legacy discovery protocol.
#[derive(Clone, Debug, PartialEq, Eq)]
pub struct OptsDiscV4 {
    pub discv4_port: u16,
    pub discv4_bootnodes: Vec<NodeRecord>,
    pub discv4_cache: usize,
    pub discv4_concurrent_lookups: usize,
    pub listen_port: u16,
}

/// What the legacy discovery protocol is started with.
#[derive(Clone, Debug, PartialEq, Eq)]
pub struct DiscV4Task {
    /// Where the protocol listens.
    pub addr: SocketAddr,
    /// The nodes that the protocol first asks.
    pub bootstrap_nodes: Vec<NodeRecord>,
    /// How many peers the protocol remembers.
    pub cache: usize,
    /// How many lookups the protocol runs at once.
    pub concurrent_lookups: usize,
    /// The port that the node announces for its transport.
    pub listen_port: u16,
}

impl OptsDiscV4 {
    /// What the protocol is started with.  The configured boot nodes are
    /// used where there are any, and the nodes with the texts `defaults`
    /// otherwise.
    pub fn make_task(self, defaults: &Vec<Vec<u8>>) -> (r: Result<DiscV4Task, ParseError>)
        ensures
            match r {
                Ok(task) => {
                    &&& task.addr@ == (SocketAddrView {
                        ip: seq![0u8, 0u8, 0u8, 0u8],
                        port: self.discv4_port,
                    })
                    &&& task.cache == self.discv4_cache
                    &&& task.concurrent_lookups == self.discv4_concurrent_lookups
                    &&& task.listen_port == self.listen_port
                    &&& self.discv4_bootnodes@.len() > 0 ==> task.bootstrap_nodes@
                        == self.discv4_bootnodes@
                    &&& self.discv4_bootnodes@.len() == 0 ==> parsed_up_to(
                        defaults@,
                        task.bootstrap_nodes@,
                        defaults@.len() as int,
                    )
                },
                Err(e) => self.discv4_bootnodes@.len() == 0 && exists|
                    k: int,
                    front: Seq<NodeRecord>,
                |
                    0 <= k < defaults@.len() && #[trigger] parsed_up_to(defaults@, front, k)
                        && parse_enode(defaults@[k]@) == Err::<NodeRecordView, ParseError>(e),
            },
    {
        let OptsDiscV4 {
            discv4_port,
            discv4_bootnodes,
            discv4_cache,
            discv4_concurrent_lookups,
            listen_port,
        } = self;
        let bootstrap_nodes = if discv4_bootnodes.len() == 0 {
            match parse_node_records(defaults) {
                Err(e) => { return Err(e); },
                Ok(nodes) => nodes,
            }
        } else {
            discv4_bootnodes
        };
        Ok(
            DiscV4Task {
                addr: listen_address(discv4_port),
                bootstrap_nodes,
                cache: discv4_cache,
                concurrent_lookups: discv4_concurrent_lookups,
                listen_port,
            },
        )
    }
}

/// Why the newer discovery protocol cannot be started.
#[derive(Clone, Copy, Debug, PartialEq, Eq, Structural)]
pub enum DiscV5Error {
    /// No address to listen on was given.
    NoAddr,
    /// No node record of the node itself was given.
    NoEnr,
}

/// The settings of the newer discovery protocol, over whatever stands for a
/// node record of that protocol.
pub struct OptsDiscV5<E> {
    pub discv5_enr: Option<E>,
    pub discv5_addr: Option<Vec<u8>>,
    pub discv5_bootnodes: Vec<E>,
}

/// What the newer discovery protocol is started with.
pub struct DiscV5Task<E> {
    /// The node's own record.
    pub enr: E,
    /// The text of the address to listen on.
    pub addr: Vec<u8>,
    /// The records of the nodes that the protocol first asks.
    pub bootnodes: Vec<E>,
    /// How many candidates the protocol yields per poll.
    pub lookup_size: usize,
}

impl<E> OptsDiscV5<E> {
    /// What the protocol is started with.  The address is looked for
    /// first, then the node's own record.
    pub fn make_task(self) -> (r: Result<DiscV5Task<E>, DiscV5Error>)
        ensures
            match r {
                Ok(task) => {
                    &&& self.discv5_addr == Some(task.addr)
                    &&& self.discv5_enr == Some(task.enr)
                    &&& task.bootnodes == self.discv5_bootnodes
                    &&& task.lookup_size == DISCV5_LOOKUP_SIZE
                },
                Err(DiscV5Error::NoAddr) => self.discv5_addr is None,
                Err(DiscV5Error::NoEnr) => self.discv5_addr is Some && self.discv5_enr is None,
            },
    {
        let OptsDiscV5 { discv5_enr, discv5_addr, discv5_bootnodes } = self;
        let addr = match discv5_addr {
            None => { return Err(DiscV5Error::NoAddr); },
            Some(addr) => addr,
        };
        let enr = match discv5_enr {
            None => { return Err(DiscV5Error::NoEnr); },
            Some(enr) => enr,
        };
        Ok(DiscV5Task { enr, addr, bootnodes: discv5_bootnodes, lookup_size: DISCV5_LOOKUP_SIZE })
    }
}

/// The identifier that the last record with address `addr` gives.
pub open spec fn last_id_at(peers: Seq<NodeRecord>, addr: SocketAddrView) -> Option<Seq<u8>>
    decreases peers.len(),
{
    if peers.len() == 0 {
        None
    } else if peers.last().addr@ == addr {
        Some(peers.last().id@)
    } else {
        last_id_at(peers.drop_last(), addr)
    }
}

/// Position `x` of `table` holds address `addr`.
pub open spec fn addr_at(table: Seq<NodeRecord>, x: int, addr: SocketAddrView) -> bool {
    0 <= x < table.len() && table[x].addr@ == addr
}

/// `table` is what `peers` say, address by address: it has one record for
/// every address that occurs in `peers`, with the identifier that the last
/// record of that address gives.
pub open spec fn is_table_of(table: Seq<NodeRecord>, peers: Seq<NodeRecord>) -> bool {
    &&& forall|x: int, y: int| 0 <= x < y < table.len() ==> table[x].addr@ != table[y].addr@
    &&& forall|x: int|
        0 <= x < table.len() ==> last_id_at(peers, (#[trigger] table[x]).addr@) == Some(
            table[x].id@,
        )
    &&& forall|addr: SocketAddrView| #[trigger]
        last_id_at(peers, addr) is Some ==> exists|x: int| addr_at(table, x, addr)
}

/// Whether two addresses are the same.
pub fn same_addr(a: &SocketAddr, b: &SocketAddr) -> (r: bool)
    ensures
        r == (a@ == b@),
{
    if a.port != b.port {
        return false;
    }
    let mut i: usize = 0;
    while i < 4
        invariant
            i <= 4,
            forall|j: int| 0 <= j < i ==> a.ip@[j] == b.ip@[j],
        decreases 4 - i,
    {
        if a.ip[i] != b.ip[i] {
            return false;
        }
        i += 1;
    }
    assert(a@.ip =~= b@.ip);
    true
}

/// Where the record with address `addr` stands in `table`.
fn find_addr(table: &Vec<NodeRecord>, addr: &SocketAddr) -> (r: Option<usize>)
    ensures
        match r {
            Some(x) => x < table@.len() && table@[x as int].addr@ == addr@,
            None => forall|j: int| 0 <= j < table@.len() ==> table@[j].addr@ != addr@,
        },
{
    let mut x: usize = 0;
    while x < table.len()
        invariant
            x <= table@.len(),
            forall|j: int| 0 <= j < x ==> table@[j].addr@ != addr@,
        decreases table@.len() - x,
    {
        if same_addr(&table[x].addr, addr) {
            return Some(x);
        }
        x += 1;
    }
    None
}

/// The settings of the configured peers.
#[derive(Clone, Debug, PartialEq, Eq)]
pub struct OptsDiscStatic {
    pub static_peers: Vec<NodeRecord>,
    pub static_peers_interval: u64,
}

/// What the configured peers are offered with.
#[derive(Clone, Debug, PartialEq, Eq)]
pub struct StaticNodesTask {
    /// The peers, one for every address.
    pub nodes: Vec<NodeRecord>,
    /// The time between two offers, in milliseconds.
    pub interval_millis: u64,
}

impl OptsDiscStatic {
    /// What the configured peers are offered with: one peer for every
    /// address, the last that was configured for it.
    pub fn make_task(self) -> (task: StaticNodesTask)
        ensures
            is_table_of(task.nodes@, self.static_peers@),
            task.interval_millis == self.static_peers_interval,
    {
        let OptsDiscStatic { static_peers, static_peers_interval } = self;
        let mut nodes: Vec<NodeRecord> = Vec::new();
        let mut i: usize = 0;
        proof {
            assert(static_peers@.take(0) =~= Seq::<NodeRecord>::empty());
        }
        while i < static_peers.len()
            invariant
                i <= static_peers@.len(),
                is_table_of(nodes@, static_peers@.take(i as int)),
            decreases static_peers@.len() - i,
        {
            let record = static_peers[i];
            let ghost seen = static_peers@.take(i as int);
            let ghost next = static_peers@.take(i + 1);
            let ghost before = nodes@;
            proof {
                assert(next.drop_last() =~= seen);
                assert(next.last() == record);
            }
            match find_addr(&nodes, &record.addr) {
                Some(at) => {
                    nodes.set(at, record);
                    proof {
                        let after = nodes@;
                        assert forall|a: int, b: int| 0 <= a < b < after.len() implies after[a].addr@
                            != after[b].addr@ by {
                            assert(after[a].addr@ == before[a].addr@);
                            assert(after[b].addr@ == before[b].addr@);
                        }
                        assert forall|a: int| 0 <= a < after.len() implies last_id_at(
                            next,
                            (#[trigger] after[a]).addr@,
                        ) == Some(after[a].id@) by {
                            if a != at {
                                assert(after[a] == before[a]);
                                if a < at {
                                    assert(before[a].addr@ != before[at as int].addr@);
                                } else {
                                    assert(before[at as int].addr@ != before[a].addr@);
                                }
                            }
                        }
                        assert forall|addr: SocketAddrView| #[trigger]
                            last_id_at(next, addr) is Some implies exists|a: int|
                            addr_at(after, a, addr) by {
                            if addr == record.addr@ {
                                assert(addr_at(after, at as int, addr));
                            } else {
                                assert(last_id_at(seen, addr) is Some);
                                let a = choose|a: int| addr_at(before, a, addr);
                                assert(addr_at(before, a, addr));
                                assert(after[a] == before[a]);
                                assert(addr_at(after, a, addr));
                            }
                        }
                    }
                },
                None => {
                    nodes.push(record);
                    proof {
                        let after = nodes@;
                        let n = before.len() as int;
                        assert forall|a: int, b: int| 0 <= a < b < after.len() implies after[a].addr@
                            != after[b].addr@ by {
                            assert(after[a] == before[a]);
                            if b < n {
                                assert(after[b] == before[b]);
                            }
                        }
                        assert forall|a: int| 0 <= a < after.len() implies last_id_at(
                            next,
                            (#[trigger] after[a]).addr@,
                        ) == Some(after[a].id@) by {
                            if a < n {
                                assert(after[a] == before[a]);
                            }
                        }
                        assert forall|addr: SocketAddrView| #[trigger]
                            last_id_at(next, addr) is Some implies exists|a: int|
                            addr_at(after, a, addr) by {
                            if addr == record.addr@ {
                                assert(addr_at(after, n, addr));
                            } else {
                                assert(last_id_at(seen, addr) is Some);
                                let a = choose|a: int| addr_at(before, a, addr);
                                assert(addr_at(before, a, addr));
                                assert(after[a] == before[a]);
                                assert(addr_at(after, a, addr));
                            }
                        }
                    }
                },
            }
            i += 1;
        }
        proof {
            assert(static_peers@.take(i as int) =~= static_peers@);
        }
        StaticNodesTask { nodes, interval_millis: static_peers_interval }
    }
}

} // verus!
