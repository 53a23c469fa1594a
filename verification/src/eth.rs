//! The `eth` capability: message identifiers, the status handshake message
//! and its wire form, and what the node knows of its own chain.

use vstd::prelude::*;
use crate::events::{CapabilityName, CapabilityVersion, PeersReply, PeersReplyView};
use crate::peer_id::PeerIdHash;
use crate::primitives::{H256, U256};
use crate::wire::{
    be_bytes, joined, lemma_joined_push, lemma_rlp_string_len, no_leading_zero, pad_to_32,
    pad_zeros, rlp_bytes, rlp_encode_bytes, rlp_item,
    rlp_item_at, rlp_list, rlp_payload, rlp_stream_append_raw, rlp_stream_items,
    rlp_stream_new_list, rlp_stream_out, rlp_string, strip_leading_zeros, strip_zeros,
    uint_from_bytes, uint_to_bytes,
};

verus! {

/// The messages of the `eth` capability.
#[derive(Clone, Copy, Debug, PartialEq, Eq, Hash, Structural)]
pub enum EthMessageId {
    Status,
    NewBlockHashes,
    Transactions,
    GetBlockHeaders,
    BlockHeaders,
    GetBlockBodies,
    BlockBodies,
    NewBlock,
    NewPooledTransactionHashes,
    GetPooledTransactions,
    PooledTransactions,
    GetNodeData,
    NodeData,
    GetReceipts,
    Receipts,
}

impl EthMessageId {
    /// The index of the message within the capability.
    pub open spec fn index(self) -> usize {
        match self {
            EthMessageId::Status => 0,
            EthMessageId::NewBlockHashes => 1,
            EthMessageId::Transactions => 2,
            EthMessageId::GetBlockHeaders => 3,
            EthMessageId::BlockHeaders => 4,
            EthMessageId::GetBlockBodies => 5,
            EthMessageId::BlockBodies => 6,
            EthMessageId::NewBlock => 7,
            EthMessageId::NewPooledTransactionHashes => 8,
            EthMessageId::GetPooledTransactions => 9,
            EthMessageId::PooledTransactions => 10,
            EthMessageId::GetNodeData => 13,
            EthMessageId::NodeData => 14,
            EthMessageId::GetReceipts => 15,
            EthMessageId::Receipts => 16,
        }
    }

    /// The message with index `id`, if there is one.
    pub open spec fn of_index(id: usize) -> Option<EthMessageId> {
        if id == 0 {
            Some(EthMessageId::Status)
        } else if id == 1 {
            Some(EthMessageId::NewBlockHashes)
        } else if id == 2 {
            Some(EthMessageId::Transactions)
        } else if id == 3 {
            Some(EthMessageId::GetBlockHeaders)
        } else if id == 4 {
            Some(EthMessageId::BlockHeaders)
        } else if id == 5 {
            Some(EthMessageId::GetBlockBodies)
        } else if id == 6 {
            Some(EthMessageId::BlockBodies)
        } else if id == 7 {
            Some(EthMessageId::NewBlock)
        } else if id == 8 {
            Some(EthMessageId::NewPooledTransactionHashes)
        } else if id == 9 {
            Some(EthMessageId::GetPooledTransactions)
        } else if id == 10 {
            Some(EthMessageId::PooledTransactions)
        } else if id == 13 {
            Some(EthMessageId::GetNodeData)
        } else if id == 14 {
            Some(EthMessageId::NodeData)
        } else if id == 15 {
            Some(EthMessageId::GetReceipts)
        } else if id == 16 {
            Some(EthMessageId::Receipts)
        } else {
            None
        }
    }

    /// The message with index `id`, if there is one.
    pub fn from_usize(id: usize) -> (r: Option<EthMessageId>)
        ensures
            r == EthMessageId::of_index(id),
    {
        match id {
            0 => Some(EthMessageId::Status),
            1 => Some(EthMessageId::NewBlockHashes),
            2 => Some(EthMessageId::Transactions),
            3 => Some(EthMessageId::GetBlockHeaders),
            4 => Some(EthMessageId::BlockHeaders),
            5 => Some(EthMessageId::GetBlockBodies),
            6 => Some(EthMessageId::BlockBodies),
            7 => Some(EthMessageId::NewBlock),
            8 => Some(EthMessageId::NewPooledTransactionHashes),
            9 => Some(EthMessageId::GetPooledTransactions),
            10 => Some(EthMessageId::PooledTransactions),
            13 => Some(EthMessageId::GetNodeData),
            14 => Some(EthMessageId::NodeData),
            15 => Some(EthMessageId::GetReceipts),
            16 => Some(EthMessageId::Receipts),
            _ => None,
        }
    }

    /// The index of the message within the capability.
    pub fn to_usize(self) -> (id: usize)
        ensures
            id == self.index(),
    {
        match self {
            EthMessageId::Status => 0,
            EthMessageId::NewBlockHashes => 1,
            EthMessageId::Transactions => 2,
            EthMessageId::GetBlockHeaders => 3,
            EthMessageId::BlockHeaders => 4,
            EthMessageId::GetBlockBodies => 5,
            EthMessageId::BlockBodies => 6,
            EthMessageId::NewBlock => 7,
            EthMessageId::NewPooledTransactionHashes => 8,
            EthMessageId::GetPooledTransactions => 9,
            EthMessageId::PooledTransactions => 10,
            EthMessageId::GetNodeData => 13,
            EthMessageId::NodeData => 14,
            EthMessageId::GetReceipts => 15,
            EthMessageId::Receipts => 16,
        }
    }

    /// Every message is found again under its own index, and an index names
    /// at most one message.
    pub proof fn index_round_trip(m: EthMessageId, id: usize)
        ensures
            EthMessageId::of_index(m.index()) == Some(m),
            EthMessageId::of_index(id) == Some(m) ==> id == m.index(),
    {
    }
}

/// The versions of the `eth` capability that the node speaks.
#[derive(Clone, Copy, Debug, PartialEq, Eq, Hash, Structural)]
pub enum EthProtocolVersion {
    Eth65,
    Eth66,
}

impl EthProtocolVersion {
    /// The version number.
    pub open spec fn number(self) -> CapabilityVersion {
        match self {
            EthProtocolVersion::Eth65 => 65,
            EthProtocolVersion::Eth66 => 66,
        }
    }

    /// The version number.
    pub fn to_usize(self) -> (v: CapabilityVersion)
        ensures
            v == self.number(),
    {
        match self {
            EthProtocolVersion::Eth65 => 65,
            EthProtocolVersion::Eth66 => 66,
        }
    }
}

/// The bytes of the capability's name, `eth`.
pub open spec fn eth_name() -> Seq<u8> {
    seq![0x65u8, 0x74u8, 0x68u8]
}

/// The name of the capability.
pub fn capability_name() -> (name: CapabilityName)
    ensures
        name.wf(),
        name@ == eth_name(),
{
    let bytes: [u8; 8] = [0x65, 0x74, 0x68, 0, 0, 0, 0, 0];
    assert(bytes@.take(3) =~= eth_name());
    CapabilityName::from_array(bytes, 3)
}

/// A fork identifier: the checksum of the forks passed so far and the block
/// of the next fork, zero where none is known.
#[derive(Clone, Copy, Debug, PartialEq, Eq, Hash)]
pub struct ForkId {
    pub hash: [u8; 4],
    pub next: u64,
}

/// The mathematical content of a [`ForkId`].
pub struct ForkIdView {
    pub hash: Seq<u8>,
    pub next: u64,
}

impl View for ForkId {
    type V = ForkIdView;

    open spec fn view(&self) -> ForkIdView {
        ForkIdView { hash: self.hash@, next: self.next }
    }
}

/// The first message of the `eth` capability, by which two nodes find out
/// whether they follow the same chain.
#[derive(Clone, Copy, Debug, PartialEq, Eq)]
pub struct StatusMessage {
    pub protocol_version: usize,
    pub network_id: u64,
    pub total_difficulty: U256,
    pub best_hash: H256,
    pub genesis_hash: H256,
    pub fork_id: ForkId,
}

/// The mathematical content of a [`StatusMessage`].
pub struct StatusMessageView {
    pub protocol_version: usize,
    pub network_id: u64,
    pub total_difficulty: Seq<u8>,
    pub best_hash: Seq<u8>,
    pub genesis_hash: Seq<u8>,
    pub fork_id: ForkIdView,
}

impl View for StatusMessage {
    type V = StatusMessageView;

    open spec fn view(&self) -> StatusMessageView {
        StatusMessageView {
            protocol_version: self.protocol_version,
            network_id: self.network_id,
            total_difficulty: self.total_difficulty@,
            best_hash: self.best_hash@,
            genesis_hash: self.genesis_hash@,
            fork_id: self.fork_id@,
        }
    }
}

/// Why bytes are not a status message.
#[derive(Clone, Copy, Debug, PartialEq, Eq, Structural)]
pub enum StatusError {
    /// The bytes are not an RLP list with the items of a status message.
    Framing,
    /// An item does not have the form of the value it stands for.
    Value,
}

/// The wire form of a status message: the RLP list of protocol version,
/// network identifier, total difficulty, best hash, genesis hash and fork
/// identifier, the last a list of checksum and next fork block.
pub open spec fn status_encoding(m: StatusMessageView) -> Seq<u8> {
    rlp_list(status_items(m))
}

/// The wire form of a fork identifier.
pub open spec fn fork_id_encoding(f: ForkIdView) -> Seq<u8> {
    rlp_list(fork_id_items(f))
}

/// The payload of string item `index` of the list that `data` encodes.
pub open spec fn field(data: Seq<u8>, index: nat) -> Option<Seq<u8>> {
    match rlp_item(data, index) {
        Some(item) => rlp_payload(item),
        None => None,
    }
}

/// A payload is the shortest form of a number that fits the given width.
pub open spec fn is_uint(payload: Seq<u8>, max: nat) -> bool {
    payload.len() <= 8 && no_leading_zero(payload) && crate::wire::be_value(payload) <= max
}

/// The status message that `data` encodes, or why it encodes none.  The
/// items are read in order, and the first that fails decides the error.
pub open spec fn status_decoding(data: Seq<u8>) -> Result<StatusMessageView, StatusError> {
    if field(data, 0) is None {
        Err(StatusError::Framing)
    } else if !is_uint(field(data, 0).unwrap(), usize::MAX as nat) {
        Err(StatusError::Value)
    } else if field(data, 1) is None {
        Err(StatusError::Framing)
    } else if !is_uint(field(data, 1).unwrap(), u64::MAX as nat) {
        Err(StatusError::Value)
    } else if field(data, 2) is None {
        Err(StatusError::Framing)
    } else if !(field(data, 2).unwrap().len() <= 32 && no_leading_zero(field(data, 2).unwrap())) {
        Err(StatusError::Value)
    } else if field(data, 3) is None {
        Err(StatusError::Framing)
    } else if field(data, 3).unwrap().len() != 32 {
        Err(StatusError::Value)
    } else if field(data, 4) is None {
        Err(StatusError::Framing)
    } else if field(data, 4).unwrap().len() != 32 {
        Err(StatusError::Value)
    } else if rlp_item(data, 5) is None {
        Err(StatusError::Framing)
    } else {
        match fork_id_decoding(rlp_item(data, 5).unwrap()) {
            Err(e) => Err(e),
            Ok(fork_id) => Ok(
                StatusMessageView {
                    protocol_version: crate::wire::be_value(field(data, 0).unwrap()) as usize,
                    network_id: crate::wire::be_value(field(data, 1).unwrap()) as u64,
                    total_difficulty: pad_zeros(field(data, 2).unwrap(), 32),
                    best_hash: field(data, 3).unwrap(),
                    genesis_hash: field(data, 4).unwrap(),
                    fork_id,
                },
            ),
        }
    }
}

/// The fork identifier that `item` encodes, or why it encodes none.
pub open spec fn fork_id_decoding(item: Seq<u8>) -> Result<ForkIdView, StatusError> {
    if field(item, 0) is None {
        Err(StatusError::Framing)
    } else if field(item, 0).unwrap().len() != 4 {
        Err(StatusError::Value)
    } else if field(item, 1) is None {
        Err(StatusError::Framing)
    } else if !is_uint(field(item, 1).unwrap(), u64::MAX as nat) {
        Err(StatusError::Value)
    } else {
        Ok(
            ForkIdView {
                hash: field(item, 0).unwrap(),
                next: crate::wire::be_value(field(item, 1).unwrap()) as u64,
            },
        )
    }
}

/// The payload of string item `index` of the list that `data` encodes.
fn read_field(data: &[u8], index: usize) -> (r: Option<Vec<u8>>)
    ensures
        match r {
            Some(payload) => field(data@, index as nat) == Some(payload@),
            None => field(data@, index as nat) is None,
        },
{
    match rlp_item_at(data, index) {
        Err(_) => None,
        Ok(item) => match rlp_bytes(item.as_slice()) {
            Err(_) => None,
            Ok(payload) => Some(payload),
        },
    }
}

/// Reads a number from its shortest big-endian form.
fn read_uint(payload: &[u8]) -> (r: Option<u64>)
    ensures
        match r {
            Some(v) => is_uint(payload@, u64::MAX as nat) && v == crate::wire::be_value(payload@),
            None => !is_uint(payload@, u64::MAX as nat),
        },
{
    proof {
        crate::wire::lemma_be_value_bound(payload@);
        if payload@.len() <= 8 {
            crate::wire::lemma_pow256_monotone(payload@.len(), 8);
            crate::wire::lemma_pow256_8();
        }
    }
    match uint_from_bytes(payload) {
        None => None,
        Some(v) => {
            proof {
                crate::wire::lemma_be_value_of_bytes(v as nat);
                crate::wire::lemma_pow256_8();
                crate::wire::lemma_be_bytes_len(v as nat, 8);
            }
            Some(v)
        },
    }
}

/// Copies a payload of known length into an array.
fn to_array_32(payload: &[u8]) -> (out: [u8; 32])
    requires
        payload@.len() == 32,
    ensures
        out@ == payload@,
{
    let mut out = [0u8; 32];
    let mut i: usize = 0;
    while i < 32
        invariant
            i <= 32,
            payload@.len() == 32,
            forall|j: int| 0 <= j < i ==> out@[j] == payload@[j],
        decreases 32 - i,
    {
        out[i] = payload[i];
        i += 1;
    }
    assert(out@ =~= payload@);
    out
}

/// Reads a fork identifier from its wire form.
pub fn decode_fork_id(item: &[u8]) -> (r: Result<ForkId, StatusError>)
    ensures
        match r {
            Ok(f) => fork_id_decoding(item@) == Ok::<ForkIdView, StatusError>(f@),
            Err(e) => fork_id_decoding(item@) == Err::<ForkIdView, StatusError>(e),
        },
{
    let hash_bytes = match read_field(item, 0) {
        None => { return Err(StatusError::Framing); },
        Some(p) => p,
    };
    if hash_bytes.len() != 4 {
        return Err(StatusError::Value);
    }
    let next = match read_field(item, 1) {
        None => { return Err(StatusError::Framing); },
        Some(p) => match read_uint(p.as_slice()) {
            None => { return Err(StatusError::Value); },
            Some(v) => v,
        },
    };
    let hash: [u8; 4] = [hash_bytes[0], hash_bytes[1], hash_bytes[2], hash_bytes[3]];
    assert(hash@ =~= hash_bytes@);
    Ok(ForkId { hash, next })
}

/// Reads a status message from its wire form.
pub fn decode_status(data: &[u8]) -> (r: Result<StatusMessage, StatusError>)
    ensures
        match r {
            Ok(m) => status_decoding(data@) == Ok::<StatusMessageView, StatusError>(m@),
            Err(e) => status_decoding(data@) == Err::<StatusMessageView, StatusError>(e),
        },
{
    let protocol_version: usize = match read_field(data, 0) {
        None => { return Err(StatusError::Framing); },
        Some(p) => match read_uint(p.as_slice()) {
            None => { return Err(StatusError::Value); },
            Some(v) => {
                if v > usize::MAX as u64 {
                    return Err(StatusError::Value);
                }
                v as usize
            },
        },
    };
    let network_id: u64 = match read_field(data, 1) {
        None => { return Err(StatusError::Framing); },
        Some(p) => match read_uint(p.as_slice()) {
            None => { return Err(StatusError::Value); },
            Some(v) => v,
        },
    };
    let total_difficulty = match read_field(data, 2) {
        None => { return Err(StatusError::Framing); },
        Some(p) => match pad_to_32(p.as_slice()) {
            None => { return Err(StatusError::Value); },
            Some(b) => U256(b),
        },
    };
    let best_hash = match read_field(data, 3) {
        None => { return Err(StatusError::Framing); },
        Some(p) => {
            if p.len() != 32 {
                return Err(StatusError::Value);
            }
            H256(to_array_32(p.as_slice()))
        },
    };
    let genesis_hash = match read_field(data, 4) {
        None => { return Err(StatusError::Framing); },
        Some(p) => {
            if p.len() != 32 {
                return Err(StatusError::Value);
            }
            H256(to_array_32(p.as_slice()))
        },
    };
    let fork_id = match rlp_item_at(data, 5) {
        Err(_) => { return Err(StatusError::Framing); },
        Ok(item) => match decode_fork_id(item.as_slice()) {
            Err(e) => { return Err(e); },
            Ok(f) => f,
        },
    };
    Ok(
        StatusMessage {
            protocol_version,
            network_id,
            total_difficulty,
            best_hash,
            genesis_hash,
            fork_id,
        },
    )
}

/// The wire form of a fork identifier.
pub fn encode_fork_id(f: &ForkId) -> (out: Vec<u8>)
    ensures
        out@ == fork_id_encoding(f@),
        out@.len() <= 15,
{
    let mut s = rlp_stream_new_list(2);
    let hash = rlp_encode_bytes(f.hash.as_slice());
    proof {
        lemma_rlp_string_len(f@.hash);
        lemma_joined_push(rlp_stream_items(s), hash@);
    }
    rlp_stream_append_raw(&mut s, hash.as_slice());
    let next_payload = uint_to_bytes(f.next);
    let next = rlp_encode_bytes(next_payload.as_slice());
    proof {
        lemma_rlp_string_len(next_payload@);
        lemma_joined_push(rlp_stream_items(s), next@);
    }
    rlp_stream_append_raw(&mut s, next.as_slice());
    proof {
        assert(rlp_stream_items(s) =~= fork_id_items(f@));
        assert(joined(rlp_stream_items(s)).len() <= 14);
    }
    rlp_stream_out(s)
}

/// The wire form of a status message.
pub fn encode_status(m: &StatusMessage) -> (out: Vec<u8>)
    ensures
        out@ == status_encoding(m@),
{
    let mut s = rlp_stream_new_list(6);
    let version_payload = uint_to_bytes(m.protocol_version as u64);
    let version = rlp_encode_bytes(version_payload.as_slice());
    proof {
        lemma_rlp_string_len(version_payload@);
        lemma_joined_push(rlp_stream_items(s), version@);
    }
    rlp_stream_append_raw(&mut s, version.as_slice());
    let network_payload = uint_to_bytes(m.network_id);
    let network = rlp_encode_bytes(network_payload.as_slice());
    proof {
        lemma_rlp_string_len(network_payload@);
        lemma_joined_push(rlp_stream_items(s), network@);
    }
    rlp_stream_append_raw(&mut s, network.as_slice());
    let difficulty_payload = strip_leading_zeros(m.total_difficulty.0.as_slice());
    proof {
        crate::wire::lemma_pad_strip(m@.total_difficulty);
    }
    let difficulty = rlp_encode_bytes(difficulty_payload.as_slice());
    proof {
        lemma_rlp_string_len(difficulty_payload@);
        lemma_joined_push(rlp_stream_items(s), difficulty@);
    }
    rlp_stream_append_raw(&mut s, difficulty.as_slice());
    let best = rlp_encode_bytes(m.best_hash.0.as_slice());
    proof {
        lemma_rlp_string_len(m@.best_hash);
        lemma_joined_push(rlp_stream_items(s), best@);
    }
    rlp_stream_append_raw(&mut s, best.as_slice());
    let genesis = rlp_encode_bytes(m.genesis_hash.0.as_slice());
    proof {
        lemma_rlp_string_len(m@.genesis_hash);
        lemma_joined_push(rlp_stream_items(s), genesis@);
    }
    rlp_stream_append_raw(&mut s, genesis.as_slice());
    let fork = encode_fork_id(&m.fork_id);
    proof {
        lemma_joined_push(rlp_stream_items(s), fork@);
    }
    rlp_stream_append_raw(&mut s, fork.as_slice());
    proof {
        assert(rlp_stream_items(s) =~= status_items(m@));
        assert(joined(rlp_stream_items(s)).len() <= 132);
    }
    rlp_stream_out(s)
}

/// The payloads that a status message is written with are read back as the
/// values they were written from: a number from its shortest form, the
/// total difficulty from its bytes without leading zeros.
pub proof fn status_fields_round_trip(m: StatusMessageView)
    requires
        m.total_difficulty.len() == 32,
    ensures
        is_uint(be_bytes(m.protocol_version as nat), usize::MAX as nat),
        crate::wire::be_value(be_bytes(m.protocol_version as nat)) == m.protocol_version,
        is_uint(be_bytes(m.network_id as nat), u64::MAX as nat),
        crate::wire::be_value(be_bytes(m.network_id as nat)) == m.network_id,
        is_uint(be_bytes(m.fork_id.next as nat), u64::MAX as nat),
        crate::wire::be_value(be_bytes(m.fork_id.next as nat)) == m.fork_id.next,
        strip_zeros(m.total_difficulty).len() <= 32,
        no_leading_zero(strip_zeros(m.total_difficulty)),
        pad_zeros(strip_zeros(m.total_difficulty), 32) == m.total_difficulty,
{
    crate::wire::lemma_pow256_8();
    crate::wire::lemma_be_value_of_bytes(m.protocol_version as nat);
    crate::wire::lemma_be_bytes_len(m.protocol_version as nat, 8);
    crate::wire::lemma_be_value_of_bytes(m.network_id as nat);
    crate::wire::lemma_be_bytes_len(m.network_id as nat, 8);
    crate::wire::lemma_be_value_of_bytes(m.fork_id.next as nat);
    crate::wire::lemma_be_bytes_len(m.fork_id.next as nat, 8);
    crate::wire::lemma_pad_strip(m.total_difficulty);
}

/// The payloads of a status message have one form only: a payload that is
/// read as a number is the shortest form of that number, and a payload
/// that is read as a total difficulty is that difficulty without its
/// leading zeros.
pub proof fn status_fields_are_canonical(payload: Seq<u8>, max: nat)
    ensures
        is_uint(payload, max) ==> be_bytes(crate::wire::be_value(payload)) == payload,
        payload.len() <= 32 && no_leading_zero(payload) ==> strip_zeros(pad_zeros(payload, 32))
            == payload,
{
    if is_uint(payload, max) {
        crate::wire::lemma_be_bytes_of_value(payload);
    }
    if payload.len() <= 32 && no_leading_zero(payload) {
        crate::wire::lemma_strip_pad(payload, 32);
    }
}

/// The item encodings that a status message is framed from.
pub open spec fn status_items(m: StatusMessageView) -> Seq<Seq<u8>> {
    seq![
        rlp_string(be_bytes(m.protocol_version as nat)),
        rlp_string(be_bytes(m.network_id as nat)),
        rlp_string(strip_zeros(m.total_difficulty)),
        rlp_string(m.best_hash),
        rlp_string(m.genesis_hash),
        fork_id_encoding(m.fork_id),
    ]
}

/// The item encodings that a fork identifier is framed from.
pub open spec fn fork_id_items(f: ForkIdView) -> Seq<Seq<u8>> {
    seq![rlp_string(f.hash), rlp_string(be_bytes(f.next as nat))]
}

/// Unframing undoes framing for the frames of `m`: every item of the two
/// lists is found again at its position, and every string gives back its
/// payload.  The frames are known byte by byte; what the `rlp` crate reads
/// from them is known by name only, so that this is a supposition here.
pub open spec fn frames_are_read_back(m: StatusMessageView) -> bool {
    &&& forall|i: int|
        0 <= i < 6 ==> rlp_item(rlp_list(status_items(m)), i as nat) == Some(
            #[trigger] status_items(m)[i],
        )
    &&& forall|i: int|
        0 <= i < 2 ==> rlp_item(rlp_list(fork_id_items(m.fork_id)), i as nat) == Some(
            #[trigger] fork_id_items(m.fork_id)[i],
        )
    &&& rlp_payload(rlp_string(be_bytes(m.protocol_version as nat))) == Some(
        be_bytes(m.protocol_version as nat),
    )
    &&& rlp_payload(rlp_string(be_bytes(m.network_id as nat))) == Some(
        be_bytes(m.network_id as nat),
    )
    &&& rlp_payload(rlp_string(strip_zeros(m.total_difficulty))) == Some(
        strip_zeros(m.total_difficulty),
    )
    &&& rlp_payload(rlp_string(m.best_hash)) == Some(m.best_hash)
    &&& rlp_payload(rlp_string(m.genesis_hash)) == Some(m.genesis_hash)
    &&& rlp_payload(rlp_string(m.fork_id.hash)) == Some(m.fork_id.hash)
    &&& rlp_payload(rlp_string(be_bytes(m.fork_id.next as nat))) == Some(
        be_bytes(m.fork_id.next as nat),
    )
}

/// A status message is read back as it was written, provided that
/// unframing undoes framing for its frames.
pub proof fn status_round_trip(m: StatusMessageView)
    requires
        m.total_difficulty.len() == 32,
        m.best_hash.len() == 32,
        m.genesis_hash.len() == 32,
        m.fork_id.hash.len() == 4,
    ensures
        frames_are_read_back(m) ==> status_decoding(status_encoding(m)) == Ok::<
            StatusMessageView,
            StatusError,
        >(m),
{
    if frames_are_read_back(m) {
        status_fields_round_trip(m);
        let data = status_encoding(m);
        let items = status_items(m);
        let fork = fork_id_items(m.fork_id);
        assert(data == rlp_list(items));
        assert(items[0] == rlp_string(be_bytes(m.protocol_version as nat)));
        assert(items[1] == rlp_string(be_bytes(m.network_id as nat)));
        assert(items[2] == rlp_string(strip_zeros(m.total_difficulty)));
        assert(items[3] == rlp_string(m.best_hash));
        assert(items[4] == rlp_string(m.genesis_hash));
        assert(items[5] == fork_id_encoding(m.fork_id));
        assert(fork[0] == rlp_string(m.fork_id.hash));
        assert(fork[1] == rlp_string(be_bytes(m.fork_id.next as nat)));
        assert(fork_id_encoding(m.fork_id) == rlp_list(fork));
        assert(field(data, 0) == Some(be_bytes(m.protocol_version as nat)));
        assert(field(data, 1) == Some(be_bytes(m.network_id as nat)));
        assert(field(data, 2) == Some(strip_zeros(m.total_difficulty)));
        assert(field(data, 3) == Some(m.best_hash));
        assert(field(data, 4) == Some(m.genesis_hash));
        assert(rlp_item(data, 5) == Some(fork_id_encoding(m.fork_id)));
        let item = fork_id_encoding(m.fork_id);
        assert(field(item, 0) == Some(m.fork_id.hash));
        assert(field(item, 1) == Some(be_bytes(m.fork_id.next as nat)));
        assert(fork_id_decoding(item) == Ok::<ForkIdView, StatusError>(m.fork_id));
    }
}

/// The forks of a chain: its genesis block and the blocks at which its
/// rules change.
#[derive(Clone, Debug, PartialEq, Eq)]
pub struct Forks {
    pub genesis: H256,
    pub forks: Vec<u64>,
}

/// What the node knows of the chain it follows.
#[derive(Clone, Debug, PartialEq, Eq)]
pub struct StatusData {
    pub network_id: u64,
    pub total_difficulty: U256,
    pub best_hash: H256,
    pub fork_data: Forks,
}

/// The status of the chain, under its other name.
pub type ChainStatus = StatusData;

/// The mathematical content of a [`StatusData`].
pub struct StatusDataView {
    pub network_id: u64,
    pub total_difficulty: Seq<u8>,
    pub best_hash: Seq<u8>,
    pub genesis: Seq<u8>,
    pub forks: Seq<u64>,
}

impl View for StatusData {
    type V = StatusDataView;

    open spec fn view(&self) -> StatusDataView {
        StatusDataView {
            network_id: self.network_id,
            total_difficulty: self.total_difficulty@,
            best_hash: self.best_hash@,
            genesis: self.fork_data.genesis@,
            forks: self.fork_data.forks@,
        }
    }
}

/// The `ethereum_forkid` crate's record of a chain's forks, which judges
/// fork identifiers.
#[verifier::external_type_specification]
#[verifier::external_body]
pub struct ExForkFilter(ethereum_forkid::ForkFilter);

/// Why `ethereum_forkid::ForkFilter::validate` turns a fork identifier
/// down; nothing of it is looked at.
#[verifier::external_type_specification]
#[verifier::external_body]
pub struct ExValidationError(ethereum_forkid::ValidationError);

/// The genesis hash that a fork filter holds: the one that
/// `ethereum_forkid::ForkFilter::new` was given.
pub uninterp spec fn fork_filter_genesis(f: ethereum_forkid::ForkFilter) -> Seq<u8>;

/// The fork blocks that a fork filter holds: those that
/// `ethereum_forkid::ForkFilter::new` was given.
pub uninterp spec fn fork_filter_forks(f: ethereum_forkid::ForkFilter) -> Set<u64>;

/// The head block that a fork filter holds: the one that
/// `ethereum_forkid::ForkFilter::new` was given.
pub uninterp spec fn fork_filter_head(f: ethereum_forkid::ForkFilter) -> u64;

/// The fork identifier of a chain with the given genesis hash and fork
/// blocks, seen from the given head block: what
/// `ethereum_forkid::ForkFilter::current` returns.
pub uninterp spec fn current_fork_id(genesis: Seq<u8>, forks: Set<u64>, head: u64) -> (
    Seq<u8>,
    u64,
);

/// Whether a chain with the given genesis hash and fork blocks, seen from
/// the given head block, gets on with a remote fork identifier: whether
/// `ethereum_forkid::ForkFilter::validate` returns `Ok`.
pub uninterp spec fn fork_id_compatible(
    genesis: Seq<u8>,
    forks: Set<u64>,
    head: u64,
    remote_hash: Seq<u8>,
    remote_next: u64,
) -> bool;

/// Calls `ethereum_forkid::ForkFilter::new` with the head block, the genesis
/// hash and the fork blocks.
#[verifier::external_body]
fn fork_filter_new(head: u64, genesis: &H256, forks: &Vec<u64>) -> (f: ethereum_forkid::ForkFilter)
    ensures
        fork_filter_genesis(f) == genesis@,
        fork_filter_forks(f) == forks@.to_set(),
        fork_filter_head(f) == head,
{
    ethereum_forkid::ForkFilter::new(head, ethereum_types::H256(genesis.0), forks.iter().copied())
}

/// Calls `ethereum_forkid::ForkFilter::current`: the fork identifier that
/// the filter's chain has at the filter's head.
#[verifier::external_body]
fn fork_filter_current(f: &ethereum_forkid::ForkFilter) -> (id: ForkId)
    ensures
        (id@.hash, id@.next) == current_fork_id(
            fork_filter_genesis(*f),
            fork_filter_forks(*f),
            fork_filter_head(*f),
        ),
{
    let id = f.current();
    ForkId { hash: id.hash.0, next: id.next }
}

/// Calls `ethereum_forkid::ForkFilter::validate` on a remote fork
/// identifier.
#[verifier::external_body]
fn fork_filter_validate(f: &ethereum_forkid::ForkFilter, remote: &ForkId) -> (r: Result<
    (),
    ethereum_forkid::ValidationError,
>)
    ensures
        r is Ok <==> fork_id_compatible(
            fork_filter_genesis(*f),
            fork_filter_forks(*f),
            fork_filter_head(*f),
            remote@.hash,
            remote@.next,
        ),
{
    f.validate(
        ethereum_forkid::ForkId { hash: ethereum_forkid::ForkHash(remote.hash), next: remote.next },
    )
}

/// The chain status that the node announces, with the filter that judges
/// the fork identifiers of others.
#[derive(Debug)]
pub struct FullStatusData {
    pub status: StatusData,
    pub fork_filter: ethereum_forkid::ForkFilter,
}

/// The mathematical content of a [`FullStatusData`].
pub struct FullStatusView {
    pub status: StatusDataView,
    pub filter_genesis: Seq<u8>,
    pub filter_forks: Set<u64>,
    pub filter_head: u64,
}

impl View for FullStatusData {
    type V = FullStatusView;

    open spec fn view(&self) -> FullStatusView {
        FullStatusView {
            status: self.status@,
            filter_genesis: fork_filter_genesis(self.fork_filter),
            filter_forks: fork_filter_forks(self.fork_filter),
            filter_head: fork_filter_head(self.fork_filter),
        }
    }
}

impl FullStatusView {
    /// The fork identifier that the node announces.
    pub open spec fn fork_id(self) -> ForkIdView {
        let id = current_fork_id(self.filter_genesis, self.filter_forks, self.filter_head);
        ForkIdView { hash: id.0, next: id.1 }
    }

    /// Whether the node gets on with a peer that announces `remote`.
    pub open spec fn accepts(self, remote: ForkIdView) -> bool {
        fork_id_compatible(
            self.filter_genesis,
            self.filter_forks,
            self.filter_head,
            remote.hash,
            remote.next,
        )
    }

    /// The status message that the node sends to a peer with which it
    /// speaks version `protocol_version` of the capability.
    pub open spec fn status_message(self, protocol_version: usize) -> StatusMessageView {
        StatusMessageView {
            protocol_version,
            network_id: self.status.network_id,
            total_difficulty: self.status.total_difficulty,
            best_hash: self.status.best_hash,
            genesis_hash: self.status.genesis,
            fork_id: self.fork_id(),
        }
    }
}

impl FullStatusData {
    /// The full status of a chain whose highest known block is `max_block`.
    pub fn new(status: StatusData, max_block: u64) -> (out: FullStatusData)
        ensures
            out@.status == status@,
            out@.filter_genesis == status@.genesis,
            out@.filter_forks == status@.forks.to_set(),
            out@.filter_head == max_block,
    {
        let fork_filter = fork_filter_new(
            max_block,
            &status.fork_data.genesis,
            &status.fork_data.forks,
        );
        FullStatusData { status, fork_filter }
    }

    /// The fork identifier that the node announces.
    pub fn fork_id(&self) -> (id: ForkId)
        ensures
            id@ == self@.fork_id(),
    {
        fork_filter_current(&self.fork_filter)
    }

    /// Whether the node gets on with a peer that announces `remote`.
    pub fn accepts(&self, remote: &ForkId) -> (ok: bool)
        ensures
            ok == self@.accepts(remote@),
    {
        match fork_filter_validate(&self.fork_filter, remote) {
            Ok(_) => true,
            Err(_) => false,
        }
    }

    /// The status message for a peer with which the node speaks version
    /// `protocol_version` of the capability.
    pub fn status_message(&self, protocol_version: usize) -> (m: StatusMessage)
        ensures
            m@ == self@.status_message(protocol_version),
    {
        StatusMessage {
            protocol_version,
            network_id: self.status.network_id,
            total_difficulty: self.status.total_difficulty,
            best_hash: self.status.best_hash,
            genesis_hash: self.status.fork_data.genesis,
            fork_id: self.fork_id(),
        }
    }
}

/// A message of a peer, as it is handed downstream.
#[derive(Clone, Debug, PartialEq, Eq)]
pub struct InboundMessage {
    pub id: EthMessageId,
    pub data: Vec<u8>,
    pub peer_id: PeerIdHash,
}

/// The mathematical content of an [`InboundMessage`].
pub struct InboundMessageView {
    pub id: EthMessageId,
    pub data: Seq<u8>,
    pub peer_id: Seq<u8>,
}

impl View for InboundMessage {
    type V = InboundMessageView;

    open spec fn view(&self) -> InboundMessageView {
        InboundMessageView { id: self.id, data: self.data@, peer_id: self.peer_id@ }
    }
}

/// The view of a message that may be absent.
pub open spec fn forward_view(m: Option<InboundMessage>) -> Option<InboundMessageView> {
    match m {
        Some(m) => Some(m@),
        None => None,
    }
}

/// The view of a report that may be absent.
pub open spec fn reply_view(r: Option<PeersReply>) -> Option<PeersReplyView> {
    match r {
        Some(r) => Some(r@),
        None => None,
    }
}

} // verus!
