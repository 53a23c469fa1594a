use ethereum_sentry::eth::{
    decode_fork_id, decode_status, encode_fork_id, encode_status, capability_name, EthMessageId,
    EthProtocolVersion, ForkId, Forks, FullStatusData, StatusData, StatusError, StatusMessage,
};
use ethereum_sentry::primitives::{H256, U256};
use ethereum_sentry::wire::{pad_to_32, strip_leading_zeros, uint_from_bytes, uint_to_bytes};

fn mainnet_genesis() -> H256 {
    let bytes = hex::decode("d4e56740f876aef8c010b86a40d5f56745a118d0906a34e69aec8c0db1cb8fa3").unwrap();
    let mut out = [0u8; 32];
    out.copy_from_slice(&bytes);
    H256(out)
}

fn difficulty(v: u64) -> U256 {
    let mut out = [0u8; 32];
    out[24..].copy_from_slice(&v.to_be_bytes());
    U256(out)
}

fn sample() -> StatusMessage {
    StatusMessage {
        protocol_version: 66,
        network_id: 1,
        total_difficulty: difficulty(17_179_869_184),
        best_hash: H256([0xab; 32]),
        genesis_hash: mainnet_genesis(),
        fork_id: ForkId { hash: [0xfc, 0x64, 0xec, 0x04], next: 1_150_000 },
    }
}

fn reference_encoding(m: &StatusMessage) -> Vec<u8> {
    let mut s = rlp::RlpStream::new_list(6);
    s.append(&m.protocol_version);
    s.append(&m.network_id);
    s.append(&ethereum_types::U256::from_big_endian(&m.total_difficulty.0));
    s.append(&ethereum_types::H256(m.best_hash.0));
    s.append(&ethereum_types::H256(m.genesis_hash.0));
    s.begin_list(2);
    s.append(&&m.fork_id.hash[..]);
    s.append(&m.fork_id.next);
    s.out().to_vec()
}

#[test]
fn status_encoding_is_the_rlp_list_of_its_fields() {
    let m = sample();
    assert_eq!(encode_status(&m), reference_encoding(&m));
}

#[test]
fn status_round_trip() {
    let m = sample();
    assert_eq!(decode_status(&encode_status(&m)), Ok(m));
}

#[test]
fn status_round_trip_with_zero_fields() {
    let m = StatusMessage {
        protocol_version: 0,
        network_id: 0,
        total_difficulty: difficulty(0),
        best_hash: H256([0; 32]),
        genesis_hash: H256([0; 32]),
        fork_id: ForkId { hash: [0; 4], next: 0 },
    };
    let bytes = encode_status(&m);
    assert_eq!(bytes, reference_encoding(&m));
    assert_eq!(decode_status(&bytes), Ok(m));
}

#[test]
fn status_round_trip_with_largest_fields() {
    let m = StatusMessage {
        protocol_version: usize::MAX,
        network_id: u64::MAX,
        total_difficulty: U256([0xff; 32]),
        best_hash: H256([0xff; 32]),
        genesis_hash: H256([0x01; 32]),
        fork_id: ForkId { hash: [0xff; 4], next: u64::MAX },
    };
    let bytes = encode_status(&m);
    assert_eq!(bytes, reference_encoding(&m));
    assert_eq!(decode_status(&bytes), Ok(m));
}

#[test]
fn status_decoding_rejects_what_is_no_list() {
    assert_eq!(decode_status(&[]), Err(StatusError::Framing));
    assert_eq!(decode_status(&[0x80]), Err(StatusError::Framing));
    assert_eq!(decode_status(b"garbage"), Err(StatusError::Framing));
    assert_eq!(decode_status(&[0xc0]), Err(StatusError::Framing));
}

#[test]
fn status_decoding_rejects_a_short_list() {
    let mut s = rlp::RlpStream::new_list(2);
    s.append(&66u64);
    s.append(&1u64);
    assert_eq!(decode_status(&s.out()), Err(StatusError::Framing));
}

#[test]
fn status_decoding_rejects_a_number_with_a_leading_zero() {
    let mut s = rlp::RlpStream::new_list(6);
    s.append(&&[0u8, 66u8][..]);
    s.append(&1u64);
    s.append(&1u64);
    s.append(&&[0u8; 32][..]);
    s.append(&&[0u8; 32][..]);
    s.begin_list(2);
    s.append(&&[0u8; 4][..]);
    s.append(&0u64);
    assert_eq!(decode_status(&s.out()), Err(StatusError::Value));
}

#[test]
fn status_decoding_rejects_a_hash_of_the_wrong_length() {
    let mut s = rlp::RlpStream::new_list(6);
    s.append(&66u64);
    s.append(&1u64);
    s.append(&1u64);
    s.append(&&[0u8; 31][..]);
    s.append(&&[0u8; 32][..]);
    s.begin_list(2);
    s.append(&&[0u8; 4][..]);
    s.append(&0u64);
    assert_eq!(decode_status(&s.out()), Err(StatusError::Value));
}

#[test]
fn status_decoding_rejects_a_fork_id_that_is_no_list() {
    let mut s = rlp::RlpStream::new_list(6);
    s.append(&66u64);
    s.append(&1u64);
    s.append(&1u64);
    s.append(&&[0u8; 32][..]);
    s.append(&&[0u8; 32][..]);
    s.append(&7u64);
    assert_eq!(decode_status(&s.out()), Err(StatusError::Framing));
}

#[test]
fn fork_id_round_trip() {
    let f = ForkId { hash: [0xde, 0xad, 0xbe, 0xef], next: 0 };
    let bytes = encode_fork_id(&f);
    assert_eq!(bytes, vec![0xc6, 0x84, 0xde, 0xad, 0xbe, 0xef, 0x80]);
    assert_eq!(decode_fork_id(&bytes), Ok(f));
}

#[test]
fn fork_id_decoding_rejects_a_checksum_of_the_wrong_length() {
    let mut s = rlp::RlpStream::new_list(2);
    s.append(&&[1u8, 2, 3][..]);
    s.append(&0u64);
    assert_eq!(decode_fork_id(&s.out()), Err(StatusError::Value));
}

#[test]
fn numbers_have_the_shortest_big_endian_form() {
    assert_eq!(uint_to_bytes(0), Vec::<u8>::new());
    assert_eq!(uint_to_bytes(1), vec![1]);
    assert_eq!(uint_to_bytes(255), vec![255]);
    assert_eq!(uint_to_bytes(256), vec![1, 0]);
    assert_eq!(uint_to_bytes(1_150_000), vec![0x11, 0x8c, 0x30]);
    assert_eq!(uint_to_bytes(u64::MAX), vec![0xff; 8]);
    assert_eq!(uint_from_bytes(&[]), Some(0));
    assert_eq!(uint_from_bytes(&[0x11, 0x8c, 0x30]), Some(1_150_000));
    assert_eq!(uint_from_bytes(&[0xff; 8]), Some(u64::MAX));
    assert_eq!(uint_from_bytes(&[0]), None);
    assert_eq!(uint_from_bytes(&[0, 1]), None);
    assert_eq!(uint_from_bytes(&[1; 9]), None);
}

#[test]
fn numbers_are_encoded_as_the_rlp_crate_encodes_them() {
    for v in [0u64, 1, 127, 128, 255, 256, 65_535, 65_536, 1 << 32, u64::MAX] {
        assert_eq!(rlp::encode(&uint_to_bytes(v)).to_vec(), rlp::encode(&v).to_vec());
        let payload: Vec<u8> = rlp::decode(&rlp::encode(&v)).unwrap();
        assert_eq!(uint_from_bytes(&payload), Some(v));
    }
}

#[test]
fn leading_zeros_are_stripped_and_padded_back() {
    assert_eq!(strip_leading_zeros(&[0, 0, 1, 0]), vec![1, 0]);
    assert_eq!(strip_leading_zeros(&[0, 0]), Vec::<u8>::new());
    assert_eq!(strip_leading_zeros(&[]), Vec::<u8>::new());
    assert_eq!(strip_leading_zeros(&[5]), vec![5]);
    let mut want = [0u8; 32];
    want[30] = 1;
    assert_eq!(pad_to_32(&[1, 0]), Some(want));
    assert_eq!(pad_to_32(&[]), Some([0u8; 32]));
    assert_eq!(pad_to_32(&[0, 1]), None);
    assert_eq!(pad_to_32(&[1; 33]), None);
    assert_eq!(pad_to_32(&[1; 32]), Some([1u8; 32]));
}

#[test]
fn message_ids_go_to_their_index_and_back() {
    let all = [
        (EthMessageId::Status, 0),
        (EthMessageId::NewBlockHashes, 1),
        (EthMessageId::Transactions, 2),
        (EthMessageId::GetBlockHeaders, 3),
        (EthMessageId::BlockHeaders, 4),
        (EthMessageId::GetBlockBodies, 5),
        (EthMessageId::BlockBodies, 6),
        (EthMessageId::NewBlock, 7),
        (EthMessageId::NewPooledTransactionHashes, 8),
        (EthMessageId::GetPooledTransactions, 9),
        (EthMessageId::PooledTransactions, 10),
        (EthMessageId::GetNodeData, 13),
        (EthMessageId::NodeData, 14),
        (EthMessageId::GetReceipts, 15),
        (EthMessageId::Receipts, 16),
    ];
    for (id, index) in all {
        assert_eq!(id.to_usize(), index);
        assert_eq!(EthMessageId::from_usize(index), Some(id));
    }
    assert_eq!(EthMessageId::from_usize(11), None);
    assert_eq!(EthMessageId::from_usize(12), None);
    assert_eq!(EthMessageId::from_usize(17), None);
    assert_eq!(EthMessageId::from_usize(usize::MAX), None);
}

#[test]
fn protocol_versions_have_their_numbers() {
    assert_eq!(EthProtocolVersion::Eth65.to_usize(), 65);
    assert_eq!(EthProtocolVersion::Eth66.to_usize(), 66);
}

#[test]
fn the_capability_is_called_eth() {
    assert_eq!(capability_name().to_vec(), b"eth".to_vec());
}

fn mainnet_status(head: u64) -> FullStatusData {
    FullStatusData::new(
        StatusData {
            network_id: 1,
            total_difficulty: difficulty(17_179_869_184),
            best_hash: mainnet_genesis(),
            fork_data: Forks {
                genesis: mainnet_genesis(),
                forks: vec![1_150_000, 1_920_000, 2_463_000, 2_675_000, 4_370_000, 7_280_000],
            },
        },
        head,
    )
}

#[test]
fn fork_id_of_mainnet_at_genesis() {
    let full = mainnet_status(0);
    assert_eq!(full.fork_id(), ForkId { hash: [0xfc, 0x64, 0xec, 0x04], next: 1_150_000 });
}

#[test]
fn fork_id_of_mainnet_after_petersburg() {
    let full = mainnet_status(7_987_396);
    assert_eq!(full.fork_id(), ForkId { hash: [0x66, 0x8d, 0xb0, 0xaf], next: 0 });
}

#[test]
fn fork_filter_judges_remote_fork_ids() {
    let full = mainnet_status(7_987_396);
    assert!(full.accepts(&ForkId { hash: [0x66, 0x8d, 0xb0, 0xaf], next: 0 }));
    assert!(full.accepts(&ForkId { hash: [0x66, 0x8d, 0xb0, 0xaf], next: u64::MAX }));
    assert!(!full.accepts(&ForkId { hash: [0xde, 0xad, 0xbe, 0xef], next: 0 }));
    assert!(!full.accepts(&ForkId { hash: [0xa0, 0x0b, 0xc3, 0x24], next: 0 }));
    assert!(full.accepts(&ForkId { hash: [0xa0, 0x0b, 0xc3, 0x24], next: 7_280_000 }));
}

#[test]
fn own_status_message_carries_the_chain_data() {
    let full = mainnet_status(0);
    let m = full.status_message(66);
    assert_eq!(m.protocol_version, 66);
    assert_eq!(m.network_id, 1);
    assert_eq!(m.total_difficulty, difficulty(17_179_869_184));
    assert_eq!(m.best_hash, mainnet_genesis());
    assert_eq!(m.genesis_hash, mainnet_genesis());
    assert_eq!(m.fork_id, ForkId { hash: [0xfc, 0x64, 0xec, 0x04], next: 1_150_000 });
}

fn shortest(len: usize) -> Vec<u8> {
    uint_to_bytes(len as u64)
}

fn string_form(payload: &[u8]) -> Vec<u8> {
    let mut out = Vec::new();
    if payload.len() == 1 && payload[0] < 0x80 {
        out.push(payload[0]);
    } else if payload.len() <= 55 {
        out.push(0x80 + payload.len() as u8);
        out.extend_from_slice(payload);
    } else {
        let len = shortest(payload.len());
        out.push(0xb7 + len.len() as u8);
        out.extend_from_slice(&len);
        out.extend_from_slice(payload);
    }
    out
}

fn list_form(items: &[Vec<u8>]) -> Vec<u8> {
    let body: Vec<u8> = items.concat();
    let mut out = Vec::new();
    if body.len() <= 55 {
        out.push(0xc0 + body.len() as u8);
    } else {
        let len = shortest(body.len());
        out.push(0xf7 + len.len() as u8);
        out.extend_from_slice(&len);
    }
    out.extend_from_slice(&body);
    out
}

#[test]
fn strings_are_framed_by_their_length() {
    for len in [0usize, 1, 2, 54, 55, 56, 57, 255, 256, 65_535, 65_536, 70_000] {
        for fill in [0u8, 0x7f, 0x80, 0xff] {
            let payload = vec![fill; len];
            assert_eq!(rlp::encode(&payload).to_vec(), string_form(&payload), "{} {}", len, fill);
        }
    }
}

#[test]
fn lists_are_framed_by_the_length_of_their_items() {
    for (count, size) in [(1usize, 0usize), (1, 1), (2, 26), (2, 27), (3, 100), (4, 20_000), (300, 300)] {
        let items: Vec<Vec<u8>> = (0..count).map(|i| string_form(&vec![i as u8; size])).collect();
        let mut stream = rlp::RlpStream::new_list(count);
        for item in &items {
            stream.append_raw(item, 1);
        }
        assert_eq!(stream.out().to_vec(), list_form(&items), "{} {}", count, size);
    }
}

#[test]
fn a_status_message_is_the_list_of_its_framed_fields() {
    let m = sample();
    let fork = list_form(&[string_form(&m.fork_id.hash), string_form(&uint_to_bytes(m.fork_id.next))]);
    assert_eq!(encode_fork_id(&m.fork_id), fork);
    let items = vec![
        string_form(&uint_to_bytes(m.protocol_version as u64)),
        string_form(&uint_to_bytes(m.network_id)),
        string_form(&strip_leading_zeros(&m.total_difficulty.0)),
        string_form(&m.best_hash.0),
        string_form(&m.genesis_hash.0),
        fork,
    ];
    let bytes = encode_status(&m);
    assert_eq!(bytes, list_form(&items));
    assert_eq!(bytes[0], 0xf8);
    assert_eq!(bytes[1] as usize, bytes.len() - 2);
    assert_eq!(&bytes[2..4], &[66, 1]);
}
