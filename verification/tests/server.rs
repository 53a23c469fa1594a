use ethereum_sentry::eth::{
    capability_name, encode_status, EthMessageId, EthProtocolVersion, ForkId, Forks,
    FullStatusData, InboundMessage, StatusData, StatusMessage,
};
use ethereum_sentry::events::{
    CapabilityId, CapabilityName, DisconnectReason, InboundEvent, Message, OutboundEvent,
    PeerEvent, PeersReply,
};
use ethereum_sentry::primitives::{H256, H512, U256};
use ethereum_sentry::server::{
    CapabilityServerImpl, Handled, PeerEventOutcome, PeerState, SendError, StepError,
};
use ethereum_sentry::util::keccak256;

fn mainnet_genesis() -> H256 {
    let bytes = hex::decode("d4e56740f876aef8c010b86a40d5f56745a118d0906a34e69aec8c0db1cb8fa3").unwrap();
    let mut out = [0u8; 32];
    out.copy_from_slice(&bytes);
    H256(out)
}

fn difficulty(v: u64) -> U256 {
    let mut out = [0u8; 32];
    out[24..].copy_from_slice(&v.to_be_bytes());
    U256(out)
}

fn mainnet_status() -> FullStatusData {
    FullStatusData::new(
        StatusData {
            network_id: 1,
            total_difficulty: difficulty(17_179_869_184),
            best_hash: mainnet_genesis(),
            fork_data: Forks {
                genesis: mainnet_genesis(),
                forks: vec![1_150_000, 1_920_000, 2_463_000, 2_675_000, 4_370_000, 7_280_000],
            },
        },
        7_987_396,
    )
}

fn own_status_message() -> StatusMessage {
    StatusMessage {
        protocol_version: 66,
        network_id: 1,
        total_difficulty: difficulty(17_179_869_184),
        best_hash: mainnet_genesis(),
        genesis_hash: mainnet_genesis(),
        fork_id: ForkId { hash: [0x66, 0x8d, 0xb0, 0xaf], next: 0 },
    }
}

fn remote_status(fork_id: ForkId) -> InboundEvent {
    let m = StatusMessage {
        protocol_version: 66,
        network_id: 1,
        total_difficulty: difficulty(1),
        best_hash: H256([9; 32]),
        genesis_hash: mainnet_genesis(),
        fork_id,
    };
    message(0, encode_status(&m))
}

fn message(id: usize, data: Vec<u8>) -> InboundEvent {
    InboundEvent::Message { capability_name: capability_name(), message: Message { id, data } }
}

fn caps() -> Vec<CapabilityId> {
    vec![CapabilityId { name: capability_name(), version: 66 }]
}

fn key(n: u8) -> H512 {
    H512([n; 64])
}

fn hash(n: u8) -> H256 {
    keccak256(&[n; 64])
}

fn quiet() -> PeerEventOutcome {
    PeerEventOutcome { peer_event: None, forward: None, unsent: None }
}

fn valid_peer(server: &mut CapabilityServerImpl, n: u8) {
    server.try_on_peer_connect(key(n), &caps()).unwrap();
    let out = server
        .try_on_peer_event(key(n), remote_status(ForkId { hash: [0x66, 0x8d, 0xb0, 0xaf], next: 0 }), true)
        .unwrap();
    assert_eq!(
        out.peer_event,
        Some(PeersReply { peer_id: hash(n), event: PeerEvent::Connect })
    );
}

#[test]
fn a_new_server_has_no_peers_and_takes_none() {
    let server = CapabilityServerImpl::new(EthProtocolVersion::Eth66);
    assert_eq!(server.connected_peers(), 0);
    assert_eq!(server.all_peers(), Vec::<H256>::new());
    assert!(server.no_new_peers());
    assert!(!server.has_status());
    assert_eq!(server.protocol_version(), EthProtocolVersion::Eth66);
}

#[test]
fn setting_the_status_lets_new_peers_in() {
    let mut server = CapabilityServerImpl::new(EthProtocolVersion::Eth66);
    server.set_status(mainnet_status());
    assert!(server.has_status());
    assert!(!server.no_new_peers());
}

#[test]
fn happy_path() {
    let mut server = CapabilityServerImpl::new(EthProtocolVersion::Eth66);
    server.set_status(mainnet_status());
    assert_eq!(server.try_on_peer_connect(key(1), &caps()), Ok(()));
    assert!(server.has_pipes(&hash(1)));
    assert_eq!(server.tracked_block(&hash(1)), Some(0));
    assert_eq!(server.connected_peers(), 0);
    assert_eq!(
        server.try_next(key(1)),
        Some(OutboundEvent::Message {
            capability_name: capability_name(),
            message: Message { id: 0, data: encode_status(&own_status_message()) },
        })
    );
    assert_eq!(server.try_next(key(1)), None);
    let out = server
        .try_on_peer_event(key(1), remote_status(ForkId { hash: [0x66, 0x8d, 0xb0, 0xaf], next: 0 }), true)
        .unwrap();
    assert_eq!(
        out,
        PeerEventOutcome {
            peer_event: Some(PeersReply { peer_id: hash(1), event: PeerEvent::Connect }),
            forward: None,
            unsent: None,
        }
    );
    assert_eq!(server.connected_peers(), 1);
    assert!(server.is_valid(&hash(1)));
    assert_eq!(server.all_peers(), vec![hash(1)]);
    assert_eq!(server.try_next(key(1)), None);
}

#[test]
fn fork_mismatch() {
    let mut server = CapabilityServerImpl::new(EthProtocolVersion::Eth66);
    server.set_status(mainnet_status());
    server.try_on_peer_connect(key(1), &caps()).unwrap();
    let out = server
        .try_on_peer_event(key(1), remote_status(ForkId { hash: [0xde, 0xad, 0xbe, 0xef], next: 0 }), true)
        .unwrap();
    assert_eq!(out, quiet());
    assert_eq!(server.connected_peers(), 0);
    assert!(!server.is_valid(&hash(1)));
    assert!(matches!(server.try_next(key(1)), Some(OutboundEvent::Message { .. })));
    assert_eq!(
        server.try_next(key(1)),
        Some(OutboundEvent::Disconnect { reason: DisconnectReason::UselessPeer })
    );
    assert_eq!(server.try_next(key(1)), None);
}

#[test]
fn late_status_data() {
    let mut server = CapabilityServerImpl::new(EthProtocolVersion::Eth66);
    assert_eq!(server.try_on_peer_connect(key(1), &caps()), Ok(()));
    assert_eq!(
        server.try_next(key(1)),
        Some(OutboundEvent::Disconnect { reason: DisconnectReason::DisconnectRequested })
    );
    assert_eq!(server.try_next(key(1)), None);
    assert_eq!(server.connected_peers(), 0);
    let out = server
        .try_on_peer_event(key(1), remote_status(ForkId { hash: [0x66, 0x8d, 0xb0, 0xaf], next: 0 }), true)
        .unwrap();
    assert_eq!(out, quiet());
    let out = server.try_on_peer_event(key(1), message(2, vec![1, 2, 3]), true).unwrap();
    assert_eq!(out, quiet());
    assert_eq!(server.connected_peers(), 0);
}

#[test]
fn a_peer_without_the_capability_connects_while_there_is_no_status() {
    let mut server = CapabilityServerImpl::new(EthProtocolVersion::Eth66);
    assert_eq!(server.try_on_peer_connect(key(1), &vec![]), Ok(()));
    assert_eq!(
        server.try_next(key(1)),
        Some(OutboundEvent::Disconnect { reason: DisconnectReason::DisconnectRequested })
    );
}

#[test]
fn downstream_vanishes() {
    let mut server = CapabilityServerImpl::new(EthProtocolVersion::Eth66);
    server.set_status(mainnet_status());
    valid_peer(&mut server, 1);
    assert!(matches!(server.try_next(key(1)), Some(OutboundEvent::Message { .. })));
    let out = server.try_on_peer_event(key(1), message(1, vec![0xc0]), false).unwrap();
    assert_eq!(out, quiet());
    assert!(!server.has_status());
    assert_eq!(
        server.try_next(key(1)),
        Some(OutboundEvent::Disconnect { reason: DisconnectReason::ClientQuitting })
    );
}

#[test]
fn messages_of_a_valid_peer_are_forwarded() {
    let mut server = CapabilityServerImpl::new(EthProtocolVersion::Eth66);
    server.set_status(mainnet_status());
    valid_peer(&mut server, 1);
    for (index, id) in [
        (1usize, EthMessageId::NewBlockHashes),
        (2, EthMessageId::Transactions),
        (7, EthMessageId::NewBlock),
        (16, EthMessageId::Receipts),
    ] {
        let out = server.try_on_peer_event(key(1), message(index, vec![index as u8; 3]), true).unwrap();
        assert_eq!(
            out,
            PeerEventOutcome {
                peer_event: None,
                forward: Some(InboundMessage { id, data: vec![index as u8; 3], peer_id: hash(1) }),
                unsent: None,
            }
        );
    }
    assert!(server.has_status());
}

#[test]
fn messages_before_the_handshake_are_ignored() {
    let mut server = CapabilityServerImpl::new(EthProtocolVersion::Eth66);
    server.set_status(mainnet_status());
    server.try_on_peer_connect(key(1), &caps()).unwrap();
    let out = server.try_on_peer_event(key(1), message(2, vec![1]), true).unwrap();
    assert_eq!(out, quiet());
    let out = server.try_on_peer_event(key(1), message(2, vec![1]), false).unwrap();
    assert_eq!(out, quiet());
    assert!(server.has_status());
    assert!(matches!(server.try_next(key(1)), Some(OutboundEvent::Message { .. })));
    assert_eq!(server.try_next(key(1)), None);
}

#[test]
fn messages_with_an_unknown_id_are_dropped() {
    let mut server = CapabilityServerImpl::new(EthProtocolVersion::Eth66);
    server.set_status(mainnet_status());
    valid_peer(&mut server, 1);
    for id in [11usize, 12, 17, 1000] {
        assert_eq!(server.try_on_peer_event(key(1), message(id, vec![1]), true).unwrap(), quiet());
        assert_eq!(server.try_on_peer_event(key(1), message(id, vec![1]), false).unwrap(), quiet());
    }
    assert!(server.has_status());
}

#[test]
fn a_malformed_status_is_a_breach_of_the_protocol() {
    let mut server = CapabilityServerImpl::new(EthProtocolVersion::Eth66);
    server.set_status(mainnet_status());
    server.try_on_peer_connect(key(1), &caps()).unwrap();
    assert_eq!(
        server.handle_event(hash(1), message(0, b"nonsense".to_vec()), true),
        Handled { result: Err(DisconnectReason::ProtocolBreach), peer_event: None, forward: None }
    );
    assert_eq!(server.connected_peers(), 0);
}

#[test]
fn a_disconnect_tears_the_peer_down() {
    let mut server = CapabilityServerImpl::new(EthProtocolVersion::Eth66);
    server.set_status(mainnet_status());
    valid_peer(&mut server, 1);
    valid_peer(&mut server, 2);
    assert_eq!(server.connected_peers(), 2);
    let out = server
        .try_on_peer_event(key(1), InboundEvent::Disconnect { reason: DisconnectReason::PingTimeout }, true)
        .unwrap();
    assert_eq!(
        out,
        PeerEventOutcome {
            peer_event: Some(PeersReply { peer_id: hash(1), event: PeerEvent::Disconnect }),
            forward: None,
            unsent: None,
        }
    );
    assert_eq!(server.connected_peers(), 1);
    assert!(!server.has_pipes(&hash(1)));
    assert!(!server.is_valid(&hash(1)));
    assert_eq!(server.tracked_block(&hash(1)), None);
    assert_eq!(server.all_peers(), vec![hash(2)]);
    assert_eq!(
        server.try_next(key(1)),
        Some(OutboundEvent::Disconnect { reason: DisconnectReason::DisconnectRequested })
    );
    assert_eq!(
        server.try_on_peer_event(key(1), message(2, vec![1]), true),
        Err(StepError::NotConnected)
    );
    assert_eq!(server.try_on_peer_connect(key(1), &caps()), Ok(()));
    assert!(server.has_pipes(&hash(1)));
    assert!(!server.is_valid(&hash(1)));
}

#[test]
fn teardown_reports_the_peer_as_gone() {
    let mut server = CapabilityServerImpl::new(EthProtocolVersion::Eth66);
    server.set_status(mainnet_status());
    valid_peer(&mut server, 1);
    assert_eq!(
        server.teardown_peer(hash(1)),
        Some(PeersReply { peer_id: hash(1), event: PeerEvent::Disconnect })
    );
    assert_eq!(server.connected_peers(), 0);
    assert_eq!(server.all_peers(), Vec::<H256>::new());
    assert_eq!(server.teardown_peer(hash(1)), None);
    assert_eq!(server.teardown_peer(hash(2)), None);
}

#[test]
fn a_peer_cannot_connect_twice() {
    let mut server = CapabilityServerImpl::new(EthProtocolVersion::Eth66);
    server.set_status(mainnet_status());
    assert_eq!(server.try_on_peer_connect(key(1), &caps()), Ok(()));
    assert_eq!(server.try_on_peer_connect(key(1), &caps()), Err(StepError::AlreadyConnected));
}

#[test]
fn a_peer_without_the_capability_is_not_taken_in() {
    let mut server = CapabilityServerImpl::new(EthProtocolVersion::Eth66);
    server.set_status(mainnet_status());
    let other = vec![CapabilityId { name: CapabilityName::new(b"les").unwrap(), version: 4 }];
    assert_eq!(server.try_on_peer_connect(key(1), &other), Err(StepError::CapabilityMissing));
    assert!(!server.has_pipes(&hash(1)));
}

#[test]
fn the_status_carries_the_negotiated_version() {
    let mut server = CapabilityServerImpl::new(EthProtocolVersion::Eth66);
    server.set_status(mainnet_status());
    let negotiated = vec![
        CapabilityId { name: CapabilityName::new(b"les").unwrap(), version: 4 },
        CapabilityId { name: capability_name(), version: 65 },
    ];
    server.try_on_peer_connect(key(1), &negotiated).unwrap();
    let mut want = own_status_message();
    want.protocol_version = 65;
    assert_eq!(
        server.try_next(key(1)),
        Some(OutboundEvent::Message {
            capability_name: capability_name(),
            message: Message { id: 0, data: encode_status(&want) },
        })
    );
}

#[test]
fn the_hash_of_a_key_is_its_keccak_digest() {
    let mut server = CapabilityServerImpl::new(EthProtocolVersion::Eth66);
    assert_eq!(server.get_hash(key(5)), keccak256(&[5; 64]));
    assert_eq!(server.get_hash(key(5)), keccak256(&[5; 64]));
    assert_eq!(server.get_hash(key(6)), keccak256(&[6; 64]));
}

#[test]
fn the_queue_of_a_pipe_holds_one_event() {
    let mut server = CapabilityServerImpl::new(EthProtocolVersion::Eth66);
    server.set_status(mainnet_status());
    server.try_on_peer_connect(key(1), &caps()).unwrap();
    let to = server.sender(hash(1)).unwrap();
    assert_eq!(to.peer_id(), hash(1));
    let first = OutboundEvent::Message {
        capability_name: capability_name(),
        message: Message { id: 3, data: vec![1] },
    };
    let second = OutboundEvent::Disconnect { reason: DisconnectReason::TooManyPeers };
    assert_eq!(server.send(&to, first.clone()), Ok(()));
    assert_eq!(server.send(&to, second.clone()), Err(SendError::Full(second.clone())));
    assert!(matches!(server.try_next(key(1)), Some(OutboundEvent::Message { message: Message { id: 0, .. }, .. })));
    assert_eq!(server.send(&to, second.clone()), Err(SendError::Full(second.clone())));
    assert_eq!(server.try_next(key(1)), Some(first));
    assert_eq!(server.send(&to, second.clone()), Ok(()));
    assert_eq!(server.try_next(key(1)), Some(second.clone()));
    assert_eq!(server.try_next(key(1)), None);
    server.teardown_peer(hash(1));
    assert_eq!(server.send(&to, second.clone()), Err(SendError::Closed(second)));
    assert_eq!(server.sender(hash(1)), None);
}

#[test]
fn an_answer_that_finds_the_queue_full_comes_back() {
    let mut server = CapabilityServerImpl::new(EthProtocolVersion::Eth66);
    server.set_status(mainnet_status());
    server.try_on_peer_connect(key(1), &caps()).unwrap();
    let out = server.try_on_peer_event(key(1), message(0, vec![1]), true).unwrap();
    assert_eq!(out, quiet());
    let out = server.try_on_peer_event(key(1), message(0, vec![2]), true).unwrap();
    assert_eq!(
        out,
        PeerEventOutcome {
            peer_event: None,
            forward: None,
            unsent: Some(OutboundEvent::Disconnect { reason: DisconnectReason::ProtocolBreach }),
        }
    );
}

#[test]
fn a_failed_hand_over_drops_the_status() {
    let mut server = CapabilityServerImpl::new(EthProtocolVersion::Eth66);
    server.set_status(mainnet_status());
    valid_peer(&mut server, 1);
    assert_eq!(server.downstream_gone(), DisconnectReason::ClientQuitting);
    assert!(!server.has_status());
    assert_eq!(server.connected_peers(), 1);
    assert!(!server.no_new_peers());
}

#[test]
fn peers_pass_through_their_states() {
    let mut server = CapabilityServerImpl::new(EthProtocolVersion::Eth66);
    server.set_status(mainnet_status());
    assert_eq!(server.peer_state(&hash(1)), PeerState::Disconnected);
    server.try_on_peer_connect(key(1), &caps()).unwrap();
    assert_eq!(server.peer_state(&hash(1)), PeerState::AwaitingStatus);
    server.try_on_peer_event(key(1), message(2, vec![1]), true).unwrap();
    assert_eq!(server.peer_state(&hash(1)), PeerState::AwaitingStatus);
    server
        .try_on_peer_event(key(1), remote_status(ForkId { hash: [0x66, 0x8d, 0xb0, 0xaf], next: 0 }), true)
        .unwrap();
    assert_eq!(server.peer_state(&hash(1)), PeerState::Valid);
    server.try_on_peer_event(key(1), message(2, vec![1]), true).unwrap();
    assert_eq!(server.peer_state(&hash(1)), PeerState::Valid);
    server
        .try_on_peer_event(key(1), InboundEvent::Disconnect { reason: DisconnectReason::ClientQuitting }, true)
        .unwrap();
    assert_eq!(server.peer_state(&hash(1)), PeerState::Disconnected);
}

#[test]
fn a_torn_down_peer_is_passed_over_until_it_connects_again() {
    let mut server = CapabilityServerImpl::new(EthProtocolVersion::Eth66);
    server.set_status(mainnet_status());
    valid_peer(&mut server, 1);
    server
        .try_on_peer_event(key(1), InboundEvent::Disconnect { reason: DisconnectReason::PingTimeout }, true)
        .unwrap();
    let good = ForkId { hash: [0x66, 0x8d, 0xb0, 0xaf], next: 0 };
    let silent = Handled { result: Ok(None), peer_event: None, forward: None };
    assert_eq!(server.handle_event(hash(1), remote_status(good), true), silent);
    assert!(!server.is_valid(&hash(1)));
    assert_eq!(server.connected_peers(), 0);
    assert_eq!(server.handle_event(hash(1), message(0, b"nonsense".to_vec()), true), silent);
    assert_eq!(server.handle_event(hash(1), message(2, vec![1]), true), silent);
    assert_eq!(server.handle_event(hash(1), message(2, vec![1]), false), silent);
    assert!(server.has_status());
    assert_eq!(server.on_peer_event(key(1), remote_status(good), true), quiet());
    assert_eq!(
        server.try_on_peer_event(key(1), remote_status(good), true),
        Err(StepError::NotConnected)
    );
    assert_eq!(server.peer_state(&hash(1)), PeerState::Disconnected);
    assert_eq!(server.all_peers(), Vec::<H256>::new());
    valid_peer(&mut server, 1);
    assert_eq!(server.connected_peers(), 1);
}

#[test]
fn a_second_disconnect_is_not_reported() {
    let mut server = CapabilityServerImpl::new(EthProtocolVersion::Eth66);
    server.set_status(mainnet_status());
    valid_peer(&mut server, 1);
    let bye = InboundEvent::Disconnect { reason: DisconnectReason::TcpSubsystemError };
    assert_eq!(
        server.handle_event(hash(1), bye.clone(), true),
        Handled {
            result: Ok(None),
            peer_event: Some(PeersReply { peer_id: hash(1), event: PeerEvent::Disconnect }),
            forward: None,
        }
    );
    assert_eq!(
        server.handle_event(hash(1), bye.clone(), true),
        Handled { result: Ok(None), peer_event: None, forward: None }
    );
    assert_eq!(server.on_peer_event(key(1), bye.clone(), true), quiet());
    assert_eq!(server.try_on_peer_event(key(1), bye, true), Err(StepError::NotConnected));
}

#[test]
fn events_of_a_peer_that_never_connected_are_passed_over() {
    let mut server = CapabilityServerImpl::new(EthProtocolVersion::Eth66);
    server.set_status(mainnet_status());
    let good = ForkId { hash: [0x66, 0x8d, 0xb0, 0xaf], next: 0 };
    assert_eq!(server.on_peer_event(key(7), remote_status(good), true), quiet());
    assert_eq!(
        server.on_peer_event(key(7), InboundEvent::Disconnect { reason: DisconnectReason::UselessPeer }, true),
        quiet()
    );
    assert_eq!(server.connected_peers(), 0);
    assert!(!server.is_valid(&hash(7)));
    assert!(!server.has_pipes(&hash(7)));
}

#[test]
fn a_peer_whose_pipe_is_gone_is_asked_to_disconnect() {
    let mut server = CapabilityServerImpl::new(EthProtocolVersion::Eth66);
    server.set_status(mainnet_status());
    let bye = Some(OutboundEvent::Disconnect { reason: DisconnectReason::DisconnectRequested });
    assert_eq!(server.try_next(key(1)), bye);
    server.try_on_peer_connect(key(1), &caps()).unwrap();
    assert!(matches!(server.try_next(key(1)), Some(OutboundEvent::Message { .. })));
    assert_eq!(server.try_next(key(1)), None);
    server.teardown_peer(hash(1));
    assert_eq!(server.try_next(key(1)), bye);
    assert_eq!(server.try_next(key(1)), bye);
}
