use ethereum_sentry::events::{CapabilityId, CapabilityName, DisconnectReason};
use ethereum_sentry::node_record::{NodeRecord, SocketAddr};
use ethereum_sentry::primitives::H512;
use ethereum_sentry::swarm::{
    check_frame_size, shared_capabilities, Cidr, Refusal, Swarm, FRAME_SIZE,
};

fn record(n: u8) -> NodeRecord {
    NodeRecord { addr: SocketAddr { ip: [10, 0, 0, n], port: 30303 }, id: H512([n; 64]) }
}

fn own() -> H512 {
    H512([0xee; 64])
}

#[test]
fn a_frame_at_the_limit_is_accepted() {
    assert_eq!(FRAME_SIZE, 2_097_120);
    assert_eq!(check_frame_size(2_097_120), Ok(()));
    assert_eq!(check_frame_size(0), Ok(()));
}

#[test]
fn a_frame_over_the_limit_is_a_breach() {
    assert_eq!(check_frame_size(2_097_121), Err(DisconnectReason::ProtocolBreach));
    assert_eq!(check_frame_size(usize::MAX), Err(DisconnectReason::ProtocolBreach));
}

#[test]
fn candidates_are_dialed_up_to_the_limit() {
    let mut swarm = Swarm::new(2, own(), None);
    assert_eq!(swarm.add_peer(record(1), false), Ok(()));
    assert_eq!(swarm.add_peer(record(2), false), Ok(()));
    assert_eq!(swarm.add_peer(record(3), false), Err(Refusal::TooManyPeers));
    assert_eq!(swarm.dialing(), 2);
    assert_eq!(swarm.connected_peers(), 0);
    assert!(swarm.dial_finished(H512([1; 64]), true));
    assert_eq!(swarm.dialing(), 1);
    assert_eq!(swarm.connected_peers(), 1);
    assert_eq!(swarm.add_peer(record(3), false), Err(Refusal::TooManyPeers));
    assert!(swarm.dial_finished(H512([2; 64]), false));
    assert_eq!(swarm.dialing(), 0);
    assert_eq!(swarm.add_peer(record(3), false), Ok(()));
    assert_eq!(swarm.connected_peers() + swarm.dialing(), 2);
}

#[test]
fn the_limit_holds_for_inbound_peers_too() {
    let mut swarm = Swarm::new(1, own(), None);
    assert_eq!(swarm.accept(record(1), false), Ok(()));
    assert_eq!(swarm.accept(record(2), false), Err(Refusal::TooManyPeers));
    assert_eq!(swarm.add_peer(record(2), false), Err(Refusal::TooManyPeers));
    swarm.disconnected(H512([1; 64]));
    assert_eq!(swarm.connected_peers(), 0);
    assert_eq!(swarm.accept(record(2), false), Ok(()));
}

#[test]
fn a_swarm_without_room_takes_nobody() {
    let mut swarm = Swarm::new(0, own(), None);
    assert_eq!(swarm.add_peer(record(1), false), Err(Refusal::TooManyPeers));
    assert_eq!(swarm.accept(record(1), false), Err(Refusal::TooManyPeers));
}

#[test]
fn no_new_peers_stops_dials_and_accepts() {
    let mut swarm = Swarm::new(10, own(), None);
    assert_eq!(swarm.add_peer(record(1), true), Err(Refusal::NoNewPeers));
    assert_eq!(swarm.accept(record(1), true), Err(Refusal::NoNewPeers));
    assert_eq!(swarm.dialing(), 0);
    assert_eq!(swarm.connected_peers(), 0);
    assert_eq!(swarm.add_peer(record(1), false), Ok(()));
}

#[test]
fn self_dial_prevention() {
    let mut swarm = Swarm::new(10, own(), None);
    let me = NodeRecord { addr: SocketAddr { ip: [10, 0, 0, 1], port: 30303 }, id: own() };
    assert_eq!(swarm.add_peer(me, false), Err(Refusal::ConnectedToSelf));
    assert_eq!(swarm.accept(me, false), Err(Refusal::ConnectedToSelf));
    assert_eq!(swarm.dialing(), 0);
    assert_eq!(swarm.connected_peers(), 0);
    assert_eq!(
        Refusal::ConnectedToSelf.disconnect_reason(),
        Some(DisconnectReason::ConnectedToSelf)
    );
}

#[test]
fn a_peer_is_dialed_and_connected_once() {
    let mut swarm = Swarm::new(10, own(), None);
    assert_eq!(swarm.add_peer(record(1), false), Ok(()));
    assert_eq!(swarm.add_peer(record(1), false), Err(Refusal::AlreadyDialing));
    assert_eq!(swarm.accept(record(1), false), Err(Refusal::AlreadyDialing));
    swarm.dial_finished(H512([1; 64]), true);
    assert_eq!(swarm.add_peer(record(1), false), Err(Refusal::AlreadyConnected));
    assert_eq!(swarm.accept(record(1), false), Err(Refusal::AlreadyConnected));
    assert_eq!(swarm.connected_peers(), 1);
    assert_eq!(swarm.dialing(), 0);
    assert!(!swarm.dial_finished(H512([9; 64]), true));
    assert_eq!(swarm.connected_peers(), 1);
}

#[test]
fn the_address_filter_comes_before_the_other_rules() {
    let cidr = Cidr::new([10, 0, 0, 0], 30).unwrap();
    let mut swarm = Swarm::new(10, own(), Some(cidr));
    assert_eq!(swarm.add_peer(record(3), false), Ok(()));
    assert_eq!(swarm.add_peer(record(4), false), Err(Refusal::Filtered));
    let me_outside = NodeRecord { addr: SocketAddr { ip: [11, 0, 0, 1], port: 1 }, id: own() };
    assert_eq!(swarm.add_peer(me_outside, false), Err(Refusal::Filtered));
    assert_eq!(swarm.add_peer(me_outside, true), Err(Refusal::NoNewPeers));
}

#[test]
fn ranges_of_addresses() {
    assert_eq!(Cidr::new([0, 0, 0, 0], 33), None);
    let all = Cidr::new([1, 2, 3, 4], 0).unwrap();
    assert!(all.contains(&[0, 0, 0, 0]));
    assert!(all.contains(&[255, 255, 255, 255]));
    let one = Cidr::new([1, 2, 3, 4], 32).unwrap();
    assert!(one.contains(&[1, 2, 3, 4]));
    assert!(!one.contains(&[1, 2, 3, 5]));
    let net = Cidr::new([192, 168, 0, 0], 16).unwrap();
    assert!(net.contains(&[192, 168, 255, 1]));
    assert!(!net.contains(&[192, 169, 0, 1]));
    let odd = Cidr::new([10, 128, 0, 0], 9).unwrap();
    assert!(odd.contains(&[10, 255, 1, 1]));
    assert!(!odd.contains(&[10, 127, 1, 1]));
}

#[test]
fn refusals_that_the_remote_side_hears_of() {
    assert_eq!(Refusal::TooManyPeers.disconnect_reason(), Some(DisconnectReason::TooManyPeers));
    assert_eq!(Refusal::AlreadyConnected.disconnect_reason(), Some(DisconnectReason::AlreadyConnected));
    assert_eq!(Refusal::NoNewPeers.disconnect_reason(), None);
    assert_eq!(Refusal::Filtered.disconnect_reason(), None);
    assert_eq!(Refusal::AlreadyDialing.disconnect_reason(), None);
}

fn cap(name: &[u8], version: usize) -> CapabilityId {
    CapabilityId { name: CapabilityName::new(name).unwrap(), version }
}

#[test]
fn a_session_has_the_capabilities_of_both_sides() {
    let ours = vec![cap(b"eth", 65), cap(b"eth", 66), cap(b"les", 4)];
    let theirs = vec![cap(b"snap", 1), cap(b"eth", 66), cap(b"eth", 67), cap(b"les", 3)];
    assert_eq!(shared_capabilities(&ours, &theirs), vec![cap(b"eth", 66)]);
    assert_eq!(shared_capabilities(&theirs, &ours), vec![cap(b"eth", 66)]);
    assert_eq!(shared_capabilities(&ours, &ours), ours);
    assert_eq!(shared_capabilities(&ours, &vec![]), vec![]);
    assert_eq!(shared_capabilities(&vec![], &theirs), vec![]);
    let both = vec![cap(b"les", 4), cap(b"eth", 65)];
    assert_eq!(shared_capabilities(&ours, &both), vec![cap(b"eth", 65), cap(b"les", 4)]);
}

#[test]
fn ranges_are_read_from_text() {
    let net = Cidr::parse(b"192.168.0.0/16").unwrap();
    assert_eq!(net, Cidr::new([192, 168, 0, 0], 16).unwrap());
    assert!(net.contains(&[192, 168, 3, 4]));
    assert_eq!(net.to_text(), b"192.168.0.0/16".to_vec());
    assert_eq!(Cidr::parse(b"0.0.0.0/0"), Cidr::new([0, 0, 0, 0], 0));
    assert_eq!(Cidr::parse(b"255.255.255.255/32"), Cidr::new([255; 4], 32));
    for bad in [
        &b""[..],
        b"192.168.0.0",
        b"192.168.0.0/",
        b"192.168.0.0/33",
        b"192.168.0.0/016",
        b"192.168.0/16",
        b"192.168.0.0.0/16",
        b"192.168.0.256/16",
        b"/16",
        b"192.168.0.0/16/1",
        b"192.168.0.0:16",
        b" 192.168.0.0/16",
    ] {
        assert_eq!(Cidr::parse(bad), None);
    }
}
