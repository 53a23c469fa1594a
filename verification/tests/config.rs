use ethereum_sentry::config::{
    capabilities, client_version, data_channel_capacity, discovery_sources, listen_address,
    parse_node_key, parse_node_records, peers_channel_capacity, same_addr, DiscV5Error,
    DiscoverySource, NodeKeyError, OptsDiscStatic, OptsDiscV4, OptsDiscV5, BUFFERING_FACTOR,
    DISCV5_LOOKUP_SIZE, ETH_QUEUE_DEPTH,
};
use ethereum_sentry::eth::{capability_name, EthProtocolVersion};
use ethereum_sentry::node_record::{NodeRecord, ParseError, SocketAddr};
use ethereum_sentry::primitives::H512;

const BOOTNODE_A: &str = "enode://d860a01f9722d78051619d1e2351aba3f43f943f6f00718d1b9baa4101932a1f5011f16bb2b1bb35db20d6fe28fa0bf09636d26a87d31de9ec6203eeedb1f666@18.138.108.67:30303";
const BOOTNODE_B: &str = "enode://22a8232c3abc76a16ae9d6c3b164f98775fe226f0917b0ca871128a74a8e9630b458460865bab457221f1d448dd9791d24c4e5d88786180ac185df813a68d4de@3.209.45.79:30303";

fn record(ip: [u8; 4], port: u16, id: u8) -> NodeRecord {
    NodeRecord { addr: SocketAddr { ip, port }, id: H512([id; 64]) }
}

#[test]
fn channel_capacities() {
    assert_eq!(BUFFERING_FACTOR, 5);
    assert_eq!(data_channel_capacity(100), Some(500));
    assert_eq!(data_channel_capacity(1), Some(5));
    assert_eq!(data_channel_capacity(0), None);
    assert_eq!(data_channel_capacity(usize::MAX), None);
    assert_eq!(data_channel_capacity(usize::MAX / 5), Some(usize::MAX / 5 * 5));
    assert_eq!(data_channel_capacity(usize::MAX / 5 + 1), None);
    assert_eq!(peers_channel_capacity(100), Some(100));
    assert_eq!(peers_channel_capacity(0), None);
}

#[test]
fn the_node_offers_the_eth_capability() {
    let caps = capabilities(EthProtocolVersion::Eth66);
    assert_eq!(caps.len(), 1);
    assert_eq!(caps[0].0.name, capability_name());
    assert_eq!(caps[0].0.version, 66);
    assert_eq!(caps[0].1, 17);
    assert_eq!(ETH_QUEUE_DEPTH, 17);
    assert_eq!(capabilities(EthProtocolVersion::Eth65)[0].0.version, 65);
}

#[test]
fn the_client_version_names_the_program() {
    assert_eq!(client_version("0.1.0"), "sentry/v0.1.0");
    assert_eq!(client_version(""), "sentry/v");
}

#[test]
fn the_node_listens_on_every_interface() {
    assert_eq!(listen_address(30303), SocketAddr { ip: [0, 0, 0, 0], port: 30303 });
    assert_eq!(listen_address(30303).to_text(), b"0.0.0.0:30303".to_vec());
}

#[test]
fn a_node_key_is_32_bytes_in_hexadecimal() {
    let text = "0101010101010101010101010101010101010101010101010101010101010101";
    let key = parse_node_key(text.as_bytes()).unwrap();
    assert_eq!(key.secret_bytes(), [1u8; 32]);
    assert!(secp256k1::SecretKey::from_slice(&key.secret_bytes()).is_ok());
}

#[test]
fn a_node_key_that_is_no_hexadecimal_text_is_refused() {
    assert_eq!(parse_node_key(b"xyz"), Err(NodeKeyError::MalformedHex));
    assert_eq!(parse_node_key(b"012"), Err(NodeKeyError::MalformedHex));
}

#[test]
fn a_node_key_that_is_no_secret_key_is_refused() {
    assert_eq!(parse_node_key(b""), Err(NodeKeyError::InvalidSecretKey));
    assert_eq!(parse_node_key(b"01"), Err(NodeKeyError::InvalidSecretKey));
    let zero = "00".repeat(32);
    assert_eq!(parse_node_key(zero.as_bytes()), Err(NodeKeyError::InvalidSecretKey));
    let over = "ff".repeat(32);
    assert_eq!(parse_node_key(over.as_bytes()), Err(NodeKeyError::InvalidSecretKey));
    let long = "01".repeat(33);
    assert_eq!(parse_node_key(long.as_bytes()), Err(NodeKeyError::InvalidSecretKey));
}

#[test]
fn the_sources_that_run() {
    let dns = DiscoverySource::DnsDisc;
    let v4 = DiscoverySource::DiscV4;
    let v5 = DiscoverySource::DiscV5;
    let fixed = DiscoverySource::StaticPeers;
    assert_eq!(discovery_sources(false, false, false), vec![dns, v4]);
    assert_eq!(discovery_sources(false, true, false), vec![dns, v4, v5]);
    assert_eq!(discovery_sources(false, true, true), vec![dns, v4, v5, fixed]);
    assert_eq!(discovery_sources(false, false, true), vec![dns, v4, fixed]);
    assert_eq!(discovery_sources(true, false, true), vec![fixed]);
    assert_eq!(discovery_sources(true, true, true), vec![fixed]);
    assert_eq!(discovery_sources(true, true, false), vec![]);
    assert_eq!(discovery_sources(true, false, false), vec![]);
}

#[test]
fn node_records_are_parsed_in_order() {
    let texts = vec![BOOTNODE_A.as_bytes().to_vec(), BOOTNODE_B.as_bytes().to_vec()];
    let records = parse_node_records(&texts).unwrap();
    assert_eq!(records.len(), 2);
    assert_eq!(records[0], NodeRecord::from_str(BOOTNODE_A).unwrap());
    assert_eq!(records[1], NodeRecord::from_str(BOOTNODE_B).unwrap());
    assert_eq!(records[1].addr, SocketAddr { ip: [3, 209, 45, 79], port: 30303 });
    assert_eq!(parse_node_records(&vec![]), Ok(vec![]));
}

#[test]
fn the_first_text_that_is_no_record_decides_the_error() {
    let texts = vec![
        BOOTNODE_A.as_bytes().to_vec(),
        b"enode://@1.2.3.4:5".to_vec(),
        b"nothing".to_vec(),
    ];
    assert_eq!(parse_node_records(&texts), Err(ParseError::WrongKeyLength));
}

#[test]
fn discv4_uses_the_configured_boot_nodes() {
    let opts = OptsDiscV4 {
        discv4_port: 30304,
        discv4_bootnodes: vec![record([1, 2, 3, 4], 5, 6)],
        discv4_cache: 20,
        discv4_concurrent_lookups: 3,
        listen_port: 30303,
    };
    let task = opts.make_task(&vec![b"not even an enode".to_vec()]).unwrap();
    assert_eq!(task.addr, SocketAddr { ip: [0, 0, 0, 0], port: 30304 });
    assert_eq!(task.bootstrap_nodes, vec![record([1, 2, 3, 4], 5, 6)]);
    assert_eq!(task.cache, 20);
    assert_eq!(task.concurrent_lookups, 3);
    assert_eq!(task.listen_port, 30303);
}

#[test]
fn discv4_falls_back_on_the_default_boot_nodes() {
    let opts = OptsDiscV4 {
        discv4_port: 30304,
        discv4_bootnodes: vec![],
        discv4_cache: 20,
        discv4_concurrent_lookups: 3,
        listen_port: 30303,
    };
    let defaults = vec![BOOTNODE_A.as_bytes().to_vec(), BOOTNODE_B.as_bytes().to_vec()];
    let task = opts.clone().make_task(&defaults).unwrap();
    assert_eq!(
        task.bootstrap_nodes,
        vec![NodeRecord::from_str(BOOTNODE_A).unwrap(), NodeRecord::from_str(BOOTNODE_B).unwrap()]
    );
    assert_eq!(opts.make_task(&vec![b"enode://".to_vec()]), Err(ParseError::MissingAddress));
}

#[test]
fn discv5_wants_an_address_and_a_record() {
    let none: OptsDiscV5<u32> = OptsDiscV5 { discv5_enr: Some(1), discv5_addr: None, discv5_bootnodes: vec![] };
    assert!(matches!(none.make_task(), Err(DiscV5Error::NoAddr)));
    let neither: OptsDiscV5<u32> = OptsDiscV5 { discv5_enr: None, discv5_addr: None, discv5_bootnodes: vec![] };
    assert!(matches!(neither.make_task(), Err(DiscV5Error::NoAddr)));
    let no_enr: OptsDiscV5<u32> = OptsDiscV5 {
        discv5_enr: None,
        discv5_addr: Some(b"0.0.0.0:9000".to_vec()),
        discv5_bootnodes: vec![],
    };
    assert!(matches!(no_enr.make_task(), Err(DiscV5Error::NoEnr)));
    let both: OptsDiscV5<u32> = OptsDiscV5 {
        discv5_enr: Some(7),
        discv5_addr: Some(b"0.0.0.0:9000".to_vec()),
        discv5_bootnodes: vec![8, 9],
    };
    let task = both.make_task().ok().unwrap();
    assert_eq!(task.enr, 7);
    assert_eq!(task.addr, b"0.0.0.0:9000".to_vec());
    assert_eq!(task.bootnodes, vec![8, 9]);
    assert_eq!(task.lookup_size, 20);
    assert_eq!(DISCV5_LOOKUP_SIZE, 20);
}

#[test]
fn static_peers_are_kept_once_per_address() {
    let opts = OptsDiscStatic {
        static_peers: vec![
            record([1, 1, 1, 1], 1, 1),
            record([2, 2, 2, 2], 2, 2),
            record([1, 1, 1, 1], 1, 3),
            record([1, 1, 1, 1], 2, 4),
        ],
        static_peers_interval: 5000,
    };
    let task = opts.make_task();
    assert_eq!(task.interval_millis, 5000);
    assert_eq!(
        task.nodes,
        vec![record([1, 1, 1, 1], 1, 3), record([2, 2, 2, 2], 2, 2), record([1, 1, 1, 1], 2, 4)]
    );
    let empty = OptsDiscStatic { static_peers: vec![], static_peers_interval: 1 }.make_task();
    assert_eq!(empty.nodes, vec![]);
}

#[test]
fn addresses_compare_by_ip_and_port() {
    let a = SocketAddr { ip: [1, 2, 3, 4], port: 5 };
    assert!(same_addr(&a, &a));
    assert!(!same_addr(&a, &SocketAddr { ip: [1, 2, 3, 4], port: 6 }));
    assert!(!same_addr(&a, &SocketAddr { ip: [1, 2, 3, 5], port: 5 }));
}
