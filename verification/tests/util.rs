use ethereum_sentry::primitives::{H256, H512};
use ethereum_sentry::types::sentry_peer_id_from_p2p_peer_id;
use ethereum_sentry::util::{from_hex, hex_debug, hmac_sha256, keccak256, sha256, to_hex};

fn h256(text: &str) -> H256 {
    let bytes = hex::decode(text).unwrap();
    let mut out = [0u8; 32];
    out.copy_from_slice(&bytes);
    H256(out)
}

#[test]
fn keccak256_of_nothing() {
    assert_eq!(
        keccak256(&[]),
        h256("c5d2460186f7233c927e7db2dcc703c0e500b653ca82273b7bfad8045d85a470")
    );
}

#[test]
fn keccak256_of_abc() {
    assert_eq!(
        keccak256(b"abc"),
        h256("4e03657aea45a94fc7d47ba826c8d667c0d1e6e33a64a036ec44f58fa12d6c45")
    );
}

#[test]
fn sha256_of_nothing() {
    assert_eq!(
        sha256(&[]),
        h256("e3b0c44298fc1c149afbf4c8996fb92427ae41e4649b934ca495991b7852b855")
    );
}

#[test]
fn sha256_of_abc() {
    assert_eq!(
        sha256(b"abc"),
        h256("ba7816bf8f01cfea414140de5dae2223b00361a396177a9cb410ff61f20015ad")
    );
}

#[test]
fn hmac_sha256_of_a_known_message() {
    let key = [0x0bu8; 20];
    assert_eq!(
        hmac_sha256(&key, &[], b"Hi There"),
        h256("b0344c61d8db38535ca8afceaf0bf12b881dc200c9833da726e9376c2e32cff7")
    );
}

#[test]
fn hmac_sha256_runs_over_the_pieces_in_order() {
    let key = b"Jefe";
    let whole = hmac_sha256(key, &[], b"what do ya want for nothing?");
    assert_eq!(
        whole,
        h256("5bdcc146bf60754e6a042426089575c75a003f089d2739839dec58b964ec3843")
    );
    let pieces: [&[u8]; 3] = [b"what do ", b"ya want ", b"for "];
    assert_eq!(hmac_sha256(key, &pieces, b"nothing?"), whole);
    let other: [&[u8]; 2] = [b"ya want ", b"what do "];
    assert_ne!(hmac_sha256(key, &other, b"for nothing?"), whole);
    let empty: [&[u8]; 2] = [b"", b"what do ya want for nothing?"];
    assert_eq!(hmac_sha256(key, &empty, b""), whole);
}

#[test]
fn hex_debug_writes_two_lower_case_digits_per_byte() {
    assert_eq!(hex_debug(&[]), "");
    assert_eq!(hex_debug(&[0x00, 0x0f, 0xa0, 0xff]), "000fa0ff");
    assert_eq!(hex_debug(b"foobar"), "666f6f626172");
}

#[test]
fn to_hex_and_from_hex() {
    assert_eq!(to_hex(&[0xde, 0xad, 0xbe, 0xef]), b"deadbeef".to_vec());
    assert_eq!(from_hex(b"deadbeef"), Some(vec![0xde, 0xad, 0xbe, 0xef]));
    assert_eq!(from_hex(b"DEADBEEF"), Some(vec![0xde, 0xad, 0xbe, 0xef]));
    assert_eq!(from_hex(b"DeAdBeEf"), Some(vec![0xde, 0xad, 0xbe, 0xef]));
    assert_eq!(from_hex(b""), Some(vec![]));
    assert_eq!(from_hex(b"abc"), None);
    assert_eq!(from_hex(b"zz"), None);
    assert_eq!(from_hex(b"0x12"), None);
    let all: Vec<u8> = (0..=255u8).collect();
    assert_eq!(from_hex(&to_hex(&all)), Some(all));
}

#[test]
fn sentry_peer_id_is_the_hash_of_the_key() {
    let id = H512([0x11; 64]);
    assert_eq!(sentry_peer_id_from_p2p_peer_id(id), keccak256(&[0x11; 64]));
    assert_ne!(sentry_peer_id_from_p2p_peer_id(id), H256([0x11; 32]));
}

#[test]
fn hashes_compare_byte_by_byte() {
    let a = H256([1; 32]);
    let mut other = [1u8; 32];
    other[31] = 2;
    let b = H256(other);
    assert!(a.same(&a));
    assert!(!a.same(&b));
    assert_eq!(H256::zero(), H256([0; 32]));
    let x = H512([3; 64]);
    let mut y = [3u8; 64];
    y[0] = 4;
    assert!(x.same(&x));
    assert!(!x.same(&H512(y)));
}
