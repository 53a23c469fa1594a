use ethereum_sentry::eth::capability_name;
use ethereum_sentry::events::{CapabilityName, DisconnectReason, Message, OutboundEvent};
use ethereum_sentry::pipes::{Pipes, CHANNEL_CAPACITY};

fn msg(n: u8) -> OutboundEvent {
    OutboundEvent::Message {
        capability_name: capability_name(),
        message: Message { id: n as usize, data: vec![n] },
    }
}

#[test]
fn a_pipe_yields_its_first_events_and_then_its_queue() {
    assert_eq!(CHANNEL_CAPACITY, 1);
    let mut p = Pipes::new(vec![msg(1), msg(2)]);
    assert!(!p.is_empty());
    assert_eq!(p.try_send(msg(3)), Ok(()));
    assert_eq!(p.try_send(msg(4)), Err(msg(4)));
    assert_eq!(p.next(), Some(msg(1)));
    assert_eq!(p.try_send(msg(4)), Err(msg(4)));
    assert_eq!(p.next(), Some(msg(2)));
    assert_eq!(p.next(), Some(msg(3)));
    assert!(p.is_empty());
    assert_eq!(p.next(), None);
    assert_eq!(p.try_send(msg(4)), Ok(()));
    assert_eq!(p.next(), Some(msg(4)));
    assert_eq!(p.next(), None);
}

#[test]
fn a_pipe_without_first_events_starts_empty() {
    let mut p = Pipes::new(vec![]);
    assert!(p.is_empty());
    assert_eq!(p.next(), None);
    let bye = OutboundEvent::Disconnect { reason: DisconnectReason::ClientQuitting };
    assert_eq!(p.try_send(bye.clone()), Ok(()));
    assert!(!p.is_empty());
    assert_eq!(p.next(), Some(bye));
}

#[test]
fn capability_names_are_short_and_ascii() {
    let eth = CapabilityName::new(b"eth").unwrap();
    assert_eq!(eth.to_vec(), b"eth".to_vec());
    assert!(eth.same(&capability_name()));
    assert_eq!(eth, capability_name());
    assert!(CapabilityName::new(b"").is_some());
    assert!(CapabilityName::new(b"12345678").is_some());
    assert_eq!(CapabilityName::new(b"123456789"), None);
    assert_eq!(CapabilityName::new(&[0x65, 0xff]), None);
    assert_eq!(CapabilityName::new("é".as_bytes()), None);
    let les = CapabilityName::new(b"les").unwrap();
    assert!(!les.same(&eth));
    assert!(!CapabilityName::new(b"et").unwrap().same(&eth));
    let padded = CapabilityName::from_array([0x65, 0x74, 0x68, 0, 0, 0, 0, 0], 3);
    assert_eq!(padded, eth);
}
