use ethereum_sentry::config::DiscoverySource;
use ethereum_sentry::discovery::{Aggregator, Polled};
use ethereum_sentry::node_record::{NodeRecord, SocketAddr};
use ethereum_sentry::primitives::H512;

fn record(n: u8) -> NodeRecord {
    NodeRecord { addr: SocketAddr { ip: [10, 0, 0, n], port: 30303 }, id: H512([n; 64]) }
}

fn three() -> Aggregator {
    Aggregator::new(vec![
        DiscoverySource::DnsDisc,
        DiscoverySource::DiscV4,
        DiscoverySource::StaticPeers,
    ])
}

#[test]
fn the_sources_take_turns() {
    let mut a = three();
    let all = vec![Polled::Record(record(1)), Polled::Record(record(2)), Polled::Record(record(3))];
    assert_eq!(a.select(&all, false), Some((DiscoverySource::DnsDisc, record(1))));
    assert_eq!(a.select(&all, false), Some((DiscoverySource::DiscV4, record(2))));
    assert_eq!(a.select(&all, false), Some((DiscoverySource::StaticPeers, record(3))));
    assert_eq!(a.select(&all, false), Some((DiscoverySource::DnsDisc, record(1))));
}

#[test]
fn a_busy_source_does_not_starve_the_others() {
    let mut a = three();
    let first_two = vec![Polled::Record(record(1)), Polled::Record(record(2)), Polled::Pending];
    assert_eq!(a.select(&first_two, false), Some((DiscoverySource::DnsDisc, record(1))));
    assert_eq!(a.select(&first_two, false), Some((DiscoverySource::DiscV4, record(2))));
    assert_eq!(a.select(&first_two, false), Some((DiscoverySource::DnsDisc, record(1))));
    let only_first = vec![Polled::Record(record(1)), Polled::Pending, Polled::Pending];
    assert_eq!(a.select(&only_first, false), Some((DiscoverySource::DnsDisc, record(1))));
    assert_eq!(a.select(&only_first, false), Some((DiscoverySource::DnsDisc, record(1))));
}

#[test]
fn a_failing_source_is_passed_over() {
    let mut a = three();
    let polled = vec![Polled::Failed, Polled::Failed, Polled::Record(record(3))];
    assert_eq!(a.select(&polled, false), Some((DiscoverySource::StaticPeers, record(3))));
    let none = vec![Polled::Failed, Polled::Pending, Polled::Failed];
    assert_eq!(a.select(&none, false), None);
    let back = vec![Polled::Record(record(1)), Polled::Failed, Polled::Failed];
    assert_eq!(a.select(&back, false), Some((DiscoverySource::DnsDisc, record(1))));
}

#[test]
fn nothing_goes_out_while_no_new_peers_are_wanted() {
    let mut a = three();
    let all = vec![Polled::Record(record(1)), Polled::Record(record(2)), Polled::Record(record(3))];
    assert_eq!(a.select(&all, true), None);
    assert_eq!(a.select(&all, true), None);
    assert_eq!(a.select(&all, false), Some((DiscoverySource::DnsDisc, record(1))));
    assert_eq!(a.select(&all, true), None);
    assert_eq!(a.select(&all, false), Some((DiscoverySource::DiscV4, record(2))));
}

#[test]
fn an_aggregator_without_sources_yields_nothing() {
    let mut a = Aggregator::new(vec![]);
    assert_eq!(a.select(&vec![], false), None);
    assert_eq!(a.sources().len(), 0);
    assert_eq!(three().sources().len(), 3);
}
