use libp2prs_kad::addresses::Addresses;
use libp2prs_kad::collections::{AddressBook, ByteSet, PeerSet};
use libp2prs_kad::error::NoKnownPeers;
use libp2prs_kad::event::{
    AddProviderError, GetClosestPeersError, GetProvidersError, GetRecordError, PutRecordError,
};
use libp2prs_kad::identity::{Multiaddr, PeerId};
use libp2prs_kad::num::NonZeroUsize;
use libp2prs_kad::query::QueryStats;
use libp2prs_kad::record::{Key, Record};
use libp2prs_kad::time::{Clock, Duration, Instant, exp_decrease, expiry};
use libp2prs_kad::{KademliaBucketInserts, KademliaConfig, Quorum};

fn n(n: usize) -> NonZeroUsize {
    NonZeroUsize::new(n).unwrap()
}

#[test]
fn zero_is_refused() {
    assert!(NonZeroUsize::new(0).is_none());
    assert_eq!(n(3).get(), 3);
    assert_eq!(NonZeroUsize::one().get(), 1);
}

#[test]
fn quorum_is_evaluated_against_a_total() {
    assert_eq!(Quorum::One.eval(n(20)).get(), 1);
    assert_eq!(Quorum::Majority.eval(n(20)).get(), 11);
    assert_eq!(Quorum::Majority.eval(n(5)).get(), 3);
    assert_eq!(Quorum::Majority.eval(n(1)).get(), 1);
    assert_eq!(Quorum::All.eval(n(20)).get(), 20);
    assert_eq!(Quorum::N(n(7)).eval(n(20)).get(), 7);
    assert_eq!(Quorum::N(n(21)).eval(n(20)).get(), 20);
}

#[test]
fn a_duration_is_halved_for_each_node() {
    let ttl = Duration::from_secs(36 * 60 * 60);
    assert_eq!(exp_decrease(ttl, 0).as_secs(), 129600);
    assert_eq!(exp_decrease(ttl, 1).as_secs(), 64800);
    assert_eq!(exp_decrease(ttl, 4).as_secs(), 8100);
    assert_eq!(exp_decrease(ttl, 16).as_secs(), 1);
    assert_eq!(exp_decrease(ttl, 17).as_secs(), 0);
    assert_eq!(exp_decrease(ttl, 63).as_secs(), 0);
    assert_eq!(exp_decrease(Duration::from_secs(u64::MAX), 63).as_secs(), 1);
    assert_eq!(exp_decrease(Duration::from_secs(u64::MAX), 64).as_secs(), 0);
    assert_eq!(exp_decrease(Duration::from_secs(u64::MAX), u32::MAX).as_secs(), 0);
    assert_eq!(exp_decrease(Duration::new(5, 999_999_999), 0).as_nanos(), 5_000_000_000);
}

#[test]
fn durations_count_nanoseconds() {
    let d = Duration::new(2, 5);
    assert_eq!(d.as_secs(), 2);
    assert_eq!(d.as_nanos(), 2_000_000_005);
    assert_eq!(Instant { nanos: 10 }.after(d), Instant { nanos: 2_000_000_015 });
    assert_eq!(expiry(Instant { nanos: 1 }, Some(d)), Some(Instant { nanos: 2_000_000_006 }));
    assert_eq!(expiry(Instant { nanos: 1 }, None), None);
    assert_eq!(Instant::from_elapsed(d), Instant { nanos: 2_000_000_005 });
}

#[test]
fn the_clock_does_not_go_back() {
    let clock = Clock::start();
    let a = clock.now();
    std::hint::black_box((0..10_000).map(|i: u64| i * i).sum::<u64>());
    let b = clock.now();
    assert!(a.nanos <= b.nanos);
    assert!(b.nanos < 3_600_000_000_000);
}

#[test]
fn a_record_expires_at_its_expiration() {
    let mut record = Record::new(Key::new(vec![1]), vec![2]);
    assert!(!record.is_expired(Instant { nanos: u128::MAX }));
    record.expires = Some(Instant { nanos: 100 });
    assert!(!record.is_expired(Instant { nanos: 99 }));
    assert!(record.is_expired(Instant { nanos: 100 }));
    assert!(record.is_expired(Instant { nanos: 101 }));
}

#[test]
fn the_default_configuration() {
    let config = KademliaConfig::default();
    assert_eq!(config.kbucket_pending_timeout.as_secs(), 60);
    assert_eq!(config.query_config.timeout.as_secs(), 60);
    assert_eq!(config.query_config.replication_factor.get(), 20);
    assert_eq!(config.query_config.parallelism.get(), 3);
    assert!(!config.query_config.disjoint_query_paths);
    assert_eq!(config.record_ttl.unwrap().as_secs(), 129600);
    assert_eq!(config.record_replication_interval.unwrap().as_secs(), 3600);
    assert_eq!(config.record_publication_interval.unwrap().as_secs(), 86400);
    assert_eq!(config.provider_publication_interval.unwrap().as_secs(), 43200);
    assert_eq!(config.provider_record_ttl.unwrap().as_secs(), 86400);
    assert_eq!(config.connection_idle_timeout.as_secs(), 10);
    assert_eq!(config.kbucket_inserts, KademliaBucketInserts::OnConnected);
}

#[test]
fn setters_can_be_chained() {
    let mut config = KademliaConfig::default();
    let d = Duration::from_secs;
    config
        .set_query_timeout(d(1))
        .set_replication_factor(n(2))
        .set_parallelism(n(4))
        .disjoint_query_paths(true)
        .set_record_ttl(None)
        .set_replication_interval(Some(d(5)))
        .set_publication_interval(None)
        .set_provider_record_ttl(Some(d(6)))
        .set_provider_publication_interval(None)
        .set_connection_idle_timeout(d(7))
        .set_kbucket_inserts(KademliaBucketInserts::Manual);
    assert_eq!(config.query_config.timeout.as_secs(), 1);
    assert_eq!(config.query_config.replication_factor.get(), 2);
    assert_eq!(config.query_config.parallelism.get(), 4);
    assert!(config.query_config.disjoint_query_paths);
    assert!(config.record_ttl.is_none());
    assert_eq!(config.record_replication_interval.unwrap().as_secs(), 5);
    assert!(config.record_publication_interval.is_none());
    assert_eq!(config.provider_record_ttl.unwrap().as_secs(), 6);
    assert!(config.provider_publication_interval.is_none());
    assert_eq!(config.connection_idle_timeout.as_secs(), 7);
    assert_eq!(config.kbucket_inserts, KademliaBucketInserts::Manual);
    assert_eq!(config.kbucket_pending_timeout.as_secs(), 60);
}

#[test]
fn a_byte_set_holds_what_was_inserted() {
    let mut set = ByteSet::new();
    assert!(!set.contains(&vec![1]));
    assert!(set.insert(vec![1]));
    assert!(!set.insert(vec![1]));
    assert!(set.insert(vec![2]));
    assert!(set.contains(&vec![1]));
    assert!(set.remove(&vec![1]));
    assert!(!set.remove(&vec![1]));
    assert!(!set.contains(&vec![1]));
    assert!(set.contains(&vec![2]));
}

#[test]
fn an_address_book_keeps_the_latest_addresses() {
    let a = Multiaddr::from_bytes(vec![4, 127, 0, 0, 1]);
    let b = Multiaddr::from_bytes(vec![4, 10, 0, 0, 1]);
    let mut book = AddressBook::new();
    assert!(book.get(&vec![9]).is_none());
    book.insert(vec![9], vec![a.clone()]);
    book.insert(vec![9], vec![b.clone(), a.clone()]);
    assert_eq!(book.get(&vec![9]), Some(vec![b.clone(), a.clone()]));
    let many: Vec<Multiaddr> = (0..20).map(|i: u8| Multiaddr::from_bytes(vec![i])).collect();
    book.insert(vec![8], many.clone());
    assert_eq!(book.get(&vec![8]), Some(many));
    assert_eq!(book.get(&vec![9]), Some(vec![b, a]));
}

#[test]
fn a_peer_set_holds_no_peer_twice() {
    let p = |b: u8| PeerId::from_bytes(vec![b]);
    let mut set = PeerSet::new();
    assert!(set.insert(p(1)));
    assert!(set.insert(p(2)));
    assert!(!set.insert(p(1)));
    assert!(set.contains(&p(2)));
    assert!(!set.contains(&p(3)));
    assert_eq!(set.as_vec(), &vec![p(1), p(2)]);
}

#[test]
fn an_address_is_learned_once() {
    let a = Multiaddr::from_bytes(vec![1]);
    let b = Multiaddr::from_bytes(vec![2]);
    let mut addresses = Addresses::new(a.clone());
    assert!(!addresses.insert(a.clone()));
    assert!(addresses.insert(b.clone()));
    assert_eq!(addresses.into_vec(), vec![a, b]);
}

#[test]
fn statistics_are_merged() {
    let at = |nanos: u128| Some(Instant { nanos });
    let a = QueryStats { requests: 3, success: 2, failure: 1, start: at(5), end: at(9) };
    let b = QueryStats { requests: 4, success: 4, failure: u32::MAX, start: at(7), end: None };
    assert_eq!(
        a.merge(b),
        QueryStats { requests: 7, success: 6, failure: u32::MAX, start: at(5), end: at(9) }
    );
    assert_eq!(a.merge(QueryStats::empty()), a);
    assert_eq!(QueryStats::empty().merge(a), a);
    let c = QueryStats { start: at(1), end: at(20), ..QueryStats::empty() };
    assert_eq!(a.merge(c).start, at(1));
    assert_eq!(a.merge(c).end, at(20));
}

#[test]
fn errors_know_their_key() {
    let key = || Key::new(vec![7, 7]);
    let errors = vec![
        GetRecordError::NotFound { key: key(), closest_peers: vec![] },
        GetRecordError::QuorumFailed { key: key(), records: vec![], quorum: n(1) },
        GetRecordError::Timeout { key: key(), records: vec![], quorum: n(1) },
    ];
    for e in errors {
        assert_eq!(e.key(), &key());
        assert_eq!(e.into_key(), key());
    }
    let e = PutRecordError::QuorumFailed { key: key(), success: vec![], quorum: n(1) };
    assert_eq!(e.key(), &key());
    assert_eq!(e.into_key(), key());
    let e = PutRecordError::Timeout { key: key(), success: vec![], quorum: n(1) };
    assert_eq!(e.key(), &key());
    assert_eq!(e.into_key(), key());
    let e = GetClosestPeersError::Timeout { key: vec![7, 7], peers: vec![] };
    assert_eq!(e.key(), &vec![7, 7]);
    assert_eq!(e.into_key(), vec![7, 7]);
    let e = GetProvidersError::Timeout {
        key: key(),
        providers: PeerSet::new(),
        closest_peers: vec![],
    };
    assert_eq!(e.key(), &key());
    assert_eq!(e.into_key(), key());
    let e = AddProviderError::Timeout { key: key() };
    assert_eq!(e.key(), &key());
    assert_eq!(e.into_key(), key());
}

#[test]
fn no_known_peers_has_a_message() {
    assert_eq!(NoKnownPeers().message(), "No known peers.");
}
