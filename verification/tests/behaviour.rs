use libp2prs_kad::collections::PeerSet;
use libp2prs_kad::control::{ControlCommand, ControlReply};
use libp2prs_kad::error::KadError;
use libp2prs_kad::event::{
    AddProviderError, BootstrapError, GetClosestPeersError, GetProvidersError, GetRecordError,
    KademliaEvent, PutRecordError, QueryResult,
};
use libp2prs_kad::identity::{Multiaddr, PeerId};
use libp2prs_kad::info::{AddProviderContext, PeerRecord, PutRecordContext, QueryInfo};
use libp2prs_kad::jobs::PutRecordJob;
use libp2prs_kad::kad::outcome::NUM_DRAWS;
use libp2prs_kad::kbucket::{Key, KeyBytes, NodeStatus};
use libp2prs_kad::num::NonZeroUsize;
use libp2prs_kad::protocol::{
    KadConnectionType, KadPeer, KadRequestMsg, KadResponseMsg, ProtocolEvent,
};
use libp2prs_kad::query::{
    Query, QueryConfig, QueryId, QueryInner, QueryKind, QueryPool, QueryStats,
};
use libp2prs_kad::record::{self, ProviderRecord, Record};
use libp2prs_kad::store::{MemoryStore, RecordStore};
use libp2prs_kad::time::{Duration, Instant};
use libp2prs_kad::{Kademlia, KademliaConfig, Quorum};

type Kad = Kademlia<MemoryStore>;

fn peer(n: u32) -> PeerId {
    PeerId::from_bytes(n.to_be_bytes().to_vec())
}

fn addr(n: u8) -> Multiaddr {
    Multiaddr::from_bytes(vec![4, 127, 0, 0, n])
}

fn key(b: u8) -> record::Key {
    record::Key::new(vec![b])
}

fn n(n: usize) -> NonZeroUsize {
    NonZeroUsize::new(n).unwrap()
}

fn at(secs: u64) -> Instant {
    Instant { nanos: secs as u128 * 1_000_000_000 }
}

fn point(p: &PeerId) -> KeyBytes {
    KeyBytes::hash(p.as_bytes())
}

fn node_with(config: KademliaConfig) -> Kad {
    Kademlia::with_config(peer(0), MemoryStore::new(4, 64, 4), config)
}

fn node() -> Kad {
    node_with(KademliaConfig::default())
}

fn connect(kad: &mut Kad, p: &PeerId, a: u8) {
    kad.handle_peer_connected(p.clone());
    kad.connection_updated_at(p.clone(), Some(addr(a)), NodeStatus::Connected, at(0));
}

/// A query of the given peers that is about `info`, as it is when it has ended.
fn ended(id: usize, peers: &[PeerId], info: QueryInfo) -> Query {
    let mut pool = QueryPool::new(QueryConfig::default());
    for _ in 0..id {
        pool.add_fixed(vec![], QueryInner::new(QueryInfo::GetClosestPeers { key: vec![] }));
    }
    let keys = peers.iter().map(|p| Key::new(p.clone())).collect();
    let id = pool.add_fixed(keys, QueryInner::new(info));
    let q = pool.get_mut(&id).unwrap();
    for p in peers {
        q.on_success(p, vec![]);
    }
    pool.remove(&id).unwrap()
}

fn result_of(event: Option<KademliaEvent>) -> (QueryId, QueryResult, QueryStats) {
    match event {
        Some(KademliaEvent::QueryResult { id, result, stats }) => (id, result, stats),
        _ => panic!("not a query result"),
    }
}

#[test]
fn a_lookup_is_a_running_query() {
    let mut kad = node();
    let a = kad.get_closest_peers(b"a".to_vec());
    let b = kad.get_closest_peers(b"b".to_vec());
    assert_eq!((a, b), (QueryId(0), QueryId(1)));
    assert_eq!(kad.iter_queries().len(), 2);
    let q = kad.query(&a).unwrap();
    assert_eq!(q.id(), a);
    assert_eq!(*q.stats(), QueryStats::empty());
    assert!(matches!(q.info(), QueryInfo::GetClosestPeers { key } if *key == b"a".to_vec()));
    assert!(kad.query(&QueryId(2)).is_none());
}

#[test]
fn a_finished_query_is_no_longer_running() {
    let mut kad = node();
    let a = kad.get_closest_peers(b"a".to_vec());
    let b = kad.get_closest_peers(b"b".to_vec());
    {
        let mut q = kad.query_mut(&a).unwrap();
        assert_eq!(q.id(), a);
        assert_eq!(*q.stats(), QueryStats::empty());
        assert!(matches!(q.info(), QueryInfo::GetClosestPeers { .. }));
        q.finish();
    }
    assert!(kad.query(&a).is_none());
    assert!(kad.query_mut(&a).is_none());
    let running: Vec<QueryId> = kad.iter_queries().iter().map(|q| q.id()).collect();
    assert_eq!(running, vec![b]);
    let c = kad.get_closest_peers(b"c".to_vec());
    {
        let mut all = kad.iter_queries_mut();
        assert_eq!(all.len(), 2);
        assert_eq!(all[0].id(), b);
        assert_eq!(all[1].id(), c);
        all[1].finish();
    }
    assert!(kad.query(&b).is_some());
    assert!(kad.query(&c).is_none());
    assert!(kad.take_query(&c).unwrap().is_finished());
    assert!(kad.take_query(&c).is_none());
}

#[test]
fn a_discovery_makes_candidates_of_the_reported_peers() {
    let mut kad = node();
    connect(&mut kad, &peer(1), 1);
    let id = kad.get_closest_peers(b"a".to_vec());
    let report = |p: u32| KadPeer {
        node_id: peer(p),
        multiaddrs: vec![addr(p as u8)],
        connection_ty: KadConnectionType::Connected,
    };
    kad.discovered(&id, &peer(1), &vec![report(2), report(0), report(3)]);
    // Only an answer of a peer of the query counts.
    kad.discovered(&id, &peer(9), &vec![report(4)]);
    kad.discovered(&QueryId(77), &peer(1), &vec![report(5)]);
    kad.discovered(&id, &peer(2), &vec![]);
    kad.discovered(&id, &peer(3), &vec![]);
    kad.discovered(&id, &peer(4), &vec![]);
    assert_eq!(kad.query(&id).unwrap().stats().success, 3);
    let q = kad.take_query(&id).unwrap();
    assert_eq!(q.addresses_of(&peer(2)), Some(vec![addr(2)]));
    assert_eq!(q.addresses_of(&peer(3)), Some(vec![addr(3)]));
    assert_eq!(q.addresses_of(&peer(4)), Some(vec![addr(4)]));
    assert_eq!(q.addresses_of(&peer(0)), None);
    let (_, result, stats) = result_of(kad.query_finished(q));
    assert_eq!(stats.success, 3);
    match result {
        QueryResult::GetClosestPeers(Ok(ok)) => {
            assert_eq!(ok.key, b"a".to_vec());
            let t = KeyBytes::hash(&b"a".to_vec());
            let mut expected = vec![peer(1), peer(2), peer(3)];
            expected.sort_by_key(|p| {
                let d = t.distance(&point(p));
                (d.w0, d.w1, d.w2, d.w3)
            });
            assert_eq!(ok.peers, expected);
        }
        _ => panic!("unexpected result"),
    }
}

#[test]
fn a_lookup_finds_no_more_than_the_replication_factor() {
    let mut config = KademliaConfig::default();
    config.set_replication_factor(n(2));
    let mut kad = node_with(config);
    for p in 1..6 {
        connect(&mut kad, &peer(p), 1);
    }
    let id = kad.get_closest_peers(b"a".to_vec());
    for p in 1..6 {
        kad.discovered(&id, &peer(p), &vec![]);
    }
    let q = kad.take_query(&id).unwrap();
    match result_of(kad.query_finished(q)).1 {
        QueryResult::GetClosestPeers(Ok(ok)) => assert_eq!(ok.peers.len(), 2),
        _ => panic!("unexpected result"),
    }
}

#[test]
fn a_record_is_stored_and_found() {
    let mut kad = node();
    let id = kad.put_record_at(Record::new(key(1), vec![5]), Quorum::All, at(7)).unwrap();
    let stored = kad.store_mut().get(&key(1)).unwrap();
    assert_eq!(stored.publisher, Some(peer(0)));
    assert_eq!(stored.expires, None);
    match kad.query(&id).unwrap().info() {
        QueryInfo::PutRecord { record, quorum, context } => {
            assert_eq!(record.publisher, Some(peer(0)));
            assert_eq!(record.expires, Some(at(7 + 36 * 3600)));
            assert_eq!(quorum.get(), 20);
            assert_eq!(*context, PutRecordContext::Publish);
        }
        _ => panic!("unexpected query"),
    }
    let id = kad.get_record_at(&key(1), Quorum::One, at(8));
    assert!(kad.query(&id).is_none());
    let q = kad.take_query(&id).unwrap();
    match result_of(kad.query_finished(q)).1 {
        QueryResult::GetRecord(Ok(ok)) => {
            assert_eq!(ok.records.len(), 1);
            assert_eq!(ok.records[0].peer, None);
            assert_eq!(ok.records[0].record.value, vec![5]);
        }
        _ => panic!("unexpected result"),
    }
}

#[test]
fn a_lookup_goes_on_until_the_quorum_is_met() {
    let mut kad = node();
    kad.put_record(Record::new(key(1), vec![5]), Quorum::One).unwrap();
    let id = kad.get_record(&key(1), Quorum::N(n(2)));
    match kad.query(&id).unwrap().info() {
        QueryInfo::GetRecord { records, quorum, cache_at, .. } => {
            assert_eq!(records.len(), 1);
            assert_eq!(quorum.get(), 2);
            assert!(cache_at.is_none());
        }
        _ => panic!("unexpected query"),
    }
    let id = kad.get_record(&key(2), Quorum::One);
    assert!(matches!(
        kad.query(&id).unwrap().info(),
        QueryInfo::GetRecord { records, .. } if records.is_empty()
    ));
}

#[test]
fn an_explicit_expiration_is_kept() {
    let mut kad = node();
    let mut record = Record::new(key(1), vec![5]);
    record.expires = Some(at(100));
    let id = kad.put_record_at(record, Quorum::One, at(0)).unwrap();
    assert_eq!(kad.store_mut().get(&key(1)).unwrap().expires, Some(at(100)));
    assert!(matches!(
        kad.query(&id).unwrap().info(),
        QueryInfo::PutRecord { record, .. } if record.expires == Some(at(100))
    ));
    let id = kad.get_record_at(&key(1), Quorum::One, at(99));
    assert!(kad.query(&id).is_none());
    let id = kad.get_record_at(&key(1), Quorum::One, at(100));
    assert!(kad.query(&id).is_some());
    assert!(kad.store_mut().get(&key(1)).is_none());
}

#[test]
fn without_a_lifetime_a_record_does_not_expire() {
    let mut config = KademliaConfig::default();
    config.set_record_ttl(None);
    let mut kad = node_with(config);
    let id = kad.put_record_at(Record::new(key(1), vec![5]), Quorum::One, at(0)).unwrap();
    assert!(matches!(
        kad.query(&id).unwrap().info(),
        QueryInfo::PutRecord { record, .. } if record.expires.is_none()
    ));
}

#[test]
fn a_record_that_the_store_refuses_starts_no_query() {
    let mut kad = node();
    let big = Record::new(key(1), vec![0; 64]);
    assert!(matches!(kad.put_record(big, Quorum::One), Err(KadError::ValueTooLarge)));
    for b in 0..4 {
        kad.store_mut().put(Record::new(key(b), vec![])).unwrap();
    }
    let more = Record::new(key(9), vec![]);
    assert!(matches!(kad.put_record(more, Quorum::One), Err(KadError::MaxRecords)));
    assert!(kad.iter_queries().is_empty());
}

#[test]
fn only_own_records_are_removed() {
    let mut kad = node();
    kad.put_record(Record::new(key(1), vec![5]), Quorum::One).unwrap();
    let mut foreign = Record::new(key(2), vec![6]);
    foreign.publisher = Some(peer(9));
    kad.store_mut().put(foreign).unwrap();
    kad.store_mut().put(Record::new(key(3), vec![7])).unwrap();
    kad.remove_record(&key(1));
    kad.remove_record(&key(2));
    kad.remove_record(&key(3));
    kad.remove_record(&key(4));
    assert!(kad.store_mut().get(&key(1)).is_none());
    assert!(kad.store_mut().get(&key(2)).is_some());
    assert!(kad.store_mut().get(&key(3)).is_some());
}

#[test]
fn bootstrapping_needs_a_known_peer() {
    let mut kad = node();
    assert!(matches!(kad.bootstrap(), Err(KadError::NoKnownPeers)));
    assert!(kad.iter_queries().is_empty());
    connect(&mut kad, &peer(1), 1);
    let id = kad.bootstrap().unwrap();
    assert!(matches!(
        kad.query(&id).unwrap().info(),
        QueryInfo::Bootstrap { peer: p, remaining: None } if *p == peer(0)
    ));
}

#[test]
fn bootstrapping_refreshes_the_farther_buckets() {
    let mut kad = node();
    let near = (1..).map(peer).find(|p| {
        point(&peer(0)).distance(&point(p)).bucket_index() == Some(251)
    });
    connect(&mut kad, &near.unwrap(), 1);
    let id = kad.bootstrap().unwrap();
    let mut left = Vec::new();
    let mut targets = vec![peer(0)];
    while let Some(q) = kad.take_query(&id) {
        let (i, result, _) = result_of(kad.query_finished(q));
        assert_eq!(i, id);
        match result {
            QueryResult::Bootstrap(Ok(ok)) => {
                assert_eq!(ok.peer, targets[targets.len() - 1]);
                left.push(ok.num_remaining);
            }
            _ => panic!("unexpected result"),
        }
        if let Some(q) = kad.query(&id) {
            match q.info() {
                QueryInfo::Bootstrap { peer, remaining: Some(_) } => targets.push(peer.clone()),
                _ => panic!("unexpected query"),
            }
        }
    }
    // One lookup for each of the buckets 252 to 255, after the one for the local key.
    assert_eq!(left, vec![3, 2, 1, 0, 0]);
    assert_eq!(targets.len(), 5);
}

#[test]
fn refresh_targets_are_the_first_that_fit() {
    let mut kad = node();
    let with_bucket = |b: usize, skip: usize| -> PeerId {
        (1..)
            .map(peer)
            .filter(|p| point(&peer(0)).distance(&point(p)).bucket_index() == Some(b))
            .nth(skip)
            .unwrap()
    };
    connect(&mut kad, &with_bucket(253, 0), 1);
    let far = with_bucket(255, 0);
    let mut first: Vec<Key<PeerId>> = vec![Key::new(far.clone()); NUM_DRAWS];
    first[3] = Key::new(with_bucket(254, 0));
    first[4] = Key::new(with_bucket(254, 1));
    let mut second: Vec<Key<PeerId>> = vec![Key::new(with_bucket(254, 0)); NUM_DRAWS];
    second[NUM_DRAWS - 1] = Key::new(with_bucket(253, 1));
    let targets = kad.refresh_targets(&vec![first, second]);
    assert_eq!(targets.len(), 2);
    assert_eq!(*targets[0].preimage(), with_bucket(254, 0));
    // None of the draws fits, so the last one is taken.
    assert_eq!(*targets[1].preimage(), with_bucket(253, 1));
}

#[test]
fn bootstrapping_goes_on_after_a_timeout() {
    let mut kad = node();
    connect(&mut kad, &peer(1), 1);
    let info = QueryInfo::Bootstrap {
        peer: peer(5),
        remaining: Some(vec![Key::new(peer(6)), Key::new(peer(7))]),
    };
    let (id, result, _) = result_of(kad.query_timeout(ended(4, &[], info)));
    assert_eq!(id, QueryId(4));
    assert!(matches!(
        result,
        QueryResult::Bootstrap(Err(BootstrapError::Timeout { peer: p, num_remaining: Some(1) }))
            if p == peer(5)
    ));
    match kad.query(&QueryId(4)).unwrap().info() {
        QueryInfo::Bootstrap { peer: p, remaining: Some(rest) } => {
            assert_eq!(*p, peer(6));
            assert_eq!(rest.len(), 1);
        }
        _ => panic!("unexpected query"),
    }
    let info = QueryInfo::Bootstrap { peer: peer(0), remaining: None };
    let (_, result, _) = result_of(kad.query_timeout(ended(2, &[], info)));
    assert!(matches!(
        result,
        QueryResult::Bootstrap(Err(BootstrapError::Timeout { num_remaining: None, .. }))
    ));
    assert!(kad.query(&QueryId(2)).is_none());
}

#[test]
fn a_provider_is_announced_and_withdrawn() {
    let mut kad = node();
    let id = kad.start_providing(key(1)).unwrap();
    let found = kad.store_mut().providers(&key(1));
    assert_eq!(found.len(), 1);
    assert_eq!(found[0].provider, peer(0));
    assert!(found[0].addresses.is_empty());
    assert!(found[0].expires.is_none());
    let request = kad.query(&id).unwrap().info().to_request(id);
    match &request {
        KadRequestMsg::AddProvider { key: k, provider } => {
            assert_eq!(*k, key(1));
            assert_eq!(provider.node_id, peer(0));
            assert!(provider.multiaddrs.is_empty());
            assert_eq!(provider.connection_ty, KadConnectionType::Connected);
        }
        _ => panic!("unexpected request"),
    }
    // Another node accepts the announcement.
    let store = MemoryStore::new(4, 64, 4);
    let mut other = Kademlia::with_config(peer(1), store, KademliaConfig::default());
    assert!(matches!(other.handle_kad_request_at(request, peer(0), at(1)), Ok(None)));
    let found = other.store_mut().providers(&key(1));
    assert_eq!(found[0].provider, peer(0));
    assert_eq!(found[0].expires, Some(at(1 + 24 * 3600)));
    assert_eq!(kad.provider_peers(&key(1), &peer(5)).len(), 1);
    kad.stop_providing(&key(1));
    assert!(kad.store_mut().providers(&key(1)).is_empty());
    assert!(kad.provider_peers(&key(1), &peer(5)).is_empty());
}

#[test]
fn a_provider_that_the_store_refuses_starts_no_query() {
    let mut kad = node();
    for p in 1..5 {
        kad.store_mut().add_provider(ProviderRecord::new(key(9), peer(p), vec![])).unwrap();
    }
    assert!(matches!(kad.start_providing(key(1)), Err(KadError::MaxProviderRecords)));
    assert!(kad.iter_queries().is_empty());
}

#[test]
fn a_lookup_of_providers_starts_without_any() {
    let mut kad = node();
    let id = kad.get_providers(key(1));
    assert!(matches!(
        kad.query(&id).unwrap().info(),
        QueryInfo::GetProviders { key: k, providers } if *k == key(1) && providers.as_vec().is_empty()
    ));
}

#[test]
fn known_providers_are_reported() {
    let mut kad = node();
    connect(&mut kad, &peer(2), 2);
    for (p, addrs) in [(1, vec![addr(1)]), (2, vec![]), (3, vec![]), (4, vec![addr(4)])] {
        kad.store_mut().add_provider(ProviderRecord::new(key(1), peer(p), addrs)).unwrap();
    }
    let found = kad.provider_peers(&key(1), &peer(4));
    // The third has no known addresses, the fourth is the one that asks.
    let ids: Vec<PeerId> = found.iter().map(|p| p.node_id.clone()).collect();
    assert_eq!(ids, vec![peer(1), peer(2)]);
    assert_eq!(found[0].multiaddrs, vec![addr(1)]);
    assert_eq!(found[0].connection_ty, KadConnectionType::NotConnected);
    assert_eq!(found[1].multiaddrs, vec![addr(2)]);
    assert_eq!(found[1].connection_ty, KadConnectionType::Connected);
}

#[test]
fn no_more_providers_than_the_replication_factor_are_reported() {
    let mut config = KademliaConfig::default();
    config.set_replication_factor(n(2));
    let mut kad = node_with(config);
    for p in 1..5 {
        let record = ProviderRecord::new(key(1), peer(p), vec![addr(1)]);
        kad.store_mut().add_provider(record).unwrap();
    }
    let ids: Vec<PeerId> =
        kad.provider_peers(&key(1), &peer(1)).iter().map(|p| p.node_id.clone()).collect();
    assert_eq!(ids, vec![peer(2), peer(3)]);
}

#[test]
fn requests_are_answered() {
    let mut kad = node();
    connect(&mut kad, &peer(1), 1);
    connect(&mut kad, &peer(2), 2);
    assert!(matches!(
        kad.handle_kad_request(KadRequestMsg::Ping, peer(1)),
        Ok(Some(KadResponseMsg::Pong))
    ));
    match kad.handle_kad_request(KadRequestMsg::FindNode { key: vec![1] }, peer(1)) {
        Ok(Some(KadResponseMsg::FindNode { closer_peers })) => {
            assert_eq!(closer_peers.len(), 1);
            assert_eq!(closer_peers[0].node_id, peer(2));
        }
        _ => panic!("unexpected answer"),
    }
    kad.store_mut().add_provider(ProviderRecord::new(key(1), peer(3), vec![addr(3)])).unwrap();
    match kad.handle_kad_request(KadRequestMsg::GetProviders { key: key(1) }, peer(1)) {
        Ok(Some(KadResponseMsg::GetProviders { closer_peers, provider_peers })) => {
            assert_eq!(closer_peers[0].node_id, peer(2));
            assert_eq!(provider_peers[0].node_id, peer(3));
        }
        _ => panic!("unexpected answer"),
    }
}

#[test]
fn a_provider_may_only_announce_itself() {
    let mut kad = node();
    let announce = |p: u32| KadRequestMsg::AddProvider {
        key: key(1),
        provider: KadPeer {
            node_id: peer(p),
            multiaddrs: vec![addr(p as u8)],
            connection_ty: KadConnectionType::Connected,
        },
    };
    match kad.handle_kad_request(announce(2), peer(1)) {
        Err(KadError::InvalidSource(p)) => assert_eq!(p, peer(1)),
        _ => panic!("unexpected answer"),
    }
    assert!(kad.store_mut().providers(&key(1)).is_empty());
    assert!(matches!(kad.handle_kad_request(announce(1), peer(1)), Ok(None)));
    assert_eq!(kad.store_mut().providers(&key(1))[0].addresses, vec![addr(1)]);
    // The local node does not store what is said of itself.
    assert!(matches!(kad.handle_kad_request(announce(0), peer(0)), Ok(None)));
    assert_eq!(kad.store_mut().providers(&key(1)).len(), 1);
}

#[test]
fn provider_records_expire() {
    let mut config = KademliaConfig::default();
    config.set_provider_record_ttl(Some(Duration::from_secs(50)));
    let mut kad = node_with(config);
    let p = KadPeer {
        node_id: peer(1),
        multiaddrs: vec![],
        connection_ty: KadConnectionType::Connected,
    };
    let record = kad.provider_to_keep(key(1), p.clone(), at(10));
    assert_eq!(record.expires, Some(at(60)));
    kad.provider_received(key(1), p, at(10));
    assert_eq!(kad.store_mut().providers(&key(1))[0].expires, Some(at(60)));
}

#[test]
fn a_value_is_sent_until_it_expires() {
    let mut kad = node();
    let mut record = Record::new(key(1), vec![5]);
    record.expires = Some(at(100));
    kad.store_mut().put(record).unwrap();
    let ask = || KadRequestMsg::GetValue { key: key(1) };
    match kad.handle_kad_request_at(ask(), peer(1), at(99)) {
        Ok(Some(KadResponseMsg::GetValue { record: Some(r), closer_peers })) => {
            assert_eq!(r.value, vec![5]);
            assert!(closer_peers.is_empty());
        }
        _ => panic!("unexpected answer"),
    }
    assert!(matches!(
        kad.handle_kad_request_at(ask(), peer(1), at(100)),
        Ok(Some(KadResponseMsg::GetValue { record: None, .. }))
    ));
    assert!(kad.store_mut().get(&key(1)).is_none());
}

#[test]
fn a_received_record_is_kept_for_the_shorter_lifetime() {
    let mut kad = node();
    let put = |kad: &mut Kad, expires: Option<Instant>| {
        let mut record = Record::new(key(1), vec![5]);
        record.publisher = Some(peer(3));
        record.expires = expires;
        match kad.handle_kad_request_at(KadRequestMsg::PutValue { record }, peer(1), at(10)) {
            Ok(Some(KadResponseMsg::PutValue { key: k, value })) => {
                assert_eq!(k, key(1));
                assert_eq!(value, vec![5]);
            }
            _ => panic!("unexpected answer"),
        }
        kad.store_mut().get(&key(1)).unwrap()
    };
    let limit = at(10 + 36 * 3600);
    assert_eq!(put(&mut kad, None).expires, Some(limit));
    assert_eq!(put(&mut kad, Some(at(20))).expires, Some(at(20)));
    assert_eq!(put(&mut kad, Some(at(1_000_000))).expires, Some(limit));
    assert_eq!(put(&mut kad, None).publisher, Some(peer(3)));
}

#[test]
fn without_a_lifetime_a_received_record_keeps_its_expiration() {
    let mut config = KademliaConfig::default();
    config.set_record_ttl(None);
    let kad = node_with(config);
    let mut record = Record::new(key(1), vec![5]);
    record.expires = Some(at(20));
    assert_eq!(kad.record_to_keep(record, at(10)).expires, Some(at(20)));
    assert_eq!(kad.record_to_keep(Record::new(key(1), vec![5]), at(10)).expires, None);
}

#[test]
fn an_expired_record_is_accepted_but_not_stored() {
    let mut kad = node();
    let mut record = Record::new(key(1), vec![5]);
    record.expires = Some(at(10));
    assert!(kad.record_received(peer(1), record, at(10)).is_ok());
    assert!(kad.store_mut().get(&key(1)).is_none());
}

#[test]
fn the_record_of_the_local_node_is_not_overwritten() {
    let mut kad = node();
    kad.put_record(Record::new(key(1), vec![5]), Quorum::One).unwrap();
    let mut record = Record::new(key(1), vec![6]);
    record.publisher = Some(peer(0));
    match kad.record_received(peer(1), record, at(10)) {
        Ok(KadResponseMsg::PutValue { value, .. }) => assert_eq!(value, vec![6]),
        _ => panic!("unexpected answer"),
    }
    assert_eq!(kad.store_mut().get(&key(1)).unwrap().value, vec![5]);
}

#[test]
fn a_received_record_may_be_too_large() {
    let mut kad = node();
    let record = Record::new(key(1), vec![0; 64]);
    let answer = kad.handle_kad_request(KadRequestMsg::PutValue { record }, peer(1));
    assert!(matches!(answer, Err(KadError::ValueTooLarge)));
}

#[test]
fn a_record_is_kept_shorter_beyond_the_replication_factor() {
    let mut config = KademliaConfig::default();
    config.set_replication_factor(n(1));
    let mut kad = node_with(config);
    let t = KeyBytes::hash(&vec![1]);
    let own = point(&peer(0));
    let mut between = 0;
    for p in 1..30 {
        connect(&mut kad, &peer(p), 1);
        let closer = t.distance(&point(&peer(p))).less(&t.distance(&own));
        let inside = !own.distance(&t).less(&own.distance(&point(&peer(p))));
        if closer && inside {
            between += 1;
        }
    }
    assert!(between > 1);
    let kept = kad.record_to_keep(Record::new(key(1), vec![]), at(0));
    let secs = (36u64 * 3600) >> (between - 1);
    assert_eq!(kept.expires, Some(at(secs)));
}

#[test]
fn events_are_handled() {
    let mut kad = node();
    assert!(matches!(kad.handle_events(Some(ProtocolEvent::PeerConnected(peer(1)))), Ok(None)));
    kad.store_mut().add_provider(ProviderRecord::new(key(1), peer(1), vec![addr(1)])).unwrap();
    let ty = |kad: &Kad| kad.provider_peers(&key(1), &peer(9))[0].connection_ty;
    assert_eq!(ty(&kad), KadConnectionType::Connected);
    assert!(matches!(
        kad.handle_events(Some(ProtocolEvent::PeerDisconnected(peer(1)))),
        Ok(None)
    ));
    assert_eq!(ty(&kad), KadConnectionType::NotConnected);
    let request = KadRequestMsg::Ping;
    let event = ProtocolEvent::KadRequest { request, source: peer(1) };
    assert!(matches!(
        kad.handle_events(Some(event)),
        Ok(Some(Ok(Some(KadResponseMsg::Pong))))
    ));
    assert!(matches!(kad.handle_events(Some(ProtocolEvent::Other)), Ok(None)));
    assert!(matches!(kad.handle_events(None), Err(KadError::Closed(1))));
}

#[test]
fn commands_are_answered() {
    let mut kad = node();
    let nothing = Some(ControlReply::Nothing);
    let done = Some(ControlReply::Done);
    assert_eq!(kad.on_control_command(Some(ControlCommand::Lookup(vec![1]))), nothing);
    assert_eq!(kad.iter_queries().len(), 1);
    assert_eq!(kad.on_control_command(Some(ControlCommand::FindPeer(peer(1)))), nothing);
    assert_eq!(kad.on_control_command(Some(ControlCommand::FindProviders(key(1)))), nothing);
    assert_eq!(kad.on_control_command(Some(ControlCommand::Providing(key(1)))), done);
    assert_eq!(kad.on_control_command(Some(ControlCommand::PutValue(key(1)))), done);
    assert_eq!(kad.on_control_command(Some(ControlCommand::GetValue(key(1)))), done);
    assert_eq!(kad.on_control_command(None), None);
    assert_eq!(kad.iter_queries().len(), 1);
}

#[test]
fn queries_that_finish_are_reported() {
    let mut kad = node();
    let ps = [peer(1), peer(2)];
    let info = QueryInfo::GetClosestPeers { key: vec![3] };
    let (id, result, stats) = result_of(kad.query_finished(ended(5, &ps, info)));
    assert_eq!(id, QueryId(5));
    assert_eq!(stats.success, 2);
    assert!(matches!(result, QueryResult::GetClosestPeers(Ok(ok))
        if ok.key == vec![3] && ok.peers == ps.to_vec()));

    let mut providers = PeerSet::new();
    providers.insert(peer(8));
    let info = QueryInfo::GetProviders { key: key(1), providers };
    let (_, result, _) = result_of(kad.query_finished(ended(0, &ps, info)));
    assert!(matches!(result, QueryResult::GetProviders(Ok(ok))
        if ok.key == key(1) && ok.closest_peers == ps.to_vec() && ok.providers.contains(&peer(8))));

    let announce = |context| QueryInfo::AddProvider {
        key: key(1),
        provider_id: peer(0),
        external_addresses: vec![],
        get_closest_peers_stats: QueryStats { requests: 3, success: 1, ..QueryStats::empty() },
        context,
    };
    let q = ended(0, &ps, announce(AddProviderContext::Publish));
    let (_, result, stats) = result_of(kad.query_finished(q));
    assert_eq!(stats.requests, 3);
    assert_eq!(stats.success, 3);
    assert!(matches!(result, QueryResult::StartProviding(Ok(ok)) if ok.key == key(1)));
    let q = ended(0, &ps, announce(AddProviderContext::Republish));
    let (_, result, _) = result_of(kad.query_finished(q));
    assert!(matches!(result, QueryResult::RepublishProvider(Ok(ok)) if ok.key == key(1)));

    let put = |context| QueryInfo::PutRecord {
        record: Record::new(key(1), vec![]),
        quorum: n(1),
        context,
    };
    let (_, result, _) =
        result_of(kad.query_finished(ended(0, &ps, put(PutRecordContext::Publish))));
    assert!(matches!(result, QueryResult::PutRecord(Ok(ok)) if ok.key == key(1)));
    let (_, result, _) =
        result_of(kad.query_finished(ended(0, &ps, put(PutRecordContext::Republish))));
    assert!(matches!(result, QueryResult::RepublishRecord(Ok(ok)) if ok.key == key(1)));
    assert!(kad.query_finished(ended(0, &ps, put(PutRecordContext::Replicate))).is_none());
    assert!(kad.query_finished(ended(0, &ps, put(PutRecordContext::Cache))).is_none());
    assert!(kad.iter_queries().is_empty());
}

#[test]
fn a_record_that_was_found_is_cached() {
    let mut kad = node();
    let found = |peers: u32| -> Vec<PeerRecord> {
        (0..peers)
            .map(|p| PeerRecord {
                peer: Some(peer(p)),
                record: Record::new(key(1), vec![p as u8]),
            })
            .collect()
    };
    let info = |records, quorum| QueryInfo::GetRecord {
        key: key(1),
        records,
        quorum: n(quorum),
        cache_at: Some(Key::new(peer(5))),
    };
    let (_, result, _) = result_of(kad.query_finished(ended(0, &[], info(found(2), 2))));
    assert!(matches!(result, QueryResult::GetRecord(Ok(ok)) if ok.records == found(2)));
    let running = kad.iter_queries();
    assert_eq!(running.len(), 1);
    match running[0].info() {
        QueryInfo::PutRecord { record, quorum, context } => {
            assert_eq!(record.value, vec![0]);
            assert_eq!(quorum.get(), 1);
            assert_eq!(*context, PutRecordContext::Cache);
        }
        _ => panic!("unexpected query"),
    }
    let id = running[0].id();
    kad.discovered(&id, &peer(5), &vec![]);
    assert_eq!(kad.query(&id).unwrap().stats().success, 1);

    let (_, result, _) = result_of(kad.query_finished(ended(0, &[], info(found(1), 2))));
    match result {
        QueryResult::GetRecord(Err(GetRecordError::QuorumFailed { key: k, records, quorum })) => {
            assert_eq!(k, key(1));
            assert_eq!(records, found(1));
            assert_eq!(quorum.get(), 2);
        }
        _ => panic!("unexpected result"),
    }
    let (_, result, _) = result_of(kad.query_finished(ended(0, &[peer(3)], info(vec![], 2))));
    match result {
        QueryResult::GetRecord(Err(GetRecordError::NotFound { key: k, closest_peers })) => {
            assert_eq!(k, key(1));
            assert_eq!(closest_peers, vec![peer(3)]);
        }
        _ => panic!("unexpected result"),
    }
    assert_eq!(kad.iter_queries().len(), 1);
}

#[test]
fn queries_that_time_out_are_reported() {
    let mut kad = node();
    let ps = [peer(1)];
    let info = QueryInfo::GetClosestPeers { key: vec![3] };
    let (_, result, _) = result_of(kad.query_timeout(ended(0, &ps, info)));
    match result {
        QueryResult::GetClosestPeers(Err(GetClosestPeersError::Timeout { key: k, peers })) => {
            assert_eq!(k, vec![3]);
            assert_eq!(peers, ps.to_vec());
        }
        _ => panic!("unexpected result"),
    }
    let info = QueryInfo::GetProviders { key: key(1), providers: PeerSet::new() };
    let (_, result, _) = result_of(kad.query_timeout(ended(0, &ps, info)));
    match result {
        QueryResult::GetProviders(Err(GetProvidersError::Timeout { closest_peers, .. })) => {
            assert_eq!(closest_peers, ps.to_vec());
        }
        _ => panic!("unexpected result"),
    }
    let announce = |context| QueryInfo::AddProvider {
        key: key(1),
        provider_id: peer(0),
        external_addresses: vec![],
        get_closest_peers_stats: QueryStats { requests: 3, ..QueryStats::empty() },
        context,
    };
    let q = ended(0, &ps, announce(AddProviderContext::Publish));
    let (_, result, stats) = result_of(kad.query_timeout(q));
    assert_eq!(stats.requests, 0);
    assert!(matches!(
        result,
        QueryResult::StartProviding(Err(AddProviderError::Timeout { key: k })) if k == key(1)
    ));
    let q = ended(0, &ps, announce(AddProviderContext::Republish));
    let (_, result, _) = result_of(kad.query_timeout(q));
    assert!(matches!(
        result,
        QueryResult::RepublishProvider(Err(AddProviderError::Timeout { .. }))
    ));
    let put = |context| QueryInfo::PutRecord {
        record: Record::new(key(1), vec![]),
        quorum: n(4),
        context,
    };
    let (_, result, _) =
        result_of(kad.query_timeout(ended(0, &ps, put(PutRecordContext::Publish))));
    match result {
        QueryResult::PutRecord(Err(PutRecordError::Timeout { key: k, success, quorum })) => {
            assert_eq!(k, key(1));
            assert_eq!(success, ps.to_vec());
            assert_eq!(quorum.get(), 4);
        }
        _ => panic!("unexpected result"),
    }
    let (_, result, _) =
        result_of(kad.query_timeout(ended(0, &ps, put(PutRecordContext::Republish))));
    assert!(matches!(result, QueryResult::RepublishRecord(Err(PutRecordError::Timeout { .. }))));
    assert!(kad.query_timeout(ended(0, &ps, put(PutRecordContext::Replicate))).is_none());
    assert!(kad.query_timeout(ended(0, &ps, put(PutRecordContext::Cache))).is_none());
    let info = QueryInfo::GetRecord {
        key: key(1),
        records: vec![],
        quorum: n(2),
        cache_at: Some(Key::new(peer(5))),
    };
    let (_, result, _) = result_of(kad.query_timeout(ended(0, &ps, info)));
    assert!(matches!(result, QueryResult::GetRecord(Err(GetRecordError::Timeout { .. }))));
    assert!(kad.iter_queries().is_empty());
}

#[test]
fn a_query_asks_for_what_it_is_about() {
    let id = QueryId(0);
    let info = QueryInfo::Bootstrap { peer: peer(3), remaining: None };
    assert!(matches!(info.to_request(id), KadRequestMsg::FindNode { key: k }
        if k == peer(3).into_bytes()));
    let info = QueryInfo::GetClosestPeers { key: vec![4] };
    assert!(matches!(info.to_request(id), KadRequestMsg::FindNode { key: k } if k == vec![4]));
    let info = QueryInfo::GetProviders { key: key(5), providers: PeerSet::new() };
    assert!(matches!(info.to_request(id), KadRequestMsg::GetProviders { key: k } if k == key(5)));
    let info = QueryInfo::GetRecord {
        key: key(6),
        records: vec![],
        quorum: n(1),
        cache_at: None,
    };
    assert!(matches!(info.to_request(id), KadRequestMsg::GetValue { key: k } if k == key(6)));
    let info = QueryInfo::PutRecord {
        record: Record::new(key(7), vec![8]),
        quorum: n(1),
        context: PutRecordContext::Publish,
    };
    assert!(matches!(info.to_request(id), KadRequestMsg::PutValue { record }
        if record.key == key(7) && record.value == vec![8]));
}

#[test]
fn queries_are_started_in_any_context() {
    let mut kad = node();
    let id = kad.start_add_provider(key(1), AddProviderContext::Republish);
    assert!(matches!(
        kad.query(&id).unwrap().info(),
        QueryInfo::AddProvider { provider_id, context: AddProviderContext::Republish, .. }
            if *provider_id == peer(0)
    ));
    let record = Record::new(key(2), vec![]);
    let id = kad.start_put_record(record, Quorum::Majority, PutRecordContext::Replicate);
    assert!(matches!(
        kad.query(&id).unwrap().info(),
        QueryInfo::PutRecord { quorum, context: PutRecordContext::Replicate, .. }
            if quorum.get() == 11
    ));
}

#[test]
fn the_job_leaves_out_what_it_is_told_to_skip() {
    let d = Duration::from_secs(1);
    let mut job = PutRecordJob::new(peer(0), d, None, None);
    assert!(!job.skips(&key(1)));
    job.skip(key(1));
    assert!(job.skips(&key(1)));
    assert!(!job.skips(&key(2)));
}

#[test]
fn a_new_node_has_the_default_configuration() {
    let mut kad = Kademlia::new(peer(0), MemoryStore::new(4, 64, 4));
    let record = Record::new(key(1), vec![]);
    let id = kad.start_put_record(record, Quorum::All, PutRecordContext::Publish);
    assert!(matches!(
        kad.query(&id).unwrap().info(),
        QueryInfo::PutRecord { quorum, .. } if quorum.get() == 20
    ));
}

#[test]
fn what_the_store_says_decides() {
    let mut kad = node();
    let own = kad.own_record(Record::new(key(1), vec![5]));
    assert_eq!(own.publisher, Some(peer(0)));
    assert_eq!(own.value, vec![5]);
    let refused = kad.publish_stored(Err(KadError::MaxRecords), own.clone(), Quorum::One, at(0));
    assert!(matches!(refused, Err(KadError::MaxRecords)));
    assert!(kad.iter_queries().is_empty());
    let id = kad.publish_stored(Ok(()), own, Quorum::One, at(1)).unwrap();
    assert!(matches!(
        kad.query(&id).unwrap().info(),
        QueryInfo::PutRecord { record, .. } if record.expires == Some(at(1 + 36 * 3600))
    ));
    let own = kad.own_provider_record(key(2));
    assert_eq!(own.provider, peer(0));
    assert!(own.addresses.is_empty());
    let refused = kad.announce_stored(Err(KadError::MaxProviderRecords), key(2));
    assert!(matches!(refused, Err(KadError::MaxProviderRecords)));
    assert_eq!(kad.iter_queries().len(), 1);
    assert!(kad.announce_stored(Ok(()), key(2)).is_ok());
    assert_eq!(kad.iter_queries().len(), 2);
}

#[test]
fn buckets_are_found_by_any_kind_of_key() {
    let mut kad = node();
    connect(&mut kad, &peer(1), 1);
    let bytes = peer(1).into_bytes();
    let index = kad.kbucket(peer(1)).unwrap().index();
    assert_eq!(kad.kbucket(bytes.clone()).unwrap().index(), index);
    assert_eq!(kad.kbucket(record::Key::new(bytes)).unwrap().index(), index);
    let id = kad.get_closest_peers(peer(1));
    assert!(matches!(
        kad.query(&id).unwrap().info(),
        QueryInfo::GetClosestPeers { key: k } if *k == peer(1).into_bytes()
    ));
}

#[test]
fn jobs_run_in_the_configured_intervals() {
    let kad = node();
    assert_eq!(kad.put_record_job().unwrap().interval().as_secs(), 3600);
    assert_eq!(kad.add_provider_job().unwrap().interval().as_secs(), 43200);
    let mut config = KademliaConfig::default();
    config.set_replication_interval(None);
    let kad = node_with(config);
    assert_eq!(kad.put_record_job().unwrap().interval().as_secs(), 86400);
    config.set_publication_interval(None).set_provider_publication_interval(None);
    let kad = node_with(config);
    assert!(kad.put_record_job().is_none());
    assert!(kad.add_provider_job().is_none());
}

#[test]
fn a_received_record_is_left_out_of_the_next_replication() {
    let mut kad = node();
    let mut own = Record::new(key(1), vec![]);
    own.publisher = Some(peer(0));
    kad.record_received(peer(1), own, at(0)).unwrap();
    assert!(!kad.put_record_job().unwrap().skips(&key(1)));
    kad.record_received(peer(1), Record::new(key(1), vec![]), at(0)).unwrap();
    assert!(kad.put_record_job().unwrap().skips(&key(1)));
    let mut expired = Record::new(key(2), vec![]);
    expired.expires = Some(at(0));
    kad.record_received(peer(1), expired, at(0)).unwrap();
    assert!(kad.put_record_job().unwrap().skips(&key(2)));
}

#[test]
fn a_lookup_uses_disjoint_paths_when_told_to() {
    let mut config = KademliaConfig::default();
    let mut kad = node_with(config);
    let id = kad.get_closest_peers(b"a".to_vec());
    let target = KeyBytes::hash(&b"a".to_vec());
    assert_eq!(kad.take_query(&id).unwrap().kind(), QueryKind::Closest { target, paths: 1 });
    config.disjoint_query_paths(true).set_parallelism(n(5));
    let mut kad = node_with(config);
    let id = kad.get_closest_peers(b"a".to_vec());
    assert_eq!(kad.take_query(&id).unwrap().kind(), QueryKind::Closest { target, paths: 5 });
}

#[test]
fn a_provider_record_that_the_store_refuses_is_dropped() {
    let mut kad = node();
    for p in 1..5 {
        kad.store_mut().add_provider(ProviderRecord::new(key(9), peer(p), vec![])).unwrap();
    }
    let announced = |p: u32| KadPeer {
        node_id: peer(p),
        multiaddrs: vec![addr(p as u8)],
        connection_ty: KadConnectionType::Connected,
    };
    kad.provider_received(key(1), announced(7), at(0));
    assert!(kad.store_mut().providers(&key(1)).is_empty());
    // A provider that is known already has a place.
    kad.provider_received(key(9), announced(2), at(0));
    let found = kad.store_mut().providers(&key(9));
    assert_eq!(found.len(), 4);
    assert_eq!(found[3].provider, peer(2));
    assert_eq!(found[3].addresses, vec![addr(2)]);
}

#[test]
fn a_put_below_its_quorum_has_failed() {
    let mut kad = node();
    let put = |quorum, context| QueryInfo::PutRecord {
        record: Record::new(key(1), vec![]),
        quorum: n(quorum),
        context,
    };
    let ps = [peer(1), peer(2)];
    let q = ended(0, &ps, put(2, PutRecordContext::Publish));
    let (_, result, _) = result_of(kad.query_finished(q));
    assert!(matches!(result, QueryResult::PutRecord(Ok(ok)) if ok.key == key(1)));
    let q = ended(0, &ps, put(3, PutRecordContext::Publish));
    match result_of(kad.query_finished(q)).1 {
        QueryResult::PutRecord(Err(PutRecordError::QuorumFailed { key: k, success, quorum })) => {
            assert_eq!(k, key(1));
            assert_eq!(success, ps.to_vec());
            assert_eq!(quorum.get(), 3);
        }
        _ => panic!("unexpected result"),
    }
    let q = ended(0, &[], put(1, PutRecordContext::Republish));
    match result_of(kad.query_finished(q)).1 {
        QueryResult::RepublishRecord(Err(PutRecordError::QuorumFailed { success, .. })) => {
            assert!(success.is_empty());
        }
        _ => panic!("unexpected result"),
    }
    let q = ended(0, &[], put(1, PutRecordContext::Replicate));
    assert!(kad.query_finished(q).is_none());
}

#[test]
fn a_received_record_without_any_lifetime_is_stored_as_it_came() {
    let mut config = KademliaConfig::default();
    config.set_record_ttl(None);
    let mut kad = node_with(config);
    let mut record = Record::new(key(1), vec![5]);
    record.expires = Some(at(20));
    kad.record_received(peer(1), record, at(10)).unwrap();
    assert_eq!(kad.store_mut().get(&key(1)).unwrap().expires, Some(at(20)));
    let mut late = Record::new(key(2), vec![5]);
    late.expires = Some(at(10));
    kad.record_received(peer(1), late, at(10)).unwrap();
    assert!(kad.store_mut().get(&key(2)).is_none());
}

#[test]
fn a_new_query_replaces_no_other() {
    let mut kad = node();
    let a = kad.get_closest_peers(b"a".to_vec());
    let b = kad.get_closest_peers(b"b".to_vec());
    kad.take_query(&a).unwrap();
    let c = kad.get_closest_peers(b"c".to_vec());
    assert!(a != c && b != c);
    let running: Vec<QueryId> = kad.iter_queries().iter().map(|q| q.id()).collect();
    assert_eq!(running, vec![b, c]);
    assert!(matches!(
        kad.query(&b).unwrap().info(),
        QueryInfo::GetClosestPeers { key: k } if *k == b"b".to_vec()
    ));
}

#[test]
fn an_announced_provider_is_reported() {
    let mut kad = node();
    let provider = KadPeer {
        node_id: peer(1),
        multiaddrs: vec![addr(1)],
        connection_ty: KadConnectionType::Connected,
    };
    let request = KadRequestMsg::AddProvider { key: key(1), provider };
    assert!(matches!(kad.handle_kad_request(request, peer(1)), Ok(None)));
    let found = kad.provider_peers(&key(1), &peer(2));
    assert_eq!(found.len(), 1);
    assert_eq!(found[0].node_id, peer(1));
    assert_eq!(found[0].multiaddrs, vec![addr(1)]);
}

#[test]
fn all_peers_that_have_stored_a_record_are_reported() {
    let mut config = KademliaConfig::default();
    config.set_replication_factor(n(1));
    let mut kad = node_with(config);
    for p in 1..4 {
        connect(&mut kad, &peer(p), 1);
    }
    let record = Record::new(key(1), vec![]);
    let id = kad.start_put_record(record, Quorum::One, PutRecordContext::Publish);
    kad.discovered(&id, &peer(1), &vec![]);
    kad.discovered(&id, &peer(3), &vec![]);
    let q = kad.take_query(&id).unwrap();
    match result_of(kad.query_timeout(q)).1 {
        QueryResult::PutRecord(Err(PutRecordError::Timeout { success, .. })) => {
            assert_eq!(success.len(), 2);
            assert!(success.contains(&peer(1)));
            assert!(success.contains(&peer(3)));
        }
        _ => panic!("unexpected result"),
    }
}
