use libp2prs_kad::identity::{Multiaddr, PeerId};
use libp2prs_kad::kbucket::{Key, KeyBytes, NodeStatus};
use libp2prs_kad::num::NonZeroUsize;
use libp2prs_kad::protocol::KadConnectionType;
use libp2prs_kad::store::MemoryStore;
use libp2prs_kad::time::Instant;
use libp2prs_kad::{Kademlia, KademliaBucketInserts, KademliaConfig};

fn peer(n: u32) -> PeerId {
    PeerId::from_bytes(n.to_be_bytes().to_vec())
}

fn addr(n: u8) -> Multiaddr {
    Multiaddr::from_bytes(vec![4, 127, 0, 0, n])
}

fn at(secs: u64) -> Instant {
    Instant { nanos: secs as u128 * 1_000_000_000 }
}

fn point(p: &PeerId) -> KeyBytes {
    KeyBytes::hash(p.as_bytes())
}

fn config(k: usize) -> KademliaConfig {
    let mut config = KademliaConfig::default();
    config.set_replication_factor(NonZeroUsize::new(k).unwrap());
    config
}

fn node(config: KademliaConfig) -> Kademlia<MemoryStore> {
    Kademlia::with_config(peer(0), MemoryStore::new(16, 1024, 16), config)
}

fn connect(kad: &mut Kademlia<MemoryStore>, p: &PeerId, a: u8, now: Instant) {
    kad.handle_peer_connected(p.clone());
    kad.connection_updated_at(p.clone(), Some(addr(a)), NodeStatus::Connected, now);
}

fn bucket_of(p: &PeerId) -> usize {
    point(&peer(0)).distance(&point(p)).bucket_index().unwrap()
}

fn peers_in_bucket(bucket: usize, count: usize) -> Vec<PeerId> {
    (1..).map(peer).filter(|p| bucket_of(p) == bucket).take(count).collect()
}

#[test]
fn a_new_table_is_empty() {
    let kad = node(config(20));
    assert!(kad.kbuckets().is_empty());
    assert!(kad.kbucket(peer(0).into_bytes()).is_none());
    assert_eq!(kad.kbucket(peer(1).into_bytes()).unwrap().num_entries(), 0);
}

#[test]
fn a_connected_peer_with_an_address_is_inserted() {
    let mut kad = node(config(20));
    connect(&mut kad, &peer(1), 1, at(0));
    let buckets = kad.kbuckets();
    assert_eq!(buckets.len(), 1);
    assert_eq!(buckets[0].index(), bucket_of(&peer(1)));
    let entries = buckets[0].entries();
    assert_eq!(entries.len(), 1);
    assert_eq!(entries[0].node.key.preimage(), &peer(1));
    assert_eq!(entries[0].status, NodeStatus::Connected);
    assert_eq!(entries[0].node.value.clone().into_vec(), vec![addr(1)]);
}

#[test]
fn buckets_come_with_the_closest_first() {
    let mut kad = node(config(20));
    for n in 1..40 {
        connect(&mut kad, &peer(n), 1, at(0));
    }
    let indices: Vec<usize> = kad.kbuckets().iter().map(|b| b.index()).collect();
    let mut expected: Vec<usize> = (1..40).map(|n| bucket_of(&peer(n))).collect();
    expected.sort();
    expected.dedup();
    assert_eq!(indices, expected);
    let b = kad.kbucket(peer(1).into_bytes()).unwrap();
    assert_eq!(b.index(), bucket_of(&peer(1)));
    assert!(b.contains(&point(&peer(0)).distance(&point(&peer(1)))));
    assert!(!b.contains(&point(&peer(0)).distance(&point(&peer(0)))));
}

#[test]
fn a_peer_without_an_address_is_not_inserted() {
    let mut kad = node(config(20));
    kad.handle_peer_connected(peer(1));
    kad.connection_updated_at(peer(1), None, NodeStatus::Connected, at(0));
    assert!(kad.kbuckets().is_empty());
}

#[test]
fn a_disconnected_peer_is_not_inserted() {
    let mut kad = node(config(20));
    kad.connection_updated_at(peer(1), Some(addr(1)), NodeStatus::Disconnected, at(0));
    assert!(kad.kbuckets().is_empty());
}

#[test]
fn nothing_is_inserted_by_itself_in_manual_mode() {
    let mut c = config(20);
    c.set_kbucket_inserts(KademliaBucketInserts::Manual);
    let mut kad = node(c);
    connect(&mut kad, &peer(1), 1, at(0));
    assert!(kad.kbuckets().is_empty());
}

#[test]
fn the_local_node_is_not_inserted() {
    let mut kad = node(config(20));
    connect(&mut kad, &peer(0), 1, at(0));
    assert!(kad.kbuckets().is_empty());
    assert!(kad.remove_peer(&peer(0)).is_none());
}

#[test]
fn a_known_peer_is_updated() {
    let mut kad = node(config(20));
    connect(&mut kad, &peer(1), 1, at(0));
    kad.connection_updated_at(peer(1), Some(addr(2)), NodeStatus::Connected, at(0));
    kad.connection_updated_at(peer(1), Some(addr(2)), NodeStatus::Disconnected, at(0));
    let e = kad.remove_peer(&peer(1)).unwrap();
    assert_eq!(e.status, NodeStatus::Disconnected);
    assert_eq!(e.node.value.into_vec(), vec![addr(1), addr(2)]);
    assert!(kad.remove_peer(&peer(1)).is_none());
    assert!(kad.kbuckets().is_empty());
}

#[test]
fn a_peer_that_disconnects_stays_in_the_table() {
    let mut kad = node(config(20));
    connect(&mut kad, &peer(1), 1, at(0));
    kad.handle_peer_disconnected(peer(1));
    let buckets = kad.kbuckets();
    assert_eq!(buckets[0].entries()[0].status, NodeStatus::Disconnected);
}

#[test]
fn disconnected_entries_come_first_in_a_bucket() {
    let mut kad = node(config(20));
    let ps = peers_in_bucket(255, 3);
    for p in &ps {
        connect(&mut kad, p, 1, at(0));
    }
    kad.handle_peer_disconnected(ps[2].clone());
    kad.handle_peer_disconnected(ps[1].clone());
    let order: Vec<PeerId> = kad.kbuckets()[0]
        .entries()
        .iter()
        .map(|e| e.node.key.preimage().clone())
        .collect();
    assert_eq!(order, vec![ps[2].clone(), ps[1].clone(), ps[0].clone()]);
}

#[test]
fn a_full_bucket_of_connected_peers_takes_no_more() {
    let mut kad = node(config(20));
    let ps = peers_in_bucket(255, 21);
    for p in &ps {
        connect(&mut kad, p, 1, at(0));
    }
    assert_eq!(kad.kbuckets()[0].num_entries(), 20);
    assert!(kad.remove_peer(&ps[20]).is_none());
}

#[test]
fn a_pending_peer_takes_the_place_of_a_disconnected_one() {
    let mut kad = node(config(20));
    let ps = peers_in_bucket(255, 22);
    for p in ps.iter().take(20) {
        connect(&mut kad, p, 1, at(0));
    }
    kad.handle_peer_disconnected(ps[7].clone());
    connect(&mut kad, &ps[20], 2, at(10));
    // The pending place is taken.
    connect(&mut kad, &ps[21], 3, at(10));
    let ids = |kad: &Kademlia<MemoryStore>| -> Vec<PeerId> {
        kad.kbuckets()[0].entries().iter().map(|e| e.node.key.preimage().clone()).collect()
    };
    assert!(ids(&kad).contains(&ps[7]));
    assert!(!ids(&kad).contains(&ps[20]));
    kad.apply_pending_at(at(69));
    assert!(ids(&kad).contains(&ps[7]));
    kad.apply_pending_at(at(70));
    assert!(!ids(&kad).contains(&ps[7]));
    assert!(ids(&kad).contains(&ps[20]));
    assert!(!ids(&kad).contains(&ps[21]));
    assert_eq!(ids(&kad).len(), 20);
    kad.apply_pending();
    assert_eq!(ids(&kad).len(), 20);
}

#[test]
fn a_pending_peer_is_dropped_when_the_other_reconnects() {
    let mut kad = node(config(20));
    let ps = peers_in_bucket(255, 21);
    for p in ps.iter().take(20) {
        connect(&mut kad, p, 1, at(0));
    }
    kad.handle_peer_disconnected(ps[7].clone());
    connect(&mut kad, &ps[20], 2, at(10));
    // A pending peer can be updated and removed like any other.
    kad.connection_updated_at(ps[20].clone(), Some(addr(9)), NodeStatus::Disconnected, at(10));
    kad.connection_updated_at(ps[20].clone(), None, NodeStatus::Connected, at(10));
    connect(&mut kad, &ps[7], 1, at(20));
    kad.apply_pending_at(at(1000));
    assert!(kad.remove_peer(&ps[20]).is_none());
    assert_eq!(kad.remove_peer(&ps[7]).unwrap().status, NodeStatus::Connected);
}

#[test]
fn a_pending_peer_can_be_removed() {
    let mut kad = node(config(20));
    let ps = peers_in_bucket(255, 21);
    for p in ps.iter().take(20) {
        connect(&mut kad, p, 1, at(0));
    }
    kad.handle_peer_disconnected(ps[7].clone());
    connect(&mut kad, &ps[20], 2, at(10));
    kad.connection_updated_at(ps[20].clone(), Some(addr(9)), NodeStatus::Connected, at(10));
    let e = kad.remove_peer(&ps[20]).unwrap();
    assert_eq!(e.node.value.into_vec(), vec![addr(2), addr(9)]);
    kad.apply_pending_at(at(1000));
    assert!(kad.remove_peer(&ps[7]).is_some());
}

#[test]
fn the_closest_peers_are_reported() {
    let mut kad = node(config(5));
    for n in 1..30 {
        connect(&mut kad, &peer(n), n as u8, at(0));
    }
    kad.handle_peer_disconnected(peer(3));
    let target = Key::new(b"some key".to_vec());
    let t = target.key_bytes();
    let mut expected: Vec<PeerId> = (1..30).map(peer).filter(|p| *p != peer(4)).collect();
    expected.sort_by(|a, b| {
        if t.distance(&point(a)).less(&t.distance(&point(b))) {
            std::cmp::Ordering::Less
        } else {
            std::cmp::Ordering::Greater
        }
    });
    let found = kad.find_closest(&target, &peer(4));
    let ids: Vec<PeerId> = found.iter().map(|p| p.node_id.clone()).collect();
    assert_eq!(ids, expected[..5].to_vec());
    for p in &found {
        let n = p.node_id.as_bytes()[3];
        assert_eq!(p.multiaddrs, vec![addr(n)]);
        let ty = if n == 3 {
            KadConnectionType::NotConnected
        } else {
            KadConnectionType::Connected
        };
        assert_eq!(p.connection_ty, ty);
    }
}

#[test]
fn the_source_is_never_reported() {
    let mut kad = node(config(20));
    for n in 1..10 {
        connect(&mut kad, &peer(n), 1, at(0));
    }
    let found = kad.find_closest(&Key::new(peer(5)), &peer(5));
    assert_eq!(found.len(), 8);
    assert!(found.iter().all(|p| p.node_id != peer(5)));
    let found = kad.find_closest(&Key::new(peer(5)), &peer(6));
    assert_eq!(found[0].node_id, peer(5));
}

#[test]
fn no_peers_are_reported_for_the_local_key() {
    let mut kad = node(config(20));
    connect(&mut kad, &peer(1), 1, at(0));
    assert!(kad.find_closest(&Key::new(peer(0)), &peer(9)).is_empty());
}

#[test]
fn a_lookup_plan_starts_from_the_closest_peers() {
    let mut kad = node(config(20));
    for n in 1..8 {
        connect(&mut kad, &peer(n), 1, at(0));
    }
    let plan = kad.get_closest_peers2(b"abc".to_vec());
    assert_eq!(plan.target.preimage(), &b"abc".to_vec());
    assert_eq!(plan.seeds.len(), 7);
    let t = plan.target.key_bytes();
    for w in plan.seeds.windows(2) {
        assert!(t.distance(&w[0].key_bytes()).less(&t.distance(&w[1].key_bytes())));
    }
}
