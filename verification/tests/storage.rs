use libp2prs_kad::error::KadError;
use libp2prs_kad::identity::{Multiaddr, PeerId};
use libp2prs_kad::record::{Key, ProviderRecord, Record};
use libp2prs_kad::store::{MemoryStore, RecordStore};

fn key(b: u8) -> Key {
    Key::new(vec![b])
}

fn peer(b: u8) -> PeerId {
    PeerId::from_bytes(vec![b])
}

#[test]
fn a_record_is_found_until_it_is_removed() {
    let mut store = MemoryStore::new(10, 100, 10);
    assert!(store.get(&key(1)).is_none());
    assert!(store.put(Record::new(key(1), vec![5])).is_ok());
    assert!(store.put(Record::new(key(2), vec![6])).is_ok());
    assert!(store.put(Record::new(key(1), vec![7])).is_ok());
    assert_eq!(store.get(&key(1)).unwrap().value, vec![7]);
    assert_eq!(store.get(&key(2)).unwrap().value, vec![6]);
    store.remove(&key(1));
    assert!(store.get(&key(1)).is_none());
    assert!(store.get(&key(2)).is_some());
}

#[test]
fn a_full_store_refuses_new_records_only() {
    let mut store = MemoryStore::new(1, 100, 10);
    assert!(store.put(Record::new(key(1), vec![5])).is_ok());
    assert!(matches!(store.put(Record::new(key(2), vec![5])), Err(KadError::MaxRecords)));
    assert!(store.put(Record::new(key(1), vec![6])).is_ok());
    assert!(store.get(&key(2)).is_none());
    assert_eq!(store.get(&key(1)).unwrap().value, vec![6]);
}

#[test]
fn a_value_that_is_too_large_is_refused() {
    let mut store = MemoryStore::new(10, 3, 10);
    assert!(store.put(Record::new(key(1), vec![1, 2])).is_ok());
    assert!(matches!(
        store.put(Record::new(key(1), vec![1, 2, 3])),
        Err(KadError::ValueTooLarge)
    ));
    assert_eq!(store.get(&key(1)).unwrap().value, vec![1, 2]);
}

#[test]
fn providers_are_kept_by_key() {
    let mut store = MemoryStore::new(10, 100, 3);
    let addr = Multiaddr::from_bytes(vec![9]);
    assert!(store.add_provider(ProviderRecord::new(key(1), peer(1), vec![])).is_ok());
    assert!(store.add_provider(ProviderRecord::new(key(1), peer(2), vec![])).is_ok());
    assert!(store.add_provider(ProviderRecord::new(key(2), peer(1), vec![])).is_ok());
    assert!(matches!(
        store.add_provider(ProviderRecord::new(key(3), peer(1), vec![])),
        Err(KadError::MaxProviderRecords)
    ));
    assert!(store
        .add_provider(ProviderRecord::new(key(1), peer(1), vec![addr.clone()]))
        .is_ok());
    let found = store.providers(&key(1));
    assert_eq!(found.len(), 2);
    assert_eq!(found[0].provider, peer(2));
    assert_eq!(found[1].provider, peer(1));
    assert_eq!(found[1].addresses, vec![addr]);
    store.remove_provider(&key(1), &peer(2));
    assert_eq!(store.providers(&key(1)).len(), 1);
    assert_eq!(store.providers(&key(2)).len(), 1);
    assert_eq!(store.providers(&key(3)).len(), 0);
}
