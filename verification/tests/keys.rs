use libp2prs_kad::identity::PeerId;
use libp2prs_kad::kbucket::{Distance, Key, KeyBytes};
use libp2prs_kad::record;

fn point(w3: u64) -> KeyBytes {
    KeyBytes { w0: 0, w1: 0, w2: 0, w3 }
}

#[test]
fn hashes_bytes_with_sha256() {
    let expected = KeyBytes {
        w0: 0xba7816bf8f01cfea,
        w1: 0x414140de5dae2223,
        w2: 0xb00361a396177a9c,
        w3: 0xb410ff61f20015ad,
    };
    assert_eq!(KeyBytes::hash(&b"abc".to_vec()), expected);
    assert_eq!(Key::new(b"abc".to_vec()).key_bytes(), expected);
    assert_eq!(Key::new(PeerId::from_bytes(b"abc".to_vec())).key_bytes(), expected);
    assert_eq!(Key::new(record::Key::new(b"abc".to_vec())).key_bytes(), expected);
}

#[test]
fn keeps_the_preimage_of_a_key() {
    let key = Key::new(PeerId::from_bytes(vec![1, 2, 3]));
    assert_eq!(key.preimage().as_bytes(), &vec![1, 2, 3]);
    assert_eq!(key.into_preimage().into_bytes(), vec![1, 2, 3]);
}

#[test]
fn distance_is_the_exclusive_or() {
    let d = point(0b1100).distance(&point(0b1010));
    assert_eq!(d, Distance { w0: 0, w1: 0, w2: 0, w3: 0b0110 });
    assert_eq!(d, point(0b1010).distance(&point(0b1100)));
    let zero = point(7).distance(&point(7));
    assert_eq!(zero.bucket_index(), None);
}

#[test]
fn bucket_index_is_the_highest_bit() {
    assert_eq!(Distance { w0: 0, w1: 0, w2: 0, w3: 1 }.bucket_index(), Some(0));
    assert_eq!(Distance { w0: 0, w1: 0, w2: 0, w3: 6 }.bucket_index(), Some(2));
    assert_eq!(Distance { w0: 0, w1: 0, w2: 1, w3: 6 }.bucket_index(), Some(64));
    assert_eq!(Distance { w0: 0, w1: 3, w2: 0, w3: 0 }.bucket_index(), Some(129));
    assert_eq!(Distance { w0: u64::MAX, w1: 0, w2: 0, w3: 0 }.bucket_index(), Some(255));
    assert_eq!(Distance { w0: 1, w1: 0, w2: 0, w3: 0 }.bucket_index(), Some(192));
}

#[test]
fn distances_are_compared_by_size() {
    let a = Distance { w0: 0, w1: 5, w2: 9, w3: 9 };
    let b = Distance { w0: 0, w1: 6, w2: 0, w3: 0 };
    assert!(a.less(&b));
    assert!(!b.less(&a));
    assert!(!a.less(&a));
}

#[test]
fn random_peers_differ() {
    let a = PeerId::random();
    let b = PeerId::random();
    assert!(a != b);
    assert_eq!(a.as_bytes().len(), 34);
    assert_eq!(a.as_bytes()[0], 0);
    assert_eq!(a.as_bytes()[1], 32);
}
