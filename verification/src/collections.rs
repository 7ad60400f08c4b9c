//! Sets of peers and address books, kept in hash tables with the FNV hash function.
use crate::identity::{Multiaddr, PeerId};
use fnv::FnvHashMap;
use fnv::FnvHashSet;
use smallvec::SmallVec;
use vstd::prelude::*;

verus! {

/// `fnv::FnvHasher`, the hash function of the tables.
#[verifier::external_type_specification]
#[verifier::external_body]
pub struct ExFnvHasher(fnv::FnvHasher);

/// `core::hash::BuildHasherDefault`, which starts the hash function afresh for every key.
#[verifier::external_type_specification]
#[verifier::external_body]
#[verifier::reject_recursive_types(H)]
pub struct ExBuildHasherDefault<H>(core::hash::BuildHasherDefault<H>);

/// The byte strings that a set holds.
pub uninterp spec fn set_contents(s: FnvHashSet<Vec<u8>>) -> Set<Seq<u8>>;

/// Calls `default` of `fnv::FnvHashSet`: the new set is empty.
#[verifier::external_body]
fn set_new() -> (r: FnvHashSet<Vec<u8>>)
    ensures
        set_contents(r) == Set::<Seq<u8>>::empty(),
{
    FnvHashSet::default()
}

/// Calls `insert` of `fnv::FnvHashSet`: the set then holds the bytes as well, and the result says
/// whether it did not before.
#[verifier::external_body]
fn set_insert(s: &mut FnvHashSet<Vec<u8>>, k: Vec<u8>) -> (r: bool)
    ensures
        set_contents(*final(s)) == set_contents(*old(s)).insert(k@),
        r == !set_contents(*old(s)).contains(k@),
{
    s.insert(k)
}

/// Calls `remove` of `fnv::FnvHashSet`: the set then holds the bytes no more, and the result says
/// whether it did before.
#[verifier::external_body]
fn set_remove(s: &mut FnvHashSet<Vec<u8>>, k: &Vec<u8>) -> (r: bool)
    ensures
        set_contents(*final(s)) == set_contents(*old(s)).remove(k@),
        r == set_contents(*old(s)).contains(k@),
{
    s.remove(k)
}

/// Calls `contains` of `fnv::FnvHashSet`: whether the set holds the bytes.
#[verifier::external_body]
fn set_contains(s: &FnvHashSet<Vec<u8>>, k: &Vec<u8>) -> (r: bool)
    ensures
        r == set_contents(*s).contains(k@),
{
    s.contains(k)
}

/// A set of byte strings.
#[derive(Debug)]
pub struct ByteSet {
    set: FnvHashSet<Vec<u8>>,
}

impl View for ByteSet {
    type V = Set<Seq<u8>>;

    closed spec fn view(&self) -> Set<Seq<u8>> {
        set_contents(self.set)
    }
}

impl ByteSet {
    /// An empty set.
    pub fn new() -> (r: Self)
        ensures
            r@ == Set::<Seq<u8>>::empty(),
    {
        ByteSet { set: set_new() }
    }

    /// Adds `k`. Returns whether the set did not hold it already.
    pub fn insert(&mut self, k: Vec<u8>) -> (r: bool)
        ensures
            final(self)@ == old(self)@.insert(k@),
            r == !old(self)@.contains(k@),
    {
        set_insert(&mut self.set, k)
    }

    /// Takes `k` out. Returns whether the set held it.
    pub fn remove(&mut self, k: &Vec<u8>) -> (r: bool)
        ensures
            final(self)@ == old(self)@.remove(k@),
            r == old(self)@.contains(k@),
    {
        set_remove(&mut self.set, k)
    }

    /// Whether the set holds `k`.
    pub fn contains(&self, k: &Vec<u8>) -> (r: bool)
        ensures
            r == self@.contains(k@),
    {
        set_contains(&self.set, k)
    }
}

/// The addresses of peers: `fnv::FnvHashMap` with values of `smallvec::SmallVec`.
#[verifier::external_body]
pub struct AddressTable {
    map: FnvHashMap<Vec<u8>, SmallVec<[Multiaddr; 8]>>,
}

/// The addresses of each of some peers.
pub type AddressMap = Map<Seq<u8>, Seq<Seq<u8>>>;

/// The addresses that a table holds for each peer.
pub uninterp spec fn table_contents(t: AddressTable) -> AddressMap;

/// Calls `default` of `fnv::FnvHashMap`: the new table is empty.
#[verifier::external_body]
fn table_new() -> (r: AddressTable)
    ensures
        table_contents(r) == AddressMap::empty(),
{
    AddressTable { map: FnvHashMap::default() }
}

/// Collects the addresses into a `smallvec::SmallVec` and calls `insert` of `fnv::FnvHashMap` with
/// it: the table then holds these addresses for the peer, in this order, and none
/// that it held for the peer before.
#[verifier::external_body]
fn table_insert(t: &mut AddressTable, k: Vec<u8>, addrs: Vec<Multiaddr>)
    ensures
        table_contents(*final(t)) == table_contents(*old(t)).insert(k@, addrs.deep_view()),
{
    t.map.insert(k, addrs.into_iter().collect());
}

/// Calls `get` of `fnv::FnvHashMap` and copies the addresses that it finds, if any, in their
/// order.
#[verifier::external_body]
fn table_get(t: &AddressTable, k: &Vec<u8>) -> (r: Option<Vec<Multiaddr>>)
    ensures
        r is Some <==> table_contents(*t).contains_key(k@),
        r matches Some(v) ==> v.deep_view() == table_contents(*t)[k@],
{
    t.map.get(k).map(|v| v.to_vec())
}

/// The addresses of peers that were discovered.
pub struct AddressBook {
    table: AddressTable,
}

impl View for AddressBook {
    type V = AddressMap;

    closed spec fn view(&self) -> AddressMap {
        table_contents(self.table)
    }
}

impl AddressBook {
    /// An empty book.
    pub fn new() -> (r: Self)
        ensures
            r@ == AddressMap::empty(),
    {
        AddressBook { table: table_new() }
    }

    /// Notes the addresses of a peer, in place of those that were noted before.
    pub fn insert(&mut self, k: Vec<u8>, addrs: Vec<Multiaddr>)
        ensures
            final(self)@ == old(self)@.insert(k@, addrs.deep_view()),
    {
        table_insert(&mut self.table, k, addrs);
    }

    /// The addresses that were noted of a peer.
    pub fn get(&self, k: &Vec<u8>) -> (r: Option<Vec<Multiaddr>>)
        ensures
            r is Some <==> self@.contains_key(k@),
            r matches Some(v) ==> v.deep_view() == self@[k@],
    {
        table_get(&self.table, k)
    }
}

/// A set of peers.
#[derive(Debug)]
pub struct PeerSet {
    peers: Vec<PeerId>,
}

impl View for PeerSet {
    type V = Set<Seq<u8>>;

    closed spec fn view(&self) -> Set<Seq<u8>> {
        self.peers.deep_view().to_set()
    }
}

impl Clone for PeerSet {
    fn clone(&self) -> (r: Self)
        ensures
            r@ == self@,
    {
        proof {
            use_type_invariant(self);
        }
        let peers = self.peers.clone();
        assert(peers.deep_view() =~= self.peers.deep_view());
        PeerSet { peers }
    }
}

impl PeerSet {
    /// The set holds no peer twice.
    #[verifier::type_invariant]
    spec fn no_peer_twice(self) -> bool {
        self.peers.deep_view().no_duplicates()
    }

    /// An empty set.
    pub fn new() -> (r: Self)
        ensures
            r@ == Set::<Seq<u8>>::empty(),
    {
        let peers: Vec<PeerId> = Vec::new();
        assert(peers.deep_view().to_set() =~= Set::<Seq<u8>>::empty());
        PeerSet { peers }
    }

    /// Whether the set holds the peer.
    pub fn contains(&self, peer: &PeerId) -> (r: bool)
        ensures
            r == self@.contains(peer@),
    {
        let ghost s = self.peers.deep_view();
        let mut i: usize = 0;
        while i < self.peers.len()
            invariant
                i <= self.peers.len(),
                s == self.peers.deep_view(),
                forall|j: int| 0 <= j < i ==> s[j] != peer@,
            decreases self.peers.len() - i,
        {
            if self.peers[i] == *peer {
                assert(s[i as int] == peer@);
                return true;
            }
            i = i + 1;
        }
        false
    }

    /// Adds a peer. Returns whether the set did not hold it already.
    pub fn insert(&mut self, peer: PeerId) -> (r: bool)
        ensures
            final(self)@ == old(self)@.insert(peer@),
            r == !old(self)@.contains(peer@),
    {
        if self.contains(&peer) {
            assert(self@.insert(peer@) =~= self@);
            return false;
        }
        let ghost s = self.peers.deep_view();
        proof {
            use_type_invariant(&*self);
        }
        let mut peers: Vec<PeerId> = Vec::new();
        assert(peers.deep_view() =~= Seq::empty());
        std::mem::swap(&mut self.peers, &mut peers);
        peers.push(peer);
        proof {
            let t = peers.deep_view();
            assert(t =~= s.push(peer@));
            assert(t.to_set() =~= s.to_set().insert(peer@)) by {
                assert forall|x: Seq<u8>| #[trigger] t.to_set().contains(x) <==> s.to_set().insert(
                    peer@,
                ).contains(x) by {
                    if s.contains(x) {
                        let k = choose|k: int| 0 <= k < s.len() && s[k] == x;
                        assert(t[k] == x);
                    }
                    if x == peer@ {
                        assert(t[s.len() as int] == x);
                    }
                }
            }
            assert(!s.contains(peer@));
        }
        self.peers = peers;
        true
    }

    /// The peers in the set, in the order in which they were added.
    pub fn as_vec(&self) -> (r: &Vec<PeerId>)
        ensures
            r.deep_view().to_set() == self@,
            r.deep_view().no_duplicates(),
    {
        proof {
            use_type_invariant(self);
        }
        &self.peers
    }
}

} // verus!
