//! The operations of the local node.
use crate::collections::PeerSet;
use crate::config::Quorum;
use crate::error::{KadError, KadErrorView, Result};
use crate::identity::{Multiaddr, PeerId};
use crate::info::{
    AddProviderContext, PeerRecord, PeerRecordView, PutRecordContext, QueryInfo, QueryInfoView,
};
use crate::kad::Kademlia;
use crate::kad::model::{KademliaView, ids_of, noted};
use crate::kbucket::key::{Key, KeyBytes, Preimage, hash_of};
use crate::num::NonZeroUsize;
use crate::protocol::{KadPeer, KadPeerView};
use crate::query::{
    QueryId, QueryInner, QueryModel, QueryStats, lemma_query_at, lemma_replaced_get,
    lemma_with_query_get,
};
use crate::record::{self, ProviderRecord, Record};
use crate::store::RecordStore;
use crate::time::{Instant, expiry};
use vstd::prelude::*;

verus! {

/// Where a lookup starts.
pub struct LookupPlan<K> {
    /// The key that is looked up.
    pub target: Key<K>,
    /// The peers that are asked first, the closest first.
    pub seeds: Vec<Key<PeerId>>,
}

impl<TStore: RecordStore> Kademlia<TStore> {
    /// Starts a lookup of the peers closest to `t`.
    fn start_lookup(&mut self, t: KeyBytes, info: QueryInfo) -> (r: QueryId)
        requires
            old(self)@.inv(),
        ensures
            final(self).clock_spec() == old(self).clock_spec(),
            final(self).store_spec() == old(self).store_spec(),
            r.0 == old(self)@.queries.next_id,
            old(self)@.queries.opens(r, final(self)@.queries),
            final(self)@ == old(self)@.looking_up(t, info@),
            final(self)@.inv(),
    {
        let peers = self.kbuckets.closest_keys(t);
        let inner = QueryInner::new(info);
        self.queries.add_iter_closest(t, peers, inner)
    }

    /// Prepares an iterative lookup of the closest peers to the given key that is not part of the
    /// queries of the behaviour.
    pub fn get_closest_peers2<K: Preimage>(&self, key: K) -> (r: LookupPlan<K>)
        requires
            self@.inv(),
        ensures
            r.target.preimage_spec() == key,
            r.target.point() == hash_of(key.hashed_bytes()),
            r.seeds.deep_view() == self@.table.closest_keys(hash_of(key.hashed_bytes())),
    {
        let target = Key::new(key);
        let seeds = self.kbuckets.closest_keys(target.key_bytes());
        LookupPlan { target, seeds }
    }

    /// Initiates an iterative query for the closest peers to the given key.
    pub fn get_closest_peers<K: Preimage>(&mut self, key: K) -> (r: QueryId)
        requires
            old(self)@.inv(),
        ensures
            final(self).clock_spec() == old(self).clock_spec(),
            final(self).store_spec() == old(self).store_spec(),
            r.0 == old(self)@.queries.next_id,
            old(self)@.queries.opens(r, final(self)@.queries),
            final(self)@ == old(self)@.looking_up(
                hash_of(key.hashed_bytes()),
                QueryInfoView::GetClosestPeers { key: key.hashed_bytes() },
            ),
            final(self)@.inv(),
    {
        let bytes: Vec<u8> = key.bytes_to_hash().clone();
        assert(bytes@ =~= key.hashed_bytes());
        let t: KeyBytes = KeyBytes::hash(&bytes);
        self.start_lookup(t, QueryInfo::GetClosestPeers { key: bytes })
    }

    /// Performs a lookup for a record in the DHT at `now`.
    pub fn get_record_at(&mut self, key: &record::Key, quorum: Quorum, now: Instant) -> (r: QueryId)
        requires
            old(self)@.inv(),
        ensures
            final(self).clock_spec() == old(self).clock_spec(),
            r.0 == old(self)@.queries.next_id,
            old(self)@.queries.opens(r, final(self)@.queries),
            final(self)@ == old(self)@.record_sought(key@, quorum, now),
            !old(self)@.outdated(key@, now) ==> final(self).store_spec() == old(self).store_spec(),
            final(self)@.inv(),
    {
        let ghost v0 = self@;
        let quorum: NonZeroUsize = quorum.eval(self.queries.config().replication_factor);
        let mut records: Vec<PeerRecord> = Vec::new();
        assert(records.deep_view() =~= Seq::empty());
        if let Some(record) = self.store.get(key) {
            if record.is_expired(now) {
                self.store.remove(key);
            } else {
                records.push(PeerRecord { peer: None, record });
                assert(records.deep_view() =~= seq![
                    PeerRecordView { peer: None, record: record@ },
                ]);
            }
        }
        let done: bool = records.len() >= quorum.get();
        let info = QueryInfo::GetRecord { key: key.clone(), records, quorum, cache_at: None };
        let t: KeyBytes = KeyBytes::hash(key.as_bytes());
        let ghost v1 = self@;
        assert(v1 == v0.expunged(key@, now));
        let id: QueryId = self.start_lookup(t, info);
        let ghost v2 = self@;
        proof {
            let q = v1.queries.closest_query(id, t, v1.table.closest_keys(t), info@);
            lemma_with_query_get(v1.queries, q, id);
            lemma_query_at(v2.queries.queries, id);
            assert(v2.queries.get(id) == Some(q));
        }
        // Instantly finish the query if we already have enough records.
        if done {
            let query = self.queries.get_mut(&id).unwrap();
            query.finish();
            proof {
                let q = QueryModel { finished: true, ..v2.queries.get(id)->0 };
                assert forall|other: QueryId| #[trigger]
                    v2.queries.replaced(id, q).get(other) == if other == id {
                        Some(q)
                    } else {
                        v2.queries.get(other)
                    } by {
                    lemma_replaced_get(v2.queries, id, q, other);
                }
                lemma_replaced_get(v2.queries, id, q, id);
            }
        }
        id
    }

    /// Performs a lookup for a record in the DHT.
    pub fn get_record(&mut self, key: &record::Key, quorum: Quorum) -> (r: QueryId)
        requires
            old(self)@.inv(),
        ensures
            final(self).clock_spec() == old(self).clock_spec(),
            r.0 == old(self)@.queries.next_id,
            old(self)@.queries.opens(r, final(self)@.queries),
            exists|now: Instant|
                now.early() && old(self).clock_spec().may_show(now) && final(self)@
                    == #[trigger] old(self)@.record_sought(key@, quorum, now) && (old(self)@.outdated(key@, now) || final(self).store_spec()
                    == old(self).store_spec()),
            final(self)@.inv(),
    {
        let now: Instant = self.clock.now();
        self.get_record_at(key, quorum, now)
    }

    /// The record that is stored locally when the local node publishes `record`.
    pub fn own_record(&self, record: Record) -> (r: Record)
        ensures
            r@ == self@.own_record(record@),
    {
        Record { publisher: Some(self.kbuckets.local_key().preimage().clone()), ..record }
    }

    /// Starts the publication of a record of the local node at `now`, if the store has stored it.
    pub fn publish_stored(
        &mut self,
        outcome: Result<()>,
        record: Record,
        quorum: Quorum,
        now: Instant,
    ) -> (r: Result<QueryId>)
        requires
            old(self)@.inv(),
            now.early(),
        ensures
            final(self).clock_spec() == old(self).clock_spec(),
            final(self).store_spec() == old(self).store_spec(),
            r matches Ok(id) ==> old(self)@.queries.opens(id, final(self)@.queries),
            outcome is Ok ==> (r matches Ok(id) && id.0 == old(self)@.queries.next_id)
                && final(self)@ == old(self)@.putting(
                old(self)@.lasting(record@, now),
                quorum,
                PutRecordContext::Publish,
            ),
            outcome matches Err(e) ==> r == Err::<QueryId, _>(e) && final(self)@ == old(self)@,
            final(self)@.inv(),
    {
        match outcome {
            Ok(()) => {},
            Err(e) => {
                return Err(e);
            },
        }
        let mut record = record;
        if record.expires.is_none() {
            record.expires = expiry(now, self.record_ttl);
        }
        Ok(self.start_put_record(record, quorum, PutRecordContext::Publish))
    }

    /// Stores a record in the DHT at `now`.
    ///
    /// Returns `Ok` if a record has been stored locally, providing the `QueryId` of the initial
    /// query that replicates the record in the DHT.
    ///
    /// The record is always stored locally with the given expiration. If the record's expiration
    /// is `None`, the common case, it does not expire in local storage but is still replicated
    /// with the configured record TTL. To remove the record locally and stop it from being
    /// re-published in the DHT, see [`Kademlia::remove_record`].
    pub fn put_record_at(&mut self, record: Record, quorum: Quorum, now: Instant) -> (r: Result<
        QueryId,
    >)
        requires
            old(self)@.inv(),
            now.early(),
        ensures
            final(self).clock_spec() == old(self).clock_spec(),
            r matches Ok(id) ==> old(self)@.queries.opens(id, final(self)@.queries),
            r matches Ok(id) ==> id.0 == old(self)@.queries.next_id && final(self)@
                == old(self)@.record_put(record@, quorum, now),
            r matches Err(e) ==> final(self)@ == old(self)@ && old(self).store_spec().refuses_record(
                old(self)@.own_record(record@),
                e@,
            ),
            final(self)@.inv(),
    {
        let record = self.own_record(record);
        let outcome: Result<()> = self.store.put(record.clone());
        self.publish_stored(outcome, record, quorum, now)
    }

    /// Stores a record in the DHT.
    ///
    /// Returns `Ok` if a record has been stored locally, providing the `QueryId` of the initial
    /// query that replicates the record in the DHT. See [`Kademlia::put_record_at`].
    pub fn put_record(&mut self, record: Record, quorum: Quorum) -> (r: Result<QueryId>)
        requires
            old(self)@.inv(),
        ensures
            final(self).clock_spec() == old(self).clock_spec(),
            r matches Ok(id) ==> old(self)@.queries.opens(id, final(self)@.queries),
            r matches Ok(id) ==> id.0 == old(self)@.queries.next_id && exists|now: Instant|
                now.early() && old(self).clock_spec().may_show(now) && final(self)@
                    == #[trigger] old(self)@.record_put(record@, quorum, now),
            r matches Err(e) ==> final(self)@ == old(self)@ && old(self).store_spec().refuses_record(
                old(self)@.own_record(record@),
                e@,
            ),
            final(self)@.inv(),
    {
        let now: Instant = self.clock.now();
        self.put_record_at(record, quorum, now)
    }

    /// Removes the record with the given key from _local_ storage, if the local node is the
    /// publisher of the record.
    ///
    /// Has no effect if a record for the given key is stored locally but the local node is not a
    /// publisher of the record.
    ///
    /// This is a _local_ operation. However, it also has the effect that the record will no
    /// longer be periodically re-published, allowing the record to eventually expire throughout
    /// the DHT.
    pub fn remove_record(&mut self, key: &record::Key)
        requires
            old(self)@.inv(),
        ensures
            final(self).clock_spec() == old(self).clock_spec(),
            final(self)@ == old(self)@.record_removed(key@),
            (old(self)@.store.get(key@) matches Some(r) && r.publisher == Some(
                old(self)@.table.local.id,
            )) || final(self).store_spec() == old(self).store_spec(),
            final(self)@.inv(),
    {
        if let Some(record) = self.store.get(key) {
            if let Some(publisher) = &record.publisher {
                if publisher == self.kbuckets.local_key().preimage() {
                    self.store.remove(key);
                }
            }
        }
    }

    /// Bootstraps the local node to join the DHT.
    ///
    /// Bootstrapping is a multi-step operation that starts with a lookup of the local node's own
    /// ID in the DHT. This introduces the local node to the other nodes in the DHT and populates
    /// its routing table with the closest neighbours.
    ///
    /// Subsequently, all buckets farther from the bucket of the closest neighbour are refreshed
    /// by initiating an additional bootstrapping query for each such bucket with random keys.
    ///
    /// Returns `Ok` if bootstrapping has been initiated with a self-lookup, providing the
    /// `QueryId` for the entire bootstrapping process.
    ///
    /// Returns `Err` if bootstrapping is impossible due an empty routing table.
    pub fn bootstrap(&mut self) -> (r: Result<QueryId>)
        requires
            old(self)@.inv(),
        ensures
            final(self).clock_spec() == old(self).clock_spec(),
            final(self).store_spec() == old(self).store_spec(),
            r matches Ok(id) ==> old(self)@.queries.opens(id, final(self)@.queries),
            r is Err <==> old(self)@.table.entries().len() == 0,
            r matches Err(e) ==> e@ == KadErrorView::NoKnownPeers && final(self)@ == old(self)@,
            r matches Ok(id) ==> id.0 == old(self)@.queries.next_id && final(self)@
                == old(self)@.looking_up(
                old(self)@.table.local.point,
                QueryInfoView::Bootstrap { peer: old(self)@.table.local.id, remaining: None },
            ),
            final(self)@.inv(),
    {
        let t: KeyBytes = self.kbuckets.local_key().key_bytes();
        let peers = self.kbuckets.closest(t);
        proof {
            let es = self@.table.entries();
            let s = peers.deep_view();
            if es.len() > 0 {
                assert(es.contains(es[0]));
                assert(s.contains(es[0]));
            }
            if s.len() > 0 {
                assert(s.contains(s[0]));
                assert(es.contains(s[0]));
            }
        }
        if peers.len() == 0 {
            Err(KadError::NoKnownPeers)
        } else {
            let info = QueryInfo::Bootstrap {
                peer: self.kbuckets.local_key().preimage().clone(),
                remaining: None,
            };
            Ok(self.start_lookup(t, info))
        }
    }

    /// The provider record that is stored locally when the local node becomes a provider.
    ///
    /// Our own provider records are stored locally without local addresses to avoid redundant
    /// storage and outdated addresses. Instead these are acquired on demand when returning a
    /// provider record for the local node.
    pub fn own_provider_record(&self, key: record::Key) -> (r: ProviderRecord)
        ensures
            r@ == self@.own_provider_record(key@),
    {
        let local_addrs: Vec<Multiaddr> = Vec::new();
        assert(local_addrs.deep_view() =~= Seq::empty());
        ProviderRecord::new(key, self.kbuckets.local_key().preimage().clone(), local_addrs)
    }

    /// Starts the announcement of the local node as a provider, if the store has stored its
    /// provider record.
    pub fn announce_stored(&mut self, outcome: Result<()>, key: record::Key) -> (r: Result<QueryId>)
        requires
            old(self)@.inv(),
        ensures
            final(self).clock_spec() == old(self).clock_spec(),
            final(self).store_spec() == old(self).store_spec(),
            r matches Ok(id) ==> old(self)@.queries.opens(id, final(self)@.queries),
            outcome is Ok ==> (r matches Ok(id) && id.0 == old(self)@.queries.next_id)
                && final(self)@ == old(self)@.announcing(key@, AddProviderContext::Publish),
            outcome matches Err(e) ==> r == Err::<QueryId, _>(e) && final(self)@ == old(self)@,
            final(self)@.inv(),
    {
        match outcome {
            Ok(()) => Ok(self.start_add_provider(key, AddProviderContext::Publish)),
            Err(e) => Err(e),
        }
    }

    /// Establishes the local node as a provider of a value for the given key.
    ///
    /// This operation publishes a provider record with the given key and identity of the local
    /// node to the peers closest to the key, thus establishing the local node as a provider.
    ///
    /// Returns `Ok` if a provider record has been stored locally, providing the `QueryId` of the
    /// initial query that announces the local node as a provider.
    ///
    /// The publication of the provider records is periodically repeated as per the configured
    /// interval, to renew the expiry and account for changes to the DHT topology. A provider
    /// record may be removed from local storage and thus no longer re-published by calling
    /// [`Kademlia::stop_providing`].
    pub fn start_providing(&mut self, key: record::Key) -> (r: Result<QueryId>)
        requires
            old(self)@.inv(),
        ensures
            final(self).clock_spec() == old(self).clock_spec(),
            r matches Ok(id) ==> old(self)@.queries.opens(id, final(self)@.queries),
            r matches Ok(id) ==> {
                let v = old(self)@;
                &&& id.0 == v.queries.next_id
                &&& v.store.provided(v.own_provider_record(key@), final(self)@.store)
                &&& final(self)@ == (KademliaView {
                    store: final(self)@.store,
                    ..v.announcing(key@, AddProviderContext::Publish)
                })
            },
            r matches Err(e) ==> final(self)@ == old(self)@
                && old(self).store_spec().refuses_provider(
                old(self)@.own_provider_record(key@),
                e@,
            ),
            final(self)@.inv(),
    {
        let record = self.own_provider_record(key.clone());
        let outcome: Result<()> = self.store.add_provider(record);
        self.announce_stored(outcome, key)
    }

    /// Stops the local node from announcing that it is a provider for the given key.
    ///
    /// This is a local operation. The local node will still be considered as a provider for the
    /// key by other nodes until these provider records expire.
    pub fn stop_providing(&mut self, key: &record::Key)
        requires
            old(self)@.inv(),
        ensures
            final(self).clock_spec() == old(self).clock_spec(),
            final(self)@ == (KademliaView {
                store: old(self)@.store.unprovided(key@, old(self)@.table.local.id),
                ..old(self)@
            }),
            final(self)@.inv(),
    {
        let id: PeerId = self.kbuckets.local_key().preimage().clone();
        self.store.remove_provider(key, &id);
    }

    /// Performs a lookup for providers of a value to the given key.
    pub fn get_providers(&mut self, key: record::Key) -> (r: QueryId)
        requires
            old(self)@.inv(),
        ensures
            final(self).clock_spec() == old(self).clock_spec(),
            final(self).store_spec() == old(self).store_spec(),
            r.0 == old(self)@.queries.next_id,
            old(self)@.queries.opens(r, final(self)@.queries),
            final(self)@ == old(self)@.looking_up(
                hash_of(key@),
                QueryInfoView::GetProviders { key: key@, providers: Set::empty() },
            ),
            final(self)@.inv(),
    {
        let t: KeyBytes = KeyBytes::hash(key.as_bytes());
        self.start_lookup(t, QueryInfo::GetProviders { key, providers: PeerSet::new() })
    }

    /// Starts an iterative `ADD_PROVIDER` query for the given key.
    pub fn start_add_provider(&mut self, key: record::Key, context: AddProviderContext) -> (r:
        QueryId)
        requires
            old(self)@.inv(),
        ensures
            final(self).clock_spec() == old(self).clock_spec(),
            final(self).store_spec() == old(self).store_spec(),
            r.0 == old(self)@.queries.next_id,
            old(self)@.queries.opens(r, final(self)@.queries),
            final(self)@ == old(self)@.announcing(key@, context),
            final(self)@.inv(),
    {
        let t: KeyBytes = KeyBytes::hash(key.as_bytes());
        let external_addresses: Vec<Multiaddr> = Vec::new();
        assert(external_addresses.deep_view() =~= Seq::empty());
        let info = QueryInfo::AddProvider {
            context,
            key,
            provider_id: self.kbuckets.local_key().preimage().clone(),
            external_addresses,
            get_closest_peers_stats: QueryStats::empty(),
        };
        self.start_lookup(t, info)
    }

    /// Starts an iterative `PUT_VALUE` query for the given record.
    pub fn start_put_record(&mut self, record: Record, quorum: Quorum, context: PutRecordContext) -> (r:
        QueryId)
        requires
            old(self)@.inv(),
        ensures
            final(self).clock_spec() == old(self).clock_spec(),
            final(self).store_spec() == old(self).store_spec(),
            r.0 == old(self)@.queries.next_id,
            old(self)@.queries.opens(r, final(self)@.queries),
            final(self)@ == old(self)@.putting(record@, quorum, context),
            final(self)@.inv(),
    {
        let quorum: NonZeroUsize = quorum.eval(self.queries.config().replication_factor);
        let t: KeyBytes = KeyBytes::hash(record.key.as_bytes());
        self.start_lookup(t, QueryInfo::PutRecord { record, quorum, context })
    }

    /// Processes discovered peers from a successful request in an iterative query.
    pub fn discovered(&mut self, query_id: &QueryId, source: &PeerId, peers: &Vec<KadPeer>)
        requires
            old(self)@.inv(),
        ensures
            final(self).clock_spec() == old(self).clock_spec(),
            final(self).store_spec() == old(self).store_spec(),
            final(self)@ == old(self)@.after_discovery(*query_id, source@, peers.deep_view()),
            old(self)@.queries.keeps_fresh(final(self)@.queries),
            final(self)@.inv(),
    {
        let ghost v0 = self@;
        let ghost ps = peers.deep_view();
        let local_id: PeerId = self.kbuckets.local_key().preimage().clone();
        match self.queries.get_mut(query_id) {
            Some(query) => {
                let ghost q0 = query@;
                let ghost pred = |p: KadPeerView| p.node_id != v0.table.local.id;
                let mut closer: Vec<PeerId> = Vec::new();
                let mut i: usize = 0;
                proof {
                    reveal(Seq::filter);
                    assert(ps.take(0).filter(pred) =~= Seq::empty());
                    assert(closer.deep_view() =~= ids_of(Seq::empty()));
                }
                while i < peers.len()
                    invariant
                        i <= peers.len(),
                        ps == peers.deep_view(),
                        local_id@ == v0.table.local.id,
                        pred == (|p: KadPeerView| p.node_id != v0.table.local.id),
                        query@ == (QueryModel {
                            addresses: noted(q0.addresses, ps.take(i as int).filter(pred)),
                            ..q0
                        }),
                        closer.deep_view() == ids_of(ps.take(i as int).filter(pred)),
                    decreases peers.len() - i,
                {
                    let ghost before = ps.take(i as int).filter(pred);
                    proof {
                        assert(ps[i as int] == peers[i as int]@);
                        assert(ps.take(i + 1).drop_last() =~= ps.take(i as int));
                        reveal(Seq::filter);
                    }
                    if peers[i].node_id != local_id {
                        let addrs = peers[i].multiaddrs.clone();
                        assert(addrs.deep_view() =~= peers[i as int].multiaddrs.deep_view());
                        query.note_addresses(&peers[i].node_id, addrs);
                        let ghost c0 = closer.deep_view();
                        closer.push(peers[i].node_id.clone());
                        proof {
                            let after = before.push(ps[i as int]);
                            assert(after.drop_last() =~= before);
                            assert(closer.deep_view() =~= c0.push(ps[i as int].node_id));
                            assert(closer.deep_view() =~= ids_of(after));
                        }
                    }
                    i = i + 1;
                }
                assert(ps.take(i as int) =~= ps);
                query.on_success(source, closer);
            },
            None => {},
        }
        proof {
            lemma_query_at(v0.queries.queries, *query_id);
            if let Some(q) = v0.queries.get(*query_id) {
                let after = v0.progressed(q, source@, ps);
                lemma_replaced_get(v0.queries, *query_id, after, *query_id);
            }
        }
    }
}

} // verus!
