//! The Kademlia behaviour.
pub mod laws;
pub mod laws_lookup;
pub mod laws_outcome;
pub mod laws_serve;
pub mod laws_table;
pub mod lookup;
pub mod model;
pub mod outcome;
pub mod serve;

use crate::collections::ByteSet;
use crate::config::{KademliaBucketInserts, KademliaConfig};
use crate::identity::{Multiaddr, PeerId};
use crate::info::QueryInfo;
use crate::jobs::{AddProviderJob, PutRecordJob};
use crate::kad::model::{KademliaView, initial};
use crate::kbucket::bucket::EntryView;
use crate::kbucket::key::{Key, Preimage, hash_of};
use crate::kbucket::table::{KBucketRef, KBucketsTable, NUM_BUCKETS};
use crate::query::{
    PoolModel, Query, QueryId, QueryModel, QueryPool, QueryStats, distinct_ids, lemma_query_at,
    lemma_replaced, lemma_replaced_get, lemma_with_running, models, running, same_ids, with_running,
};
use crate::store::RecordStore;
use crate::time::{Clock, Duration, Instant};
use vstd::prelude::*;

verus! {

/// `Kademlia` implements the libp2p Kademlia protocol.
pub struct Kademlia<TStore> {
    /// The Kademlia routing table.
    kbuckets: KBucketsTable,
    /// The k-bucket insertion strategy.
    kbucket_inserts: KademliaBucketInserts,
    /// The currently active (i.e. in-progress) queries.
    queries: QueryPool,
    /// The currently connected peers.
    ///
    /// This is a superset of the connected peers currently in the routing table.
    connected_peers: ByteSet,
    /// Periodic job for re-publication of provider records for keys provided by the local node.
    add_provider_job: Option<AddProviderJob>,
    /// Periodic job for (re-)replication and (re-)publishing of regular (value-)records.
    put_record_job: Option<PutRecordJob>,
    /// The TTL of regular (value-)records.
    record_ttl: Option<Duration>,
    /// The TTL of provider records.
    provider_record_ttl: Option<Duration>,
    /// How long to keep connections alive when they're idle.
    connection_idle_timeout: Duration,
    /// The currently known addresses of the local node.
    local_addrs: Vec<Multiaddr>,
    /// The record storage.
    store: TStore,
    /// The clock by which records expire.
    clock: Clock,
}

impl<TStore: RecordStore> View for Kademlia<TStore> {
    type V = KademliaView;

    closed spec fn view(&self) -> KademliaView {
        KademliaView {
            table: self.kbuckets@,
            inserts: self.kbucket_inserts,
            queries: self.queries@,
            connected: self.connected_peers@,
            add_provider_interval: match self.add_provider_job {
                Some(job) => Some(job.interval_spec()),
                None => None,
            },
            put_record_job: self.put_record_job.deep_view(),
            record_ttl: self.record_ttl,
            provider_record_ttl: self.provider_record_ttl,
            connection_idle_timeout: self.connection_idle_timeout,
            local_addrs: self.local_addrs.deep_view(),
            store: self.store.contents(),
        }
    }
}

/// An immutable reference to a running query.
pub struct QueryRef<'a> {
    query: &'a Query,
}

impl<'a> View for QueryRef<'a> {
    type V = QueryModel;

    closed spec fn view(&self) -> QueryModel {
        self.query@
    }
}

impl<'a> DeepView for QueryRef<'a> {
    type V = QueryModel;

    open spec fn deep_view(&self) -> QueryModel {
        self@
    }
}

impl<'a> QueryRef<'a> {
    /// Gets the unique ID of the query.
    pub fn id(&self) -> (r: QueryId)
        ensures
            r == self@.id,
    {
        self.query.id()
    }

    /// Gets information about the type and state of the query.
    pub fn info(&self) -> (r: &QueryInfo)
        ensures
            r@ == self@.info,
    {
        self.query.info()
    }

    /// Gets execution statistics about the query.
    ///
    /// For a multi-phase query such as `put_record`, these are the statistics of the current
    /// phase.
    pub fn stats(&self) -> (r: &QueryStats)
        ensures
            *r == self@.stats,
    {
        self.query.stats()
    }
}

/// A mutable reference to a running query.
pub struct QueryMut<'a> {
    /// The query. It has to keep its ID.
    pub query: &'a mut Query,
}

impl<'a> QueryMut<'a> {
    /// Gets the unique ID of the query.
    pub fn id(&self) -> (r: QueryId)
        ensures
            r == old(self.query)@.id,
    {
        self.query.id()
    }

    /// Gets information about the type and state of the query.
    pub fn info(&self) -> (r: &QueryInfo)
        ensures
            r@ == old(self.query)@.info,
    {
        self.query.info()
    }

    /// Gets execution statistics about the query.
    ///
    /// For a multi-phase query such as `put_record`, these are the statistics of the current
    /// phase.
    pub fn stats(&self) -> (r: &QueryStats)
        ensures
            *r == old(self.query)@.stats,
    {
        self.query.stats()
    }

    /// Finishes the query asap, without waiting for the regular termination conditions.
    pub fn finish(&mut self)
        ensures
            final(self).query@ == (QueryModel { finished: true, ..old(self).query@ }),
            *final(final(self).query) == *final(old(self).query),
    {
        self.query.finish()
    }
}

/// Mutable references to the running queries in `qs`.
fn running_mut<'a>(qs: &'a mut [Query]) -> (r: Vec<QueryMut<'a>>)
    ensures
        Seq::new(r@.len(), |i: int| r@[i].query@) == running(models(old(qs)@)),
        models(final(qs)@) == with_running(
            models(old(qs)@),
            Seq::new(r@.len(), |i: int| final(r@[i].query)@),
        ),
    decreases old(qs)@.len(),
{
    let n: usize = qs.len();
    let ghost s = models(qs@);
    proof {
        reveal(Seq::filter);
    }
    if n == 0 {
        let r: Vec<QueryMut<'a>> = Vec::new();
        assert(models(qs@) =~= Seq::empty());
        assert(Seq::new(r@.len(), |i: int| r@[i].query@) =~= running(s));
        return r;
    }
    let (front, last) = qs.split_at_mut(n - 1);
    assert(models(front@) =~= s.drop_last());
    assert(last@[0]@ == s.last());
    let mut r = running_mut(front);
    let ghost r0 = r@;
    let query = &mut last[0];
    if !query.is_finished() {
        r.push(QueryMut { query });
        proof {
            assert(Seq::new(r@.len(), |i: int| r@[i].query@) =~= running(s));
            assert(Seq::new(r@.len(), |i: int| final(r@[i].query)@).drop_last() =~= Seq::new(
                r0.len(),
                |i: int| final(r0[i].query)@,
            ));
        }
    }
    r
}

impl<TStore: RecordStore> Kademlia<TStore> {
    /// The record storage.
    pub closed spec fn store_spec(&self) -> TStore {
        self.store
    }

    /// The clock by which records expire.
    pub closed spec fn clock_spec(&self) -> Clock {
        self.clock
    }

    /// Creates a new `Kademlia` network behaviour with a default configuration.
    pub fn new(id: PeerId, store: TStore) -> (r: Self)
        ensures
            exists|c: KademliaConfig|
                #![trigger initial(id@, store.contents(), c)]
                c.is_default() && r@ == initial(id@, store.contents(), c),
            r.store_spec() == store,
            r@.inv(),
    {
        let config: KademliaConfig = Default::default();
        let r = Self::with_config(id, store, config);
        assert(r@ == initial(id@, store.contents(), config));
        r
    }

    /// Creates a new `Kademlia` network behaviour with the given configuration.
    pub fn with_config(id: PeerId, store: TStore, config: KademliaConfig) -> (r: Self)
        ensures
            r@ == initial(id@, store.contents(), config),
            r.store_spec() == store,
            r@.inv(),
    {
        let local_key = Key::new(id.clone());
        let interval: Option<Duration> = match config.record_replication_interval {
            Some(interval) => Some(interval),
            None => config.record_publication_interval,
        };
        let put_record_job: Option<PutRecordJob> = match interval {
            Some(interval) => Some(
                PutRecordJob::new(
                    id,
                    interval,
                    config.record_publication_interval,
                    config.record_ttl,
                ),
            ),
            None => None,
        };
        let add_provider_job: Option<AddProviderJob> = match config.provider_publication_interval {
            Some(interval) => Some(AddProviderJob::new(interval)),
            None => None,
        };
        let local_addrs: Vec<Multiaddr> = Vec::new();
        assert(local_addrs.deep_view() =~= Seq::empty());
        Kademlia {
            kbuckets: KBucketsTable::new(local_key, config.kbucket_pending_timeout),
            kbucket_inserts: config.kbucket_inserts,
            queries: QueryPool::new(config.query_config),
            connected_peers: ByteSet::new(),
            add_provider_job,
            put_record_job,
            record_ttl: config.record_ttl,
            provider_record_ttl: config.provider_record_ttl,
            connection_idle_timeout: config.connection_idle_timeout,
            local_addrs,
            store,
            clock: Clock::start(),
        }
    }

    /// Gets references to all running queries.
    pub fn iter_queries(&self) -> (r: Vec<QueryRef<'_>>)
        ensures
            r.deep_view() == running(self@.queries.queries),
    {
        let ghost s = self@.queries.queries;
        let ghost pred = |q: QueryModel| !q.finished;
        let mut r: Vec<QueryRef<'_>> = Vec::new();
        let mut i: usize = 0;
        assert(s.take(0).filter(pred) =~= Seq::empty()) by {
            reveal(Seq::filter);
        }
        assert(r.deep_view() =~= Seq::empty());
        while i < self.queries.size()
            invariant
                i <= s.len(),
                s == self@.queries.queries,
                pred == (|q: QueryModel| !q.finished),
                r.deep_view() == s.take(i as int).filter(pred),
            decreases s.len() - i,
        {
            proof {
                assert(s.take(i + 1).drop_last() =~= s.take(i as int));
                reveal(Seq::filter);
            }
            let query = self.queries.at(i);
            if !query.is_finished() {
                let ghost r0 = r.deep_view();
                r.push(QueryRef { query });
                assert(r.deep_view() =~= r0.push(s[i as int]));
            }
            i = i + 1;
        }
        assert(s.take(i as int) =~= s);
        r
    }

    /// Gets mutable references to all running queries.
    pub fn iter_queries_mut(&mut self) -> (r: Vec<QueryMut<'_>>)
        ensures
            final(self).clock_spec() == old(self).clock_spec(),
            final(self).store_spec() == old(self).store_spec(),
            Seq::new(r@.len(), |i: int| r@[i].query@) == running(old(self)@.queries.queries),
            final(self)@ == (KademliaView {
                queries: PoolModel {
                    queries: with_running(
                        old(self)@.queries.queries,
                        Seq::new(r@.len(), |i: int| final(r@[i].query)@),
                    ),
                    ..old(self)@.queries
                },
                ..old(self)@
            }),
            old(self)@.inv() && (forall|i: int|
                0 <= i < r@.len() ==> final((#[trigger] r@[i]).query)@.id == running(
                    old(self)@.queries.queries,
                )[i].id) ==> final(self)@.inv() && old(self)@.queries.keeps_fresh(
                final(self)@.queries,
            ),
    {
        let ghost s = self@.queries.queries;
        let r = running_mut(self.queries.as_mut_slice());
        proof {
            assert forall|changed: Seq<QueryModel>|
                distinct_ids(s) && changed.len() == running(s).len() && (forall|i: int|
                    0 <= i < changed.len() ==> (#[trigger] changed[i]).id == running(
                        s,
                    )[i].id) implies distinct_ids(#[trigger] with_running(s, changed)) && same_ids(
                s,
                with_running(s, changed),
            ) by {
                lemma_with_running(s, changed);
            }
        }
        r
    }

    /// Gets an immutable reference to a running query, if it exists.
    pub fn query(&self, id: &QueryId) -> (r: Option<QueryRef<'_>>)
        ensures
            r is Some <==> (self@.queries.get(*id) matches Some(q) && !q.finished),
            r matches Some(q) ==> q@ == self@.queries.get(*id)->0 && q@.id == *id,
    {
        proof {
            lemma_query_at(self@.queries.queries, *id);
        }
        match self.queries.get(id) {
            Some(query) => if !query.is_finished() {
                Some(QueryRef { query })
            } else {
                None
            },
            None => None,
        }
    }

    /// Gets a mutable reference to a running query, if it exists.
    pub fn query_mut(&mut self, id: &QueryId) -> (r: Option<QueryMut<'_>>)
        ensures
            final(self).clock_spec() == old(self).clock_spec(),
            final(self).store_spec() == old(self).store_spec(),
            r is Some <==> (old(self)@.queries.get(*id) matches Some(q) && !q.finished),
            r is None ==> final(self)@ == old(self)@,
            r matches Some(q) ==> {
                &&& q.query@ == old(self)@.queries.get(*id)->0
                &&& q.query@.id == *id
                &&& final(self)@ == (KademliaView {
                    queries: old(self)@.queries.replaced(*id, final(q.query)@),
                    ..old(self)@
                })
                &&& old(self)@.inv() && final(q.query)@.id == *id ==> final(self)@.inv()
                    && old(self)@.queries.keeps_fresh(final(self)@.queries)
            },
    {
        let live: bool = match self.queries.get(id) {
            Some(query) => !query.is_finished(),
            None => false,
        };
        if !live {
            return None;
        }
        let ghost pool = self@.queries;
        proof {
            lemma_query_at(pool.queries, *id);
        }
        match self.queries.get_mut(id) {
            Some(query) => {
                proof {
                    assert forall|q: QueryModel| pool.wf() && q.id == *id implies (
                    #[trigger] pool.replaced(*id, q)).wf() by {
                        lemma_replaced(pool, *id, q);
                    }
                    assert forall|q: QueryModel| pool.fresh() && q.id == *id implies (
                    #[trigger] pool.replaced(*id, q)).fresh() by {
                        lemma_replaced_get(pool, *id, q, *id);
                    }
                }
                Some(QueryMut { query })
            },
            None => None,
        }
    }

    /// Takes a query that has ended out of the queries of the behaviour, for
    /// [`Kademlia::query_finished`] or [`Kademlia::query_timeout`] to handle.
    pub fn take_query(&mut self, id: &QueryId) -> (r: Option<Query>)
        requires
            old(self)@.inv(),
        ensures
            final(self).clock_spec() == old(self).clock_spec(),
            final(self).store_spec() == old(self).store_spec(),
            r.deep_view() == old(self)@.queries.get(*id),
            final(self)@ == (KademliaView {
                queries: old(self)@.queries.removed(*id),
                ..old(self)@
            }),
            old(self)@.queries.keeps_fresh(final(self)@.queries),
            final(self)@.inv(),
    {
        self.queries.remove(id)
    }

    /// Removes a peer from the routing table.
    ///
    /// Returns `None` if the peer was not in the routing table, not even pending insertion.
    pub fn remove_peer(&mut self, peer: &PeerId) -> (r: Option<EntryView>)
        requires
            old(self)@.inv(),
        ensures
            final(self).clock_spec() == old(self).clock_spec(),
            final(self).store_spec() == old(self).store_spec(),
            r.deep_view() == old(self)@.table.get(hash_of(peer@)),
            final(self)@ == (KademliaView {
                table: old(self)@.table.removed(hash_of(peer@)),
                ..old(self)@
            }),
            final(self)@.inv(),
    {
        let key = Key::new(peer.clone());
        self.kbuckets.remove(key.key_bytes())
    }

    /// Returns all non-empty buckets in the routing table, the closest first.
    pub fn kbuckets(&self) -> (r: Vec<KBucketRef<'_>>)
        requires
            self@.inv(),
        ensures
            forall|k: int|
                0 <= k < r.len() ==> {
                    let b = #[trigger] r[k];
                    b.index_spec() < NUM_BUCKETS && b.bucket_spec()
                        == self@.table.buckets[b.index_spec() as int]
                        && b.bucket_spec().nodes.len() > 0
                },
            forall|k: int, m: int|
                #![trigger r[k], r[m]]
                0 <= k < m < r.len() ==> r[k].index_spec() < r[m].index_spec(),
            forall|i: int|
                0 <= i < NUM_BUCKETS && (#[trigger] self@.table.buckets[i]).nodes.len() > 0
                    ==> exists|k: int| 0 <= k < r.len() && (#[trigger] r[k]).index_spec() == i,
    {
        self.kbuckets.non_empty()
    }

    /// Returns the k-bucket for the distance to the given key.
    ///
    /// Returns `None` if the given key refers to the local key.
    pub fn kbucket<K: Preimage>(&self, key: K) -> (r: Option<KBucketRef<'_>>)
        requires
            self@.inv(),
        ensures
            r is None <==> hash_of(key.hashed_bytes()) == self@.table.local.point,
            r matches Some(b) ==> b.index_spec() == self@.table.index(
                hash_of(key.hashed_bytes()),
            ) && b.bucket_spec() == self@.table.bucket(hash_of(key.hashed_bytes())),
    {
        let key = Key::new(key);
        self.kbuckets.bucket(key.key_bytes())
    }

    /// Gets a mutable reference to the record store.
    pub fn store_mut(&mut self) -> (r: &mut TStore)
        ensures
            final(self).clock_spec() == old(self).clock_spec(),
            r.contents() == old(self)@.store,
            *r == old(self).store_spec(),
            final(self)@ == (KademliaView { store: final(r).contents(), ..old(self)@ }),
            final(self).store_spec() == *final(r),
    {
        &mut self.store
    }

    /// The periodic job for records, if there is one.
    pub fn put_record_job(&self) -> (r: Option<&PutRecordJob>)
        ensures
            r.deep_view() == self@.put_record_job,
    {
        match &self.put_record_job {
            Some(job) => Some(job),
            None => None,
        }
    }

    /// The periodic job for provider records, if there is one.
    pub fn add_provider_job(&self) -> (r: Option<&AddProviderJob>)
        ensures
            r is Some <==> self@.add_provider_interval is Some,
            r matches Some(job) ==> job.interval_spec() == self@.add_provider_interval->0,
    {
        match &self.add_provider_job {
            Some(job) => Some(job),
            None => None,
        }
    }

    /// Inserts the peers into the routing table that have been pending insertion long enough at
    /// `now`.
    pub fn apply_pending_at(&mut self, now: Instant)
        requires
            old(self)@.inv(),
        ensures
            final(self).clock_spec() == old(self).clock_spec(),
            final(self).store_spec() == old(self).store_spec(),
            final(self)@ == (KademliaView {
                table: old(self)@.table.applied(now),
                ..old(self)@
            }),
            final(self)@.inv(),
    {
        self.kbuckets.apply_pending(now);
    }

    /// Inserts the peers into the routing table that have been pending insertion long enough.
    pub fn apply_pending(&mut self)
        requires
            old(self)@.inv(),
        ensures
            final(self).clock_spec() == old(self).clock_spec(),
            final(self).store_spec() == old(self).store_spec(),
            exists|now: Instant|
                old(self).clock_spec().may_show(now) && final(self)@ == (KademliaView {
                    table: #[trigger] old(self)@.table.applied(now),
                    ..old(self)@
                }),
            final(self)@.inv(),
    {
        let now: Instant = self.clock.now();
        self.apply_pending_at(now);
    }
}

} // verus!
