//! What happens when a query ends.
use crate::event::{
    AddProviderError, AddProviderOk, BootstrapError, BootstrapOk, GetClosestPeersError,
    GetClosestPeersOk, GetProvidersError, GetProvidersOk, GetRecordError, GetRecordOk,
    KademliaEvent, PutRecordError, PutRecordOk, QueryResult,
};
use crate::identity::PeerId;
use crate::info::{AddProviderContext, PutRecordContext, QueryInfo, QueryInfoView};
use crate::kad::Kademlia;
use crate::kad::model::{finish_event, lookups_left, timeout_event};
use crate::kbucket::key::{Distance, Key, KeyBytes, PeerKeyView};
use crate::kbucket::table::{KBucketRef, NUM_BUCKETS, TableModel};
use crate::num::NonZeroUsize;
use crate::query::{Query, QueryId, QueryInner, QueryModel};
use crate::store::RecordStore;
use vstd::prelude::*;

verus! {

/// How many random peers are drawn for a bucket that is refreshed.
pub const NUM_DRAWS: usize = 17;

/// The number of buckets that are refreshed: those farther away than the first bucket that holds
/// a node.
pub open spec fn num_refreshed(t: TableModel) -> nat {
    if t.first_non_empty() < NUM_BUCKETS {
        (NUM_BUCKETS - 1 - t.first_non_empty()) as nat
    } else {
        0
    }
}

/// The target of a lookup that refreshes the bucket at `i`: the first of the peers that were drawn
/// that falls into the bucket, or the last one if none of those before it does.
pub open spec fn picked(local: KeyBytes, i: nat, draws: Seq<PeerKeyView>) -> PeerKeyView
    decreases draws.len(),
{
    if draws.len() <= 1 || local.xor(draws[0].point).in_bucket(i) {
        draws[0]
    } else {
        picked(local, i, draws.skip(1))
    }
}

/// The targets of the lookups that refresh the buckets of `t`, if the peers `draws` were drawn for
/// them.
pub open spec fn targets_of(t: TableModel, draws: Seq<Seq<PeerKeyView>>) -> Seq<PeerKeyView> {
    Seq::new(
        draws.len(),
        |i: int| picked(t.local.point, (t.first_non_empty() + 1 + i) as nat, draws[i]),
    )
}

/// Whether the right number of peers were drawn for the buckets of `t` that are refreshed.
pub open spec fn enough(t: TableModel, draws: Seq<Seq<PeerKeyView>>) -> bool {
    &&& draws.len() == num_refreshed(t)
    &&& forall|i: int| 0 <= i < draws.len() ==> (#[trigger] draws[i]).len() == NUM_DRAWS
}

/// Whether `k` may be a random peer: its identifier is an identity multihash of 32 bytes, and it
/// stands where its identifier hashes to.
pub open spec fn drawable(k: PeerKeyView) -> bool {
    k.valid() && k.id.len() == 34 && k.id[0] == 0 && k.id[1] == 32
}

/// Whether the peers that were drawn may be random peers.
pub open spec fn genuine(draws: Seq<Seq<PeerKeyView>>) -> bool {
    forall|i: int, j: int|
        #![trigger draws[i][j]]
        0 <= i < draws.len() && 0 <= j < draws[i].len() ==> drawable(draws[i][j])
}

/// Whether a bootstrap query has just finished its first lookup.
pub open spec fn needs_targets(q: QueryModel) -> bool {
    q.info matches QueryInfoView::Bootstrap { remaining: None, .. }
}

proof fn lemma_picked_later(local: KeyBytes, b: nat, draws: Seq<PeerKeyView>, i: int)
    requires
        0 <= i < draws.len(),
        forall|j: int| 0 <= j < i ==> !local.xor((#[trigger] draws[j]).point).in_bucket(b),
    ensures
        picked(local, b, draws) == picked(local, b, draws.skip(i)),
    decreases i,
{
    if i == 0 {
        assert(draws.skip(0) =~= draws);
    } else {
        lemma_picked_later(local, b, draws, i - 1);
        let rest = draws.skip(i - 1);
        assert(rest[0] == draws[i - 1]);
        assert(rest.skip(1) =~= draws.skip(i));
    }
}

/// The target of a lookup that refreshes a bucket is one of the peers that were drawn, and it falls
/// into the bucket if any of them does.
pub proof fn lemma_picked(local: KeyBytes, b: nat, draws: Seq<PeerKeyView>, i: int)
    requires
        0 <= i < draws.len(),
    ensures
        draws.contains(picked(local, b, draws)),
        local.xor(draws[i].point).in_bucket(b) ==> local.xor(
            picked(local, b, draws).point,
        ).in_bucket(b),
    decreases draws.len(),
{
    if draws.len() <= 1 || local.xor(draws[0].point).in_bucket(b) {
        assert(draws.contains(draws[0]));
    } else {
        let rest = draws.skip(1);
        if i > 0 {
            assert(rest[i - 1] == draws[i]);
            lemma_picked(local, b, rest, i - 1);
        } else {
            lemma_picked(local, b, rest, 0);
        }
        let m = choose|m: int| 0 <= m < rest.len() && rest[m] == picked(local, b, rest);
        assert(draws[m + 1] == rest[m]);
    }
}

/// The lookups that complete the bootstrap process are one for every bucket farther away than the
/// first bucket that holds a node.
pub proof fn lemma_all_refreshed(t: TableModel, draws: Seq<Seq<PeerKeyView>>)
    requires
        enough(t, draws),
    ensures
        targets_of(t, draws).len() == if t.first_non_empty() < NUM_BUCKETS {
            NUM_BUCKETS - 1 - t.first_non_empty()
        } else {
            0
        },
        forall|i: int|
            0 <= i < draws.len() ==> #[trigger] targets_of(t, draws)[i] == picked(
                t.local.point,
                (t.first_non_empty() + 1 + i) as nat,
                draws[i],
            ),
{
}

/// Picks the target of a lookup that refreshes a bucket out of the peers that were drawn.
fn pick_target(local: &Key<PeerId>, bucket: &KBucketRef<'_>, draws: &Vec<Key<PeerId>>) -> (r: Key<
    PeerId,
>)
    requires
        draws.len() > 0,
    ensures
        r@ == picked(local@.point, bucket.index_spec(), draws.deep_view()),
{
    let ghost s = draws.deep_view();
    let mut i: usize = 0;
    while i < draws.len() - 1
        invariant
            i < draws.len(),
            s == draws.deep_view(),
            forall|j: int|
                0 <= j < i ==> !local@.point.xor((#[trigger] s[j]).point).in_bucket(
                    bucket.index_spec(),
                ),
        decreases draws.len() - i,
    {
        assert(s[i as int] == draws[i as int]@);
        let d: Distance = local.distance(&draws[i].key_bytes());
        if bucket.contains(&d) {
            proof {
                lemma_picked_later(local@.point, bucket.index_spec(), s, i as int);
                assert(s.skip(i as int)[0] == s[i as int]);
            }
            return draws[i].clone();
        }
        i = i + 1;
    }
    proof {
        assert(s[i as int] == draws[i as int]@);
        lemma_picked_later(local@.point, bucket.index_spec(), s, i as int);
        assert(s.skip(i as int)[0] == s[i as int]);
    }
    draws[i].clone()
}

/// Draws random peers.
fn draw_peers() -> (r: Vec<Key<PeerId>>)
    ensures
        r.len() == NUM_DRAWS,
        forall|i: int| 0 <= i < NUM_DRAWS ==> drawable(#[trigger] r.deep_view()[i]),
{
    let mut r: Vec<Key<PeerId>> = Vec::new();
    while r.len() < NUM_DRAWS
        invariant
            r.len() <= NUM_DRAWS,
            forall|i: int| 0 <= i < r.len() ==> drawable(#[trigger] r.deep_view()[i]),
        decreases NUM_DRAWS - r.len(),
    {
        let ghost r0 = r.deep_view();
        let key = Key::new(PeerId::random());
        r.push(key);
        assert(r.deep_view() =~= r0.push(key@));
    }
    r
}

/// The number of bootstrap lookups that are left once the first of `n` has been started.
fn count_left(n: usize) -> (r: u32)
    ensures
        r == lookups_left(n as nat),
{
    if n == 0 {
        0
    } else {
        (n - 1) as u32
    }
}

impl<TStore: RecordStore> Kademlia<TStore> {
    /// Picks the targets of the lookups that refresh every bucket farther away than the bucket
    /// with the closest neighbour, out of the peers that were drawn for each of them.
    pub fn refresh_targets(&self, draws: &Vec<Vec<Key<PeerId>>>) -> (r: Vec<Key<PeerId>>)
        requires
            self@.inv(),
            enough(self@.table, draws.deep_view()),
        ensures
            r.deep_view() == targets_of(self@.table, draws.deep_view()),
    {
        let ghost ds = draws.deep_view();
        let first: usize = self.kbuckets.first_non_empty();
        let mut r: Vec<Key<PeerId>> = Vec::new();
        while r.len() < draws.len()
            invariant
                r.len() <= draws.len(),
                self@.inv(),
                first == self@.table.first_non_empty(),
                ds == draws.deep_view(),
                enough(self@.table, ds),
                forall|i: int|
                    0 <= i < r.len() ==> (#[trigger] r[i])@ == targets_of(self@.table, ds)[i],
            decreases draws.len() - r.len(),
        {
            let i: usize = r.len();
            assert(ds[i as int] == draws[i as int].deep_view());
            let bucket = self.kbuckets.at(first + 1 + i);
            let target = pick_target(self.kbuckets.local_key(), &bucket, &draws[i]);
            r.push(target);
        }
        assert(r.deep_view() =~= targets_of(self@.table, ds));
        r
    }

    /// Draws random peers for every bucket farther away than the bucket with the closest
    /// neighbour.
    ///
    /// The wire protocol requires transmission of the preimages of keys, hence this is just a
    /// best effort to find a key that hashes into a specific bucket.
    fn draw_for_refresh(&self) -> (r: Vec<Vec<Key<PeerId>>>)
        requires
            self@.inv(),
        ensures
            enough(self@.table, r.deep_view()),
            genuine(r.deep_view()),
    {
        let first: usize = self.kbuckets.first_non_empty();
        let mut r: Vec<Vec<Key<PeerId>>> = Vec::new();
        if first < NUM_BUCKETS {
            while r.len() < NUM_BUCKETS - 1 - first
                invariant
                    first < NUM_BUCKETS,
                    r.len() <= NUM_BUCKETS - 1 - first,
                    forall|i: int|
                        0 <= i < r.len() ==> (#[trigger] r.deep_view()[i]).len() == NUM_DRAWS,
                    genuine(r.deep_view()),
                decreases NUM_BUCKETS - r.len(),
            {
                let ghost r0 = r.deep_view();
                let draws = draw_peers();
                r.push(draws);
                assert(r.deep_view() =~= r0.push(draws.deep_view()));
            }
        }
        r
    }

    /// Starts the next lookup of a bootstrap query, if there is one left.
    fn continue_bootstrap(&mut self, id: QueryId, remaining: Vec<Key<PeerId>>)
        requires
            old(self)@.inv(),
        ensures
            final(self).clock_spec() == old(self).clock_spec(),
            final(self).store_spec() == old(self).store_spec(),
            final(self)@ == old(self)@.bootstrapping(id, remaining.deep_view()),
            id.0 < old(self)@.queries.next_id ==> old(self)@.queries.keeps_fresh(
                final(self)@.queries,
            ),
            final(self)@.inv(),
    {
        if remaining.len() > 0 {
            let ghost s = remaining.deep_view();
            let mut remaining = remaining;
            let target = remaining.remove(0);
            assert(target@ == s[0]);
            assert(remaining.deep_view() =~= s.skip(1));
            let t: KeyBytes = target.key_bytes();
            let peers = self.kbuckets.closest_keys(t);
            let info = QueryInfo::Bootstrap {
                peer: target.into_preimage(),
                remaining: Some(remaining),
            };
            let inner = QueryInner::new(info);
            self.queries.continue_iter_closest(id, t, peers, inner);
        }
    }

    /// Handles a finished (i.e. successful) query. A bootstrap query whose first lookup has
    /// finished goes on with lookups of `targets`.
    pub fn query_finished_with(&mut self, q: Query, targets: Vec<Key<PeerId>>) -> (r: Option<
        KademliaEvent,
    >)
        requires
            old(self)@.inv(),
        ensures
            final(self).clock_spec() == old(self).clock_spec(),
            final(self).store_spec() == old(self).store_spec(),
            final(self)@ == old(self)@.after_finish(q@, targets.deep_view()),
            r.deep_view() == finish_event(q@, targets.deep_view()),
            q@.id.0 < old(self)@.queries.next_id ==> old(self)@.queries.keeps_fresh(
                final(self)@.queries,
            ),
            final(self)@.inv(),
    {
        let query_id = q.id();
        let result = q.into_result();
        match result.inner.info {
            QueryInfo::Bootstrap { peer, remaining } => {
                let remaining = match remaining {
                    Some(remaining) => remaining,
                    None => targets,
                };
                let num_remaining: u32 = count_left(remaining.len());
                self.continue_bootstrap(query_id, remaining);
                Some(
                    KademliaEvent::QueryResult {
                        id: query_id,
                        stats: result.stats,
                        result: QueryResult::Bootstrap(Ok(BootstrapOk { peer, num_remaining })),
                    },
                )
            },
            QueryInfo::GetClosestPeers { key } => Some(
                KademliaEvent::QueryResult {
                    id: query_id,
                    stats: result.stats,
                    result: QueryResult::GetClosestPeers(
                        Ok(GetClosestPeersOk { key, peers: result.peers }),
                    ),
                },
            ),
            QueryInfo::GetProviders { key, providers } => Some(
                KademliaEvent::QueryResult {
                    id: query_id,
                    stats: result.stats,
                    result: QueryResult::GetProviders(
                        Ok(GetProvidersOk { key, providers, closest_peers: result.peers }),
                    ),
                },
            ),
            QueryInfo::AddProvider { key, get_closest_peers_stats, context, .. } => {
                let stats = get_closest_peers_stats.merge(result.stats);
                let outcome = Ok(AddProviderOk { key });
                Some(
                    KademliaEvent::QueryResult {
                        id: query_id,
                        stats,
                        result: match context {
                            AddProviderContext::Publish => QueryResult::StartProviding(outcome),
                            AddProviderContext::Republish => QueryResult::RepublishProvider(
                                outcome,
                            ),
                        },
                    },
                )
            },
            QueryInfo::GetRecord { key, records, quorum, cache_at } => {
                let outcome = if records.len() >= quorum.get() {
                    if let Some(cache_key) = cache_at {
                        // Cache the record at the closest node to the key that did not return
                        // the record.
                        assert(records.deep_view()[0] == records[0]@);
                        let info = QueryInfo::PutRecord {
                            context: PutRecordContext::Cache,
                            record: records[0].record.clone(),
                            quorum: NonZeroUsize::one(),
                        };
                        let inner = QueryInner::new(info);
                        let key = Key::new(cache_key.into_preimage());
                        let mut peers: Vec<Key<PeerId>> = Vec::new();
                        peers.push(key);
                        assert(peers.deep_view() =~= seq![key@]);
                        self.queries.add_fixed(peers, inner);
                    }
                    Ok(GetRecordOk { records })
                } else if records.len() == 0 {
                    Err(GetRecordError::NotFound { key, closest_peers: result.peers })
                } else {
                    Err(GetRecordError::QuorumFailed { key, records, quorum })
                };
                Some(
                    KademliaEvent::QueryResult {
                        id: query_id,
                        stats: result.stats,
                        result: QueryResult::GetRecord(outcome),
                    },
                )
            },
            QueryInfo::PutRecord { record, quorum, context } => {
                let outcome = if result.answered.len() >= quorum.get() {
                    Ok(PutRecordOk { key: record.key })
                } else {
                    Err(
                        PutRecordError::QuorumFailed {
                            key: record.key,
                            success: result.answered,
                            quorum,
                        },
                    )
                };
                match context {
                    PutRecordContext::Publish => Some(
                        KademliaEvent::QueryResult {
                            id: query_id,
                            stats: result.stats,
                            result: QueryResult::PutRecord(outcome),
                        },
                    ),
                    PutRecordContext::Republish => Some(
                        KademliaEvent::QueryResult {
                            id: query_id,
                            stats: result.stats,
                            result: QueryResult::RepublishRecord(outcome),
                        },
                    ),
                    PutRecordContext::Replicate => None,
                    PutRecordContext::Cache => None,
                }
            },
        }
    }

    /// Handles a finished (i.e. successful) query.
    ///
    /// When the lookup for the local key has finished, a bucket refresh is performed for every
    /// bucket farther away than the first non-empty bucket to complete the bootstrap process.
    pub fn query_finished(&mut self, q: Query) -> (r: Option<KademliaEvent>)
        requires
            old(self)@.inv(),
        ensures
            final(self).clock_spec() == old(self).clock_spec(),
            final(self).store_spec() == old(self).store_spec(),
            needs_targets(q@) ==> exists|draws: Seq<Seq<PeerKeyView>>|
                {
                    let targets = #[trigger] targets_of(old(self)@.table, draws);
                    &&& enough(old(self)@.table, draws)
                    &&& genuine(draws)
                    &&& final(self)@ == old(self)@.after_finish(q@, targets)
                    &&& r.deep_view() == finish_event(q@, targets)
                },
            !needs_targets(q@) ==> final(self)@ == old(self)@.after_finish(q@, Seq::empty())
                && r.deep_view() == finish_event(q@, Seq::empty()),
            q@.id.0 < old(self)@.queries.next_id ==> old(self)@.queries.keeps_fresh(
                final(self)@.queries,
            ),
            final(self)@.inv(),
    {
        let first_lookup: bool = match q.info() {
            QueryInfo::Bootstrap { remaining: None, .. } => true,
            _ => false,
        };
        if first_lookup {
            let draws = self.draw_for_refresh();
            let targets = self.refresh_targets(&draws);
            self.query_finished_with(q, targets)
        } else {
            let targets: Vec<Key<PeerId>> = Vec::new();
            assert(targets.deep_view() =~= Seq::empty());
            self.query_finished_with(q, targets)
        }
    }

    /// Handles a query that timed out.
    pub fn query_timeout(&mut self, query: Query) -> (r: Option<KademliaEvent>)
        requires
            old(self)@.inv(),
        ensures
            final(self).clock_spec() == old(self).clock_spec(),
            final(self).store_spec() == old(self).store_spec(),
            final(self)@ == old(self)@.after_timeout(query@),
            r.deep_view() == timeout_event(query@),
            query@.id.0 < old(self)@.queries.next_id ==> old(self)@.queries.keeps_fresh(
                final(self)@.queries,
            ),
            final(self)@.inv(),
    {
        let query_id = query.id();
        let result = query.into_result();
        match result.inner.info {
            QueryInfo::Bootstrap { peer, remaining } => {
                let num_remaining: Option<u32> = match &remaining {
                    Some(remaining) => Some(count_left(remaining.len())),
                    None => None,
                };
                // Continue with the next bootstrap query if `remaining` is not empty.
                if let Some(remaining) = remaining {
                    self.continue_bootstrap(query_id, remaining);
                }
                Some(
                    KademliaEvent::QueryResult {
                        id: query_id,
                        stats: result.stats,
                        result: QueryResult::Bootstrap(
                            Err(BootstrapError::Timeout { peer, num_remaining }),
                        ),
                    },
                )
            },
            QueryInfo::AddProvider { key, context, .. } => {
                let outcome = Err(AddProviderError::Timeout { key });
                Some(
                    KademliaEvent::QueryResult {
                        id: query_id,
                        stats: result.stats,
                        result: match context {
                            AddProviderContext::Publish => QueryResult::StartProviding(outcome),
                            AddProviderContext::Republish => QueryResult::RepublishProvider(
                                outcome,
                            ),
                        },
                    },
                )
            },
            QueryInfo::GetClosestPeers { key } => Some(
                KademliaEvent::QueryResult {
                    id: query_id,
                    stats: result.stats,
                    result: QueryResult::GetClosestPeers(
                        Err(GetClosestPeersError::Timeout { key, peers: result.peers }),
                    ),
                },
            ),
            QueryInfo::PutRecord { record, quorum, context } => {
                let outcome = Err(
                    PutRecordError::Timeout { key: record.key, success: result.answered, quorum },
                );
                match context {
                    PutRecordContext::Publish => Some(
                        KademliaEvent::QueryResult {
                            id: query_id,
                            stats: result.stats,
                            result: QueryResult::PutRecord(outcome),
                        },
                    ),
                    PutRecordContext::Republish => Some(
                        KademliaEvent::QueryResult {
                            id: query_id,
                            stats: result.stats,
                            result: QueryResult::RepublishRecord(outcome),
                        },
                    ),
                    PutRecordContext::Replicate => None,
                    PutRecordContext::Cache => None,
                }
            },
            QueryInfo::GetRecord { key, records, quorum, .. } => Some(
                KademliaEvent::QueryResult {
                    id: query_id,
                    stats: result.stats,
                    result: QueryResult::GetRecord(
                        Err(GetRecordError::Timeout { key, records, quorum }),
                    ),
                },
            ),
            QueryInfo::GetProviders { key, providers } => Some(
                KademliaEvent::QueryResult {
                    id: query_id,
                    stats: result.stats,
                    result: QueryResult::GetProviders(
                        Err(
                            GetProvidersError::Timeout {
                                key,
                                providers,
                                closest_peers: result.peers,
                            },
                        ),
                    ),
                },
            ),
        }
    }
}

} // verus!
