//! What queries report when they end, and what follows from it.
use crate::event::{
    AddProviderErrorView, BootstrapErrorView, GetClosestPeersErrorView, GetProvidersErrorView,
    GetRecordErrorView, KademliaEventView, PutRecordErrorView, QueryResultView,
};
use crate::info::{AddProviderContext, PutRecordContext, QueryInfoView, request_of};
use crate::kad::laws::{lookups_after, nearing};
use crate::kad::laws_lookup::{lemma_lookup_seeks, seeded};
use crate::kad::model::{KademliaView, finish_event, timeout_event};
use crate::kad::outcome::{drawable, enough, genuine, needs_targets, picked, targets_of};
use crate::kbucket::key::{KeyBytes, PeerKeyView, hash_of};
use crate::kbucket::table::{NUM_BUCKETS, TableModel};
use crate::protocol::{KadConnectionType, KadRequestView};
use crate::query::{
    PoolModel, QueryId, QueryKind, QueryModel, QueryPeerModel, QueryStats, answered, lemma_query_at,
    lemma_with_query_get, query_at, running, with_query, with_running,
};
use vstd::prelude::*;

verus! {

/// The peers of a query that have answered, in their order.
pub open spec fn that_answered(q: QueryModel) -> Seq<QueryPeerModel> {
    q.peers.filter(|p: QueryPeerModel| p.succeeded)
}

/// Whether `ids` are the identifiers of `peers`, in their order.
pub open spec fn named(peers: Seq<QueryPeerModel>, ids: Seq<Seq<u8>>) -> bool {
    ids.len() == peers.len() && forall|i: int|
        0 <= i < ids.len() ==> #[trigger] ids[i] == peers[i].key.id
}

/// Whether `ids` are the first peers of the query that have answered, as many as it looks for or all
/// if there are fewer.
pub open spec fn first_named(q: QueryModel, ids: Seq<Seq<u8>>) -> bool {
    let all = that_answered(q);
    if all.len() <= q.num_results {
        named(all, ids)
    } else {
        named(all.take(q.num_results as int), ids)
    }
}

proof fn lemma_named(s: Seq<QueryPeerModel>)
    ensures
        named(s.filter(|p: QueryPeerModel| p.succeeded), answered(s)),
    decreases s.len(),
{
    reveal(Seq::filter);
    if s.len() > 0 {
        lemma_named(s.drop_last());
    }
}

proof fn lemma_found_named(q: QueryModel)
    ensures
        first_named(q, q.found()),
        named(that_answered(q), answered(q.peers)),
{
    lemma_named(q.peers);
    let all = that_answered(q);
    let ids = answered(q.peers);
    if all.len() > q.num_results {
        let cut = all.take(q.num_results as int);
        assert forall|i: int| 0 <= i < q.found().len() implies #[trigger] q.found()[i]
            == cut[i].key.id by {
            assert(ids[i] == all[i].key.id);
        }
    }
}

/// The peers that a lookup has found are the closest to its target of all that have answered: one
/// that is left out is farther away than all that are not.
pub proof fn lemma_found_closest(q: QueryModel, ids: Seq<Seq<u8>>, p: QueryPeerModel)
    requires
        q.kind is Closest,
        nearing(q.peers, q.kind->target),
        forall|j: int|
            0 <= j < q.peers.len() ==> (#[trigger] q.peers[j]).key.point == hash_of(
                q.peers[j].key.id,
            ),
        first_named(q, ids),
        q.peers.contains(p),
        p.succeeded,
    ensures
        ids.contains(p.key.id) || (ids.len() == q.num_results && forall|i: int|
            0 <= i < ids.len() ==> q.kind->target.to(hash_of(#[trigger] ids[i]))
                < q.kind->target.to(p.key.point)),
        forall|i: int, j: int|
            #![trigger ids[i], ids[j]]
            0 <= i < j < ids.len() ==> q.kind->target.to(hash_of(ids[i])) < q.kind->target.to(
                hash_of(ids[j]),
            ),
{
    let t = q.kind->target;
    let pred = |p: QueryPeerModel| p.succeeded;
    let all = that_answered(q);
    lemma_filter_nearing(q.peers, t);
    let n = choose|n: int| 0 <= n < q.peers.len() && q.peers[n] == p;
    q.peers.lemma_filter_contains(pred, n);
    let m = choose|m: int| 0 <= m < all.len() && all[m] == p;
    assert forall|i: int| 0 <= i < ids.len() implies hash_of(#[trigger] ids[i])
        == all[i].key.point by {
        assert(all.contains(all[i]));
        q.peers.lemma_filter_contains_rev(pred, all[i]);
        let j = choose|j: int| 0 <= j < q.peers.len() && q.peers[j] == all[i];
        assert(q.peers[j].key.point == hash_of(q.peers[j].key.id));
    }
    if m < ids.len() {
        assert(ids[m] == p.key.id);
    } else {
        assert forall|i: int| 0 <= i < ids.len() implies t.to(hash_of(#[trigger] ids[i])) < t.to(
            p.key.point,
        ) by {
            assert(t.to(all[i].key.point) < t.to(all[m].key.point));
        }
    }
    assert forall|i: int, j: int|
        #![trigger ids[i], ids[j]]
        0 <= i < j < ids.len() implies t.to(hash_of(ids[i])) < t.to(hash_of(ids[j])) by {
        assert(t.to(all[i].key.point) < t.to(all[j].key.point));
    }
}

proof fn lemma_filter_nearing(s: Seq<QueryPeerModel>, t: KeyBytes)
    requires
        nearing(s, t),
    ensures
        nearing(s.filter(|p: QueryPeerModel| p.succeeded), t),
    decreases s.len(),
{
    reveal(Seq::filter);
    let pred = |p: QueryPeerModel| p.succeeded;
    if s.len() > 0 {
        let front = s.drop_last();
        let x = s.last();
        assert forall|i: int, j: int|
            #![trigger front[i], front[j]]
            0 <= i < j < front.len() implies t.to(front[i].key.point) < t.to(
            front[j].key.point,
        ) by {
            assert(t.to(s[i].key.point) < t.to(s[j].key.point));
        }
        lemma_filter_nearing(front, t);
        let g = front.filter(pred);
        let f = s.filter(pred);
        if x.succeeded {
            assert(f == g.push(x));
            assert forall|i: int, j: int|
                #![trigger f[i], f[j]]
                0 <= i < j < f.len() implies t.to(f[i].key.point) < t.to(f[j].key.point) by {
                assert(f[i] == g[i]);
                if j < g.len() {
                    assert(f[j] == g[j]);
                } else {
                    assert(g.contains(g[i]));
                    front.lemma_filter_contains_rev(pred, g[i]);
                    let m = choose|m: int| 0 <= m < front.len() && front[m] == g[i];
                    assert(s[m] == g[i]);
                    assert(s[s.len() - 1] == x);
                }
            }
        }
    }
}

/// The end of a query is reported, unless the query replicates or caches a record.
pub proof fn lemma_reported(q: QueryModel, targets: Seq<PeerKeyView>)
    ensures
        ({
            let silent = q.info matches QueryInfoView::PutRecord { context, .. } && (context
                == PutRecordContext::Replicate || context == PutRecordContext::Cache);
            &&& finish_event(q, targets) is None <==> silent
            &&& timeout_event(q) is None <==> silent
        }),
{
}

/// What is reported names the query and gives its statistics. Those of an announcement that has
/// finished are added to those of the lookup before it.
pub proof fn lemma_reported_query(q: QueryModel, targets: Seq<PeerKeyView>)
    ensures
        finish_event(q, targets) matches Some(event) ==> {
            &&& event matches KademliaEventView::QueryResult { id, stats, .. } && id == q.id
                && match q.info {
                QueryInfoView::AddProvider { get_closest_peers_stats: before, .. } => stats
                    == before.merged(q.stats),
                _ => stats == q.stats,
            }
        },
        timeout_event(q) matches Some(event) ==> {
            &&& event matches KademliaEventView::QueryResult { id, stats, .. } && id == q.id
                && stats == q.stats
        },
{
}

/// The statistics of two phases together: the counters are added up and stick at the largest number,
/// the start is the earlier one, and the end is the later one.
pub proof fn lemma_merged_stats(a: QueryStats, b: QueryStats)
    ensures
        ({
            let m = a.merged(b);
            &&& m.requests == if a.requests + b.requests <= u32::MAX {
                a.requests + b.requests
            } else {
                u32::MAX as int
            }
            &&& m.success == if a.success + b.success <= u32::MAX {
                a.success + b.success
            } else {
                u32::MAX as int
            }
            &&& m.failure == if a.failure + b.failure <= u32::MAX {
                a.failure + b.failure
            } else {
                u32::MAX as int
            }
            &&& m.start == a.start || m.start == b.start
            &&& m.start is None <==> a.start is None && b.start is None
            &&& a.start matches Some(x) ==> m.start->0.nanos <= x.nanos
            &&& b.start matches Some(x) ==> m.start->0.nanos <= x.nanos
            &&& m.end == a.end || m.end == b.end
            &&& m.end is None <==> a.end is None && b.end is None
            &&& a.end matches Some(x) ==> m.end->0.nanos >= x.nanos
            &&& b.end matches Some(x) ==> m.end->0.nanos >= x.nanos
        }),
{
}

/// The result of an event, if it is one of a query.
pub open spec fn result_of(e: Option<KademliaEventView>) -> Option<QueryResultView> {
    match e {
        Some(KademliaEventView::QueryResult { result, .. }) => Some(result),
        _ => None,
    }
}

/// A lookup of closest peers reports the key that was looked up and the peers that were found, as a
/// success if it has finished and as a failure if it has timed out.
pub proof fn lemma_closest_peers_result(q: QueryModel, targets: Seq<PeerKeyView>, key: Seq<u8>)
    requires
        q.info == (QueryInfoView::GetClosestPeers { key }),
    ensures
        result_of(finish_event(q, targets)) matches Some(QueryResultView::GetClosestPeers(Ok(ok)))
            && ok.key == key && first_named(q, ok.peers),
        result_of(timeout_event(q)) matches Some(
            QueryResultView::GetClosestPeers(Err(GetClosestPeersErrorView::Timeout { key: k, peers })),
        ) && k == key && first_named(q, peers),
{
    lemma_found_named(q);
}

/// A lookup of providers reports the key, the providers that were found, and the closest peers.
pub proof fn lemma_providers_result(
    q: QueryModel,
    targets: Seq<PeerKeyView>,
    key: Seq<u8>,
    providers: Set<Seq<u8>>,
)
    requires
        q.info == (QueryInfoView::GetProviders { key, providers }),
    ensures
        result_of(finish_event(q, targets)) matches Some(QueryResultView::GetProviders(Ok(ok)))
            && ok.key == key && ok.providers == providers && first_named(q, ok.closest_peers),
        result_of(timeout_event(q)) matches Some(
            QueryResultView::GetProviders(
                Err(GetProvidersErrorView::Timeout { key: k, providers: ps, closest_peers }),
            ),
        ) && k == key && ps == providers && first_named(q, closest_peers),
{
    lemma_found_named(q);
}

/// The storing of a record is reported as a success if and only if at least as many peers have
/// answered as the quorum asks for. A failure names the peers that have answered, all of them and no
/// others, and the quorum.
pub proof fn lemma_put_result(q: QueryModel, targets: Seq<PeerKeyView>)
    requires
        q.info matches QueryInfoView::PutRecord { context, .. } && (context
            == PutRecordContext::Publish || context == PutRecordContext::Republish),
    ensures
        ({
            let record = q.info->PutRecord_record;
            let quorum = q.info->PutRecord_quorum;
            let publish = q.info->PutRecord_context == PutRecordContext::Publish;
            let finished = result_of(finish_event(q, targets));
            let timed_out = result_of(timeout_event(q));
            let count = that_answered(q).len();
            &&& publish <==> (finished matches Some(QueryResultView::PutRecord(_)))
            &&& !publish <==> (finished matches Some(QueryResultView::RepublishRecord(_)))
            &&& publish <==> (timed_out matches Some(QueryResultView::PutRecord(_)))
            &&& !publish <==> (timed_out matches Some(QueryResultView::RepublishRecord(_)))
            &&& ({
                let r = if publish {
                    finished->0->PutRecord_0
                } else {
                    finished->0->RepublishRecord_0
                };
                match r {
                    Ok(ok) => count >= quorum && ok.key == record.key,
                    Err(PutRecordErrorView::QuorumFailed { key, success, quorum: wanted }) => count
                        < quorum && key == record.key && wanted == quorum && named(
                        that_answered(q),
                        success,
                    ),
                    Err(_) => false,
                }
            })
            &&& ({
                let r = if publish {
                    timed_out->0->PutRecord_0
                } else {
                    timed_out->0->RepublishRecord_0
                };
                r matches Err(PutRecordErrorView::Timeout { key, success, quorum: wanted }) && key
                    == record.key && wanted == quorum && named(that_answered(q), success)
            })
        }),
{
    lemma_found_named(q);
}

/// A lookup of a record succeeds if and only if it has found as many records as were asked for, and
/// reports all that it has found. A failure says whether there were none, in which case it names the
/// closest peers, or too few.
pub proof fn lemma_get_result(q: QueryModel, targets: Seq<PeerKeyView>)
    requires
        q.info is GetRecord,
    ensures
        ({
            let key = q.info->GetRecord_key;
            let records = q.info->GetRecord_records;
            let quorum = q.info->GetRecord_quorum;
            &&& result_of(finish_event(q, targets)) matches Some(QueryResultView::GetRecord(r))
                && match r {
                Ok(ok) => records.len() >= quorum && ok.records == records,
                Err(GetRecordErrorView::NotFound { key: k, closest_peers }) => records.len() < quorum
                    && records.len() == 0 && k == key && first_named(q, closest_peers),
                Err(GetRecordErrorView::QuorumFailed { key: k, records: rs, quorum: wanted }) => 0
                    < records.len() < quorum && k == key && rs == records && wanted == quorum,
                Err(_) => false,
            }
            &&& result_of(timeout_event(q)) matches Some(
                QueryResultView::GetRecord(
                    Err(GetRecordErrorView::Timeout { key: k, records: rs, quorum: wanted }),
                ),
            ) && k == key && rs == records && wanted == quorum
        }),
{
    lemma_found_named(q);
}

/// The announcement of a provider reports the key, as a success if it has finished and as a failure
/// if it has timed out. Whether it was repeated by itself is told apart.
pub proof fn lemma_announcement_result(q: QueryModel, targets: Seq<PeerKeyView>)
    requires
        q.info is AddProvider,
    ensures
        ({
            let key = q.info->AddProvider_key;
            match q.info->AddProvider_context {
                AddProviderContext::Publish => {
                    &&& result_of(finish_event(q, targets)) matches Some(
                        QueryResultView::StartProviding(Ok(ok)),
                    ) && ok.key == key
                    &&& result_of(timeout_event(q)) matches Some(
                        QueryResultView::StartProviding(Err(AddProviderErrorView::Timeout { key: k })),
                    ) && k == key
                },
                AddProviderContext::Republish => {
                    &&& result_of(finish_event(q, targets)) matches Some(
                        QueryResultView::RepublishProvider(Ok(ok)),
                    ) && ok.key == key
                    &&& result_of(timeout_event(q)) matches Some(
                        QueryResultView::RepublishProvider(
                            Err(AddProviderErrorView::Timeout { key: k }),
                        ),
                    ) && k == key
                },
            }
        }),
{
}

/// A lookup of a bootstrap query reports the peer that was looked up, and how many lookups are left
/// besides the one that comes next.
pub proof fn lemma_bootstrap_result(q: QueryModel, targets: Seq<PeerKeyView>)
    requires
        q.info is Bootstrap,
        lookups_after(q, targets).len() <= u32::MAX,
    ensures
        ({
            let remaining = q.info->Bootstrap_remaining;
            let left = match remaining {
                Some(r) => r.len() as int,
                None => targets.len() as int,
            };
            let besides = if left > 0 {
                left - 1
            } else {
                0
            };
            &&& result_of(finish_event(q, targets)) matches Some(QueryResultView::Bootstrap(Ok(ok)))
                && ok.peer == q.info->Bootstrap_peer && ok.num_remaining == besides
            &&& result_of(timeout_event(q)) matches Some(
                QueryResultView::Bootstrap(
                    Err(BootstrapErrorView::Timeout { peer, num_remaining }),
                ),
            ) && peer == q.info->Bootstrap_peer && match remaining {
                Some(_) => num_remaining matches Some(n) && n == besides,
                None => num_remaining is None,
            }
        }),
{
}

/// When a lookup of a record has found enough records, and a peer is known that is close to the key
/// and did not have the record, the first record is sent to that peer, by a query that contacts that
/// peer only and asks for one answer. Nothing else changes, and nothing changes after any other
/// lookup or after a lookup of a record that has timed out.
pub proof fn lemma_record_cached(v: KademliaView, q: QueryModel, targets: Seq<PeerKeyView>)
    requires
        v.inv(),
        !(q.info is Bootstrap),
    ensures
        ({
            let next = v.after_finish(q, targets);
            let id = QueryId(v.queries.next_id);
            let caches = q.info matches QueryInfoView::GetRecord { records, quorum, cache_at, .. }
                && cache_at is Some && records.len() >= quorum;
            &&& v.after_timeout(q) == v
            &&& !caches ==> next == v
            &&& caches ==> {
                let at = q.info->GetRecord_cache_at->0.id;
                &&& next == KademliaView { queries: next.queries, ..v }
                &&& next.queries.config == v.queries.config
                &&& next.queries.next_id == if v.queries.next_id == usize::MAX {
                    0
                } else {
                    v.queries.next_id + 1
                }
                &&& forall|other: QueryId| other != id ==> #[trigger] next.queries.get(other)
                    == v.queries.get(other)
                &&& next.queries.get(id) matches Some(c) && {
                    &&& c.id == id
                    &&& c.kind == QueryKind::Fixed
                    &&& c.peers.len() == 1
                    &&& c.peers[0].key.id == at
                    &&& c.peers[0].key.point == hash_of(at)
                    &&& !c.peers[0].succeeded
                    &&& c.num_results == 1
                    &&& !c.finished
                    &&& c.info == QueryInfoView::PutRecord {
                        record: q.info->GetRecord_records[0].record,
                        quorum: 1,
                        context: PutRecordContext::Cache,
                    }
                }
            }
        }),
{
    if let QueryInfoView::GetRecord { records, quorum, cache_at: Some(at), .. } = q.info {
        if records.len() >= quorum {
            let id = QueryId(v.queries.next_id);
            let peers = seq![PeerKeyView { id: at.id, point: hash_of(at.id) }];
            let info = QueryInfoView::PutRecord {
                record: records[0].record,
                quorum: 1,
                context: PutRecordContext::Cache,
            };
            let c = v.queries.fixed_query(id, peers, info);
            let next = v.after_finish(q, targets);
            let inner = PoolModel { queries: with_query(v.queries.queries, c), ..v.queries };
            assert(next.queries.queries == inner.queries);
            assert forall|other: QueryId| #[trigger] next.queries.get(other) == if other == id {
                Some(c)
            } else {
                v.queries.get(other)
            } by {
                lemma_with_query_get(v.queries, c, other);
                assert(next.queries.get(other) == inner.get(other));
            }
        }
    }
}

/// A bootstrap query goes on under its identifier with a lookup of the first peer that is left, which
/// moves towards that peer from the nodes of the routing table, the closest first. The others are
/// left for later. Every other query stays as it is, and the query ends when no peer is left.
pub proof fn lemma_bootstrap_continues(v: KademliaView, q: QueryModel, targets: Seq<PeerKeyView>)
    requires
        v.inv(),
        v.queries.config.parallelism@ <= usize::MAX,
        q.info is Bootstrap,
    ensures
        ({
            let left = match q.info->Bootstrap_remaining {
                Some(r) => r,
                None => targets,
            };
            let next = v.after_finish(q, targets);
            &&& left.len() == 0 ==> next == v
            &&& v.after_timeout(q) == if q.info->Bootstrap_remaining is Some {
                next
            } else {
                v
            }
            &&& left.len() > 0 ==> {
                &&& next == KademliaView { queries: next.queries, ..v }
                &&& next.queries.config == v.queries.config
                &&& next.queries.next_id == v.queries.next_id
                &&& forall|other: QueryId| other != q.id ==> #[trigger] next.queries.get(other)
                    == v.queries.get(other)
                &&& next.queries.get(q.id) matches Some(c) && {
                    &&& c.id == q.id
                    &&& c.kind matches QueryKind::Closest { target, paths } && target
                        == left[0].point && paths == if v.queries.config.disjoint_query_paths {
                        v.queries.config.parallelism@
                    } else {
                        1
                    }
                    &&& seeded(v.table, left[0].point, c.peers)
                    &&& c.num_results == v.queries.config.replication_factor@
                    &&& !c.finished
                    &&& c.stats == QueryStats {
                        requests: 0,
                        success: 0,
                        failure: 0,
                        start: None,
                        end: None,
                    }
                    &&& c.info matches QueryInfoView::Bootstrap { peer, remaining } && peer
                        == left[0].id && remaining == Some(left.subrange(1, left.len() as int))
                }
            }
        }),
{
    let left = match q.info->Bootstrap_remaining {
        Some(r) => r,
        None => targets,
    };
    if left.len() > 0 {
        let t = left[0].point;
        let info = QueryInfoView::Bootstrap { peer: left[0].id, remaining: Some(left.skip(1)) };
        let c = v.queries.closest_query(q.id, t, v.table.closest_keys(t), info);
        let next = v.after_finish(q, targets);
        lemma_lookup_seeks(v, t, info);
        let id = QueryId(v.queries.next_id);
        let d = v.queries.closest_query(id, t, v.table.closest_keys(t), info);
        lemma_with_query_get(v.queries, d, id);
        assert(v.looking_up(t, info).queries.get(id) == Some(d)) by {
            crate::kad::laws::lemma_lookup_started(v, t, info, id);
        }
        assert(c.peers == d.peers);
        assert forall|other: QueryId| #[trigger] next.queries.get(other) == if other == q.id {
            Some(c)
        } else {
            v.queries.get(other)
        } by {
            lemma_with_query_get(v.queries, c, other);
        }
        assert(left.skip(1) =~= left.subrange(1, left.len() as int));
    }
}

/// The lookups that complete the bootstrap process are one for every bucket farther away than the
/// first one that holds a node.
pub proof fn lemma_refresh_count(t: TableModel, draws: Seq<Seq<PeerKeyView>>, first: int)
    requires
        0 <= first < t.buckets.len(),
        t.buckets.len() == NUM_BUCKETS,
        t.buckets[first].nodes.len() > 0,
        forall|j: int| 0 <= j < first ==> (#[trigger] t.buckets[j]).nodes.len() == 0,
        enough(t, draws),
    ensures
        draws.len() == t.buckets.len() - (first + 1),
        targets_of(t, draws).len() == t.buckets.len() - (first + 1),
{
    lemma_first_is(t.buckets, first);
}

/// A lookup that refreshes a bucket has as its target the first of the peers that were drawn for the
/// bucket that falls into it, or the last one if none of those before it does.
pub proof fn lemma_refresh_targets(
    t: TableModel,
    draws: Seq<Seq<PeerKeyView>>,
    first: int,
    i: int,
)
    requires
        0 <= first < t.buckets.len(),
        t.buckets.len() == NUM_BUCKETS,
        t.buckets[first].nodes.len() > 0,
        forall|j: int| 0 <= j < first ==> (#[trigger] t.buckets[j]).nodes.len() == 0,
        enough(t, draws),
        0 <= i < draws.len(),
    ensures
        draws[i].len() == 17,
        exists|m: int|
            {
                let b = (first + 1 + i) as nat;
                let low = vstd::arithmetic::power2::pow2(b);
                let high = vstd::arithmetic::power2::pow2(b + 1);
                &&& 0 <= m < draws[i].len()
                &&& #[trigger] draws[i][m] == targets_of(t, draws)[i]
                &&& m == draws[i].len() - 1 || low <= t.local.point.to(draws[i][m].point) < high
                &&& forall|x: int|
                    0 <= x < m ==> !(low <= t.local.point.to((#[trigger] draws[i][x]).point) < high)
            },
{
    lemma_first_is(t.buckets, first);
    let s = draws[i];
    let b = (first + 1 + i) as nat;
    let m = lemma_picked_at(t.local.point, b, s);
    assert(draws[i][m] == targets_of(t, draws)[i]);
}

proof fn lemma_first_is(bs: Seq<crate::kbucket::bucket::BucketModel>, first: int)
    requires
        0 <= first < bs.len(),
        bs[first].nodes.len() > 0,
        forall|j: int| 0 <= j < first ==> (#[trigger] bs[j]).nodes.len() == 0,
    ensures
        crate::kbucket::table::first_filled(bs) == first,
    decreases bs.len(),
{
    if first > 0 {
        assert(bs[0].nodes.len() == 0);
        let r = bs.skip(1);
        assert forall|j: int| 0 <= j < first - 1 implies (#[trigger] r[j]).nodes.len() == 0 by {
            assert(r[j] == bs[j + 1]);
        }
        lemma_first_is(r, first - 1);
    }
}

proof fn lemma_picked_at(local: KeyBytes, b: nat, s: Seq<PeerKeyView>) -> (m: int)
    requires
        s.len() > 0,
    ensures
        0 <= m < s.len(),
        s[m] == picked(local, b, s),
        m == s.len() - 1 || local.xor(s[m].point).in_bucket(b),
        forall|x: int| 0 <= x < m ==> !local.xor((#[trigger] s[x]).point).in_bucket(b),
    decreases s.len(),
{
    if s.len() <= 1 || local.xor(s[0].point).in_bucket(b) {
        0
    } else {
        let r = s.skip(1);
        let m = lemma_picked_at(local, b, r);
        assert forall|x: int| 0 <= x < m + 1 implies !local.xor(
            (#[trigger] s[x]).point,
        ).in_bucket(b) by {
            if x > 0 {
                assert(r[x - 1] == s[x]);
            }
        }
        m + 1
    }
}

/// If there is no node in the table, no bucket is refreshed.
pub proof fn lemma_nothing_to_refresh(t: TableModel, draws: Seq<Seq<PeerKeyView>>)
    requires
        t.buckets.len() == NUM_BUCKETS,
        forall|j: int| 0 <= j < t.buckets.len() ==> (#[trigger] t.buckets[j]).nodes.len() == 0,
        enough(t, draws),
    ensures
        targets_of(t, draws).len() == 0,
{
    lemma_none_filled(t.buckets);
}

proof fn lemma_none_filled(bs: Seq<crate::kbucket::bucket::BucketModel>)
    requires
        forall|j: int| 0 <= j < bs.len() ==> (#[trigger] bs[j]).nodes.len() == 0,
    ensures
        crate::kbucket::table::first_filled(bs) == bs.len(),
    decreases bs.len(),
{
    if bs.len() > 0 {
        assert(bs[0].nodes.len() == 0);
        let r = bs.skip(1);
        assert forall|j: int| 0 <= j < r.len() implies (#[trigger] r[j]).nodes.len() == 0 by {
            assert(r[j] == bs[j + 1]);
        }
        lemma_none_filled(r);
    }
}

/// A query asks the peers that it contacts for what it is about.
pub proof fn lemma_asks_for(info: QueryInfoView)
    ensures
        match info {
            QueryInfoView::Bootstrap { peer, .. } => request_of(info)
                matches KadRequestView::FindNode { key } && key == peer,
            QueryInfoView::GetClosestPeers { key } => request_of(info)
                matches KadRequestView::FindNode { key: k } && k == key,
            QueryInfoView::GetProviders { key, .. } => request_of(info)
                matches KadRequestView::GetProviders { key: k } && k == key,
            QueryInfoView::GetRecord { key, .. } => request_of(info)
                matches KadRequestView::GetValue { key: k } && k == key,
            QueryInfoView::PutRecord { record, .. } => request_of(info)
                matches KadRequestView::PutValue { record: r } && r == record,
            QueryInfoView::AddProvider { key, provider_id, external_addresses, .. } => request_of(
                info,
            ) matches KadRequestView::AddProvider { key: k, provider } && k == key
                && provider.node_id == provider_id && provider.multiaddrs == external_addresses
                && provider.connection_ty == KadConnectionType::Connected,
        },
{
}

/// A query is found in a pool under its identifier, and nothing is found under any other.
pub proof fn lemma_pool_get(p: PoolModel, id: QueryId, q: QueryModel)
    requires
        p.wf(),
    ensures
        p.get(id) == Some(q) <==> p.queries.contains(q) && q.id == id,
        p.get(id) is None <==> forall|i: int|
            0 <= i < p.queries.len() ==> (#[trigger] p.queries[i]).id != id,
{
    lemma_query_at(p.queries, id);
    let m = query_at(p.queries, id);
    if p.queries.contains(q) && q.id == id {
        let i = choose|i: int| 0 <= i < p.queries.len() && p.queries[i] == q;
        if i < m {
            assert(p.queries[i].id != id);
        } else if m < i {
            assert(p.queries[m].id != p.queries[i].id);
        }
    }
    if p.get(id) == Some(q) {
        assert(p.queries[m] == q);
    }
    if p.get(id) is Some {
        assert(p.queries[m].id == id);
    }
}

/// A query that is taken out of a pool is gone from it, and every other query stays.
pub proof fn lemma_taken(p: PoolModel, id: QueryId, other: QueryId)
    requires
        p.wf(),
    ensures
        p.removed(id).wf(),
        p.removed(id).get(other) == if other == id {
            None
        } else {
            p.get(other)
        },
        p.removed(id).next_id == p.next_id,
        p.removed(id).config == p.config,
{
    lemma_query_at(p.queries, id);
    lemma_query_at(p.queries, other);
    let s = p.queries;
    let r = p.removed(id);
    let t = r.queries;
    let at = query_at(s, id);
    let m = query_at(s, other);
    if at < s.len() {
        assert(t == s.remove(at));
        assert forall|a: int, b: int| #![trigger t[a], t[b]] 0 <= a < b < t.len() implies t[a].id
            != t[b].id by {
            let a1 = if a < at { a } else { a + 1 };
            let b1 = if b < at { b } else { b + 1 };
            assert(t[a] == s[a1] && t[b] == s[b1]);
        }
        lemma_pool_get(r, other, s[m]);
        lemma_pool_get(p, other, s[m]);
        if other == id {
            assert forall|a: int| 0 <= a < t.len() implies (#[trigger] t[a]).id != id by {
                let a1 = if a < at { a } else { a + 1 };
                assert(t[a] == s[a1]);
                if a1 < at {
                    assert(s[a1].id != s[at].id);
                } else {
                    assert(s[at].id != s[a1].id);
                }
            }
        } else if m < s.len() {
            let n = if m < at { m } else { m - 1 };
            assert(t[n] == s[m]);
            assert(t.contains(s[m]));
        } else {
            assert forall|a: int| 0 <= a < t.len() implies (#[trigger] t[a]).id != other by {
                let a1 = if a < at { a } else { a + 1 };
                assert(t[a] == s[a1]);
            }
        }
    }
}

/// The running queries are those that have not finished, in their order, and no others.
pub proof fn lemma_running(s: Seq<QueryModel>, q: QueryModel)
    ensures
        running(s).contains(q) <==> s.contains(q) && !q.finished,
        running(s).len() <= s.len(),
        s.len() > 0 ==> running(s) == if s.last().finished {
            running(s.drop_last())
        } else {
            running(s.drop_last()).push(s.last())
        },
{
    reveal(Seq::filter);
    let pred = |q: QueryModel| !q.finished;
    s.lemma_filter_len(pred);
    if running(s).contains(q) {
        s.lemma_filter_contains_rev(pred, q);
        let i = choose|i: int| 0 <= i < running(s).len() && running(s)[i] == q;
        s.lemma_filter_pred(pred, i);
    }
    if s.contains(q) && !q.finished {
        let i = choose|i: int| 0 <= i < s.len() && s[i] == q;
        s.lemma_filter_contains(pred, i);
    }
}

/// When the running queries are changed, those that have finished stay as they are, and each of the
/// running ones becomes what it was changed to.
pub proof fn lemma_running_changed(s: Seq<QueryModel>, changed: Seq<QueryModel>, i: int)
    requires
        changed.len() == running(s).len(),
        0 <= i < s.len(),
    ensures
        with_running(s, changed).len() == s.len(),
        s[i].finished ==> with_running(s, changed)[i] == s[i],
        !s[i].finished ==> running(s.take(i)).len() < changed.len() && with_running(s, changed)[i]
            == changed[running(s.take(i)).len() as int],
    decreases s.len(),
{
    let front = s.drop_last();
    let x = s.last();
    let before = running(front);
    let here = with_running(s, changed);
    assert(running(s) == if x.finished {
        before
    } else {
        before.push(x)
    }) by {
        reveal(Seq::filter);
    }
    let rest = if x.finished { changed } else { changed.drop_last() };
    let there = with_running(front, rest);
    assert(here == there.push(
        if x.finished {
            x
        } else {
            changed.last()
        },
    ));
    if front.len() > 0 {
        lemma_running_changed(front, rest, if i < front.len() { i } else { 0 });
    }
    assert(there.len() == front.len());
    if i < front.len() {
        assert(front.take(i) =~= s.take(i));
        assert(front[i] == s[i]);
        assert(here[i] == there[i]);
    } else {
        assert(s.take(i) =~= front);
    }
}

/// The target of a lookup that refreshes a bucket has the identifier of a peer and stands where it
/// hashes to, as all peers do that are drawn.
pub proof fn lemma_drawn(t: TableModel, draws: Seq<Seq<PeerKeyView>>, i: int)
    requires
        enough(t, draws),
        genuine(draws),
        0 <= i < draws.len(),
    ensures
        targets_of(t, draws)[i].point == hash_of(targets_of(t, draws)[i].id),
        targets_of(t, draws)[i].id.len() == 34,
{
    let b = (t.first_non_empty() + 1 + i) as nat;
    let m = lemma_picked_at(t.local.point, b, draws[i]);
    assert(drawable(draws[i][m]));
}

/// A bootstrap query needs targets for its further lookups when its first lookup has finished, and no
/// other query ever does.
pub proof fn lemma_targets_needed(q: QueryModel)
    ensures
        needs_targets(q) <==> q.info is Bootstrap && q.info->Bootstrap_remaining is None,
{
}

/// The identifier of the next query is not in use as long as all that are in use are smaller, and
/// that stays so after it was given out unless the identifiers wrap around.
pub proof fn lemma_next_id_unused(p: PoolModel)
    requires
        p.wf(),
        p.fresh(),
    ensures
        p.get(QueryId(p.next_id)) is None,
        forall|id: QueryId| #[trigger] p.get(id) is Some ==> id.0 < p.next_id,
{
    assert forall|id: QueryId| #[trigger] p.get(id) is Some implies id.0 < p.next_id by {
        lemma_query_at(p.queries, id);
        let m = query_at(p.queries, id);
        assert(p.queries[m].id.0 < p.next_id);
    }
}

} // verus!
