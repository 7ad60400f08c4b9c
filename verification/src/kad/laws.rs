//! What holds of the behaviour as a whole.
use crate::config::{KademliaConfig, Quorum};
use crate::error::KadErrorView;
use crate::event::{BootstrapErrorView, GetRecordOkView, KademliaEventView, QueryResultView};
use crate::info::{AddProviderContext, PeerRecordView, PutRecordContext, QueryInfoView, request_of};
use crate::kad::model::{
    KademliaView, finish_event, ids_of, initial, lookups_left, stands_at, timeout_event, without,
};
use crate::kbucket::bucket::{EntryModel, NodeStatus};
use crate::kbucket::key::{KeyBytes, PeerKeyView, hash_of, lemma_distance_injective};
use crate::kbucket::table::{
    ascending, lemma_closest, lemma_concat, lemma_found, lemma_removed_gone,
};
use crate::protocol::{KadPeerView, KadRequestView, KadResponseView, reported};
use crate::query::{
    PoolModel, QueryId, QueryKind, QueryModel, QueryPeerModel, QueryStats, answered, lemma_opened,
    lemma_replaced, lemma_with_query, lemma_with_query_get, peer_at, slot, with_candidate,
    with_candidates, with_query,
};
use crate::record::{ProviderRecordView, RecordView};
use crate::store::StoreView;
use crate::time::{Duration, Instant, exp_decrease_spec, expiry_spec, lemma_exp_decrease};
use vstd::prelude::*;

verus! {

/// The connected peers are a superset of the connected peers in the routing table, as long as no
/// other peer stands where one of them stands.
pub proof fn lemma_connected_superset(v: KademliaView, k: PeerKeyView)
    requires
        v.inv(),
        v.table.lists(k, NodeStatus::Connected),
        forall|id: Seq<u8>| #[trigger] hash_of(id) == k.point ==> id == k.id,
    ensures
        v.connected.contains(k.id),
{
    assert(stands_at(v.connected, k.point));
}

/// A node that has just been set up knows no peers, nobody is connected to it, and no identifier of
/// a query is in use.
pub proof fn lemma_new_node_alone(id: Seq<u8>, store: StoreView, config: KademliaConfig)
    ensures
        initial(id, store, config).table.entries().len() == 0,
        initial(id, store, config).connected == Set::<Seq<u8>>::empty(),
        initial(id, store, config).queries.fresh(),
{
    let t = initial(id, store, config).table;
    if t.entries().len() > 0 {
        let e = t.entries()[0];
        assert(t.entries().contains(e));
        lemma_concat(t.buckets, e);
    }
}

proof fn lemma_filter_ascending(s: Seq<EntryModel>, t: KeyBytes, source: Seq<u8>)
    requires
        ascending(s, t),
    ensures
        ascending(without(s, source), t),
        forall|e: EntryModel| #[trigger]
            without(s, source).contains(e) <==> s.contains(e) && e.key.id != source,
    decreases s.len(),
{
    reveal(Seq::filter);
    let pred = |e: EntryModel| e.key.id != source;
    let f = without(s, source);
    if s.len() > 0 {
        let front = s.drop_last();
        let x = s.last();
        assert(ascending(front, t)) by {
            assert forall|i: int, j: int|
                #![trigger front[i], front[j]]
                0 <= i < j < front.len() implies t.to(front[i].key.point) < t.to(
                front[j].key.point,
            ) by {
                assert(t.to(s[i].key.point) < t.to(s[j].key.point));
            }
        }
        lemma_filter_ascending(front, t, source);
        let g = without(front, source);
        assert forall|e: EntryModel| #[trigger] s.contains(e) <==> front.contains(e) || e == x by {
            if s.contains(e) {
                let m = choose|m: int| 0 <= m < s.len() && s[m] == e;
                if m < s.len() - 1 {
                    assert(front[m] == e);
                }
            }
            if front.contains(e) {
                let m = choose|m: int| 0 <= m < front.len() && front[m] == e;
                assert(s[m] == e);
            }
            assert(s[s.len() - 1] == x);
        }
        if pred(x) {
            assert(f == g.push(x));
            assert forall|i: int, j: int|
                #![trigger f[i], f[j]]
                0 <= i < j < f.len() implies t.to(f[i].key.point) < t.to(f[j].key.point) by {
                assert(f[i] == g[i]);
                if j < g.len() {
                    assert(f[j] == g[j]);
                } else {
                    assert(g.contains(g[i]));
                    assert(front.contains(g[i]));
                    let m = choose|m: int| 0 <= m < front.len() && front[m] == g[i];
                    assert(s[m] == g[i]);
                    assert(s[s.len() - 1] == x);
                }
            }
            assert forall|e: EntryModel| #[trigger] f.contains(e) <==> s.contains(e) && pred(e) by {
                if f.contains(e) {
                    let m = choose|m: int| 0 <= m < f.len() && f[m] == e;
                    if m < g.len() {
                        assert(g[m] == e);
                        assert(g.contains(e));
                    }
                }
                if g.contains(e) {
                    let m = choose|m: int| 0 <= m < g.len() && g[m] == e;
                    assert(f[m] == e);
                }
                assert(f[g.len() as int] == x);
                assert(g.contains(e) <==> front.contains(e) && pred(e));
            }
        } else {
            assert(f == g);
            assert forall|e: EntryModel| #[trigger] f.contains(e) <==> s.contains(e) && pred(e) by {
                assert(g.contains(e) <==> front.contains(e) && pred(e));
            }
        }
    }
}

/// A request for the peers closest to a target is answered with the nodes of the routing table
/// that are closest to it, the closest first, up to the replication factor. The peer that asks is
/// not among them.
pub proof fn lemma_closer_peers(v: KademliaView, target: KeyBytes, source: Seq<u8>)
    requires
        v.inv(),
        target != v.table.local.point,
    ensures
        ({
            let nodes = v.closest_but(target, source);
            let peers = v.closer_peers(target, source);
            &&& ascending(nodes, target)
            &&& forall|e: EntryModel| #[trigger]
                nodes.contains(e) <==> v.table.entries().contains(e) && e.key.id != source
            &&& peers.len() == if v.k() < nodes.len() {
                v.k()
            } else {
                nodes.len()
            }
            &&& forall|i: int| 0 <= i < peers.len() ==> #[trigger] peers[i] == reported(nodes[i])
            &&& forall|i: int| 0 <= i < peers.len() ==> (#[trigger] peers[i]).node_id != source
        }),
{
    lemma_closest(v.table, target);
    let s = v.table.closest(target);
    lemma_filter_ascending(s, target, source);
    let nodes = v.closest_but(target, source);
    let peers = v.closer_peers(target, source);
    assert forall|e: EntryModel| #[trigger] nodes.contains(e) <==> v.table.entries().contains(e)
        && e.key.id != source by {
        assert(s.contains(e) <==> v.table.entries().contains(e));
    }
    assert forall|i: int| 0 <= i < peers.len() implies (#[trigger] peers[i]).node_id != source by {
        assert(nodes.contains(nodes[i]));
    }
}

/// A request for the peers closest to the key of the local node is answered with no peers.
pub proof fn lemma_no_peers_for_self(v: KademliaView, source: Seq<u8>)
    ensures
        v.closer_peers(v.table.local.point, source) == Seq::<KadPeerView>::empty(),
{
}

/// A request for providers is answered with at most as many providers as the replication factor,
/// each of them a provider that the store knows. The peer that asks is not among them.
pub proof fn lemma_known_providers(v: KademliaView, key: Seq<u8>, source: Seq<u8>)
    ensures
        v.known_providers(key, source).len() <= v.k(),
        forall|i: int|
            0 <= i < v.known_providers(key, source).len() ==> {
                let p = #[trigger] v.known_providers(key, source)[i];
                &&& p.node_id != source
                &&& exists|r: ProviderRecordView| #[trigger]
                    (v.store.providers)(key).contains(r) && r.provider == p.node_id
            },
{
    let tell = |p: ProviderRecordView| v.provider_report(source, p);
    let s = (v.store.providers)(key);
    let all = s.filter_map(tell);
    let out = v.known_providers(key, source);
    assert forall|i: int| 0 <= i < out.len() implies {
        let p = #[trigger] out[i];
        &&& p.node_id != source
        &&& exists|r: ProviderRecordView| #[trigger] s.contains(r) && r.provider == p.node_id
    } by {
        let p = out[i];
        assert(all[i] == p);
        assert(all.contains(p));
        s.lemma_filter_map_contains(tell, p);
        let r = choose|r: ProviderRecordView| #[trigger] s.contains(r) && tell(r) == Some(p);
        assert(r.provider == p.node_id);
    }
}

proof fn lemma_told(
    s: Seq<ProviderRecordView>,
    tell: spec_fn(ProviderRecordView) -> Option<KadPeerView>,
    i: int,
)
    requires
        0 <= i < s.len(),
        tell(s[i]) is Some,
    ensures
        s.filter_map(tell).contains(tell(s[i])->0),
        s.filter_map(tell).len() <= s.len(),
    decreases s.len(),
{
    let front = s.drop_last();
    lemma_told_len(front, tell);
    let all = s.filter_map(tell);
    let before = front.filter_map(tell);
    if i < front.len() {
        lemma_told(front, tell, i);
        let y = tell(s[i])->0;
        assert(front[i] == s[i]);
        let m = choose|m: int| 0 <= m < before.len() && before[m] == y;
        assert(all[m] == y);
    } else {
        assert(all[before.len() as int] == tell(s[i])->0);
    }
}

proof fn lemma_told_len(
    s: Seq<ProviderRecordView>,
    tell: spec_fn(ProviderRecordView) -> Option<KadPeerView>,
)
    ensures
        s.filter_map(tell).len() <= s.len(),
    decreases s.len(),
{
    if s.len() > 0 {
        lemma_told_len(s.drop_last(), tell);
    }
}

/// A provider that the store knows is reported to every other peer that asks, if its addresses are
/// known and the store does not know more providers than are reported at a time.
pub proof fn lemma_provider_reported(
    v: KademliaView,
    key: Seq<u8>,
    source: Seq<u8>,
    p: ProviderRecordView,
)
    requires
        (v.store.providers)(key).contains(p),
        (v.store.providers)(key).len() <= v.k(),
        p.provider != source,
        v.provider_addresses(p) is Some,
    ensures
        exists|i: int|
            0 <= i < v.known_providers(key, source).len() && (#[trigger] v.known_providers(
                key,
                source,
            )[i]).node_id == p.provider,
{
    let s = (v.store.providers)(key);
    let tell = |p: ProviderRecordView| v.provider_report(source, p);
    let i = choose|i: int| 0 <= i < s.len() && s[i] == p;
    assert(tell(s[i]) is Some);
    lemma_told(s, tell, i);
    let out = v.known_providers(key, source);
    assert(out == s.filter_map(tell));
    let j = choose|j: int| 0 <= j < out.len() && out[j] == tell(s[i])->0;
    assert(out[j].node_id == p.provider);
}

/// A node that has started to provide the value for a key reports itself as a provider to every
/// peer that asks, if the store does not know more providers than are reported at a time.
pub proof fn lemma_started_providing(
    v: KademliaView,
    key: Seq<u8>,
    next: KademliaView,
    source: Seq<u8>,
)
    requires
        v.store.provided(v.own_provider_record(key), next.store),
        next == (KademliaView {
            store: next.store,
            ..v.announcing(key, AddProviderContext::Publish)
        }),
        (next.store.providers)(key).len() <= v.k(),
        source != v.table.local.id,
    ensures
        exists|i: int|
            0 <= i < next.known_providers(key, source).len() && (#[trigger] next.known_providers(
                key,
                source,
            )[i]).node_id == v.table.local.id,
{
    lemma_provider_reported(next, key, source, v.own_provider_record(key));
}

/// A record that a peer has sent and that was accepted is sent to every peer that asks for it,
/// until it expires.
pub proof fn lemma_put_value_then_get_value(
    v: KademliaView,
    r: RecordView,
    sender: Seq<u8>,
    now: Instant,
    next: KademliaView,
    asker: Seq<u8>,
    later: Instant,
    answer: core::result::Result<Option<KadResponseView>, KadErrorView>,
    last: KademliaView,
)
    requires
        r.publisher != Some(v.table.local.id),
        !v.kept_record(r, now).expired(now),
        v.serves(
            KadRequestView::PutValue { record: r },
            sender,
            now,
            Ok(Some(KadResponseView::PutValue { key: r.key, value: r.value })),
            next,
        ),
        !v.kept_record(r, now).expired(later),
        next.serves(KadRequestView::GetValue { key: r.key }, asker, later, answer, last),
    ensures
        answer matches Ok(Some(KadResponseView::GetValue { record, .. })) && record == Some(
            v.kept_record(r, now),
        ),
{
}

/// A new lookup is found under the next identifier, and every other query stays as it is.
pub proof fn lemma_lookup_started(v: KademliaView, t: KeyBytes, info: QueryInfoView, id: QueryId)
    requires
        v.inv(),
    ensures
        v.looking_up(t, info).inv(),
        v.looking_up(t, info).queries.get(id) == if id.0 == v.queries.next_id {
            Some(v.queries.closest_query(id, t, v.table.closest_keys(t), info))
        } else {
            v.queries.get(id)
        },
{
    let own = QueryId(v.queries.next_id);
    let q = v.queries.closest_query(own, t, v.table.closest_keys(t), info);
    lemma_with_query(v.queries.queries, q);
    lemma_with_query_get(v.queries, q, id);
    let w = v.looking_up(t, info);
    assert(w.queries.get(id) == (PoolModel {
        queries: with_query(v.queries.queries, q),
        ..v.queries
    }).get(id));
}

/// A record that was put is in the local store, with the expiration that it was put with. It is
/// replicated with the configured lifetime if it was put without an expiration.
///
/// A lookup of it that needs no other peer is finished at once, with that record as its result, as
/// long as the record has not expired.
pub proof fn lemma_put_then_get(
    v: KademliaView,
    r: RecordView,
    quorum: Quorum,
    now: Instant,
    later: Instant,
)
    requires
        v.inv(),
        !r.expired(later),
    ensures
        ({
            let put = v.record_put(r, quorum, now);
            let stored = RecordView { publisher: Some(v.table.local.id), ..r };
            let records = seq![PeerRecordView { peer: None, record: stored }];
            let got = put.record_sought(r.key, Quorum::One, later);
            let id = QueryId(put.queries.next_id);
            &&& put.store.get(r.key) == Some(stored)
            &&& put.queries.get(QueryId(v.queries.next_id)) matches Some(q) && q.info
                == QueryInfoView::PutRecord {
                record: RecordView {
                    expires: if r.expires is None {
                        expiry_spec(now, v.record_ttl)
                    } else {
                        r.expires
                    },
                    ..stored
                },
                quorum: quorum.of(v.k()),
                context: PutRecordContext::Publish,
            }
            &&& got.queries.get(id) matches Some(q) && q.finished && finish_event(q, Seq::empty())
                == Some(
                KademliaEventView::QueryResult {
                    id,
                    result: QueryResultView::GetRecord(Ok(GetRecordOkView { records })),
                    stats: q.stats,
                },
            )
        }),
{
    let stored = v.own_record(r);
    let w = KademliaView { store: v.store.stored(stored), ..v };
    let sent = v.published_record(r, now);
    let info = QueryInfoView::PutRecord {
        record: sent,
        quorum: quorum.of(v.k()),
        context: PutRecordContext::Publish,
    };
    let put = v.record_put(r, quorum, now);
    lemma_lookup_started(w, hash_of(r.key), info, QueryId(v.queries.next_id));
    assert(put.store.get(r.key) == Some(stored));
    assert(put.live_record(r.key, later) == Some(stored));
    let id = QueryId(put.queries.next_id);
    let records = seq![PeerRecordView { peer: None, record: stored }];
    let sought = QueryInfoView::GetRecord { key: r.key, records, quorum: 1, cache_at: None };
    lemma_lookup_started(put, hash_of(r.key), sought, id);
    let looked = put.looking_up(hash_of(r.key), sought);
    let q = QueryModel { finished: true, ..looked.queries.get(id)->0 };
    lemma_replaced(looked.queries, id, q);
}

/// A record that was put is gone from the local store after it was removed.
pub proof fn lemma_put_then_remove(v: KademliaView, r: RecordView, quorum: Quorum, now: Instant)
    ensures
        v.record_put(r, quorum, now).record_removed(r.key).store.get(r.key) is None,
{
    let put = v.record_put(r, quorum, now);
    assert(put.store.get(r.key) == Some(v.own_record(r)));
}

/// A record of another publisher is not removed.
pub proof fn lemma_others_not_removed(v: KademliaView, key: Seq<u8>)
    requires
        v.store.get(key) matches Some(r) && r.publisher != Some(v.table.local.id),
    ensures
        v.record_removed(key) == v,
{
}

/// A node that has stopped providing has no provider record for the key any more and does not
/// report itself as a provider.
pub proof fn lemma_stopped_providing(v: KademliaView, key: Seq<u8>, source: Seq<u8>)
    ensures
        ({
            let w = KademliaView { store: v.store.unprovided(key, v.table.local.id), ..v };
            &&& forall|p: ProviderRecordView| #[trigger]
                (w.store.providers)(key).contains(p) ==> p.provider != v.table.local.id
            &&& forall|i: int|
                0 <= i < w.known_providers(key, source).len() ==> (#[trigger] w.known_providers(
                    key,
                    source,
                )[i]).node_id != v.table.local.id
        }),
{
    let w = KademliaView { store: v.store.unprovided(key, v.table.local.id), ..v };
    let old_list = (v.store.providers)(key);
    let list = (w.store.providers)(key);
    let pred = |p: ProviderRecordView| p.provider != v.table.local.id;
    assert(list == old_list.filter(pred));
    assert forall|p: ProviderRecordView| #[trigger] list.contains(p) implies p.provider
        != v.table.local.id by {
        let i = choose|i: int| 0 <= i < list.len() && list[i] == p;
        old_list.lemma_filter_pred(pred, i);
    }
    lemma_known_providers(w, key, source);
}

/// What a peer is asked to do when a node announces itself as a provider, it does not refuse: the
/// announcement names the node that sends it.
pub proof fn lemma_announcement_accepted(
    v: KademliaView,
    key: Seq<u8>,
    context: AddProviderContext,
    peer: KademliaView,
    now: Instant,
    answer: core::result::Result<Option<KadResponseView>, KadErrorView>,
    next: KademliaView,
)
    requires
        v.inv(),
        ({
            let q = v.announcing(key, context).queries.get(QueryId(v.queries.next_id))->0;
            peer.serves(request_of(q.info), v.table.local.id, now, answer, next)
        }),
    ensures
        answer is Ok,
{
    let info = QueryInfoView::AddProvider {
        key,
        provider_id: v.table.local.id,
        external_addresses: Seq::empty(),
        get_closest_peers_stats: QueryStats::none(),
        context,
    };
    lemma_lookup_started(v, hash_of(key), info, QueryId(v.queries.next_id));
}

/// An announcement of a provider by another peer is refused and changes nothing.
pub proof fn lemma_impostor_refused(
    v: KademliaView,
    key: Seq<u8>,
    provider: KadPeerView,
    source: Seq<u8>,
    now: Instant,
    answer: core::result::Result<Option<KadResponseView>, KadErrorView>,
    next: KademliaView,
)
    requires
        provider.node_id != source,
        v.serves(KadRequestView::AddProvider { key, provider }, source, now, answer, next),
    ensures
        answer == Err::<Option<KadResponseView>, _>(KadErrorView::InvalidSource(source)),
        next == v,
{
}

/// A record is never sent to a peer once it has expired, and it is not in the store any more after
/// a peer has asked for it.
pub proof fn lemma_expired_not_sent(
    v: KademliaView,
    key: Seq<u8>,
    source: Seq<u8>,
    now: Instant,
    answer: core::result::Result<Option<KadResponseView>, KadErrorView>,
    next: KademliaView,
)
    requires
        v.serves(KadRequestView::GetValue { key }, source, now, answer, next),
    ensures
        answer matches Ok(Some(KadResponseView::GetValue { record, .. })) && (record matches Some(r)
            ==> !r.expired(now) && v.store.get(key) == Some(r)),
        next.store.get(key) matches Some(r) ==> !r.expired(now),
{
}

/// The record of the local node is not changed by a peer that sends it.
pub proof fn lemma_own_record_kept(
    v: KademliaView,
    r: RecordView,
    source: Seq<u8>,
    now: Instant,
    answer: core::result::Result<Option<KadResponseView>, KadErrorView>,
    next: KademliaView,
)
    requires
        r.publisher == Some(v.table.local.id),
        v.serves(KadRequestView::PutValue { record: r }, source, now, answer, next),
    ensures
        answer == Ok::<_, KadErrorView>(
            Some(KadResponseView::PutValue { key: r.key, value: r.value }),
        ),
        next == v,
{
}

/// Replication does not prolong the lifetime of a record, and a record that a peer sends is kept
/// for no longer than the configured lifetime. The more nodes are closer to its key than the local
/// node is, the shorter it is kept. Only if neither the record nor the configuration limits its
/// lifetime is it kept forever.
pub proof fn lemma_kept_record(v: KademliaView, r: RecordView, now: Instant)
    requires
        now.early(),
        v.record_ttl matches Some(ttl) ==> ttl@ <= Duration::max_nanos(),
    ensures
        v.record_ttl matches Some(ttl) ==> {
            let beyond = v.beyond_k(hash_of(r.key));
            let kept = v.kept_record(r, now);
            &&& kept.expires matches Some(t) && t.nanos <= now.nanos + exp_decrease_spec(ttl@, beyond)
                && t.nanos <= now.nanos + ttl@
            &&& forall|closer: u32|
                closer <= beyond ==> exp_decrease_spec(ttl@, beyond) <= #[trigger] exp_decrease_spec(
                    ttl@,
                    closer,
                )
        },
        r.expires matches Some(e) ==> (v.kept_record(r, now).expires matches Some(t) && t.nanos
            <= e.nanos),
        v.record_ttl is None ==> v.kept_record(r, now).expires == r.expires,
        v.kept_record(r, now).key == r.key,
        v.kept_record(r, now).value == r.value,
        v.kept_record(r, now).publisher == r.publisher,
{
    if let Some(ttl) = v.record_ttl {
        let beyond = v.beyond_k(hash_of(r.key));
        lemma_exp_decrease(ttl@, beyond, beyond);
        assert forall|closer: u32| closer <= beyond implies exp_decrease_spec(ttl@, beyond)
            <= #[trigger] exp_decrease_spec(ttl@, closer) by {
            lemma_exp_decrease(ttl@, closer, beyond);
        }
    }
}

/// The lookups of a bootstrap query that are left once the current one has finished.
pub open spec fn lookups_after(q: QueryModel, targets: Seq<PeerKeyView>) -> Seq<PeerKeyView> {
    match q.info {
        QueryInfoView::Bootstrap { remaining: Some(r), .. } => r,
        _ => targets,
    }
}

/// The number of lookups that a bootstrap event reports to be left.
pub open spec fn reported_left(e: Option<KademliaEventView>) -> Option<u32> {
    match e {
        Some(
            KademliaEventView::QueryResult { result: QueryResultView::Bootstrap(Ok(ok)), .. },
        ) => Some(ok.num_remaining),
        Some(
            KademliaEventView::QueryResult {
                result: QueryResultView::Bootstrap(
                    Err(BootstrapErrorView::Timeout { num_remaining, .. }),
                ),
                ..
            },
        ) => num_remaining,
        _ => None,
    }
}

/// A bootstrap query goes on under its identifier for as long as there are lookups left, one lookup
/// at a time and each of them reported, and the reported number of lookups that are left goes down
/// to zero.
pub proof fn lemma_bootstrap_goes_on(v: KademliaView, q: QueryModel, targets: Seq<PeerKeyView>)
    requires
        v.inv(),
        q.info is Bootstrap,
        lookups_after(q, targets).len() <= u32::MAX,
    ensures
        ({
            let left = lookups_after(q, targets);
            let w = v.after_finish(q, targets);
            &&& w.inv()
            &&& left.len() == 0 ==> w == v && reported_left(finish_event(q, targets)) == Some(0u32)
            &&& left.len() > 0 ==> {
                &&& w.queries.get(q.id) matches Some(next) && !next.finished && next.info
                    == QueryInfoView::Bootstrap {
                    peer: left[0].id,
                    remaining: Some(left.skip(1)),
                } && next.kind == QueryKind::Closest {
                    target: left[0].point,
                    paths: v.queries.paths() as usize,
                } && reported_left(finish_event(next, targets)) == Some(
                    lookups_left((left.len() - 1) as nat),
                )
                &&& reported_left(finish_event(q, targets)) == Some((left.len() - 1) as u32)
            }
        }),
{
    let left = lookups_after(q, targets);
    if left.len() > 0 {
        let next = v.queries.closest_query(
            q.id,
            left[0].point,
            v.table.closest_keys(left[0].point),
            QueryInfoView::Bootstrap { peer: left[0].id, remaining: Some(left.skip(1)) },
        );
        lemma_with_query(v.queries.queries, next);
        lemma_with_query_get(v.queries, next, q.id);
    }
}

/// A bootstrap query goes on with the lookups that are left when one of them times out, just as it
/// does when the lookup succeeds. It ends when the first lookup times out.
pub proof fn lemma_bootstrap_timeout(v: KademliaView, q: QueryModel, targets: Seq<PeerKeyView>)
    requires
        q.info is Bootstrap,
    ensures
        q.info->Bootstrap_remaining is Some ==> v.after_timeout(q) == v.after_finish(q, targets)
            && reported_left(timeout_event(q)) == reported_left(finish_event(q, targets)),
        q.info->Bootstrap_remaining is None ==> v.after_timeout(q) == v && reported_left(
            timeout_event(q),
        ) is None,
{
}

proof fn lemma_candidates(
    s: Seq<QueryPeerModel>,
    t: KeyBytes,
    ids: Seq<Seq<u8>>,
    x: QueryPeerModel,
)
    requires
        with_candidates(s, t, ids).contains(x),
    ensures
        s.contains(x) || ids.contains(x.key.id),
    decreases ids.len(),
{
    if ids.len() > 0 {
        let before = with_candidates(s, t, ids.drop_last());
        let id = ids.last();
        let after = with_candidate(before, t, id);
        lemma_slot(before, t, t.to(hash_of(id)));
        let m = choose|m: int| 0 <= m < after.len() && after[m] == x;
        let at = slot(before, t, t.to(hash_of(id)));
        if after == before {
            assert(before.contains(x));
        } else if m < at {
            assert(before[m] == x);
        } else if m > at {
            assert(before[m - 1] == x);
        } else {
            assert(ids[ids.len() - 1] == x.key.id);
        }
        if before.contains(x) {
            lemma_candidates(s, t, ids.drop_last(), x);
            if ids.drop_last().contains(x.key.id) {
                let n = choose|n: int|
                    0 <= n < ids.drop_last().len() && ids.drop_last()[n] == x.key.id;
                assert(ids[n] == x.key.id);
            }
        }
    }
}

/// What [`slot`] finds.
pub proof fn lemma_slot(s: Seq<QueryPeerModel>, t: KeyBytes, d: nat)
    ensures
        0 <= slot(s, t, d) <= s.len(),
        forall|j: int| 0 <= j < slot(s, t, d) ==> t.to((#[trigger] s[j]).key.point) < d,
        slot(s, t, d) < s.len() ==> t.to(s[slot(s, t, d)].key.point) >= d,
    decreases s.len(),
{
    if s.len() > 0 && t.to(s[0].key.point) < d {
        let r = s.skip(1);
        lemma_slot(r, t, d);
        assert forall|j: int| 0 <= j < slot(s, t, d) implies t.to((#[trigger] s[j]).key.point) < d by {
            if j > 0 {
                assert(r[j - 1] == s[j]);
            }
        }
    }
}

/// Whether the distance to `t` grows along the peers `s` of a query.
pub open spec fn nearing(s: Seq<QueryPeerModel>, t: KeyBytes) -> bool {
    forall|i: int, j: int|
        #![trigger s[i], s[j]]
        0 <= i < j < s.len() ==> t.to(s[i].key.point) < t.to(s[j].key.point)
}

/// Whether the peers of a lookup are in the order of their distance to its target.
pub open spec fn in_order(q: QueryModel) -> bool {
    q.kind matches QueryKind::Closest { target, .. } ==> nearing(q.peers, target)
}

/// A lookup starts with the peers of the routing table in the order of their distance to its
/// target.
pub proof fn lemma_lookup_in_order(v: KademliaView, id: QueryId, t: KeyBytes, info: QueryInfoView)
    requires
        v.inv(),
    ensures
        in_order(v.queries.closest_query(id, t, v.table.closest_keys(t), info)),
{
    lemma_closest(v.table, t);
    let s = v.table.closest(t);
    let q = v.queries.closest_query(id, t, v.table.closest_keys(t), info);
    assert forall|i: int, j: int|
        #![trigger q.peers[i], q.peers[j]]
        0 <= i < j < q.peers.len() implies t.to(q.peers[i].key.point) < t.to(
        q.peers[j].key.point,
    ) by {
        assert(t.to(s[i].key.point) < t.to(s[j].key.point));
    }
}

proof fn lemma_candidate_in_order(s: Seq<QueryPeerModel>, t: KeyBytes, id: Seq<u8>)
    requires
        nearing(s, t),
    ensures
        nearing(with_candidate(s, t, id), t),
{
    let p = hash_of(id);
    let at = slot(s, t, t.to(p));
    lemma_slot(s, t, t.to(p));
    let r = with_candidate(s, t, id);
    if at < s.len() {
        lemma_distance_injective(t, s[at].key.point, p);
    }
    if !(at < s.len() && s[at].key.point == p) {
        assert forall|a: int, b: int|
            #![trigger r[a], r[b]]
            0 <= a < b < r.len() implies t.to(r[a].key.point) < t.to(r[b].key.point) by {
            let a1 = if a < at { a } else { a - 1 };
            let b1 = if b < at { b } else { b - 1 };
            if a != at {
                assert(r[a] == s[a1]);
            }
            if b != at {
                assert(r[b] == s[b1]);
            }
            if a == at && b1 > at {
                assert(t.to(s[at].key.point) < t.to(s[b1].key.point));
            }
        }
    }
}

proof fn lemma_candidates_in_order(s: Seq<QueryPeerModel>, t: KeyBytes, ids: Seq<Seq<u8>>)
    requires
        nearing(s, t),
    ensures
        nearing(with_candidates(s, t, ids), t),
    decreases ids.len(),
{
    if ids.len() > 0 {
        lemma_candidates_in_order(s, t, ids.drop_last());
        lemma_candidate_in_order(with_candidates(s, t, ids.drop_last()), t, ids.last());
    }
}

/// The peers of a lookup stay in the order of their distance to its target as it discovers peers.
pub proof fn lemma_discovery_in_order(
    v: KademliaView,
    q: QueryModel,
    source: Seq<u8>,
    ps: Seq<KadPeerView>,
)
    requires
        in_order(q),
    ensures
        in_order(v.progressed(q, source, ps)),
{
    let at = peer_at(q.peers, source);
    lemma_peer_at_range(q.peers, source);
    if let QueryKind::Closest { target, .. } = q.kind {
        if !(q.finished || at >= q.peers.len() || q.peers[at].succeeded) {
            let marked = q.peers.update(at, QueryPeerModel { succeeded: true, ..q.peers[at] });
            assert(nearing(marked, target)) by {
                assert(forall|j: int|
                    0 <= j < marked.len() ==> (#[trigger] marked[j]).key == q.peers[j].key);
                assert forall|i: int, j: int|
                    #![trigger marked[i], marked[j]]
                    0 <= i < j < marked.len() implies target.to(marked[i].key.point) < target.to(
                    marked[j].key.point,
                ) by {
                    assert(target.to(q.peers[i].key.point) < target.to(q.peers[j].key.point));
                }
            }
            lemma_candidates_in_order(marked, target, ids_of(v.without_self(ps)));
        }
    }
}

/// The local node does not become part of a query because a peer has reported it.
pub proof fn lemma_self_not_discovered(
    v: KademliaView,
    q: QueryModel,
    source: Seq<u8>,
    ps: Seq<KadPeerView>,
)
    requires
        forall|i: int| 0 <= i < q.peers.len() ==> (#[trigger] q.peers[i]).key.id != v.table.local.id,
    ensures
        forall|i: int|
            0 <= i < v.progressed(q, source, ps).peers.len() ==> (#[trigger] v.progressed(
                q,
                source,
                ps,
            ).peers[i]).key.id != v.table.local.id,
{
    let own = v.table.local.id;
    let pred = |p: KadPeerView| p.node_id != own;
    let kept = v.without_self(ps);
    let ids = ids_of(kept);
    let after = v.progressed(q, source, ps);
    let at = peer_at(q.peers, source);
    assert forall|i: int| 0 <= i < after.peers.len() implies (#[trigger] after.peers[i]).key.id
        != own by {
        let x = after.peers[i];
        if !(q.finished || at >= q.peers.len() || q.peers[at].succeeded) {
            let marked = q.peers.update(at, QueryPeerModel { succeeded: true, ..q.peers[at] });
            lemma_peer_at_range(q.peers, source);
            assert(forall|j: int| 0 <= j < marked.len() ==> (#[trigger] marked[j]).key == q.peers[j].key);
            if let QueryKind::Closest { target, .. } = q.kind {
                assert(after.peers.contains(x));
                lemma_candidates(marked, target, ids, x);
                if marked.contains(x) {
                    let j = choose|j: int| 0 <= j < marked.len() && marked[j] == x;
                    assert(q.peers[j].key.id != own);
                } else {
                    let j = choose|j: int| 0 <= j < ids.len() && ids[j] == x.key.id;
                    ps.lemma_filter_pred(pred, j);
                    assert(pred(kept[j]));
                }
            } else {
                assert(q.peers[i].key.id != own);
            }
        }
    }
}

proof fn lemma_peer_at_range(s: Seq<QueryPeerModel>, id: Seq<u8>)
    ensures
        0 <= peer_at(s, id) <= s.len(),
    decreases s.len(),
{
    if s.len() > 0 && s[0].key.id != id {
        lemma_peer_at_range(s.skip(1), id);
    }
}

/// A peer is told that its record was accepted even if the record has expired already and is
/// discarded.
pub proof fn lemma_expired_accepted(
    v: KademliaView,
    r: RecordView,
    source: Seq<u8>,
    now: Instant,
    answer: core::result::Result<Option<KadResponseView>, KadErrorView>,
    next: KademliaView,
)
    requires
        v.kept_record(r, now).expired(now),
        v.serves(KadRequestView::PutValue { record: r }, source, now, answer, next),
    ensures
        answer == Ok::<_, KadErrorView>(
            Some(KadResponseView::PutValue { key: r.key, value: r.value }),
        ),
        next.store == v.store,
{
}

/// Without a lifetime for them, provider records never expire. With one, they expire after it.
pub proof fn lemma_provider_expiry(
    v: KademliaView,
    key: Seq<u8>,
    provider: KadPeerView,
    now: Instant,
)
    ensures
        v.provider_record_ttl is None ==> v.provider_record(key, provider, now).expires is None,
        v.provider_record_ttl matches Some(ttl) ==> v.provider_record(key, provider, now).expires
            == Some(now.later_by(ttl@)),
{
}

/// Records are replicated or published in intervals if an interval is configured for either, and
/// provider records are published in intervals if one is configured for them.
pub proof fn lemma_jobs(id: Seq<u8>, store: StoreView, config: KademliaConfig)
    ensures
        ({
            let v = initial(id, store, config);
            &&& v.put_record_job is None <==> config.record_replication_interval is None
                && config.record_publication_interval is None
            &&& v.add_provider_interval == config.provider_publication_interval
        }),
{
}

/// With disjoint paths, a lookup uses as many of them as the configured parallelism. Without, it
/// uses one.
pub proof fn lemma_disjoint_paths(v: KademliaView, id: QueryId, t: KeyBytes, info: QueryInfoView)
    requires
        v.queries.config.parallelism@ <= usize::MAX,
    ensures
        v.queries.closest_query(id, t, v.table.closest_keys(t), info).kind
            matches QueryKind::Closest { target, paths } && target == t && paths
            == if v.queries.config.disjoint_query_paths {
            v.queries.config.parallelism@
        } else {
            1
        },
{
}

/// A lookup finds no more peers than the replication factor, however many it discovers.
pub proof fn lemma_results_bounded(
    v: KademliaView,
    id: QueryId,
    t: KeyBytes,
    info: QueryInfoView,
    q: QueryModel,
    source: Seq<u8>,
    ps: Seq<KadPeerView>,
)
    ensures
        v.queries.closest_query(id, t, v.table.closest_keys(t), info).num_results == v.k(),
        v.progressed(q, source, ps).num_results == q.num_results,
        q.found().len() <= q.num_results,
{
}

/// A peer that was removed is neither in the routing table nor pending any more, so that it cannot
/// be removed again. What is removed is the entry of that peer, as long as no other peer stands
/// where it stands.
pub proof fn lemma_removed_peer(v: KademliaView, peer: Seq<u8>)
    requires
        v.inv(),
    ensures
        v.table.removed(hash_of(peer)).get(hash_of(peer)) is None,
        v.table.removed(hash_of(peer)).removed(hash_of(peer)) == v.table.removed(hash_of(peer)),
        (forall|id: Seq<u8>| #[trigger] hash_of(id) == hash_of(peer) ==> id == peer) ==> (
        v.table.get(hash_of(peer)) matches Some(e) ==> e.key.id == peer),
{
    let p = hash_of(peer);
    lemma_removed_gone(v.table, p);
    if v.table.get(p) is Some {
        lemma_found(v.table, p);
        let e = v.table.get(p)->0;
        let i = choose|i: int|
            0 <= i < v.table.buckets.len() && (#[trigger] v.table.buckets[i]).lists(e.key, e.status);
        assert(e.key.valid());
    }
}

/// A lookup is a new query as long as the identifiers have not wrapped around: its identifier was
/// not in use, and no other query is changed or replaced.
pub proof fn lemma_lookup_is_new(v: KademliaView, t: KeyBytes, info: QueryInfoView)
    requires
        v.inv(),
    ensures
        v.queries.opens(QueryId(v.queries.next_id), v.looking_up(t, info).queries),
{
    let id = QueryId(v.queries.next_id);
    lemma_opened(v.queries, v.queries.closest_query(id, t, v.table.closest_keys(t), info));
}

/// The storing of a record is reported as a success if and only if at least as many peers have
/// answered as the quorum asks for.
pub proof fn lemma_put_quorum(q: QueryModel, targets: Seq<PeerKeyView>)
    requires
        q.info matches QueryInfoView::PutRecord { context, .. } && (context
            == PutRecordContext::Publish || context == PutRecordContext::Republish),
    ensures
        q.info matches QueryInfoView::PutRecord { record, quorum, .. } && finish_event(q, targets)
            matches Some(KademliaEventView::QueryResult { result, .. }) && (result
            matches QueryResultView::PutRecord(r) ==> (r is Ok <==> answered(q.peers).len()
            >= quorum)) && (result matches QueryResultView::RepublishRecord(r) ==> (r is Ok
            <==> answered(q.peers).len() >= quorum)),
{
}

/// No peer of a lookup is counted twice among those that have answered.
pub proof fn lemma_answered_once(s: Seq<QueryPeerModel>, t: KeyBytes)
    requires
        nearing(s, t),
        forall|i: int| 0 <= i < s.len() ==> (#[trigger] s[i]).key.valid(),
    ensures
        answered(s).no_duplicates(),
        forall|id: Seq<u8>| #[trigger]
            answered(s).contains(id) ==> exists|i: int|
                0 <= i < s.len() && (#[trigger] s[i]).key.id == id,
    decreases s.len(),
{
    if s.len() > 0 {
        let front = s.drop_last();
        let x = s.last();
        assert forall|i: int, j: int|
            #![trigger front[i], front[j]]
            0 <= i < j < front.len() implies t.to(front[i].key.point) < t.to(
            front[j].key.point,
        ) by {
            assert(t.to(s[i].key.point) < t.to(s[j].key.point));
        }
        assert forall|i: int| 0 <= i < front.len() implies (#[trigger] front[i]).key.valid() by {
            assert(s[i].key.valid());
        }
        lemma_answered_once(front, t);
        let a = answered(front);
        assert forall|id: Seq<u8>| #[trigger] answered(s).contains(id) implies exists|i: int|
            0 <= i < s.len() && (#[trigger] s[i]).key.id == id by {
            let m = choose|m: int| 0 <= m < answered(s).len() && answered(s)[m] == id;
            if m < a.len() {
                assert(a[m] == id);
                assert(a.contains(id));
                let i = choose|i: int| 0 <= i < front.len() && (#[trigger] front[i]).key.id == id;
                assert(s[i].key.id == id);
            } else {
                assert(s[s.len() - 1].key.id == id);
            }
        }
        if x.succeeded && a.contains(x.key.id) {
            let i = choose|i: int| 0 <= i < front.len() && (#[trigger] front[i]).key.id == x.key.id;
            assert(s[i] == front[i]);
            assert(s[i].key.valid() && s[s.len() - 1].key.valid());
            assert(t.to(s[i].key.point) < t.to(s[s.len() - 1].key.point));
        }
    }
}

/// A peer that has announced itself as a provider, and whose record the store has stored, is
/// reported to every other peer that asks, if it has named its addresses and the store does not
/// know more providers than are reported at a time.
pub proof fn lemma_announced_then_reported(
    v: KademliaView,
    key: Seq<u8>,
    provider: KadPeerView,
    now: Instant,
    next: KademliaView,
    asker: Seq<u8>,
)
    requires
        v.store.provided(v.provider_record(key, provider, now), next.store),
        (next.store.providers)(key).len() <= next.k(),
        provider.multiaddrs.len() > 0,
        asker != provider.node_id,
    ensures
        exists|i: int|
            0 <= i < next.known_providers(key, asker).len() && (#[trigger] next.known_providers(
                key,
                asker,
            )[i]).node_id == provider.node_id,
{
    lemma_provider_reported(next, key, asker, v.provider_record(key, provider, now));
}

/// A node that has just been set up is as it was configured. All of its buckets are empty, and the
/// nodes of each wait for the configured time. The job for records runs in the replication interval,
/// or in the publication interval if there is none for replication.
pub proof fn lemma_set_up(id: Seq<u8>, store: StoreView, config: KademliaConfig)
    ensures
        ({
            let v = initial(id, store, config);
            &&& v.table.local.id == id
            &&& v.table.local.point == hash_of(id)
            &&& v.table.buckets.len() == 256
            &&& forall|i: int|
                0 <= i < 256 ==> (#[trigger] v.table.buckets[i]).nodes.len() == 0
                    && v.table.buckets[i].pending is None && v.table.buckets[i].pending_timeout
                    == config.kbucket_pending_timeout
            &&& v.inserts == config.kbucket_inserts
            &&& v.queries.queries.len() == 0
            &&& v.queries.next_id == 0
            &&& v.queries.config == config.query_config
            &&& v.add_provider_interval == config.provider_publication_interval
            &&& v.record_ttl == config.record_ttl
            &&& v.provider_record_ttl == config.provider_record_ttl
            &&& v.connection_idle_timeout == config.connection_idle_timeout
            &&& v.local_addrs.len() == 0
            &&& v.store == store
            &&& v.put_record_job matches Some(job) ==> {
                &&& job.local_id == id
                &&& config.record_replication_interval matches Some(d) ==> job.interval == d
                &&& config.record_replication_interval is None ==> config.record_publication_interval
                    == Some(job.interval)
                &&& job.publish_interval == config.record_publication_interval
                &&& job.record_ttl == config.record_ttl
                &&& forall|key: Seq<u8>| !#[trigger] job.skipped.contains(key)
            }
            &&& v.put_record_job is None ==> config.record_replication_interval is None
                && config.record_publication_interval is None
        }),
{
}

/// The removal of a record takes it out of the local store if the local node has published it, and
/// changes nothing otherwise. Every other record stays.
pub proof fn lemma_record_removed(v: KademliaView, key: Seq<u8>)
    ensures
        ({
            let next = v.record_removed(key);
            let own = v.store.records.contains_key(key) && v.store.records[key].publisher == Some(
                v.table.local.id,
            );
            &&& !own ==> next == v
            &&& own ==> next == KademliaView {
                store: StoreView {
                    records: v.store.records.remove(key),
                    providers: v.store.providers,
                },
                ..v
            }
        }),
{
}

/// The provider record of the local node names it, its key, no addresses and no expiration.
pub proof fn lemma_own_provider_record(v: KademliaView, key: Seq<u8>)
    ensures
        ({
            let r = v.own_provider_record(key);
            &&& r.key == key
            &&& r.provider == v.table.local.id
            &&& r.expires is None
            &&& r.addresses.len() == 0
        }),
{
}

/// The records of the local node that the store is offered and that are published are those that were
/// given, with the local node as their publisher.
pub proof fn lemma_own_record(v: KademliaView, r: RecordView, now: Instant)
    requires
        now.early(),
        v.record_ttl matches Some(ttl) ==> ttl@ <= Duration::max_nanos(),
    ensures
        v.own_record(r).publisher == Some(v.table.local.id),
        v.own_record(r).key == r.key,
        v.own_record(r).value == r.value,
        v.own_record(r).expires == r.expires,
        v.lasting(r, now).publisher == r.publisher,
        v.lasting(r, now).key == r.key,
        v.lasting(r, now).value == r.value,
        match (r.expires, v.record_ttl) {
            (Some(t), _) => v.lasting(r, now).expires == Some(t),
            (None, Some(ttl)) => v.lasting(r, now).expires is Some && v.lasting(
                r,
                now,
            ).expires->0.nanos == now.nanos + ttl@,
            (None, None) => v.lasting(r, now).expires is None,
        },
{
}

} // verus!
