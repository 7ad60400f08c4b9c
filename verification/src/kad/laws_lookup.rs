//! What lookups are for: where they search, whom they ask, and what they find.
use crate::config::Quorum;
use crate::info::{AddProviderContext, PeerRecordView, PutRecordContext, QueryInfoView};
use crate::kad::laws::{lemma_discovery_in_order, lemma_lookup_started, lemma_slot, nearing};
use crate::kad::model::{KademliaView, ids_of, noted};
use crate::kbucket::bucket::EntryModel;
use crate::kbucket::key::{KeyBytes, PeerKeyView, hash_of};
use crate::kbucket::table::{TableModel, lemma_closest, lemma_concat};
use crate::protocol::KadPeerView;
use crate::query::{
    QueryId, QueryKind, QueryModel, QueryPeerModel, QueryStats, lemma_query_at, lemma_replaced_get,
    peer_at, slot, with_candidate, with_candidates,
};
use crate::record::RecordView;
use crate::time::{Duration, Instant};
use vstd::prelude::*;

verus! {

/// Whether `e` is a node of the routing table: it is in one of the buckets.
pub open spec fn holds(t: TableModel, e: EntryModel) -> bool {
    exists|i: int, j: int|
        0 <= i < t.buckets.len() && 0 <= j < t.buckets[i].nodes.len()
            && #[trigger] t.buckets[i].nodes[j] == e
}

/// A node is in one of the buckets if and only if it is among all nodes of the table.
pub proof fn lemma_holds(t: TableModel, e: EntryModel)
    ensures
        holds(t, e) <==> t.entries().contains(e),
{
    lemma_concat(t.buckets, e);
    if holds(t, e) {
        let (i, j) = choose|i: int, j: int|
            0 <= i < t.buckets.len() && 0 <= j < t.buckets[i].nodes.len()
                && #[trigger] t.buckets[i].nodes[j] == e;
        assert(t.buckets[i].nodes.contains(e));
    }
    if t.entries().contains(e) {
        let i = choose|i: int| 0 <= i < t.buckets.len() && (#[trigger] t.buckets[i]).nodes.contains(e);
        let j = choose|j: int| 0 <= j < t.buckets[i].nodes.len() && t.buckets[i].nodes[j] == e;
        assert(t.buckets[i].nodes[j] == e);
    }
}

/// The table knows no peers if and only if all buckets are empty.
pub proof fn lemma_no_nodes(t: TableModel)
    ensures
        t.entries().len() == 0 <==> forall|i: int|
            0 <= i < t.buckets.len() ==> (#[trigger] t.buckets[i]).nodes.len() == 0,
{
    if t.entries().len() == 0 {
        assert forall|i: int| 0 <= i < t.buckets.len() implies (#[trigger] t.buckets[i]).nodes.len()
            == 0 by {
            if t.buckets[i].nodes.len() > 0 {
                let e = t.buckets[i].nodes[0];
                assert(holds(t, e));
                lemma_holds(t, e);
            }
        }
    } else {
        let e = t.entries()[0];
        assert(t.entries().contains(e));
        lemma_holds(t, e);
    }
}

/// The nodes of the table by their distance to `target`: each of them once, and the closer one of
/// two first.
pub proof fn lemma_closest_nodes(t: TableModel, target: KeyBytes)
    requires
        t.wf(),
    ensures
        forall|i: int, j: int|
            #![trigger t.closest(target)[i], t.closest(target)[j]]
            0 <= i < j < t.closest(target).len() ==> target.to(t.closest(target)[i].key.point)
                < target.to(t.closest(target)[j].key.point),
        forall|e: EntryModel| #[trigger] t.closest(target).contains(e) <==> holds(t, e),
        forall|e: EntryModel| #[trigger] holds(t, e) ==> e.key.point == hash_of(e.key.id),
{
    lemma_closest(t, target);
    let s = t.closest(target);
    assert forall|e: EntryModel| #[trigger] s.contains(e) <==> holds(t, e) by {
        lemma_holds(t, e);
        assert(s.contains(e) <==> t.entries().contains(e));
    }
    assert forall|e: EntryModel| #[trigger] holds(t, e) implies e.key.point == hash_of(
        e.key.id,
    ) by {
        let (i, j) = choose|i: int, j: int|
            0 <= i < t.buckets.len() && 0 <= j < t.buckets[i].nodes.len()
                && #[trigger] t.buckets[i].nodes[j] == e;
        assert(t.buckets[i].lists(e.key, e.status));
    }
}

/// Whether the peer `k` is a node of the routing table.
pub open spec fn in_table(t: TableModel, k: PeerKeyView) -> bool {
    exists|e: EntryModel| #[trigger] holds(t, e) && e.key == k
}

/// Whether `peers` are the nodes of the table in the order of their distance to `target`, none of
/// which has been asked.
pub open spec fn seeded(t: TableModel, target: KeyBytes, peers: Seq<QueryPeerModel>) -> bool {
    &&& forall|i: int, j: int|
        #![trigger peers[i], peers[j]]
        0 <= i < j < peers.len() ==> target.to(peers[i].key.point) < target.to(peers[j].key.point)
    &&& forall|i: int|
        0 <= i < peers.len() ==> !(#[trigger] peers[i]).succeeded && in_table(t, peers[i].key)
    &&& forall|k: PeerKeyView| #[trigger]
        in_table(t, k) ==> exists|i: int| 0 <= i < peers.len() && (#[trigger] peers[i]).key == k
}

/// Whether `next` differs from `v` in a new query under the next identifier, and perhaps in the
/// store. The query moves towards `target` from the nodes of the routing table, the closest first.
/// It is about `info`, it has done nothing yet, and it looks for as many peers as the replication
/// factor.
pub open spec fn seeks(
    v: KademliaView,
    next: KademliaView,
    target: KeyBytes,
    info: QueryInfoView,
    finished: bool,
) -> bool {
    let id = QueryId(v.queries.next_id);
    &&& next.queries.get(id) matches Some(q) && {
        &&& q.id == id
        &&& q.kind matches QueryKind::Closest { target: t, paths } && t == target && paths
            == if v.queries.config.disjoint_query_paths {
            v.queries.config.parallelism@
        } else {
            1
        }
        &&& q.info == info
        &&& q.finished == finished
        &&& q.num_results == v.queries.config.replication_factor@
        &&& q.stats == QueryStats { requests: 0, success: 0, failure: 0, start: None, end: None }
        &&& q.addresses.dom() == Set::<Seq<u8>>::empty()
        &&& seeded(v.table, target, q.peers)
    }
    &&& forall|other: QueryId| other != id ==> #[trigger] next.queries.get(other)
        == v.queries.get(other)
    &&& next.queries.config == v.queries.config
    &&& next.queries.next_id == if v.queries.next_id == usize::MAX {
        0
    } else {
        v.queries.next_id + 1
    }
    &&& next.table == v.table
    &&& next.inserts == v.inserts
    &&& next.connected == v.connected
    &&& next.add_provider_interval == v.add_provider_interval
    &&& next.put_record_job == v.put_record_job
    &&& next.record_ttl == v.record_ttl
    &&& next.provider_record_ttl == v.provider_record_ttl
    &&& next.connection_idle_timeout == v.connection_idle_timeout
    &&& next.local_addrs == v.local_addrs
}

/// A lookup moves towards its target, from the nodes of the routing table and the closest first.
pub proof fn lemma_lookup_seeks(v: KademliaView, target: KeyBytes, info: QueryInfoView)
    requires
        v.inv(),
        v.queries.config.parallelism@ <= usize::MAX,
    ensures
        seeks(v, v.looking_up(target, info), target, info, false),
        v.looking_up(target, info).store == v.store,
{
    let id = QueryId(v.queries.next_id);
    let next = v.looking_up(target, info);
    let q = v.queries.closest_query(id, target, v.table.closest_keys(target), info);
    lemma_lookup_started(v, target, info, id);
    assert forall|other: QueryId| other != id implies #[trigger] next.queries.get(other)
        == v.queries.get(other) by {
        lemma_lookup_started(v, target, info, other);
    }
    assert(q.addresses.dom() =~= Set::<Seq<u8>>::empty());
    lemma_closest_nodes(v.table, target);
    let s = v.table.closest(target);
    assert(q.peers.len() == s.len());
    assert(forall|i: int| 0 <= i < s.len() ==> (#[trigger] q.peers[i]).key == s[i].key);
    assert forall|i: int, j: int|
        #![trigger q.peers[i], q.peers[j]]
        0 <= i < j < q.peers.len() implies target.to(q.peers[i].key.point) < target.to(
        q.peers[j].key.point,
    ) by {
        assert(target.to(s[i].key.point) < target.to(s[j].key.point));
    }
    assert forall|i: int| 0 <= i < q.peers.len() implies !(#[trigger] q.peers[i]).succeeded
        && in_table(v.table, q.peers[i].key) by {
        assert(s.contains(s[i]));
        assert(holds(v.table, s[i]));
    }
    assert forall|k: PeerKeyView| #[trigger] in_table(v.table, k) implies exists|i: int|
        0 <= i < q.peers.len() && (#[trigger] q.peers[i]).key == k by {
        let e = choose|e: EntryModel| #[trigger] holds(v.table, e) && e.key == k;
        assert(s.contains(e));
        let i = choose|i: int| 0 <= i < s.len() && s[i] == e;
        assert(q.peers[i].key == e.key);
    }
}

/// The number of peers that a quorum asks for: one, more than half of them but no more than needed
/// for that, all of them, or a given number but no more than there are.
pub proof fn lemma_quorum_counts(q: Quorum, total: nat)
    requires
        total > 0,
    ensures
        q matches Quorum::One ==> q.of(total) == 1,
        q matches Quorum::Majority ==> 2 * q.of(total) > total && 2 * (q.of(total) - 1) <= total,
        q matches Quorum::All ==> q.of(total) == total,
        q matches Quorum::N(n) ==> q.of(total) <= n@ && q.of(total) <= total && (q.of(total) == n@
            || q.of(total) == total),
{
}

/// The storing of a record moves towards the key of the record, whatever it is done for.
pub proof fn lemma_put_seeks(
    v: KademliaView,
    record: RecordView,
    quorum: Quorum,
    context: PutRecordContext,
)
    requires
        v.inv(),
        v.queries.config.parallelism@ <= usize::MAX,
    ensures
        seeks(
            v,
            v.putting(record, quorum, context),
            hash_of(record.key),
            QueryInfoView::PutRecord {
                record,
                quorum: quorum.of(v.queries.config.replication_factor@),
                context,
            },
            false,
        ),
        v.putting(record, quorum, context).store == v.store,
{
    lemma_lookup_seeks(
        v,
        hash_of(record.key),
        QueryInfoView::PutRecord {
            record,
            quorum: quorum.of(v.queries.config.replication_factor@),
            context,
        },
    );
}

/// A record that is put is stored locally as a record of the local node, and every other record
/// stays. Its publication moves towards its key, with the expiration that it names or else the
/// configured lifetime.
pub proof fn lemma_put_record_seeks(v: KademliaView, r: RecordView, quorum: Quorum, now: Instant)
    requires
        v.inv(),
        v.queries.config.parallelism@ <= usize::MAX,
        now.early(),
        v.record_ttl matches Some(ttl) ==> ttl@ <= Duration::max_nanos(),
    ensures
        ({
            let next = v.record_put(r, quorum, now);
            let own = RecordView {
                key: r.key,
                value: r.value,
                publisher: Some(v.table.local.id),
                expires: r.expires,
            };
            let expires = match (r.expires, v.record_ttl) {
                (Some(t), _) => Some(t),
                (None, Some(ttl)) => Some(Instant { nanos: (now.nanos + ttl@) as u128 }),
                (None, None) => None,
            };
            &&& seeks(
                v,
                next,
                hash_of(r.key),
                QueryInfoView::PutRecord {
                    record: RecordView { expires, ..own },
                    quorum: quorum.of(v.queries.config.replication_factor@),
                    context: PutRecordContext::Publish,
                },
                false,
            )
            &&& next.store.records == v.store.records.insert(r.key, own)
            &&& next.store.providers == v.store.providers
        }),
{
    let w = KademliaView { store: v.store.stored(v.own_record(r)), ..v };
    lemma_put_seeks(w, v.published_record(r, now), quorum, PutRecordContext::Publish);
}

/// A lookup of a record moves towards the key of the record. It starts with the record in the local
/// store, if that has not expired, and is finished at once if no more records are needed. A record
/// in the local store that has expired is dropped, and every other record stays.
pub proof fn lemma_get_record_seeks(v: KademliaView, key: Seq<u8>, quorum: Quorum, now: Instant)
    requires
        v.inv(),
        v.queries.config.parallelism@ <= usize::MAX,
    ensures
        ({
            let next = v.record_sought(key, quorum, now);
            let wanted = quorum.of(v.queries.config.replication_factor@);
            let there = v.store.records.contains_key(key);
            let record = v.store.records[key];
            let fresh = there && (record.expires matches Some(t) ==> now.nanos < t.nanos);
            let records = if fresh {
                seq![PeerRecordView { peer: None, record }]
            } else {
                Seq::empty()
            };
            &&& seeks(
                v,
                next,
                hash_of(key),
                QueryInfoView::GetRecord { key, records, quorum: wanted, cache_at: None },
                records.len() >= wanted,
            )
            &&& next.store.records == if there && !fresh {
                v.store.records.remove(key)
            } else {
                v.store.records
            }
            &&& next.store.providers == v.store.providers
        }),
{
    let wanted = quorum.of(v.queries.config.replication_factor@);
    let records = v.records_at_hand(key, now);
    let info = QueryInfoView::GetRecord { key, records, quorum: wanted, cache_at: None };
    let w = v.expunged(key, now);
    assert(w.queries == v.queries && w.table == v.table && w.connected == v.connected);
    lemma_lookup_seeks(w, hash_of(key), info);
    let looked = w.looking_up(hash_of(key), info);
    let id = QueryId(v.queries.next_id);
    let next = v.record_sought(key, quorum, now);
    if records.len() >= wanted {
        let q = QueryModel { finished: true, ..looked.queries.get(id)->0 };
        assert(next.queries == looked.queries.replaced(id, q));
        lemma_replaced_get(looked.queries, id, q, id);
        assert forall|other: QueryId| other != id implies #[trigger] next.queries.get(other)
            == v.queries.get(other) by {
            lemma_replaced_get(looked.queries, id, q, other);
        }
    }
}

/// A record is stored and looked up at the same place: the queries that put and get it have the
/// same target, and they start from the same peers in the same order.
pub proof fn lemma_put_and_get_meet(
    v: KademliaView,
    r: RecordView,
    put_quorum: Quorum,
    get_quorum: Quorum,
    now: Instant,
    later: Instant,
)
    requires
        v.inv(),
        v.queries.config.parallelism@ <= usize::MAX,
        now.early(),
        v.record_ttl matches Some(ttl) ==> ttl@ <= Duration::max_nanos(),
    ensures
        ({
            let id = QueryId(v.queries.next_id);
            let put = v.record_put(r, put_quorum, now).queries.get(id);
            let got = v.record_sought(r.key, get_quorum, later).queries.get(id);
            &&& put is Some && got is Some
            &&& put->0.kind == got->0.kind
            &&& put->0.peers == got->0.peers
        }),
{
    lemma_put_record_seeks(v, r, put_quorum, now);
    lemma_get_record_seeks(v, r.key, get_quorum, later);
    let id = QueryId(v.queries.next_id);
    let a = v.record_put(r, put_quorum, now).queries.get(id)->0;
    let b = v.record_sought(r.key, get_quorum, later).queries.get(id)->0;
    lemma_seeded_once(v.table, hash_of(r.key), a.peers, b.peers);
}

/// There is one way only in which a lookup can start.
pub proof fn lemma_seeded_once(
    t: TableModel,
    target: KeyBytes,
    a: Seq<QueryPeerModel>,
    b: Seq<QueryPeerModel>,
)
    requires
        seeded(t, target, a),
        seeded(t, target, b),
    ensures
        a == b,
{
    assert forall|x: QueryPeerModel| #[trigger] a.contains(x) <==> b.contains(x) by {
        if a.contains(x) {
            lemma_seeded_has(t, target, a, b, x);
        }
        if b.contains(x) {
            lemma_seeded_has(t, target, b, a, x);
        }
    }
    lemma_nearing_once(a, b, target);
}

proof fn lemma_seeded_has(
    t: TableModel,
    target: KeyBytes,
    a: Seq<QueryPeerModel>,
    b: Seq<QueryPeerModel>,
    x: QueryPeerModel,
)
    requires
        seeded(t, target, a),
        seeded(t, target, b),
        a.contains(x),
    ensures
        b.contains(x),
{
    let i = choose|i: int| 0 <= i < a.len() && a[i] == x;
    assert(!a[i].succeeded);
    assert(in_table(t, a[i].key));
    let j = choose|j: int| 0 <= j < b.len() && (#[trigger] b[j]).key == a[i].key;
    assert(!b[j].succeeded);
    assert(b[j] == x);
}

proof fn lemma_nearing_once(a: Seq<QueryPeerModel>, b: Seq<QueryPeerModel>, t: KeyBytes)
    requires
        nearing(a, t),
        nearing(b, t),
        forall|x: QueryPeerModel| #[trigger] a.contains(x) <==> b.contains(x),
    ensures
        a == b,
    decreases a.len(),
{
    if a.len() == 0 {
        if b.len() > 0 {
            assert(b.contains(b[0]));
            assert(a.contains(b[0]));
        }
    } else {
        let x = a.last();
        assert(a.contains(x));
        assert(b.contains(x));
        let y = b.last();
        assert(b.contains(y));
        assert(a.contains(y));
        let i = choose|i: int| 0 <= i < b.len() && b[i] == x;
        let j = choose|j: int| 0 <= j < a.len() && a[j] == y;
        assert(i == b.len() - 1);
        let a1 = a.drop_last();
        let b1 = b.drop_last();
        assert forall|e: QueryPeerModel| #[trigger] a1.contains(e) <==> b1.contains(e) by {
            if a1.contains(e) {
                let k = choose|k: int| 0 <= k < a1.len() && a1[k] == e;
                assert(a[k] == e);
                assert(a.contains(e));
                let m = choose|m: int| 0 <= m < b.len() && b[m] == e;
                assert(m < b.len() - 1);
                assert(b1[m] == e);
            }
            if b1.contains(e) {
                let k = choose|k: int| 0 <= k < b1.len() && b1[k] == e;
                assert(b[k] == e);
                assert(b.contains(e));
                assert(a.contains(e));
                let m = choose|m: int| 0 <= m < a.len() && a[m] == e;
                assert(m < a.len() - 1);
                assert(a1[m] == e);
            }
        }
        lemma_nearing_once(a1, b1, t);
        assert(a =~= a1.push(x));
        assert(b =~= b1.push(x));
    }
}

/// The announcement of the local node as a provider moves towards the key that it provides the value
/// for, and names the local node.
pub proof fn lemma_announcement_seeks(v: KademliaView, key: Seq<u8>, context: AddProviderContext)
    requires
        v.inv(),
        v.queries.config.parallelism@ <= usize::MAX,
    ensures
        seeks(
            v,
            v.announcing(key, context),
            hash_of(key),
            QueryInfoView::AddProvider {
                key,
                provider_id: v.table.local.id,
                external_addresses: Seq::empty(),
                get_closest_peers_stats: QueryStats {
                    requests: 0,
                    success: 0,
                    failure: 0,
                    start: None,
                    end: None,
                },
                context,
            },
            false,
        ),
        v.announcing(key, context).store == v.store,
{
    lemma_lookup_seeks(
        v,
        hash_of(key),
        QueryInfoView::AddProvider {
            key,
            provider_id: v.table.local.id,
            external_addresses: Seq::empty(),
            get_closest_peers_stats: QueryStats::none(),
            context,
        },
    );
}

/// A candidate is afterwards among the peers of a query, and every peer that was there stays as it
/// was. What is new is the candidate, and it has not answered.
pub proof fn lemma_candidate_joins(s: Seq<QueryPeerModel>, t: KeyBytes, id: Seq<u8>)
    ensures
        exists|m: int|
            0 <= m < with_candidate(s, t, id).len() && (#[trigger] with_candidate(
                s,
                t,
                id,
            )[m]).key.point == hash_of(id),
        forall|x: QueryPeerModel| s.contains(x) ==> #[trigger] with_candidate(s, t, id).contains(x),
        forall|x: QueryPeerModel| #[trigger]
            with_candidate(s, t, id).contains(x) ==> s.contains(x) || (x.key.id == id
                && x.key.point == hash_of(id) && !x.succeeded),
{
    let r = with_candidate(s, t, id);
    let at = slot(s, t, t.to(hash_of(id)));
    lemma_slot(s, t, t.to(hash_of(id)));
    assert(r[at].key.point == hash_of(id));
    assert forall|x: QueryPeerModel| s.contains(x) implies #[trigger] r.contains(x) by {
        let j = choose|j: int| 0 <= j < s.len() && s[j] == x;
        if r.len() == s.len() {
            assert(r[j] == x);
        } else if j < at {
            assert(r[j] == x);
        } else {
            assert(r[j + 1] == x);
        }
    }
    assert forall|x: QueryPeerModel| #[trigger] r.contains(x) implies s.contains(x) || (x.key.id
        == id && x.key.point == hash_of(id) && !x.succeeded) by {
        let j = choose|j: int| 0 <= j < r.len() && r[j] == x;
        if r.len() == s.len() {
            assert(s[j] == x);
        } else if j < at {
            assert(s[j] == x);
        } else if j > at {
            assert(s[j - 1] == x);
        }
    }
}

/// All candidates are afterwards among the peers of a query, and every peer that was there stays as
/// it was. What is new are the candidates, and they have not answered.
pub proof fn lemma_candidates_join(s: Seq<QueryPeerModel>, t: KeyBytes, ids: Seq<Seq<u8>>)
    ensures
        forall|i: int|
            0 <= i < ids.len() ==> stands_among(with_candidates(s, t, ids), #[trigger] ids[i]),
        forall|x: QueryPeerModel|
            s.contains(x) ==> #[trigger] with_candidates(s, t, ids).contains(x),
        forall|x: QueryPeerModel| #[trigger]
            with_candidates(s, t, ids).contains(x) ==> s.contains(x) || (ids.contains(x.key.id)
                && x.key.point == hash_of(x.key.id) && !x.succeeded),
    decreases ids.len(),
{
    if ids.len() > 0 {
        let front = ids.drop_last();
        let id = ids.last();
        let before = with_candidates(s, t, front);
        let after = with_candidates(s, t, ids);
        lemma_candidates_join(s, t, front);
        lemma_candidate_joins(before, t, id);
        assert forall|i: int| 0 <= i < ids.len() implies stands_among(after, #[trigger] ids[i]) by {
            if i < front.len() {
                assert(front[i] == ids[i]);
                let m = choose|m: int|
                    0 <= m < before.len() && (#[trigger] before[m]).key.point == hash_of(ids[i]);
                let x = before[m];
                assert(before.contains(x));
                assert(after.contains(x));
                let n = choose|n: int| 0 <= n < after.len() && after[n] == x;
                assert(after[n].key.point == hash_of(ids[i]));
            }
        }
        assert forall|x: QueryPeerModel| s.contains(x) implies #[trigger] after.contains(x) by {
            assert(before.contains(x));
        }
        assert forall|x: QueryPeerModel| #[trigger] after.contains(x) implies s.contains(x) || (
        ids.contains(x.key.id) && x.key.point == hash_of(x.key.id) && !x.succeeded) by {
            if before.contains(x) {
                if !s.contains(x) {
                    let n = choose|n: int| 0 <= n < front.len() && front[n] == x.key.id;
                    assert(ids[n] == x.key.id);
                }
            } else {
                assert(ids[ids.len() - 1] == x.key.id);
            }
        }
    }
}

/// Whether one of the peers of a query stands where `id` hashes to.
pub open spec fn stands_among(peers: Seq<QueryPeerModel>, id: Seq<u8>) -> bool {
    exists|m: int| 0 <= m < peers.len() && (#[trigger] peers[m]).key.point == hash_of(id)
}

/// Whether the report `ps[i]` is the last one of its peer.
pub open spec fn last_report(ps: Seq<KadPeerView>, i: int) -> bool {
    forall|j: int| i < j < ps.len() ==> (#[trigger] ps[j]).node_id != ps[i].node_id
}

/// Whether `ps` reports the peer `id`.
pub open spec fn reports(ps: Seq<KadPeerView>, id: Seq<u8>) -> bool {
    exists|i: int| 0 <= i < ps.len() && (#[trigger] ps[i]).node_id == id
}

proof fn lemma_reported_addresses(
    v: KademliaView,
    m: Map<Seq<u8>, Seq<Seq<u8>>>,
    ps: Seq<KadPeerView>,
)
    ensures
        ({
            let after = noted(m, v.without_self(ps));
            &&& forall|i: int|
                0 <= i < ps.len() && (#[trigger] ps[i]).node_id != v.table.local.id && last_report(
                    ps,
                    i,
                ) ==> after.contains_key(ps[i].node_id) && after[ps[i].node_id]
                    == ps[i].multiaddrs
            &&& forall|id: Seq<u8>|
                !reports(ps, id) || id == v.table.local.id ==> (#[trigger] after.contains_key(id)
                    <==> m.contains_key(id)) && after[id] == m[id]
        }),
        forall|id: Seq<u8>| #[trigger]
            ids_of(v.without_self(ps)).contains(id) <==> reports(ps, id) && id != v.table.local.id,
    decreases ps.len(),
{
    reveal(Seq::filter);
    let own = v.table.local.id;
    let kept = v.without_self(ps);
    let after = noted(m, kept);
    if ps.len() == 0 {
        assert(ids_of(kept) =~= Seq::empty());
    } else {
        let front = ps.drop_last();
        let p = ps.last();
        lemma_reported_addresses(v, m, front);
        let kept0 = v.without_self(front);
        let before = noted(m, kept0);
        if p.node_id != own {
            assert(kept == kept0.push(p));
            assert(kept.drop_last() =~= kept0);
            assert(after == before.insert(p.node_id, p.multiaddrs));
            assert(ids_of(kept) =~= ids_of(kept0).push(p.node_id));
        } else {
            assert(kept == kept0);
        }
        assert forall|i: int|
            0 <= i < ps.len() && (#[trigger] ps[i]).node_id != own && last_report(
                ps,
                i,
            ) implies after.contains_key(ps[i].node_id) && after[ps[i].node_id]
            == ps[i].multiaddrs by {
            if i < front.len() {
                assert(front[i] == ps[i]);
                assert(ps[ps.len() - 1].node_id != ps[i].node_id);
                assert forall|j: int| i < j < front.len() implies (#[trigger] front[j]).node_id
                    != front[i].node_id by {
                    assert(ps[j].node_id != ps[i].node_id);
                }
                assert(last_report(front, i));
            }
        }
        assert forall|id: Seq<u8>| reports(ps, id) <==> #[trigger] reports(front, id) || id
            == p.node_id by {
            if reports(ps, id) {
                let i = choose|i: int| 0 <= i < ps.len() && (#[trigger] ps[i]).node_id == id;
                if i < front.len() {
                    assert(front[i].node_id == id);
                }
            }
            if reports(front, id) {
                let i = choose|i: int| 0 <= i < front.len() && (#[trigger] front[i]).node_id == id;
                assert(ps[i].node_id == id);
            }
            assert(ps[ps.len() - 1] == p);
        }
        assert forall|id: Seq<u8>| !reports(ps, id) || id == own implies (
        #[trigger] after.contains_key(id) <==> m.contains_key(id)) && after[id] == m[id] by {
            assert(!reports(front, id) || id == own);
            assert(before.contains_key(id) <==> m.contains_key(id));
        }
        assert forall|id: Seq<u8>| #[trigger] ids_of(kept).contains(id) <==> reports(ps, id) && id
            != own by {
            let a = ids_of(kept0);
            assert(reports(ps, id) <==> reports(front, id) || id == p.node_id);
            assert(a.contains(id) <==> reports(front, id) && id != own);
            if p.node_id != own {
                let b = ids_of(kept);
                assert(b == a.push(p.node_id));
                if b.contains(id) {
                    let n = choose|n: int| 0 <= n < b.len() && b[n] == id;
                    if n < a.len() {
                        assert(a[n] == id);
                    }
                }
                if a.contains(id) {
                    let n = choose|n: int| 0 <= n < a.len() && a[n] == id;
                    assert(b[n] == id);
                }
                if id == p.node_id {
                    assert(b[a.len() as int] == id);
                }
            }
        }
    }
}

/// Whether an answer of `source` counts: the query is running, and `source` is the peer at `at`,
/// which has not answered before.
pub open spec fn answers_first(q: QueryModel, source: Seq<u8>, at: int) -> bool {
    &&& !q.finished
    &&& 0 <= at < q.peers.len()
    &&& q.peers[at].key.id == source
    &&& !q.peers[at].succeeded
    &&& forall|j: int| 0 <= j < at ==> (#[trigger] q.peers[j]).key.id != source
}

proof fn lemma_peer_at(s: Seq<QueryPeerModel>, id: Seq<u8>)
    ensures
        0 <= peer_at(s, id) <= s.len(),
        forall|j: int| 0 <= j < peer_at(s, id) ==> (#[trigger] s[j]).key.id != id,
        peer_at(s, id) < s.len() ==> s[peer_at(s, id)].key.id == id,
    decreases s.len(),
{
    if s.len() > 0 && s[0].key.id != id {
        let r = s.skip(1);
        lemma_peer_at(r, id);
        assert forall|j: int| 0 <= j < peer_at(s, id) implies (#[trigger] s[j]).key.id != id by {
            if j > 0 {
                assert(r[j - 1] == s[j]);
            }
        }
    }
}

/// When a peer has answered a request of a query, the addresses of all peers that it reports are
/// noted, and those that were noted of other peers stay. Of several reports of one peer the last one
/// counts. The local node is left out.
pub proof fn lemma_discovered_addresses(
    v: KademliaView,
    id: QueryId,
    source: Seq<u8>,
    ps: Seq<KadPeerView>,
)
    requires
        v.inv(),
        v.queries.get(id) is Some,
    ensures
        ({
            let q = v.queries.get(id)->0;
            let next = v.after_discovery(id, source, ps);
            let after = next.queries.get(id)->0;
            &&& next.queries.get(id) is Some
            &&& forall|i: int|
                0 <= i < ps.len() && (#[trigger] ps[i]).node_id != v.table.local.id && last_report(
                    ps,
                    i,
                ) ==> after.addresses.contains_key(ps[i].node_id)
                    && after.addresses[ps[i].node_id] == ps[i].multiaddrs
            &&& forall|p: Seq<u8>|
                !reports(ps, p) || p == v.table.local.id ==> (
                #[trigger] after.addresses.contains_key(p) <==> q.addresses.contains_key(p))
                    && after.addresses[p] == q.addresses[p]
        }),
{
    let q = v.queries.get(id)->0;
    lemma_query_at(v.queries.queries, id);
    lemma_replaced_get(v.queries, id, v.progressed(q, source, ps), id);
    lemma_reported_addresses(v, q.addresses, ps);
}

/// When a peer of a running lookup answers for the first time, every peer that it reports other than
/// the local node is afterwards among the peers of the query, whatever else was reported of it. The
/// peers that were there stay, and of these only the one that has answered is marked. What is new was
/// reported and has not answered. The peers stay in the order of their distance to the target.
pub proof fn lemma_discovered_candidates(
    v: KademliaView,
    id: QueryId,
    source: Seq<u8>,
    ps: Seq<KadPeerView>,
    at: int,
)
    requires
        v.inv(),
        v.queries.get(id) matches Some(q) && q.kind is Closest && answers_first(q, source, at),
    ensures
        ({
            let q = v.queries.get(id)->0;
            let after = v.after_discovery(id, source, ps).queries.get(id)->0;
            &&& forall|i: int|
                0 <= i < ps.len() && (#[trigger] ps[i]).node_id != v.table.local.id
                    ==> stands_among(after.peers, ps[i].node_id)
            &&& forall|j: int|
                0 <= j < q.peers.len() ==> after.peers.contains(
                    QueryPeerModel {
                        key: (#[trigger] q.peers[j]).key,
                        succeeded: q.peers[j].succeeded || j == at,
                    },
                )
            &&& forall|x: QueryPeerModel| #[trigger]
                after.peers.contains(x) ==> (!x.succeeded && x.key.id != v.table.local.id
                    && x.key.point == hash_of(x.key.id) && reports(ps, x.key.id)) || exists|j: int|
                    0 <= j < q.peers.len() && (#[trigger] q.peers[j]).key == x.key && x.succeeded
                        == (q.peers[j].succeeded || j == at)
            &&& after.stats == QueryStats {
                success: if q.stats.success == u32::MAX {
                    u32::MAX
                } else {
                    (q.stats.success + 1) as u32
                },
                ..q.stats
            }
            &&& nearing(q.peers, q.kind->target) ==> nearing(after.peers, q.kind->target)
        }),
{
    let q = v.queries.get(id)->0;
    let target = q.kind->target;
    let after = v.progressed(q, source, ps);
    lemma_query_at(v.queries.queries, id);
    lemma_replaced_get(v.queries, id, after, id);
    lemma_reported_addresses(v, q.addresses, ps);
    lemma_peer_at(q.peers, source);
    let m = peer_at(q.peers, source);
    if m < at {
        assert(q.peers[m].key.id != source);
    } else if at < m {
        assert(q.peers[at].key.id != source);
    }
    let marked = q.peers.update(at, QueryPeerModel { succeeded: true, ..q.peers[at] });
    let ids = ids_of(v.without_self(ps));
    lemma_candidates_join(marked, target, ids);
    assert(after.peers == with_candidates(marked, target, ids));
    assert forall|i: int|
        0 <= i < ps.len() && (#[trigger] ps[i]).node_id != v.table.local.id implies stands_among(
        after.peers,
        ps[i].node_id,
    ) by {
        assert(reports(ps, ps[i].node_id));
        assert(ids.contains(ps[i].node_id));
        let n = choose|n: int| 0 <= n < ids.len() && ids[n] == ps[i].node_id;
        assert(stands_among(after.peers, ids[n]));
    }
    assert forall|j: int| 0 <= j < q.peers.len() implies after.peers.contains(
        QueryPeerModel {
            key: (#[trigger] q.peers[j]).key,
            succeeded: q.peers[j].succeeded || j == at,
        },
    ) by {
        assert(marked[j].key == q.peers[j].key);
        assert(marked.contains(marked[j]));
    }
    assert forall|x: QueryPeerModel| #[trigger] after.peers.contains(x) implies (!x.succeeded
        && x.key.id != v.table.local.id && x.key.point == hash_of(x.key.id) && reports(
        ps,
        x.key.id,
    )) || exists|j: int|
        0 <= j < q.peers.len() && (#[trigger] q.peers[j]).key == x.key && x.succeeded == (
        q.peers[j].succeeded || j == at) by {
        if marked.contains(x) {
            let j = choose|j: int| 0 <= j < marked.len() && marked[j] == x;
            assert(q.peers[j].key == x.key);
        } else {
            assert(ids.contains(x.key.id));
        }
    }
    if nearing(q.peers, target) {
        lemma_discovery_in_order(v, q, source, ps);
    }
}

/// An answer changes nothing else: every other query stays as it is, and of the query itself what it
/// is about, its target, and whether it is finished. An answer that does not count, because the query
/// is finished, does not have the peer or has had its answer already, leaves the peers and the
/// statistics alone. The peers of a query with a fixed set of peers stay the same.
pub proof fn lemma_discovered_frame(
    v: KademliaView,
    id: QueryId,
    source: Seq<u8>,
    ps: Seq<KadPeerView>,
)
    requires
        v.inv(),
    ensures
        ({
            let next = v.after_discovery(id, source, ps);
            &&& next == KademliaView { queries: next.queries, ..v }
            &&& next.queries.next_id == v.queries.next_id && next.queries.config
                == v.queries.config
            &&& forall|other: QueryId| other != id ==> #[trigger] next.queries.get(other)
                == v.queries.get(other)
            &&& v.queries.get(id) is None ==> next == v
            &&& v.queries.get(id) matches Some(q) ==> {
                &&& next.queries.get(id) matches Some(after) && after.id == q.id && after.kind
                    == q.kind && after.info == q.info && after.finished == q.finished
                    && after.num_results == q.num_results && ((forall|at: int|
                    !answers_first(q, source, at)) ==> after.peers == q.peers && after.stats
                    == q.stats) && (q.kind is Fixed ==> after.peers.len() == q.peers.len()
                    && forall|j: int|
                    0 <= j < q.peers.len() ==> (#[trigger] after.peers[j]).key == q.peers[j].key)
            }
        }),
{
    if let Some(q) = v.queries.get(id) {
        let after = v.progressed(q, source, ps);
        lemma_query_at(v.queries.queries, id);
        lemma_replaced_get(v.queries, id, after, id);
        let next = v.after_discovery(id, source, ps);
        assert forall|other: QueryId| other != id implies #[trigger] next.queries.get(other)
            == v.queries.get(other) by {
            lemma_replaced_get(v.queries, id, after, other);
        }
        lemma_peer_at(q.peers, source);
        let m = peer_at(q.peers, source);
        if !q.finished && m < q.peers.len() && !q.peers[m].succeeded {
            assert(answers_first(q, source, m));
        }
    }
}

/// When a peer of a query with a fixed set of peers answers for the first time, it is marked, the
/// answer is counted, and the other peers stay as they are.
pub proof fn lemma_fixed_answered(
    v: KademliaView,
    id: QueryId,
    source: Seq<u8>,
    ps: Seq<KadPeerView>,
    at: int,
)
    requires
        v.inv(),
        v.queries.get(id) matches Some(q) && q.kind is Fixed && answers_first(q, source, at),
    ensures
        ({
            let q = v.queries.get(id)->0;
            let after = v.after_discovery(id, source, ps).queries.get(id)->0;
            &&& after.peers.len() == q.peers.len()
            &&& forall|j: int|
                0 <= j < q.peers.len() ==> (#[trigger] after.peers[j]).key == q.peers[j].key
                    && after.peers[j].succeeded == (q.peers[j].succeeded || j == at)
            &&& after.stats == QueryStats {
                success: if q.stats.success == u32::MAX {
                    u32::MAX
                } else {
                    (q.stats.success + 1) as u32
                },
                ..q.stats
            }
        }),
{
    let q = v.queries.get(id)->0;
    let after = v.progressed(q, source, ps);
    lemma_query_at(v.queries.queries, id);
    lemma_replaced_get(v.queries, id, after, id);
    lemma_peer_at(q.peers, source);
    let m = peer_at(q.peers, source);
    if m < at {
        assert(q.peers[m].key.id != source);
    } else if at < m {
        assert(q.peers[at].key.id != source);
    }
}

} // verus!
