//! What peers are answered, and what becomes of what they send.
use crate::error::KadErrorView;
use crate::jobs::PutRecordJobView;
use crate::kad::Kademlia;
use crate::kad::laws::lemma_closer_peers;
use crate::kad::laws_lookup::{holds, lemma_closest_nodes, lemma_holds};
use crate::kad::laws_table::{knows, lemma_entry_found};
use crate::kad::model::KademliaView;
use crate::kbucket::bucket::{EntryModel, NodeStatus};
use crate::kbucket::key::{KeyBytes, hash_of};
use crate::kbucket::table::{NUM_BUCKETS, TableModel, lemma_entries_distinct};
use crate::protocol::{
    KadConnectionType, KadPeerView, KadRequestView, KadResponseView, reported,
};
use crate::record::{ProviderRecordView, RecordView};
use crate::store::{RecordStore, StoreView};
use crate::time::{Duration, Instant};
use vstd::arithmetic::power2::pow2;
use vstd::prelude::*;

verus! {

/// Whether `p` says who the node `e` is, what its addresses are, and whether it is connected.
pub open spec fn tells(p: KadPeerView, e: EntryModel) -> bool {
    &&& p.node_id == e.key.id
    &&& p.multiaddrs == e.addresses
    &&& p.connection_ty == KadConnectionType::Connected <==> e.status == NodeStatus::Connected
}

/// Whether `p` is a node of the table.
pub open spec fn shown(t: TableModel, p: KadPeerView) -> bool {
    exists|e: EntryModel| #[trigger] holds(t, e) && tells(p, e)
}

/// Whether the node `e` is among `peers`.
pub open spec fn told(peers: Seq<KadPeerView>, e: EntryModel) -> bool {
    exists|i: int| 0 <= i < peers.len() && tells(#[trigger] peers[i], e)
}

/// Whether `peers` are the nodes of the table other than `source` that are closest to `target`, the
/// closest first, and up to `k` of them: no node that is left out is closer than one that is not.
pub open spec fn nearest(
    t: TableModel,
    target: KeyBytes,
    source: Seq<u8>,
    k: nat,
    peers: Seq<KadPeerView>,
) -> bool {
    &&& peers.len() <= k
    &&& forall|i: int|
        0 <= i < peers.len() ==> (#[trigger] peers[i]).node_id != source && shown(t, peers[i])
    &&& forall|i: int, j: int|
        #![trigger peers[i], peers[j]]
        0 <= i < j < peers.len() ==> target.to(hash_of(peers[i].node_id)) < target.to(
            hash_of(peers[j].node_id),
        )
    &&& forall|e: EntryModel|
        holds(t, e) && e.key.id != source ==> #[trigger] told(peers, e) || (peers.len() == k
            && forall|i: int|
            0 <= i < peers.len() ==> target.to(hash_of((#[trigger] peers[i]).node_id)) < target.to(
                hash_of(e.key.id),
            ))
}

proof fn lemma_nearest(v: KademliaView, target: KeyBytes, source: Seq<u8>)
    requires
        v.inv(),
        target != v.table.local.point,
    ensures
        nearest(
            v.table,
            target,
            source,
            v.queries.config.replication_factor@,
            v.closer_peers(target, source),
        ),
{
    let t = v.table;
    let k = v.queries.config.replication_factor@;
    let nodes = v.closest_but(target, source);
    let peers = v.closer_peers(target, source);
    lemma_closer_peers(v, target, source);
    lemma_closest_nodes(t, target);
    assert forall|i: int| 0 <= i < nodes.len() implies holds(t, #[trigger] nodes[i])
        && nodes[i].key.id != source && nodes[i].key.point == hash_of(nodes[i].key.id) by {
        assert(nodes.contains(nodes[i]));
        lemma_holds(t, nodes[i]);
    }
    assert forall|i: int| 0 <= i < peers.len() implies (#[trigger] peers[i]).node_id != source
        && shown(t, peers[i]) by {
        assert(peers[i] == reported(nodes[i]));
        assert(holds(t, nodes[i]) && tells(peers[i], nodes[i]));
    }
    assert forall|i: int, j: int|
        #![trigger peers[i], peers[j]]
        0 <= i < j < peers.len() implies target.to(hash_of(peers[i].node_id)) < target.to(
        hash_of(peers[j].node_id),
    ) by {
        assert(target.to(nodes[i].key.point) < target.to(nodes[j].key.point));
    }
    assert forall|e: EntryModel| holds(t, e) && e.key.id != source implies #[trigger] told(peers, e)
        || (peers.len() == k && forall|i: int|
        0 <= i < peers.len() ==> target.to(hash_of((#[trigger] peers[i]).node_id)) < target.to(
            hash_of(e.key.id),
        )) by {
        lemma_holds(t, e);
        assert(nodes.contains(e));
        let m = choose|m: int| 0 <= m < nodes.len() && nodes[m] == e;
        if m < peers.len() {
            assert(tells(peers[m], e));
        } else {
            assert forall|i: int| 0 <= i < peers.len() implies target.to(
                hash_of((#[trigger] peers[i]).node_id),
            ) < target.to(hash_of(e.key.id)) by {
                assert(target.to(nodes[i].key.point) < target.to(nodes[m].key.point));
            }
        }
    }
}

/// Whether `peers` is what `source` is told about the nodes closest to `key`. Whoever asks for the
/// key of the local node itself is told nothing.
pub open spec fn nearest_to_key(
    v: KademliaView,
    key: Seq<u8>,
    source: Seq<u8>,
    peers: Seq<KadPeerView>,
) -> bool {
    if hash_of(key) == v.table.local.point {
        peers.len() == 0
    } else {
        nearest(v.table, hash_of(key), source, v.queries.config.replication_factor@, peers)
    }
}

/// A ping is answered with a pong and changes nothing.
pub proof fn lemma_ping(
    v: KademliaView,
    source: Seq<u8>,
    now: Instant,
    answer: core::result::Result<Option<KadResponseView>, KadErrorView>,
    next: KademliaView,
)
    requires
        v.serves(KadRequestView::Ping, source, now, answer, next),
    ensures
        answer matches Ok(Some(KadResponseView::Pong)),
        next == v,
{
}

/// A request for the nodes closest to a key is answered with the nodes of the routing table that are
/// closest to the point that the key hashes to, without the peer that asks, and changes nothing.
pub proof fn lemma_find_node(
    v: KademliaView,
    key: Seq<u8>,
    source: Seq<u8>,
    now: Instant,
    answer: core::result::Result<Option<KadResponseView>, KadErrorView>,
    next: KademliaView,
)
    requires
        v.inv(),
        v.serves(KadRequestView::FindNode { key }, source, now, answer, next),
    ensures
        answer matches Ok(Some(KadResponseView::FindNode { closer_peers })) && nearest_to_key(
            v,
            key,
            source,
            closer_peers,
        ),
        next == v,
{
    if hash_of(key) != v.table.local.point {
        lemma_nearest(v, hash_of(key), source);
    }
}

/// Two peers that ask for the same key are told the same nodes but for themselves, if all nodes fit
/// into an answer: a node that one is told is the other one, or is told to the other one as well.
pub proof fn lemma_find_node_agrees(
    v: KademliaView,
    key: Seq<u8>,
    a: Seq<u8>,
    b: Seq<u8>,
    peers_a: Seq<KadPeerView>,
    peers_b: Seq<KadPeerView>,
    e: EntryModel,
)
    requires
        v.inv(),
        nearest_to_key(v, key, a, peers_a),
        nearest_to_key(v, key, b, peers_b),
        peers_b.len() < v.queries.config.replication_factor@,
        holds(v.table, e),
        told(peers_a, e),
        hash_of(key) != v.table.local.point,
    ensures
        e.key.id == b || told(peers_b, e),
{
}

/// Whether `p` is what `source` is told about the provider record `r`: who the provider is, whether
/// it is connected, and the addresses in the record. If the record names none, the addresses are
/// those of the local node if it is the provider, or else those that the routing table knows.
pub open spec fn introduces(
    v: KademliaView,
    source: Seq<u8>,
    r: ProviderRecordView,
    p: KadPeerView,
) -> bool {
    &&& r.provider != source
    &&& p.node_id == r.provider
    &&& p.connection_ty == KadConnectionType::Connected <==> v.connected.contains(r.provider)
    &&& if r.addresses.len() > 0 {
        p.multiaddrs == r.addresses
    } else if r.provider == v.table.local.id {
        p.multiaddrs == v.local_addrs
    } else {
        exists|e: EntryModel| #[trigger]
            knows(v.table, e) && e.key.point == hash_of(r.provider) && p.multiaddrs == e.addresses
    }
}

/// Whether nothing can be told to `source` about the provider record `r`: it is about `source`
/// itself, or no address of the provider is known.
pub open spec fn passed_over(v: KademliaView, source: Seq<u8>, r: ProviderRecordView) -> bool {
    r.provider == source || (r.addresses.len() == 0 && r.provider != v.table.local.id && forall|
        e: EntryModel,
    | #[trigger] knows(v.table, e) ==> e.key.point != hash_of(r.provider))
}

/// Whether the records at the positions `at` are those that `out` is about: the first ones that can
/// be told to `source`, in their order, and up to `k` of them.
pub open spec fn introduced(
    v: KademliaView,
    source: Seq<u8>,
    s: Seq<ProviderRecordView>,
    k: nat,
    out: Seq<KadPeerView>,
    at: Seq<int>,
) -> bool {
    &&& out.len() <= k
    &&& at.len() == out.len()
    &&& forall|i: int, j: int| #![trigger at[i], at[j]] 0 <= i < j < at.len() ==> at[i] < at[j]
    &&& forall|i: int|
        0 <= i < at.len() ==> 0 <= #[trigger] at[i] < s.len() && introduces(
            v,
            source,
            s[at[i]],
            out[i],
        )
    &&& forall|j: int|
        0 <= j < s.len() ==> at.contains(j) || passed_over(v, source, #[trigger] s[j]) || (out.len()
            == k && forall|i: int| 0 <= i < at.len() ==> #[trigger] at[i] < j)
}

/// Whether `peers` is what `source` is told about the providers of the value for `key`.
pub open spec fn providers_of_key(
    v: KademliaView,
    key: Seq<u8>,
    source: Seq<u8>,
    peers: Seq<KadPeerView>,
) -> bool {
    exists|at: Seq<int>| #[trigger]
        introduced(
            v,
            source,
            (v.store.providers)(key),
            v.queries.config.replication_factor@,
            peers,
            at,
        )
}

proof fn lemma_told_at(
    v: KademliaView,
    source: Seq<u8>,
    s: Seq<ProviderRecordView>,
    n: nat,
) -> (at: Seq<int>)
    requires
        v.inv(),
        n <= s.len(),
    ensures
        introduced(
            v,
            source,
            s.take(n as int),
            n,
            s.take(n as int).filter_map(|p: ProviderRecordView| v.provider_report(source, p)),
            at,
        ),
    decreases n,
{
    let tell = |p: ProviderRecordView| v.provider_report(source, p);
    let cut = s.take(n as int);
    if n == 0 {
        assert(cut.filter_map(tell) =~= Seq::empty());
        Seq::empty()
    } else {
        let front = s.take(n - 1);
        let before = lemma_told_at(v, source, s, (n - 1) as nat);
        assert(cut.drop_last() =~= front);
        let x = cut.last();
        let a = front.filter_map(tell);
        let out = cut.filter_map(tell);
        lemma_entry_found(v.table, hash_of(x.provider));
        assert forall|j: int| 0 <= j < front.len() implies front[j] == #[trigger] cut[j] by {}
        assert forall|j: int| 0 <= j < front.len() implies before.contains(j) || passed_over(
            v,
            source,
            #[trigger] cut[j],
        ) by {
            let y = front[j];
            if a.len() == n - 1 {
                lemma_all_positions(before, n - 1);
            }
        }
        match tell(x) {
            Some(p) => {
                let at = before.push(n - 1);
                assert(out =~= a.push(p));
                assert(introduces(v, source, x, p));
                assert forall|i: int| 0 <= i < at.len() implies 0 <= #[trigger] at[i] < cut.len()
                    && introduces(v, source, cut[at[i]], out[i]) by {
                    if i < before.len() {
                        assert(at[i] == before[i]);
                        assert(introduces(v, source, front[before[i]], a[i]));
                    }
                }
                assert forall|j: int| 0 <= j < cut.len() implies at.contains(j) || passed_over(
                    v,
                    source,
                    #[trigger] cut[j],
                ) by {
                    if j < n - 1 {
                        if before.contains(j) {
                            let i = choose|i: int| 0 <= i < before.len() && before[i] == j;
                            assert(at[i] == j);
                        }
                    } else {
                        assert(at[before.len() as int] == j);
                    }
                }
                assert forall|i: int, j: int| #![trigger at[i], at[j]] 0 <= i < j < at.len() implies at[i]
                    < at[j] by {
                    if j == before.len() {
                        assert(at[i] == before[i]);
                    } else {
                        assert(before[i] < before[j]);
                    }
                }
                at
            },
            None => {
                assert(out =~= a);
                assert(passed_over(v, source, x));
                assert forall|i: int| 0 <= i < before.len() implies 0 <= #[trigger] before[i]
                    < cut.len() && introduces(v, source, cut[before[i]], out[i]) by {
                    assert(introduces(v, source, front[before[i]], a[i]));
                }
                before
            },
        }
    }
}

/// As many positions as there are, in ascending order, are all positions.
proof fn lemma_all_positions(at: Seq<int>, n: int)
    requires
        at.len() == n,
        forall|i: int| 0 <= i < at.len() ==> 0 <= #[trigger] at[i] < n,
        forall|i: int, j: int| #![trigger at[i], at[j]] 0 <= i < j < at.len() ==> at[i] < at[j],
    ensures
        forall|j: int| 0 <= j < n ==> #[trigger] at.contains(j),
    decreases n,
{
    if n > 0 {
        let front = at.drop_last();
        assert forall|i: int| 0 <= i < front.len() implies 0 <= #[trigger] front[i] < n - 1 by {
            assert(at[i] < at[n - 1]);
        }
        assert forall|i: int, j: int|
            #![trigger front[i], front[j]]
            0 <= i < j < front.len() implies front[i] < front[j] by {
            assert(at[i] < at[j]);
        }
        lemma_all_positions(front, n - 1);
        assert(at[n - 1] == n - 1) by {
            if n > 1 && at[n - 1] != n - 1 {
                assert(front.contains(n - 2));
                let i = choose|i: int| 0 <= i < front.len() && front[i] == n - 2;
                assert(at[i] < at[n - 1]);
            }
        }
        assert forall|j: int| 0 <= j < n implies #[trigger] at.contains(j) by {
            if j < n - 1 {
                assert(front.contains(j));
                let i = choose|i: int| 0 <= i < front.len() && front[i] == j;
                assert(at[i] == j);
            } else {
                assert(at[n - 1] == j);
            }
        }
    }
}

proof fn lemma_introduced(v: KademliaView, key: Seq<u8>, source: Seq<u8>)
    requires
        v.inv(),
    ensures
        providers_of_key(v, key, source, v.known_providers(key, source)),
{
    let tell = |p: ProviderRecordView| v.provider_report(source, p);
    let s = (v.store.providers)(key);
    let k = v.queries.config.replication_factor@;
    let n = s.len();
    assert(s.take(n as int) =~= s);
    let at = lemma_told_at(v, source, s, n);
    let all = s.filter_map(tell);
    let out = v.known_providers(key, source);
    assert forall|j: int| 0 <= j < n implies at.contains(j) || passed_over(
        v,
        source,
        #[trigger] s[j],
    ) by {
        if all.len() == n {
            lemma_all_positions(at, n as int);
        }
    }
    if k < all.len() {
        let first = at.take(k as int);
        assert forall|i: int, j: int| #![trigger first[i], first[j]] 0 <= i < j < first.len() implies first[i]
            < first[j] by {
            assert(at[i] < at[j]);
        }
        assert forall|i: int| 0 <= i < first.len() implies 0 <= #[trigger] first[i] < s.len()
            && introduces(v, source, s[first[i]], out[i]) by {
            assert(at[i] == first[i]);
            assert(introduces(v, source, s[at[i]], all[i]));
        }
        assert forall|j: int| 0 <= j < s.len() implies first.contains(j) || passed_over(
            v,
            source,
            #[trigger] s[j],
        ) || (out.len() == k && forall|i: int| 0 <= i < first.len() ==> #[trigger] first[i] < j) by {
            if at.contains(j) {
                let m = choose|m: int| 0 <= m < at.len() && at[m] == j;
                if m < k {
                    assert(first[m] == j);
                } else {
                    assert forall|i: int| 0 <= i < first.len() implies #[trigger] first[i] < j by {
                        assert(at[i] < at[m]);
                    }
                }
            }
        }
        assert(introduced(v, source, s, k, out, first));
    } else {
        assert(introduced(v, source, s, k, out, at));
    }
}

/// A request for the providers of a value is answered with the providers that the store knows and
/// whose addresses are known, in the order of the store, without the peer that asks and up to the
/// replication factor, along with the nodes closest to the key. It changes nothing.
pub proof fn lemma_get_providers(
    v: KademliaView,
    key: Seq<u8>,
    source: Seq<u8>,
    now: Instant,
    answer: core::result::Result<Option<KadResponseView>, KadErrorView>,
    next: KademliaView,
)
    requires
        v.inv(),
        v.serves(KadRequestView::GetProviders { key }, source, now, answer, next),
    ensures
        answer matches Ok(Some(KadResponseView::GetProviders { closer_peers, provider_peers }))
            && nearest_to_key(v, key, source, closer_peers) && providers_of_key(
            v,
            key,
            source,
            provider_peers,
        ),
        next == v,
{
    if hash_of(key) != v.table.local.point {
        lemma_nearest(v, hash_of(key), source);
    }
    lemma_introduced(v, key, source);
}

/// A request for a record is answered with the record in the local store unless it has expired, along
/// with the nodes closest to the key. A record that has expired is dropped, and nothing else changes.
pub proof fn lemma_get_value(
    v: KademliaView,
    key: Seq<u8>,
    source: Seq<u8>,
    now: Instant,
    answer: core::result::Result<Option<KadResponseView>, KadErrorView>,
    next: KademliaView,
)
    requires
        v.inv(),
        v.serves(KadRequestView::GetValue { key }, source, now, answer, next),
    ensures
        ({
            let there = v.store.records.contains_key(key);
            let r = v.store.records[key];
            let fresh = there && (r.expires matches Some(t) ==> now.nanos < t.nanos);
            &&& answer matches Ok(Some(KadResponseView::GetValue { record, closer_peers }))
                && nearest_to_key(v, key, source, closer_peers) && record == if fresh {
                Some(r)
            } else {
                None
            }
            &&& next == KademliaView {
                store: StoreView {
                    records: if there && !fresh {
                        v.store.records.remove(key)
                    } else {
                        v.store.records
                    },
                    providers: v.store.providers,
                },
                ..v
            }
        }),
{
    if hash_of(key) != v.table.local.point {
        lemma_nearest(v, hash_of(key), source);
    }
}

/// How many nodes of the routing table lie between the local node and `t`: closer to `t` than the
/// local node is, and no farther from the local node than `t` is.
pub open spec fn num_between(v: KademliaView, t: KeyBytes) -> nat {
    let own = v.table.local.point;
    v.table.entries().filter(
        |e: EntryModel|
            t.to(e.key.point) < t.to(own) && own.to(e.key.point) <= own.to(t),
    ).len()
}

/// Until when a record is kept that a peer sends at `now`: until it expires, but no longer than the
/// configured lifetime, which is halved for every node by which more than the replication factor lie
/// between the local node and the key.
pub open spec fn kept_for(v: KademliaView, r: RecordView, now: Instant) -> Option<int> {
    let k = v.queries.config.replication_factor@;
    let n = num_between(v, hash_of(r.key));
    let halvings: nat = if n > k {
        (n - k) as nat
    } else {
        0
    };
    match (r.expires, v.record_ttl) {
        (None, None) => None,
        (Some(t), None) => Some(t.nanos as int),
        (None, Some(ttl)) => Some(
            now.nanos + (ttl@ / 1_000_000_000) / pow2(halvings) * 1_000_000_000,
        ),
        (Some(t), Some(ttl)) => {
            let limit = now.nanos + (ttl@ / 1_000_000_000) / pow2(halvings) * 1_000_000_000;
            Some(
                if t.nanos <= limit {
                    t.nanos as int
                } else {
                    limit
                },
            )
        },
    }
}

proof fn lemma_kept_for(v: KademliaView, r: RecordView, now: Instant)
    requires
        v.inv(),
        now.early(),
        v.record_ttl matches Some(ttl) ==> ttl@ <= Duration::max_nanos(),
    ensures
        ({
            let kept = v.kept_record(r, now);
            &&& kept.key == r.key && kept.value == r.value && kept.publisher == r.publisher
            &&& match kept.expires {
                Some(t) => kept_for(v, r, now) == Some(t.nanos as int),
                None => kept_for(v, r, now) is None,
            }
        }),
{
    let t = hash_of(r.key);
    let own = v.table.local.point;
    let f = |e: EntryModel| crate::kbucket::table::between(own, t, e.key.point);
    let g = |e: EntryModel| t.to(e.key.point) < t.to(own) && own.to(e.key.point) <= own.to(t);
    let es = v.table.entries();
    assert(f =~= g);
    let n = num_between(v, t);
    assert(n == v.table.nodes_between(t));
    lemma_entries_distinct(v.table, NUM_BUCKETS as int);
    assert(v.table.buckets.take(NUM_BUCKETS as int) =~= v.table.buckets);
    es.lemma_filter_len(g);
    let k = v.queries.config.replication_factor@;
    let halvings: nat = if n > k {
        (n - k) as nat
    } else {
        0
    };
    if let Some(ttl) = v.record_ttl {
        let secs = ttl@ / 1_000_000_000;
        vstd::arithmetic::power2::lemma_pow2_pos(halvings);
        vstd::arithmetic::div_mod::lemma_div_is_ordered_by_denominator(
            secs as int,
            1,
            pow2(halvings) as int,
        );
        if halvings >= 64 {
            vstd::arithmetic::power2::lemma2_to64_rest();
            if halvings > 64 {
                vstd::arithmetic::power2::lemma_pow2_strictly_increases(64, halvings);
            }
            vstd::arithmetic::div_mod::lemma_basic_div(secs as int, pow2(halvings) as int);
        }
    }
}

/// What becomes of a record that a peer sends. A record of the local node itself is not touched. Any
/// other record is left out by the next run of the replication job. It is stored until it expires,
/// but no longer than the configured lifetime, unless that has passed already, and every other record
/// stays. The sender is told that the record was accepted, unless the store has refused it, in which
/// case the store stays as it is. Nothing else changes.
pub proof fn lemma_put_value(
    v: KademliaView,
    r: RecordView,
    source: Seq<u8>,
    now: Instant,
    answer: core::result::Result<Option<KadResponseView>, KadErrorView>,
    next: KademliaView,
)
    requires
        v.inv(),
        now.early(),
        v.record_ttl matches Some(ttl) ==> ttl@ <= Duration::max_nanos(),
        v.serves(KadRequestView::PutValue { record: r }, source, now, answer, next),
    ensures
        ({
            let own = r.publisher == Some(v.table.local.id);
            let until = kept_for(v, r, now);
            let over = until matches Some(t) && t <= now.nanos;
            &&& answer matches Ok(response) ==> response == Some(
                KadResponseView::PutValue { key: r.key, value: r.value },
            )
            &&& own || over ==> answer is Ok
            &&& own ==> next == v
            &&& !own ==> {
                &&& next == KademliaView {
                    store: next.store,
                    put_record_job: next.put_record_job,
                    ..v
                }
                &&& match v.put_record_job {
                    Some(job) => next.put_record_job == Some(
                        PutRecordJobView { skipped: job.skipped.insert(r.key), ..job },
                    ),
                    None => next.put_record_job is None,
                }
                &&& over || answer is Err ==> next.store == v.store
                &&& !over && answer is Ok ==> {
                    let kept = next.store.records[r.key];
                    &&& next.store.providers == v.store.providers
                    &&& next.store.records == v.store.records.insert(r.key, kept)
                    &&& kept.key == r.key && kept.value == r.value && kept.publisher == r.publisher
                    &&& match kept.expires {
                        Some(t) => until == Some(t.nanos as int),
                        None => until is None,
                    }
                }
            }
        }),
{
    lemma_kept_for(v, r, now);
}

/// What becomes of the announcement of a provider. It is refused if it names another peer than the
/// one that sends it. Otherwise it is not answered, and if the store has taken it, there is a record
/// for the key with the addresses that were named and the configured lifetime. The provider records
/// for other keys and all records stay as they are. The local node never becomes a provider this way.
pub proof fn lemma_add_provider(
    v: KademliaView,
    key: Seq<u8>,
    provider: KadPeerView,
    source: Seq<u8>,
    now: Instant,
    answer: core::result::Result<Option<KadResponseView>, KadErrorView>,
    next: KademliaView,
)
    requires
        now.early(),
        v.provider_record_ttl matches Some(ttl) ==> ttl@ <= Duration::max_nanos(),
        v.serves(KadRequestView::AddProvider { key, provider }, source, now, answer, next),
    ensures
        provider.node_id != source ==> next == v && answer == Err::<Option<KadResponseView>, _>(
            KadErrorView::InvalidSource(source),
        ),
        provider.node_id == source ==> answer == Ok::<_, KadErrorView>(None::<KadResponseView>),
        next == (KademliaView { store: next.store, ..v }),
        source == v.table.local.id ==> next == v,
        next != v ==> {
            let r = ProviderRecordView {
                key,
                provider: source,
                expires: match v.provider_record_ttl {
                    Some(ttl) => Some(Instant { nanos: (now.nanos + ttl@) as u128 }),
                    None => None,
                },
                addresses: provider.multiaddrs,
            };
            &&& next.store.records == v.store.records
            &&& (next.store.providers)(key).contains(r)
            &&& forall|p: ProviderRecordView| #[trigger]
                (next.store.providers)(key).contains(p) ==> p == r || (v.store.providers)(
                    key,
                ).contains(p)
            &&& forall|k: Seq<u8>|
                k != key ==> #[trigger] (next.store.providers)(k) == (v.store.providers)(k)
        },
{
}

/// The store is asked to change by three requests only: by one for a record that has expired, by a
/// record of another peer that has not expired, and by a peer that announces itself.
pub proof fn lemma_store_asked(v: KademliaView, request: KadRequestView, source: Seq<u8>, now: Instant)
    requires
        v.inv(),
        now.early(),
        v.record_ttl matches Some(ttl) ==> ttl@ <= Duration::max_nanos(),
    ensures
        v.asks_store(request, source, now) <==> match request {
            KadRequestView::GetValue { key } => v.store.records.contains_key(key)
                && v.store.records[key].expires is Some && v.store.records[key].expires->0.nanos
                <= now.nanos,
            KadRequestView::PutValue { record } => record.publisher != Some(v.table.local.id) && (
            kept_for(v, record, now) matches Some(t) ==> now.nanos < t),
            KadRequestView::AddProvider { provider, .. } => provider.node_id == source && source
                != v.table.local.id,
            _ => false,
        },
{
    if let KadRequestView::PutValue { record } = request {
        lemma_kept_for(v, record, now);
    }
}

/// A peer whose record is refused is told an error with which the store may refuse the record as it
/// would be kept.
pub proof fn lemma_record_refused<TStore: RecordStore>(
    kad: Kademlia<TStore>,
    record: RecordView,
    now: Instant,
    e: KadErrorView,
    next: KademliaView,
)
    requires
        kad@.inv(),
        now.early(),
        kad@.record_ttl matches Some(ttl) ==> ttl@ <= Duration::max_nanos(),
        kad.only_store_refuses(KadRequestView::PutValue { record }, now, Err(e), next),
    ensures
        exists|kept: RecordView| #[trigger]
            kad.store_spec().refuses_record(kept, e) && kept.key == record.key && kept.value
                == record.value && kept.publisher == record.publisher && match kept.expires {
                Some(t) => kept_for(kad@, record, now) == Some(t.nanos as int),
                None => kept_for(kad@, record, now) is None,
            },
{
    lemma_kept_for(kad@, record, now);
    assert(kad.store_spec().refuses_record(kad@.kept_record(record, now), e));
}

/// A peer that announces itself is a provider afterwards, unless the store may refuse the provider
/// record, in which case nothing changes.
pub proof fn lemma_provider_refused<TStore: RecordStore>(
    kad: Kademlia<TStore>,
    key: Seq<u8>,
    provider: KadPeerView,
    now: Instant,
    response: Option<KadResponseView>,
    next: KademliaView,
    r: ProviderRecordView,
)
    requires
        now.early(),
        kad@.provider_record_ttl matches Some(ttl) ==> ttl@ <= Duration::max_nanos(),
        kad.only_store_refuses(
            KadRequestView::AddProvider { key, provider },
            now,
            Ok(response),
            next,
        ),
        provider.node_id != kad@.table.local.id,
        r.key == key,
        r.provider == provider.node_id,
        r.addresses == provider.multiaddrs,
        match kad@.provider_record_ttl {
            Some(ttl) => r.expires is Some && r.expires->0.nanos == now.nanos + ttl@,
            None => r.expires is None,
        },
        !(next.store.providers)(key).contains(r),
    ensures
        next == kad@,
        exists|e: KadErrorView| #[trigger] kad.store_spec().refuses_provider(r, e),
{
    assert(r == kad@.provider_record(key, provider, now));
}

} // verus!
