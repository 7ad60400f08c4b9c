//! How the routing table changes with the connections to peers.
use crate::config::KademliaBucketInserts;
use crate::kad::laws_lookup::holds;
use crate::kad::model::KademliaView;
use crate::kbucket::bucket::{
    BucketModel, EntryModel, InsertModel, K_VALUE, NodeStatus, PendingModel, first_connected,
    lemma_first_connected, lemma_pos, placed, pos, present,
};
use crate::kbucket::key::{
    KeyBytes, PeerKeyView, hash_of, lemma_distance_zero, lemma_has_bucket,
};
use crate::kbucket::table::{Entry, TableModel, index_of, lemma_one_bucket};
use crate::time::{Duration, Instant};
use vstd::arithmetic::power2::pow2;
use vstd::prelude::*;

verus! {

/// Whether `e` waits for a place in one of the buckets.
pub open spec fn waits(t: TableModel, e: EntryModel) -> bool {
    exists|i: int|
        0 <= i < t.buckets.len() && (#[trigger] t.buckets[i]).pending is Some
            && t.buckets[i].pending->0.entry == e
}

/// Whether `e` is in the table, or waits for a place in it.
pub open spec fn knows(t: TableModel, e: EntryModel) -> bool {
    holds(t, e) || waits(t, e)
}

/// Whether the peer at `p` is in the bucket `b`, or waits for a place in it.
pub open spec fn placed_in(b: BucketModel, p: KeyBytes) -> bool {
    ||| exists|j: int| 0 <= j < b.nodes.len() && (#[trigger] b.nodes[j]).key.point == p
    ||| b.pending is Some && b.pending->0.entry.key.point == p
}

/// Every point but that of the local node has a bucket: the one for its distance to the local node,
/// rounded down to a power of two. No other bucket holds the peer at that point.
pub proof fn lemma_place(t: TableModel, p: KeyBytes)
    requires
        t.wf(),
        p != t.local.point,
    ensures
        0 <= t.index(p) < t.buckets.len(),
        pow2(t.index(p) as nat) <= t.local.point.to(p) < pow2((t.index(p) + 1) as nat),
        forall|i: int|
            0 <= i < t.buckets.len() && placed_in(#[trigger] t.buckets[i], p) ==> i == t.index(p),
{
    let d = t.local.point.xor(p);
    lemma_distance_zero(t.local.point, p);
    lemma_has_bucket(d);
    let w = choose|i: nat| i < 256 && #[trigger] d.in_bucket(i);
    lemma_one_bucket(d, w, index_of(d));
    assert forall|i: int|
        0 <= i < t.buckets.len() && placed_in(#[trigger] t.buckets[i], p) implies i == t.index(
        p,
    ) by {
        let b = t.buckets[i];
        if exists|j: int| 0 <= j < b.nodes.len() && (#[trigger] b.nodes[j]).key.point == p {
            let j = choose|j: int| 0 <= j < b.nodes.len() && (#[trigger] b.nodes[j]).key.point == p;
            assert(b.lists(b.nodes[j].key, b.nodes[j].status));
        } else {
            let e = b.pending->0.entry;
            assert(b.lists(e.key, e.status));
        }
        lemma_one_bucket(d, i as nat, w);
    }
}

/// The local node has no place in its own table.
pub proof fn lemma_local_not_placed(t: TableModel, i: int)
    requires
        t.wf(),
        0 <= i < t.buckets.len(),
    ensures
        !placed_in(t.buckets[i], t.local.point),
{
    let b = t.buckets[i];
    let p = t.local.point;
    lemma_distance_zero(p, p);
    vstd::arithmetic::power2::lemma_pow2_pos(i as nat);
    if exists|j: int| 0 <= j < b.nodes.len() && (#[trigger] b.nodes[j]).key.point == p {
        let j = choose|j: int| 0 <= j < b.nodes.len() && (#[trigger] b.nodes[j]).key.point == p;
        assert(b.lists(b.nodes[j].key, b.nodes[j].status));
    } else if b.pending is Some {
        let e = b.pending->0.entry;
        assert(b.lists(e.key, e.status));
    }
}

proof fn lemma_pos_is(s: Seq<EntryModel>, j: int, p: KeyBytes)
    requires
        0 <= j < s.len(),
        s[j].key.point == p,
        forall|a: int, b: int|
            #![trigger s[a], s[b]]
            0 <= a < b < s.len() ==> s[a].key.point != s[b].key.point,
    ensures
        pos(s, p) == j,
        present(s, p),
{
    lemma_pos(s, p);
    let m = pos(s, p);
    if m < j {
        assert(s[m].key.point != s[j].key.point);
    } else if m > j {
        assert(s[j].key.point != p);
    }
}

/// What is found under a point of the key space: the entry of a bucket that stands there, or the one
/// that waits for a place and stands there, and nothing else.
pub proof fn lemma_entry_found(t: TableModel, p: KeyBytes)
    requires
        t.wf(),
    ensures
        forall|e: EntryModel| #[trigger]
            knows(t, e) && e.key.point == p ==> t.get(p) == Some(e),
        t.get(p) matches Some(e) ==> e.key.point == p && knows(t, e),
{
    if p != t.local.point {
        lemma_place(t, p);
        let i = t.index(p);
        let b = t.buckets[i];
        assert(b.wf());
        lemma_pos(b.nodes, p);
        if let Some(e) = t.get(p) {
            if present(b.nodes, p) {
                assert(t.buckets[i].nodes[pos(b.nodes, p)] == e);
                assert(holds(t, e));
            } else {
                assert(t.buckets[i].pending is Some);
                assert(waits(t, e));
            }
        }
    }
    assert forall|e: EntryModel| #[trigger] knows(t, e) && e.key.point == p implies t.get(p)
        == Some(e) by {
        if holds(t, e) {
            let (i, j) = choose|i: int, j: int|
                0 <= i < t.buckets.len() && 0 <= j < t.buckets[i].nodes.len()
                    && #[trigger] t.buckets[i].nodes[j] == e;
            assert(placed_in(t.buckets[i], p));
            lemma_local_not_placed(t, i);
            lemma_place(t, p);
            assert(t.buckets[i].wf());
            lemma_pos_is(t.buckets[i].nodes, j, p);
        } else {
            let i = choose|i: int|
                0 <= i < t.buckets.len() && (#[trigger] t.buckets[i]).pending is Some
                    && t.buckets[i].pending->0.entry == e;
            assert(placed_in(t.buckets[i], p));
            lemma_local_not_placed(t, i);
            lemma_place(t, p);
            assert(t.buckets[i].wf());
        }
    }
}

/// Whether the nodes `new` are the nodes `old` with the one at `j` taken out and `e` put in at `m`.
/// All others keep their order.
pub open spec fn moved(
    old_nodes: Seq<EntryModel>,
    j: int,
    new_nodes: Seq<EntryModel>,
    m: int,
    e: EntryModel,
) -> bool {
    &&& 0 <= j < old_nodes.len()
    &&& 0 <= m < new_nodes.len()
    &&& new_nodes[m] == e
    &&& new_nodes.remove(m) == old_nodes.remove(j)
}

/// Whether the node at `m` is the most recent one of its kind: the disconnected nodes stand in front
/// of the connected ones, and no other node of its kind stands behind it.
pub open spec fn most_recent(nodes: Seq<EntryModel>, m: int) -> bool {
    &&& nodes[m].status == NodeStatus::Connected ==> m == nodes.len() - 1
    &&& nodes[m].status == NodeStatus::Disconnected ==> (forall|x: int|
        0 <= x < m ==> (#[trigger] nodes[x]).status == NodeStatus::Disconnected) && (forall|x: int|
        m < x < nodes.len() ==> (#[trigger] nodes[x]).status == NodeStatus::Connected)
}

/// A node that is put into its place is the most recent one of its kind, and all others keep their
/// order.
pub proof fn lemma_most_recent(s: Seq<EntryModel>, e: EntryModel)
    requires
        forall|a: int, b: int|
            #![trigger s[a], s[b]]
            0 <= a < b < s.len() && s[a].status == NodeStatus::Connected ==> s[b].status
                == NodeStatus::Connected,
    ensures
        exists|m: int|
            0 <= m < placed(s, e).len() && #[trigger] placed(s, e)[m] == e && placed(s, e).remove(m)
                == s && most_recent(placed(s, e), m),
{
    lemma_first_connected(s);
    let m: int = match e.status {
        NodeStatus::Connected => s.len() as int,
        NodeStatus::Disconnected => first_connected(s),
    };
    let t = placed(s, e);
    assert(t =~= s.insert(m, e));
    assert(t[m] == e);
    assert(t.remove(m) =~= s);
    assert forall|x: int| m < x < t.len() && e.status == NodeStatus::Disconnected implies (
    #[trigger] t[x]).status == NodeStatus::Connected by {
        assert(t[x] == s[x - 1]);
        if m < x - 1 {
            assert(s[m].status == NodeStatus::Connected);
        }
    }
}

/// The addresses of a peer after one more was learned, if one was: those that were known, in their
/// order, and behind them the new one unless it was known.
pub open spec fn grown(s: Seq<Seq<u8>>, address: Option<Seq<u8>>) -> Seq<Seq<u8>> {
    match address {
        Some(a) => if exists|i: int| 0 <= i < s.len() && s[i] == a {
            s
        } else {
            s.push(a)
        },
        None => s,
    }
}

/// Nothing but the bucket at `i` differs between two tables.
pub open spec fn only_bucket(t: TableModel, next: TableModel, i: int) -> bool {
    &&& next.local == t.local
    &&& next.buckets.len() == t.buckets.len()
    &&& forall|o: int| 0 <= o < t.buckets.len() && o != i ==> #[trigger] next.buckets[o] == t.buckets[o]
}

/// When the connection to a peer changes that is in the routing table, its entry afterwards has the
/// new status, all addresses that it had, and the new address if one is given, whether the status is
/// new or not. If the status is new, the node becomes the most recent one of its kind; otherwise it
/// stays where it is. All other nodes keep their order, and every other bucket stays as it is. The
/// node that waits for a place keeps waiting, unless the node that it was to replace has reconnected.
pub proof fn lemma_connection_of_present(
    v: KademliaView,
    peer: Seq<u8>,
    address: Option<Seq<u8>>,
    status: NodeStatus,
    now: Instant,
    i: int,
    j: int,
)
    requires
        v.table.wf(),
        0 <= i < v.table.buckets.len(),
        0 <= j < v.table.buckets[i].nodes.len(),
        v.table.buckets[i].nodes[j].key.point == hash_of(peer),
    ensures
        ({
            let next = v.connection_changed(peer, address, status, now);
            let b = v.table.buckets[i];
            let c = next.table.buckets[i];
            let x = b.nodes[j];
            let e = EntryModel { key: x.key, addresses: grown(x.addresses, address), status };
            &&& next == KademliaView { table: next.table, ..v }
            &&& only_bucket(v.table, next.table, i)
            &&& exists|m: int| #[trigger]
                moved(b.nodes, j, c.nodes, m, e) && if x.status == status {
                    m == j
                } else {
                    most_recent(c.nodes, m)
                }
            &&& c.pending == if j == 0 && x.status == NodeStatus::Disconnected && status
                == NodeStatus::Connected {
                None
            } else {
                b.pending
            }
            &&& c.pending_timeout == b.pending_timeout
        }),
{
    let t = v.table;
    let p = hash_of(peer);
    let b = t.buckets[i];
    let x = b.nodes[j];
    let e = EntryModel { key: x.key, addresses: grown(x.addresses, address), status };
    assert(b.wf());
    assert(placed_in(t.buckets[i], p));
    lemma_local_not_placed(t, i);
    lemma_place(t, p);
    lemma_pos_is(b.nodes, j, p);
    let told = match address {
        Some(a) => t.learned(p, a),
        None => t,
    };
    let x1 = EntryModel { addresses: grown(x.addresses, address), ..x };
    let nodes1 = b.nodes.update(j, x1);
    let b1 = BucketModel { nodes: nodes1, ..b };
    if address is None {
        assert(nodes1 =~= b.nodes);
        assert(t.buckets.update(i, b1) =~= t.buckets);
    }
    assert(told == TableModel { buckets: t.buckets.update(i, b1), ..t });
    assert forall|k: int, l: int|
        #![trigger nodes1[k], nodes1[l]]
        0 <= k < l < nodes1.len() implies nodes1[k].key.point != nodes1[l].key.point by {
        assert(b.nodes[k].key.point != b.nodes[l].key.point);
    }
    lemma_pos_is(nodes1, j, p);
    assert(told.bucket(p) == b1);
    let next = v.connection_changed(peer, address, status, now);
    let c = next.table.buckets[i];
    if x.status == status {
        assert(nodes1.remove(j) =~= b.nodes.remove(j));
        assert(moved(b.nodes, j, c.nodes, j, e));
    } else {
        let rest = nodes1.remove(j);
        assert(rest =~= b.nodes.remove(j));
        assert forall|k: int, l: int|
            #![trigger rest[k], rest[l]]
            0 <= k < l < rest.len() && rest[k].status == NodeStatus::Connected implies rest[l].status
            == NodeStatus::Connected by {
            let k1 = if k < j { k } else { k + 1 };
            let l1 = if l < j { l } else { l + 1 };
            assert(rest[k] == b.nodes[k1] && rest[l] == b.nodes[l1]);
        }
        lemma_most_recent(rest, e);
        assert(c.nodes == placed(rest, e));
        let m = choose|m: int|
            0 <= m < placed(rest, e).len() && #[trigger] placed(rest, e)[m] == e && placed(
                rest,
                e,
            ).remove(m) == rest && most_recent(placed(rest, e), m);
        assert(moved(b.nodes, j, c.nodes, m, e));
    }
}

/// When the connection to a peer changes that waits for a place in the routing table, it keeps
/// waiting, with the new status, all addresses that it had, and the new address if one is given.
pub proof fn lemma_connection_of_pending(
    v: KademliaView,
    peer: Seq<u8>,
    address: Option<Seq<u8>>,
    status: NodeStatus,
    now: Instant,
    i: int,
)
    requires
        v.table.wf(),
        0 <= i < v.table.buckets.len(),
        v.table.buckets[i].pending matches Some(n) && n.entry.key.point == hash_of(peer),
    ensures
        ({
            let next = v.connection_changed(peer, address, status, now);
            let b = v.table.buckets[i];
            let n = b.pending->0;
            &&& next == KademliaView { table: next.table, ..v }
            &&& only_bucket(v.table, next.table, i)
            &&& next.table.buckets[i] == BucketModel {
                nodes: b.nodes,
                pending: Some(
                    PendingModel {
                        entry: EntryModel {
                            key: n.entry.key,
                            addresses: grown(n.entry.addresses, address),
                            status,
                        },
                        replace: n.replace,
                    },
                ),
                pending_timeout: b.pending_timeout,
            }
        }),
{
    let t = v.table;
    let p = hash_of(peer);
    let b = t.buckets[i];
    assert(b.wf());
    assert(placed_in(t.buckets[i], p));
    lemma_local_not_placed(t, i);
    lemma_place(t, p);
    let x = b.pending->0.entry;
    let told = match address {
        Some(a) => t.learned(p, a),
        None => t,
    };
    let b1 = b.pending_changed(
        EntryModel { addresses: grown(x.addresses, address), ..x },
    );
    if address is None {
        assert(t.buckets.update(i, b1) =~= t.buckets);
    }
    assert(told == TableModel { buckets: t.buckets.update(i, b1), ..t });
    assert(told.bucket(p) == b1);
}

/// Whether the peer at `p` is nowhere in the table.
pub open spec fn unknown(t: TableModel, p: KeyBytes) -> bool {
    forall|i: int| 0 <= i < t.buckets.len() ==> !placed_in(#[trigger] t.buckets[i], p)
}

/// When a peer connects that is not in the routing table, it gets a place behind all others in the
/// bucket for its distance if there is a free one, with the address that is given. If the bucket is
/// full, it waits for the place of the least-recently disconnected node for the configured time,
/// provided that there is such a node and that no other peer waits. Otherwise nothing changes. Nor
/// does it if the peer is not connected, its address is not known, or peers are not to be inserted.
pub proof fn lemma_connection_of_unknown(
    v: KademliaView,
    peer: Seq<u8>,
    address: Option<Seq<u8>>,
    status: NodeStatus,
    now: Instant,
)
    requires
        v.table.wf(),
        now.early(),
        unknown(v.table, hash_of(peer)),
        hash_of(peer) != v.table.local.point,
        forall|i: int|
            0 <= i < v.table.buckets.len() ==> (#[trigger] v.table.buckets[i]).pending_timeout@
                <= Duration::max_nanos(),
    ensures
        ({
            let next = v.connection_changed(peer, address, status, now);
            &&& status == NodeStatus::Disconnected || address is None || v.inserts
                == KademliaBucketInserts::Manual ==> next == v
            &&& status == NodeStatus::Connected && address is Some && v.inserts
                == KademliaBucketInserts::OnConnected ==> {
                &&& next == KademliaView { table: next.table, ..v }
                &&& exists|i: int|
                    #![trigger v.table.buckets[i]]
                    0 <= i < v.table.buckets.len() && pow2(i as nat) <= v.table.local.point.to(
                        hash_of(peer),
                    ) < pow2((i + 1) as nat) && only_bucket(v.table, next.table, i) && {
                        let b = v.table.buckets[i];
                        let c = next.table.buckets[i];
                        let e = EntryModel {
                            key: PeerKeyView { id: peer, point: hash_of(peer) },
                            addresses: seq![address->0],
                            status: NodeStatus::Connected,
                        };
                        if b.nodes.len() < K_VALUE {
                            c == BucketModel { nodes: b.nodes.push(e), ..b }
                        } else if b.pending is None && b.nodes[0].status
                            == NodeStatus::Disconnected {
                            &&& c == BucketModel { pending: c.pending, ..b }
                            &&& c.pending matches Some(n) && n.entry == e && n.replace.nanos
                                == now.nanos + b.pending_timeout@
                        } else {
                            c == b
                        }
                    }
            }
        }),
{
    let t = v.table;
    let p = hash_of(peer);
    lemma_place(t, p);
    let i = t.index(p);
    let b = t.buckets[i];
    assert(!placed_in(t.buckets[i], p));
    lemma_pos(b.nodes, p);
    assert(!present(b.nodes, p));
    assert(t.entry(p) == Entry::Absent);
    assert(b.wf());
    assert(pow2(i as nat) <= t.local.point.to(p) < pow2((i + 1) as nat));
    let next = v.connection_changed(peer, address, status, now);
    if status == NodeStatus::Connected && address is Some && v.inserts
        == KademliaBucketInserts::OnConnected {
        assert(only_bucket(t, next.table, i));
        assert(v.table.buckets[i] == b);
    }
}

/// The connection to the local node itself changes nothing.
pub proof fn lemma_connection_to_self(
    v: KademliaView,
    peer: Seq<u8>,
    address: Option<Seq<u8>>,
    status: NodeStatus,
    now: Instant,
)
    requires
        hash_of(peer) == v.table.local.point,
    ensures
        v.connection_changed(peer, address, status, now) == v,
{
}

/// After the connection to a peer has changed that is in the routing table or waits for a place in
/// it, the address that is given is among the addresses of the peer, and so are all that were known.
pub proof fn lemma_connection_address(
    v: KademliaView,
    peer: Seq<u8>,
    a: Seq<u8>,
    status: NodeStatus,
    now: Instant,
    e: EntryModel,
)
    requires
        v.table.wf(),
        knows(v.table, e),
        e.key.point == hash_of(peer),
    ensures
        ({
            let next = v.connection_changed(peer, Some(a), status, now).table;
            exists|f: EntryModel|
                #[trigger] knows(next, f) && f.key == e.key && f.status == status
                    && f.addresses.contains(a) && forall|x: Seq<u8>| #[trigger]
                    e.addresses.contains(x) ==> f.addresses.contains(x)
        }),
{
    let next = v.connection_changed(peer, Some(a), status, now).table;
    let f = EntryModel { key: e.key, addresses: grown(e.addresses, Some(a)), status };
    let s = e.addresses;
    if exists|i: int| 0 <= i < s.len() && s[i] == a {
        assert(f.addresses.contains(a));
    } else {
        assert(f.addresses[s.len() as int] == a);
    }
    assert forall|x: Seq<u8>| #[trigger] s.contains(x) implies f.addresses.contains(x) by {
        let i = choose|i: int| 0 <= i < s.len() && s[i] == x;
        assert(f.addresses[i] == x);
    }
    if holds(v.table, e) {
        let (i, j) = choose|i: int, j: int|
            0 <= i < v.table.buckets.len() && 0 <= j < v.table.buckets[i].nodes.len()
                && #[trigger] v.table.buckets[i].nodes[j] == e;
        lemma_connection_of_present(v, peer, Some(a), status, now, i, j);
        let m = choose|m: int| #[trigger]
            moved(v.table.buckets[i].nodes, j, next.buckets[i].nodes, m, f);
        assert(next.buckets[i].nodes[m] == f);
        assert(holds(next, f));
    } else {
        let i = choose|i: int|
            0 <= i < v.table.buckets.len() && (#[trigger] v.table.buckets[i]).pending is Some
                && v.table.buckets[i].pending->0.entry == e;
        lemma_connection_of_pending(v, peer, Some(a), status, now, i);
        assert(next.buckets[i].pending is Some);
        assert(waits(next, f));
    }
    assert(knows(next, f));
}

/// A peer that connects is added to the connected peers, and nothing else changes.
pub proof fn lemma_peer_connected(v: KademliaView, peer: Seq<u8>)
    ensures
        forall|id: Seq<u8>| #[trigger]
            v.peer_connected(peer).connected.contains(id) <==> v.connected.contains(id) || id
                == peer,
        v.peer_connected(peer) == (KademliaView {
            connected: v.peer_connected(peer).connected,
            ..v
        }),
{
}

/// A peer that disconnects is taken out of the connected peers, and its connection changes to
/// disconnected without a new address. Nothing else changes.
pub proof fn lemma_peer_disconnected(v: KademliaView, peer: Seq<u8>, now: Instant)
    ensures
        forall|id: Seq<u8>| #[trigger]
            v.peer_disconnected(peer).connected.contains(id) <==> v.connected.contains(id) && id
                != peer,
        v.peer_disconnected(peer) == (KademliaView {
            connected: v.peer_disconnected(peer).connected,
            table: v.connection_changed(peer, None, NodeStatus::Disconnected, now).table,
            ..v
        }),
{
}

/// A peer that disconnects is not connected any more in the routing table either, and no address of
/// it is lost.
pub proof fn lemma_disconnected_entry(v: KademliaView, peer: Seq<u8>, now: Instant, e: EntryModel)
    requires
        v.table.wf(),
        knows(v.table, e),
        e.key.point == hash_of(peer),
    ensures
        knows(
            v.peer_disconnected(peer).table,
            EntryModel { status: NodeStatus::Disconnected, ..e },
        ),
{
    lemma_peer_disconnected(v, peer, now);
    let f = EntryModel { status: NodeStatus::Disconnected, ..e };
    let next = v.peer_disconnected(peer).table;
    if holds(v.table, e) {
        let (i, j) = choose|i: int, j: int|
            0 <= i < v.table.buckets.len() && 0 <= j < v.table.buckets[i].nodes.len()
                && #[trigger] v.table.buckets[i].nodes[j] == e;
        lemma_connection_of_present(v, peer, None, NodeStatus::Disconnected, now, i, j);
        let m = choose|m: int| #[trigger]
            moved(v.table.buckets[i].nodes, j, next.buckets[i].nodes, m, f);
        assert(next.buckets[i].nodes[m] == f);
        assert(holds(next, f));
    } else {
        let i = choose|i: int|
            0 <= i < v.table.buckets.len() && (#[trigger] v.table.buckets[i]).pending is Some
                && v.table.buckets[i].pending->0.entry == e;
        lemma_connection_of_pending(v, peer, None, NodeStatus::Disconnected, now, i);
        assert(next.buckets[i].pending is Some);
        assert(waits(next, f));
    }
}

/// A peer that is removed from its bucket leaves all other nodes in their order, and the one that
/// waits for a place keeps waiting.
pub proof fn lemma_remove_present(t: TableModel, p: KeyBytes, i: int, j: int)
    requires
        t.wf(),
        0 <= i < t.buckets.len(),
        0 <= j < t.buckets[i].nodes.len(),
        t.buckets[i].nodes[j].key.point == p,
    ensures
        only_bucket(t, t.removed(p), i),
        t.removed(p).buckets[i] == (BucketModel {
            nodes: t.buckets[i].nodes.remove(j),
            ..t.buckets[i]
        }),
        t.get(p) == Some(t.buckets[i].nodes[j]),
{
    assert(t.buckets[i].wf());
    assert(placed_in(t.buckets[i], p));
    lemma_local_not_placed(t, i);
    lemma_place(t, p);
    lemma_pos_is(t.buckets[i].nodes, j, p);
}

/// A peer that waits for a place and is removed does not wait any more, and the nodes stay.
pub proof fn lemma_remove_pending(t: TableModel, p: KeyBytes, i: int)
    requires
        t.wf(),
        0 <= i < t.buckets.len(),
        t.buckets[i].pending matches Some(n) && n.entry.key.point == p,
    ensures
        only_bucket(t, t.removed(p), i),
        t.removed(p).buckets[i] == (BucketModel { pending: None, ..t.buckets[i] }),
        t.get(p) == Some(t.buckets[i].pending->0.entry),
{
    assert(t.buckets[i].wf());
    assert(placed_in(t.buckets[i], p));
    lemma_local_not_placed(t, i);
    lemma_place(t, p);
}

/// The removal of a peer that is not in the table changes nothing.
pub proof fn lemma_remove_unknown(t: TableModel, p: KeyBytes)
    requires
        t.wf(),
        unknown(t, p),
    ensures
        t.removed(p) == t,
        t.get(p) is None,
{
    if p != t.local.point {
        lemma_place(t, p);
        let b = t.buckets[t.index(p)];
        assert(!placed_in(t.buckets[t.index(p)], p));
        lemma_pos(b.nodes, p);
    }
}

/// The nodes that have waited long enough at `now` get a place, in every bucket alike. A node whose
/// time has not come keeps waiting. One whose time has come takes a free place, or that of the
/// least-recently disconnected node, as the most recent one of its kind. If there is no such node it
/// is dropped.
pub proof fn lemma_applied(t: TableModel, now: Instant, i: int)
    requires
        t.wf(),
        0 <= i < t.buckets.len(),
    ensures
        t.applied(now).local == t.local,
        t.applied(now).buckets.len() == t.buckets.len(),
        ({
            let b = t.buckets[i];
            let c = t.applied(now).buckets[i];
            &&& c.pending_timeout == b.pending_timeout
            &&& match b.pending {
                None => c == b,
                Some(n) => if now.nanos < n.replace.nanos {
                    c == b
                } else {
                    &&& c.pending is None
                    &&& if b.nodes.len() < K_VALUE {
                        exists|m: int|
                            0 <= m < c.nodes.len() && #[trigger] c.nodes[m] == n.entry
                                && c.nodes.remove(m) == b.nodes && most_recent(c.nodes, m)
                    } else if b.nodes[0].status == NodeStatus::Connected {
                        c.nodes == b.nodes
                    } else {
                        exists|m: int| #[trigger]
                            moved(b.nodes, 0, c.nodes, m, n.entry) && most_recent(c.nodes, m)
                    }
                },
            }
        }),
{
    let b = t.buckets[i];
    let c = t.applied(now).buckets[i];
    assert(b.wf());
    if let Some(n) = b.pending {
        if now.nanos >= n.replace.nanos {
            if b.nodes.len() < K_VALUE {
                lemma_most_recent(b.nodes, n.entry);
                let m = choose|m: int|
                    0 <= m < placed(b.nodes, n.entry).len() && #[trigger] placed(b.nodes, n.entry)[m]
                        == n.entry && placed(b.nodes, n.entry).remove(m) == b.nodes && most_recent(
                        placed(b.nodes, n.entry),
                        m,
                    );
                assert(c.nodes[m] == n.entry);
            } else if b.nodes[0].status == NodeStatus::Disconnected {
                let rest = b.nodes.remove(0);
                assert forall|k: int, l: int|
                    #![trigger rest[k], rest[l]]
                    0 <= k < l < rest.len() && rest[k].status
                        == NodeStatus::Connected implies rest[l].status == NodeStatus::Connected by {
                    assert(rest[k] == b.nodes[k + 1] && rest[l] == b.nodes[l + 1]);
                }
                lemma_most_recent(rest, n.entry);
                let m = choose|m: int|
                    0 <= m < placed(rest, n.entry).len() && #[trigger] placed(rest, n.entry)[m]
                        == n.entry && placed(rest, n.entry).remove(m) == rest && most_recent(
                        placed(rest, n.entry),
                        m,
                    );
                assert(moved(b.nodes, 0, c.nodes, m, n.entry));
            }
        }
    }
}

/// The outcome of an attempt to insert a node into a bucket says what has become of it: it has a
/// place, or waits for that of the least-recently disconnected node, or neither.
pub proof fn lemma_insert_outcome(b: BucketModel, e: EntryModel, now: Instant)
    requires
        b.wf(),
        now.early(),
        b.pending_timeout@ <= Duration::max_nanos(),
    ensures
        ({
            let (c, outcome) = b.inserted(e, now);
            let full = b.nodes.len() == K_VALUE;
            let replaces = full && e.status == NodeStatus::Connected && b.nodes[0].status
                == NodeStatus::Disconnected && b.pending is None;
            &&& outcome is Inserted <==> !full
            &&& outcome is Pending <==> replaces
            &&& !full ==> c == BucketModel { nodes: c.nodes, ..b } && exists|m: int|
                0 <= m < c.nodes.len() && #[trigger] c.nodes[m] == e && c.nodes.remove(m) == b.nodes
                    && most_recent(c.nodes, m)
            &&& full ==> c.nodes == b.nodes && c.pending_timeout == b.pending_timeout
            &&& full && !replaces ==> c.pending == b.pending
            &&& outcome matches InsertModel::Pending { disconnected } ==> disconnected
                == b.nodes[0].key && (c.pending matches Some(n) && n.entry == e && n.replace.nanos
                == now.nanos + b.pending_timeout@)
        }),
{
    let (c, outcome) = b.inserted(e, now);
    if b.nodes.len() < K_VALUE {
        lemma_most_recent(b.nodes, e);
        let m = choose|m: int|
            0 <= m < placed(b.nodes, e).len() && #[trigger] placed(b.nodes, e)[m] == e && placed(
                b.nodes,
                e,
            ).remove(m) == b.nodes && most_recent(placed(b.nodes, e), m);
        assert(c.nodes[m] == e);
    }
}

} // verus!
