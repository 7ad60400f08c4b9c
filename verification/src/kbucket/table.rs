//! The table of all buckets.
use crate::addresses::Addresses;
use crate::identity::{Multiaddr, PeerId};
use crate::kbucket::bucket::{
    BucketModel, EntryModel, EntryView, InsertResult, K_VALUE, KBucket, Node, NodeStatus, distinct,
    lemma_pos, lemma_removed, pos, present,
};
use crate::kbucket::key::{
    Distance, Key, KeyBytes, PeerKeyView, lemma_distance_injective, lemma_distance_zero,
    lemma_has_bucket,
};
use crate::time::{Duration, Instant};
use vstd::prelude::*;

verus! {

/// The number of buckets: one for each position that the highest bit of a distance can have.
pub const NUM_BUCKETS: usize = 256;

/// The index of the bucket for a distance.
pub open spec fn index_of(d: Distance) -> nat {
    choose|i: nat| #[trigger] d.in_bucket(i)
}

/// A distance belongs to one bucket only.
pub proof fn lemma_one_bucket(d: Distance, i: nat, j: nat)
    requires
        d.in_bucket(i),
        d.in_bucket(j),
    ensures
        i == j,
{
    if i < j {
        if i + 1 < j {
            vstd::arithmetic::power2::lemma_pow2_strictly_increases(i + 1, j);
        }
    } else if j < i {
        if j + 1 < i {
            vstd::arithmetic::power2::lemma_pow2_strictly_increases(j + 1, i);
        }
    }
}

/// The nodes of some buckets, one bucket after the other.
pub open spec fn concat(bs: Seq<BucketModel>) -> Seq<EntryModel>
    decreases bs.len(),
{
    if bs.len() == 0 {
        Seq::empty()
    } else {
        concat(bs.drop_last()) + bs.last().nodes
    }
}

/// The position of the first bucket that holds a node, or the length if none does.
pub open spec fn first_filled(bs: Seq<BucketModel>) -> int
    decreases bs.len(),
{
    if bs.len() == 0 {
        0
    } else if bs[0].nodes.len() > 0 {
        0
    } else {
        1 + first_filled(bs.skip(1))
    }
}

proof fn lemma_first_filled(bs: Seq<BucketModel>, i: int)
    requires
        0 <= i <= bs.len(),
        forall|j: int| 0 <= j < i ==> (#[trigger] bs[j]).nodes.len() == 0,
        i < bs.len() ==> bs[i].nodes.len() > 0,
    ensures
        first_filled(bs) == i,
    decreases bs.len(),
{
    if bs.len() > 0 && i > 0 {
        assert(bs[0].nodes.len() == 0);
        assert forall|j: int| 0 <= j < i - 1 implies (#[trigger] bs.skip(1)[j]).nodes.len() == 0 by {
            assert(bs.skip(1)[j] == bs[j + 1]);
        }
        lemma_first_filled(bs.skip(1), i - 1);
    }
}

/// Whether the distance to `t` grows along `s`.
pub open spec fn ascending(s: Seq<EntryModel>, t: KeyBytes) -> bool {
    forall|i: int, j: int|
        #![trigger s[i], s[j]]
        0 <= i < j < s.len() ==> t.to(s[i].key.point) < t.to(s[j].key.point)
}

/// Whether `s` holds the entries `es` in the order of their distance to `t`.
pub open spec fn arranged(es: Seq<EntryModel>, t: KeyBytes, s: Seq<EntryModel>) -> bool {
    &&& ascending(s, t)
    &&& forall|e: EntryModel| #[trigger] s.contains(e) <==> es.contains(e)
}

/// The entries `es`, the closest to `t` first.
pub open spec fn by_distance(es: Seq<EntryModel>, t: KeyBytes) -> Seq<EntryModel> {
    choose|s: Seq<EntryModel>| arranged(es, t, s)
}

/// The keys of some entries.
pub open spec fn keys_of(s: Seq<EntryModel>) -> Seq<PeerKeyView> {
    Seq::new(s.len(), |i: int| s[i].key)
}

/// Two arrangements of the same entries are the same.
pub proof fn lemma_arranged_once(a: Seq<EntryModel>, b: Seq<EntryModel>, t: KeyBytes)
    requires
        ascending(a, t),
        ascending(b, t),
        forall|e: EntryModel| #[trigger] a.contains(e) <==> b.contains(e),
    ensures
        a == b,
    decreases a.len(),
{
    if a.len() == 0 {
        if b.len() > 0 {
            assert(b.contains(b[0]));
            assert(a.contains(b[0]));
        }
    } else {
        let x = a.last();
        assert(a.contains(x));
        assert(b.contains(x));
        let y = b.last();
        assert(b.contains(y));
        assert(a.contains(y));
        let i = choose|i: int| 0 <= i < b.len() && b[i] == x;
        let j = choose|j: int| 0 <= j < a.len() && a[j] == y;
        assert(i == b.len() - 1);
        let a1 = a.drop_last();
        let b1 = b.drop_last();
        assert forall|e: EntryModel| #[trigger] a1.contains(e) <==> b1.contains(e) by {
            if a1.contains(e) {
                let k = choose|k: int| 0 <= k < a1.len() && a1[k] == e;
                assert(a[k] == e);
                assert(a.contains(e));
                let m = choose|m: int| 0 <= m < b.len() && b[m] == e;
                assert(m < b.len() - 1);
                assert(b1[m] == e);
            }
            if b1.contains(e) {
                let k = choose|k: int| 0 <= k < b1.len() && b1[k] == e;
                assert(b[k] == e);
                assert(b.contains(e));
                assert(a.contains(e));
                let m = choose|m: int| 0 <= m < a.len() && a[m] == e;
                assert(m < a.len() - 1);
                assert(a1[m] == e);
            }
        }
        lemma_arranged_once(a1, b1, t);
        assert(a =~= a1.push(x));
        assert(b =~= b1.push(x));
    }
}

/// Whether the point `p` lies between the local node and a target: closer to the target than the
/// local node is, and no farther from the local node than the target is.
pub open spec fn between(local: KeyBytes, target: KeyBytes, p: KeyBytes) -> bool {
    target.to(p) < target.to(local) && local.to(p) <= local.to(target)
}

/// The number of entries that lie between the local node and a target.
pub open spec fn count_between(s: Seq<EntryModel>, local: KeyBytes, target: KeyBytes) -> nat {
    s.filter(|e: EntryModel| between(local, target, e.key.point)).len()
}

/// What the routing table knows of a key.
#[derive(Debug, Clone, Copy, PartialEq, Eq, Structural)]
pub enum Entry {
    /// The node is in its bucket, with this status.
    Present(NodeStatus),
    /// The node is pending insertion, with this status.
    Pending(NodeStatus),
    /// The node is not in the table.
    Absent,
    /// The key is that of the local node.
    SelfEntry,
}

/// What a [`KBucketsTable`] holds.
pub struct TableModel {
    pub local: PeerKeyView,
    pub buckets: Seq<BucketModel>,
}

impl TableModel {
    /// The index of the bucket for the key `p`.
    pub open spec fn index(self, p: KeyBytes) -> int {
        index_of(self.local.point.xor(p)) as int
    }

    /// The bucket for the key `p`.
    pub open spec fn bucket(self, p: KeyBytes) -> BucketModel {
        self.buckets[self.index(p)]
    }

    /// Whether the peer `k` is in the table, or pending, with the status `st`.
    pub open spec fn lists(self, k: PeerKeyView, st: NodeStatus) -> bool {
        exists|i: int| 0 <= i < self.buckets.len() && (#[trigger] self.buckets[i]).lists(k, st)
    }

    /// What holds of every table: there is a bucket for each distance, every bucket is in order,
    /// and every peer is in the bucket for its distance to the local node.
    pub open spec fn wf(self) -> bool {
        &&& self.local.valid()
        &&& self.buckets.len() == NUM_BUCKETS
        &&& forall|i: int| 0 <= i < self.buckets.len() ==> (#[trigger] self.buckets[i]).wf()
        &&& forall|i: int, k: PeerKeyView, st: NodeStatus|
            0 <= i < self.buckets.len() && #[trigger] self.buckets[i].lists(k, st) ==> k.valid()
                && self.local.point.xor(k.point).in_bucket(i as nat)
    }

    /// What the table knows of the key `p`.
    pub open spec fn entry(self, p: KeyBytes) -> Entry {
        let b = self.bucket(p);
        if p == self.local.point {
            Entry::SelfEntry
        } else if present(b.nodes, p) {
            Entry::Present(b.nodes[pos(b.nodes, p)].status)
        } else if b.pends(p) {
            Entry::Pending(b.pending->0.entry.status)
        } else {
            Entry::Absent
        }
    }

    /// The entry for the key `p`, whether it is in the table or pending.
    pub open spec fn get(self, p: KeyBytes) -> Option<EntryModel> {
        let b = self.bucket(p);
        match self.entry(p) {
            Entry::Present(_) => Some(b.nodes[pos(b.nodes, p)]),
            Entry::Pending(_) => Some(b.pending->0.entry),
            _ => None,
        }
    }

    /// The table with another bucket for the key `p`.
    pub open spec fn with_bucket(self, p: KeyBytes, b: BucketModel) -> TableModel {
        TableModel { buckets: self.buckets.update(self.index(p), b), ..self }
    }

    /// The table after an address of the peer with the key `p` was learned.
    pub open spec fn learned(self, p: KeyBytes, a: Seq<u8>) -> TableModel {
        let b = self.bucket(p);
        match self.entry(p) {
            Entry::Present(_) => self.with_bucket(p, b.learned(p, a)),
            Entry::Pending(_) => {
                let e = b.pending->0.entry;
                self.with_bucket(
                    p,
                    b.pending_changed(
                        EntryModel {
                            addresses: crate::addresses::with_address(e.addresses, a),
                            ..e
                        },
                    ),
                )
            },
            _ => self,
        }
    }

    /// The table after the peer with the key `p` was given a status.
    pub open spec fn updated(self, p: KeyBytes, status: NodeStatus) -> TableModel {
        let b = self.bucket(p);
        match self.entry(p) {
            Entry::Present(_) => self.with_bucket(p, b.updated(p, status)),
            Entry::Pending(_) => self.with_bucket(
                p,
                b.pending_changed(EntryModel { status, ..b.pending->0.entry }),
            ),
            _ => self,
        }
    }

    /// The table without the peer with the key `p`.
    pub open spec fn removed(self, p: KeyBytes) -> TableModel {
        let b = self.bucket(p);
        match self.entry(p) {
            Entry::Present(_) => self.with_bucket(
                p,
                BucketModel { nodes: b.nodes.remove(pos(b.nodes, p)), ..b },
            ),
            Entry::Pending(_) => self.with_bucket(p, BucketModel { pending: None, ..b }),
            _ => self,
        }
    }

    /// The table after an attempt to insert `e` at `now`.
    pub open spec fn inserted(self, e: EntryModel, now: Instant) -> TableModel {
        self.with_bucket(e.key.point, self.bucket(e.key.point).inserted(e, now).0)
    }

    /// The table at `now`: every node that has waited long enough has been inserted or dropped.
    pub open spec fn applied(self, now: Instant) -> TableModel {
        TableModel {
            buckets: Seq::new(self.buckets.len(), |i: int| self.buckets[i].applied(now)),
            ..self
        }
    }

    /// All nodes in the table.
    pub open spec fn entries(self) -> Seq<EntryModel> {
        concat(self.buckets)
    }

    /// All nodes in the table, the closest to `t` first.
    pub open spec fn closest(self, t: KeyBytes) -> Seq<EntryModel> {
        by_distance(self.entries(), t)
    }

    /// The keys of all nodes in the table, the closest to `t` first.
    pub open spec fn closest_keys(self, t: KeyBytes) -> Seq<PeerKeyView> {
        keys_of(self.closest(t))
    }

    /// The number of nodes between the local node and a target.
    pub open spec fn nodes_between(self, t: KeyBytes) -> nat {
        count_between(self.entries(), self.local.point, t)
    }

    /// The index of the first bucket that holds a node, or the number of buckets if none does.
    pub open spec fn first_non_empty(self) -> int {
        first_filled(self.buckets)
    }
}

/// What [`concat`] holds.
pub proof fn lemma_concat(bs: Seq<BucketModel>, e: EntryModel)
    ensures
        concat(bs).contains(e) <==> exists|i: int|
            0 <= i < bs.len() && (#[trigger] bs[i]).nodes.contains(e),
    decreases bs.len(),
{
    if bs.len() > 0 {
        let front = bs.drop_last();
        lemma_concat(front, e);
        let a = concat(front);
        let b = bs.last().nodes;
        if concat(bs).contains(e) {
            let k = choose|k: int| 0 <= k < concat(bs).len() && concat(bs)[k] == e;
            if k < a.len() {
                assert(a[k] == e);
                let i = choose|i: int| 0 <= i < front.len() && (#[trigger] front[i]).nodes.contains(e);
                assert(bs[i].nodes.contains(e));
            } else {
                assert(b[k - a.len()] == e);
                assert(bs[bs.len() - 1].nodes.contains(e));
            }
        }
        if exists|i: int| 0 <= i < bs.len() && (#[trigger] bs[i]).nodes.contains(e) {
            let i = choose|i: int| 0 <= i < bs.len() && (#[trigger] bs[i]).nodes.contains(e);
            if i < front.len() {
                assert(front[i].nodes.contains(e));
                let k = choose|k: int| 0 <= k < a.len() && a[k] == e;
                assert(concat(bs)[k] == e);
            } else {
                let k = choose|k: int| 0 <= k < b.len() && b[k] == e;
                assert(concat(bs)[a.len() + k] == e);
            }
        }
    }
}

/// No two nodes of a table have the same key.
pub proof fn lemma_entries_distinct(t: TableModel, n: int)
    requires
        t.wf(),
        0 <= n <= NUM_BUCKETS,
    ensures
        distinct(concat(t.buckets.take(n))),
        concat(t.buckets.take(n)).len() <= n * K_VALUE,
    decreases n,
{
    if n > 0 {
        lemma_entries_distinct(t, n - 1);
        let front = t.buckets.take(n - 1);
        let all = t.buckets.take(n);
        assert(all.drop_last() =~= front);
        let a = concat(front);
        let b = t.buckets[n - 1].nodes;
        assert(concat(all) == a + b);
        assert(t.buckets[n - 1].wf());
        let s = concat(all);
        assert forall|i: int, j: int|
            #![trigger s[i], s[j]]
            0 <= i < j < s.len() implies s[i].key.point != s[j].key.point by {
            if j < a.len() {
                assert(s[i] == a[i] && s[j] == a[j]);
            } else if i >= a.len() {
                assert(s[i] == b[i - a.len()] && s[j] == b[j - a.len()]);
            } else {
                assert(s[i] == a[i] && s[j] == b[j - a.len()]);
                assert(a.contains(s[i]));
                lemma_concat(front, s[i]);
                let m = choose|m: int|
                    0 <= m < front.len() && (#[trigger] front[m]).nodes.contains(s[i]);
                assert(t.buckets[m].lists(s[i].key, s[i].status));
                assert(t.buckets[n - 1].lists(s[j].key, s[j].status));
                if s[i].key.point == s[j].key.point {
                    lemma_one_bucket(
                        t.local.point.xor(s[i].key.point),
                        m as nat,
                        (n - 1) as nat,
                    );
                }
            }
        }
    }
}

/// A peer that is listed in a table is found there.
pub proof fn lemma_listed(t: TableModel, k: PeerKeyView, st: NodeStatus)
    requires
        t.wf(),
        t.lists(k, st),
    ensures
        t.get(k.point) matches Some(e) && e.key == k && e.status == st,
{
    let i = choose|i: int| 0 <= i < t.buckets.len() && (#[trigger] t.buckets[i]).lists(k, st);
    let d = t.local.point.xor(k.point);
    let b = t.buckets[i];
    assert(b.wf());
    lemma_one_bucket(d, i as nat, index_of(d));
    lemma_distance_zero(t.local.point, k.point);
    vstd::arithmetic::power2::lemma_pow2_pos(i as nat);
    lemma_pos(b.nodes, k.point);
    if exists|j: int|
        0 <= j < b.nodes.len() && (#[trigger] b.nodes[j]).key == k && b.nodes[j].status == st {
        let j = choose|j: int|
            0 <= j < b.nodes.len() && (#[trigger] b.nodes[j]).key == k && b.nodes[j].status == st;
        let m = pos(b.nodes, k.point);
        if m < j {
            assert(b.nodes[m].key.point != b.nodes[j].key.point);
        }
    }
}

/// A peer that is found in a table is listed there.
pub proof fn lemma_found(t: TableModel, p: KeyBytes)
    requires
        t.wf(),
        t.get(p) is Some,
    ensures
        t.get(p)->0.key.point == p,
        t.lists(t.get(p)->0.key, t.get(p)->0.status),
{
    let d = t.local.point.xor(p);
    lemma_distance_zero(t.local.point, p);
    lemma_has_bucket(d);
    let i = choose|i: nat| i < 256 && #[trigger] d.in_bucket(i);
    lemma_one_bucket(d, i, index_of(d));
    let b = t.buckets[i as int];
    lemma_pos(b.nodes, p);
    assert(b.lists(t.get(p)->0.key, t.get(p)->0.status));
}

/// A peer that was removed from a table is gone from it, whether it was in its bucket or pending.
pub proof fn lemma_removed_gone(t: TableModel, p: KeyBytes)
    requires
        t.wf(),
    ensures
        t.removed(p).get(p) is None,
{
    if p != t.local.point {
        let d = t.local.point.xor(p);
        lemma_distance_zero(t.local.point, p);
        lemma_has_bucket(d);
        let i = choose|i: nat| i < 256 && #[trigger] d.in_bucket(i);
        lemma_one_bucket(d, i, index_of(d));
        let b = t.buckets[i as int];
        assert(b.wf());
        lemma_pos(b.nodes, p);
        if present(b.nodes, p) {
            lemma_removed(b.nodes, pos(b.nodes, p));
        }
    }
}

/// The local node is not listed in its own table.
pub proof fn lemma_self_not_listed(t: TableModel, k: PeerKeyView, st: NodeStatus)
    requires
        t.wf(),
        t.lists(k, st),
    ensures
        k.point != t.local.point,
        k.id != t.local.id,
{
    lemma_listed(t, k, st);
    let i = choose|i: int| 0 <= i < t.buckets.len() && (#[trigger] t.buckets[i]).lists(k, st);
    assert(k.valid());
}

/// The position of the first entry that is farther from `t` than `e`, or the length if there is
/// none.
spec fn farther(s: Seq<EntryModel>, t: KeyBytes, e: EntryModel) -> int
    decreases s.len(),
{
    if s.len() == 0 {
        0
    } else if t.to(s[0].key.point) > t.to(e.key.point) {
        0
    } else {
        1 + farther(s.skip(1), t, e)
    }
}

proof fn lemma_farther(s: Seq<EntryModel>, t: KeyBytes, e: EntryModel)
    ensures
        0 <= farther(s, t, e) <= s.len(),
        forall|j: int|
            0 <= j < farther(s, t, e) ==> t.to((#[trigger] s[j]).key.point) <= t.to(e.key.point),
        farther(s, t, e) < s.len() ==> t.to(s[farther(s, t, e)].key.point) > t.to(e.key.point),
    decreases s.len(),
{
    if s.len() > 0 && !(t.to(s[0].key.point) > t.to(e.key.point)) {
        let r = s.skip(1);
        lemma_farther(r, t, e);
        assert forall|j: int| 0 <= j < farther(s, t, e) implies t.to((#[trigger] s[j]).key.point)
            <= t.to(e.key.point) by {
            if j > 0 {
                assert(r[j - 1] == s[j]);
            }
        }
    }
}

/// Putting an entry behind those that are closer to `t` and in front of those that are farther
/// keeps the order.
#[verifier::rlimit(40)]
proof fn lemma_inserted(s: Seq<EntryModel>, t: KeyBytes, e: EntryModel, at: int)
    requires
        ascending(s, t),
        0 <= at <= s.len(),
        forall|j: int| 0 <= j < at ==> t.to((#[trigger] s[j]).key.point) < t.to(e.key.point),
        at < s.len() ==> t.to(s[at].key.point) > t.to(e.key.point),
    ensures
        ascending(s.insert(at, e), t),
        forall|x: EntryModel| #[trigger] s.insert(at, e).contains(x) <==> s.contains(x) || x == e,
{
    let r = s.insert(at, e);
    assert forall|x: EntryModel| #[trigger] r.contains(x) <==> s.contains(x) || x == e by {
        if r.contains(x) {
            let m = choose|m: int| 0 <= m < r.len() && r[m] == x;
            if m < at {
                assert(s[m] == x);
            } else if m > at {
                assert(s[m - 1] == x);
            }
        }
        if s.contains(x) {
            let m = choose|m: int| 0 <= m < s.len() && s[m] == x;
            if m < at {
                assert(r[m] == x);
            } else {
                assert(r[m + 1] == x);
            }
        }
        if x == e {
            assert(r[at] == x);
        }
    }
    assert forall|a: int, b: int|
        #![trigger r[a], r[b]]
        0 <= a < b < r.len() implies t.to(r[a].key.point) < t.to(r[b].key.point) by {
        let a1 = if a < at { a } else { a - 1 };
        let b1 = if b < at { b } else { b - 1 };
        if a != at {
            assert(r[a] == s[a1]);
        }
        if b != at {
            assert(r[b] == s[b1]);
        }
        if a == at && b1 > at {
            assert(t.to(s[at].key.point) < t.to(s[b1].key.point));
        }
    }
}

proof fn lemma_arrangeable(es: Seq<EntryModel>, t: KeyBytes)
    requires
        distinct(es),
    ensures
        exists|s: Seq<EntryModel>| arranged(es, t, s) && s.len() == es.len(),
    decreases es.len(),
{
    if es.len() == 0 {
        let s = Seq::<EntryModel>::empty();
        assert(arranged(es, t, s));
    } else {
        let front = es.drop_last();
        let e = es.last();
        assert(distinct(front)) by {
            assert forall|i: int, j: int|
                #![trigger front[i], front[j]]
                0 <= i < j < front.len() implies front[i].key.point != front[j].key.point by {
                assert(es[i].key.point != es[j].key.point);
            }
        }
        lemma_arrangeable(front, t);
        let s = choose|s: Seq<EntryModel>| arranged(front, t, s) && s.len() == front.len();
        let at = farther(s, t, e);
        lemma_farther(s, t, e);
        assert forall|j: int| 0 <= j < at implies t.to((#[trigger] s[j]).key.point) < t.to(
            e.key.point,
        ) by {
            assert(s.contains(s[j]));
            assert(front.contains(s[j]));
            let m = choose|m: int| 0 <= m < front.len() && front[m] == s[j];
            assert(es[m].key.point != es[es.len() - 1].key.point);
            lemma_distance_injective(t, s[j].key.point, e.key.point);
        }
        lemma_inserted(s, t, e, at);
        let r = s.insert(at, e);
        assert forall|x: EntryModel| #[trigger] r.contains(x) <==> es.contains(x) by {
            lemma_last_or_before(es, x);
            assert(s.contains(x) <==> front.contains(x));
        }
        assert(arranged(es, t, r));
    }
}

proof fn lemma_last_or_before(es: Seq<EntryModel>, x: EntryModel)
    requires
        es.len() > 0,
    ensures
        es.contains(x) <==> es.drop_last().contains(x) || x == es.last(),
{
    let front = es.drop_last();
    if es.contains(x) {
        let m = choose|m: int| 0 <= m < es.len() && es[m] == x;
        if m < es.len() - 1 {
            assert(front[m] == x);
        }
    }
    if front.contains(x) {
        let m = choose|m: int| 0 <= m < front.len() && front[m] == x;
        assert(es[m] == x);
    }
    if x == es.last() {
        assert(es[es.len() - 1] == x);
    }
}

/// The nodes of a table can be arranged by their distance to any target, and [`TableModel::closest`]
/// is that arrangement: it holds every node of the table once, and a node before all that are
/// farther from the target.
pub proof fn lemma_closest(t: TableModel, target: KeyBytes)
    requires
        t.wf(),
    ensures
        arranged(t.entries(), target, t.closest(target)),
        t.closest(target).len() == t.entries().len(),
{
    lemma_entries_distinct(t, NUM_BUCKETS as int);
    assert(t.buckets.take(NUM_BUCKETS as int) =~= t.buckets);
    lemma_arrangeable(t.entries(), target);
    let s = choose|s: Seq<EntryModel>|
        arranged(t.entries(), target, s) && s.len() == t.entries().len();
    let c = t.closest(target);
    assert(arranged(t.entries(), target, c));
    assert forall|e: EntryModel| #[trigger] s.contains(e) <==> c.contains(e) by {
        assert(s.contains(e) <==> t.entries().contains(e));
        assert(c.contains(e) <==> t.entries().contains(e));
    }
    lemma_arranged_once(s, c, target);
}

/// Exchanging one bucket for another that is in order keeps the table in order.
proof fn lemma_exchanged(t: TableModel, i: int, b: BucketModel)
    requires
        t.wf(),
        0 <= i < NUM_BUCKETS,
        b.wf(),
        forall|k: PeerKeyView, st: NodeStatus| #[trigger]
            b.lists(k, st) ==> k.valid() && t.local.point.xor(k.point).in_bucket(i as nat),
    ensures
        (TableModel { buckets: t.buckets.update(i, b), ..t }).wf(),
        forall|k: PeerKeyView, st: NodeStatus| #[trigger]
            (TableModel { buckets: t.buckets.update(i, b), ..t }).lists(k, st) ==> b.lists(k, st)
                || (t.lists(k, st) && !t.local.point.xor(k.point).in_bucket(i as nat)),
{
    let t1 = TableModel { buckets: t.buckets.update(i, b), ..t };
    assert forall|k: PeerKeyView, st: NodeStatus| #[trigger] t1.lists(k, st) implies b.lists(k, st)
        || (t.lists(k, st) && !t.local.point.xor(k.point).in_bucket(i as nat)) by {
        let j = choose|j: int| 0 <= j < t1.buckets.len() && (#[trigger] t1.buckets[j]).lists(k, st);
        if j != i {
            assert(t.buckets[j].lists(k, st));
            if t.local.point.xor(k.point).in_bucket(i as nat) {
                lemma_one_bucket(t.local.point.xor(k.point), i as nat, j as nat);
            }
        }
    }
}

/// A reference to a bucket in the table.
#[derive(Debug)]
pub struct KBucketRef<'a> {
    index: usize,
    bucket: &'a KBucket,
}

impl<'a> KBucketRef<'a> {
    /// The position of the bucket in the table.
    pub closed spec fn index_spec(self) -> nat {
        self.index as nat
    }

    /// The bucket itself.
    pub closed spec fn bucket_spec(self) -> BucketModel {
        self.bucket@
    }

    /// The position of the bucket in the table.
    pub fn index(&self) -> (r: usize)
        ensures
            r == self.index_spec(),
    {
        self.index
    }

    /// The number of entries in the bucket.
    pub fn num_entries(&self) -> (r: usize)
        ensures
            r == self.bucket_spec().nodes.len(),
    {
        self.bucket.num_entries()
    }

    /// Whether the bucket is empty.
    pub fn is_empty(&self) -> (r: bool)
        ensures
            r == (self.bucket_spec().nodes.len() == 0),
    {
        self.bucket.num_entries() == 0
    }

    /// The entries in the bucket.
    pub fn entries(&self) -> (r: &Vec<EntryView>)
        ensures
            r.deep_view() == self.bucket_spec().nodes,
    {
        self.bucket.entries()
    }

    /// Whether the bucket is the one for the distance `d`.
    pub fn contains(&self, d: &Distance) -> (r: bool)
        ensures
            r == d.in_bucket(self.index_spec()),
    {
        match d.bucket_index() {
            Some(i) => {
                proof {
                    if d.in_bucket(self.index as nat) {
                        lemma_one_bucket(*d, i as nat, self.index as nat);
                    }
                }
                i == self.index
            },
            None => {
                proof {
                    vstd::arithmetic::power2::lemma_pow2_pos(self.index as nat);
                }
                false
            },
        }
    }
}

/// The routing table: the peers that are known to the local node, in a bucket for each distance.
#[derive(Debug)]
pub struct KBucketsTable {
    local_key: Key<PeerId>,
    buckets: Vec<KBucket>,
}

impl View for KBucketsTable {
    type V = TableModel;

    closed spec fn view(&self) -> TableModel {
        TableModel { local: self.local_key@, buckets: self.buckets.deep_view() }
    }
}

impl KBucketsTable {
    /// Creates a new, empty routing table with entries partitioned into buckets by their
    /// distance to the given key.
    pub fn new(local_key: Key<PeerId>, pending_timeout: Duration) -> (r: KBucketsTable)
        requires
            local_key@.valid(),
        ensures
            r@.wf(),
            r@.local == local_key@,
            r@.buckets == Seq::new(
                NUM_BUCKETS as nat,
                |i: int| BucketModel { nodes: Seq::empty(), pending: None, pending_timeout },
            ),
    {
        let mut buckets: Vec<KBucket> = Vec::new();
        let mut i: usize = 0;
        while i < NUM_BUCKETS
            invariant
                i <= NUM_BUCKETS,
                buckets.len() == i,
                forall|j: int|
                    0 <= j < i ==> (#[trigger] buckets[j])@ == (BucketModel {
                        nodes: Seq::empty(),
                        pending: None,
                        pending_timeout,
                    }),
            decreases NUM_BUCKETS - i,
        {
            buckets.push(KBucket::new(pending_timeout));
            i = i + 1;
        }
        let r = KBucketsTable { local_key, buckets };
        proof {
            assert(r@.buckets =~= Seq::new(
                NUM_BUCKETS as nat,
                |i: int| BucketModel { nodes: Seq::empty(), pending: None, pending_timeout },
            ));
        }
        r
    }

    /// Returns the local key.
    pub fn local_key(&self) -> (r: &Key<PeerId>)
        ensures
            r@ == self@.local,
    {
        &self.local_key
    }

    /// The index of the bucket for the key `p`, which is not the local one.
    fn index(&self, p: KeyBytes) -> (r: usize)
        requires
            self@.wf(),
            p != self@.local.point,
        ensures
            r == self@.index(p),
            r < self.buckets.len(),
            self@.local.point.xor(p).in_bucket(r as nat),
    {
        let d: Distance = self.local_key.distance(&p);
        proof {
            lemma_distance_zero(self@.local.point, p);
        }
        let i: usize = d.bucket_index().unwrap();
        proof {
            lemma_one_bucket(d, i as nat, index_of(d));
        }
        i
    }

    /// What the table knows of the key `p`.
    pub fn entry(&self, p: KeyBytes) -> (r: Entry)
        requires
            self@.wf(),
        ensures
            r == self@.entry(p),
    {
        if p == self.local_key.key_bytes() {
            return Entry::SelfEntry;
        }
        let i: usize = self.index(p);
        match self.buckets[i].status(p) {
            Some(st) => Entry::Present(st),
            None => match self.buckets[i].pending_status(p) {
                Some(st) => Entry::Pending(st),
                None => Entry::Absent,
            },
        }
    }

    /// A copy of the entry for the key `p`, whether it is in the table or pending.
    pub fn get(&self, p: KeyBytes) -> (r: Option<EntryView>)
        requires
            self@.wf(),
        ensures
            r.deep_view() == self@.get(p),
    {
        if p == self.local_key.key_bytes() {
            return None;
        }
        let i: usize = self.index(p);
        self.buckets[i].get(p)
    }

    /// Adds an address to the entry for the key `p`, whether it is in the table or pending.
    pub fn add_address(&mut self, p: KeyBytes, a: Multiaddr)
        requires
            old(self)@.wf(),
            old(self)@.get(p) is Some,
        ensures
            final(self)@ == old(self)@.learned(p, a@),
            final(self)@.entry(p) == old(self)@.entry(p),
            final(self)@.wf(),
            forall|k: PeerKeyView, st: NodeStatus| #[trigger]
                final(self)@.lists(k, st) ==> old(self)@.lists(k, st),
    {
        let i: usize = self.index(p);
        let ghost t0 = self@;
        if self.buckets[i].status(p).is_some() {
            self.buckets[i].add_address(p, a);
        } else {
            self.buckets[i].add_pending_address(a);
        }
        proof {
            let b = self.buckets[i as int]@;
            let b0 = t0.buckets[i as int];
            lemma_pos(b0.nodes, p);
            lemma_pos(b.nodes, p);
            if present(b0.nodes, p) {
                let m0 = pos(b0.nodes, p);
                let m = pos(b.nodes, p);
                assert(b.nodes[m0].key.point == p);
                if m < m0 {
                    assert(b.nodes[m].key == b0.nodes[m].key);
                }
            }
            assert(self@.buckets =~= t0.buckets.update(i as int, b));
            lemma_exchanged(t0, i as int, b);
        }
    }

    /// Updates the status of the entry for the key `p`, whether it is in the table or pending.
    pub fn update(&mut self, p: KeyBytes, status: NodeStatus)
        requires
            old(self)@.wf(),
            old(self)@.get(p) is Some,
        ensures
            final(self)@ == old(self)@.updated(p, status),
            final(self)@.wf(),
            forall|k: PeerKeyView, st: NodeStatus| #[trigger]
                final(self)@.lists(k, st) ==> if k.point == p {
                    st == status && k == old(self)@.get(p)->0.key
                } else {
                    old(self)@.lists(k, st)
                },
    {
        let i: usize = self.index(p);
        let ghost t0 = self@;
        if self.buckets[i].status(p).is_some() {
            self.buckets[i].update(p, status);
        } else {
            self.buckets[i].update_pending(status);
        }
        proof {
            let b = self.buckets[i as int]@;
            assert(self@.buckets =~= t0.buckets.update(i as int, b));
            lemma_pos(t0.buckets[i as int].nodes, p);
            let e = t0.get(p)->0;
            assert(t0.buckets[i as int].lists(e.key, e.status));
            lemma_exchanged(t0, i as int, b);
        }
    }

    /// Removes the entry for the key `p`, whether it is in the table or pending.
    pub fn remove(&mut self, p: KeyBytes) -> (r: Option<EntryView>)
        requires
            old(self)@.wf(),
        ensures
            r.deep_view() == old(self)@.get(p),
            final(self)@ == old(self)@.removed(p),
            final(self)@.wf(),
            forall|k: PeerKeyView, st: NodeStatus| #[trigger]
                final(self)@.lists(k, st) ==> old(self)@.lists(k, st),
    {
        if p == self.local_key.key_bytes() {
            return None;
        }
        let i: usize = self.index(p);
        let ghost t0 = self@;
        let r = if self.buckets[i].status(p).is_some() {
            Some(self.buckets[i].remove(p))
        } else if self.buckets[i].pending_status(p).is_some() {
            Some(self.buckets[i].remove_pending())
        } else {
            None
        };
        proof {
            let b = self.buckets[i as int]@;
            assert(self@.buckets =~= t0.buckets.update(i as int, b));
            lemma_exchanged(t0, i as int, b);
        }
        r
    }

    /// Inserts a node that the table does not know into its bucket.
    pub fn insert(
        &mut self,
        key: Key<PeerId>,
        value: Addresses,
        status: NodeStatus,
        now: Instant,
    ) -> (r: InsertResult)
        requires
            now.early(),
            old(self)@.wf(),
            key@.valid(),
            old(self)@.entry(key@.point) == Entry::Absent,
        ensures
            ({
                let e = EntryModel { key: key@, addresses: value@, status };
                &&& final(self)@ == old(self)@.inserted(e, now)
                &&& r@ == old(self)@.bucket(key@.point).inserted(e, now).1
            }),
            final(self)@.wf(),
            forall|k: PeerKeyView, st: NodeStatus| #[trigger]
                final(self)@.lists(k, st) ==> old(self)@.lists(k, st) || (k == key@ && st
                    == status),
    {
        let p: KeyBytes = key.key_bytes();
        let i: usize = self.index(p);
        let ghost t0 = self@;
        let r = self.buckets[i].insert(EntryView { node: Node { key, value }, status }, now);
        proof {
            let b = self.buckets[i as int]@;
            assert(self@.buckets =~= t0.buckets.update(i as int, b));
            lemma_exchanged(t0, i as int, b);
        }
        r
    }

    /// Inserts the pending nodes that have waited long enough.
    pub fn apply_pending(&mut self, now: Instant)
        requires
            old(self)@.wf(),
        ensures
            final(self)@ == old(self)@.applied(now),
            final(self)@.wf(),
            forall|k: PeerKeyView, st: NodeStatus| #[trigger]
                final(self)@.lists(k, st) ==> old(self)@.lists(k, st),
    {
        let ghost t0 = self@;
        let mut i: usize = 0;
        while i < NUM_BUCKETS
            invariant
                i <= NUM_BUCKETS,
                t0.wf(),
                self@.wf(),
                self@.local == t0.local,
                forall|j: int| 0 <= j < i ==> (#[trigger] self@.buckets[j]) == t0.buckets[j].applied(now),
                forall|j: int| i <= j < NUM_BUCKETS ==> (#[trigger] self@.buckets[j]) == t0.buckets[j],
                forall|k: PeerKeyView, st: NodeStatus| #[trigger]
                    self@.lists(k, st) ==> t0.lists(k, st),
            decreases NUM_BUCKETS - i,
        {
            let ghost t1 = self@;
            assert(t1.buckets[i as int].wf());
            self.buckets[i].apply_pending(now);
            proof {
                let b = self.buckets[i as int]@;
                assert(self@.buckets =~= t1.buckets.update(i as int, b));
                lemma_exchanged(t1, i as int, b);
            }
            i = i + 1;
        }
        assert(self@.buckets =~= t0.applied(now).buckets);
    }

    /// Returns the bucket for the distance to the given key. There is none for the local key.
    pub fn bucket(&self, p: KeyBytes) -> (r: Option<KBucketRef<'_>>)
        requires
            self@.wf(),
        ensures
            r is None <==> p == self@.local.point,
            r matches Some(b) ==> b.index_spec() == self@.index(p) && b.bucket_spec()
                == self@.bucket(p),
    {
        if p == self.local_key.key_bytes() {
            None
        } else {
            let i: usize = self.index(p);
            Some(KBucketRef { index: i, bucket: &self.buckets[i] })
        }
    }

    /// Returns the bucket at the given position.
    pub fn at(&self, i: usize) -> (r: KBucketRef<'_>)
        requires
            self@.wf(),
            i < NUM_BUCKETS,
        ensures
            r.index_spec() == i,
            r.bucket_spec() == self@.buckets[i as int],
    {
        KBucketRef { index: i, bucket: &self.buckets[i] }
    }

    /// Returns all buckets that hold a node, the closest first.
    pub fn non_empty(&self) -> (r: Vec<KBucketRef<'_>>)
        requires
            self@.wf(),
        ensures
            forall|k: int|
                0 <= k < r.len() ==> {
                    let b = #[trigger] r[k];
                    b.index_spec() < NUM_BUCKETS && b.bucket_spec() == self@.buckets[b.index_spec() as int]
                        && b.bucket_spec().nodes.len() > 0
                },
            forall|k: int, m: int|
                #![trigger r[k], r[m]]
                0 <= k < m < r.len() ==> r[k].index_spec() < r[m].index_spec(),
            forall|i: int|
                0 <= i < NUM_BUCKETS && (#[trigger] self@.buckets[i]).nodes.len() > 0 ==> exists|k: int|
                    0 <= k < r.len() && (#[trigger] r[k]).index_spec() == i,
    {
        let mut r: Vec<KBucketRef<'_>> = Vec::new();
        let mut i: usize = 0;
        while i < NUM_BUCKETS
            invariant
                i <= NUM_BUCKETS,
                self@.wf(),
                forall|k: int|
                    0 <= k < r.len() ==> {
                        let b = #[trigger] r[k];
                        b.index_spec() < i && b.bucket_spec() == self@.buckets[b.index_spec() as int]
                            && b.bucket_spec().nodes.len() > 0
                    },
                forall|k: int, m: int|
                    #![trigger r[k], r[m]]
                    0 <= k < m < r.len() ==> r[k].index_spec() < r[m].index_spec(),
                forall|j: int|
                    0 <= j < i && (#[trigger] self@.buckets[j]).nodes.len() > 0 ==> exists|k: int|
                        0 <= k < r.len() && (#[trigger] r[k]).index_spec() == j,
            decreases NUM_BUCKETS - i,
        {
            let ghost r0 = r@;
            if self.buckets[i].num_entries() > 0 {
                r.push(KBucketRef { index: i, bucket: &self.buckets[i] });
                assert(r[r.len() - 1].index_spec() == i);
                assert forall|j: int|
                    0 <= j < i + 1 && (#[trigger] self@.buckets[j]).nodes.len() > 0 implies exists|k: int|
                    0 <= k < r.len() && (#[trigger] r[k]).index_spec() == j by {
                    if j < i {
                        let k = choose|k: int| 0 <= k < r0.len() && (#[trigger] r0[k]).index_spec() == j;
                        assert(r[k] == r0[k]);
                    }
                }
            }
            i = i + 1;
        }
        r
    }

    /// The index of the first bucket that holds a node, or the number of buckets if none does.
    pub fn first_non_empty(&self) -> (r: usize)
        requires
            self@.wf(),
        ensures
            r == self@.first_non_empty(),
            r <= NUM_BUCKETS,
            r < NUM_BUCKETS ==> self@.buckets[r as int].nodes.len() > 0,
            forall|j: int| 0 <= j < r ==> (#[trigger] self@.buckets[j]).nodes.len() == 0,
    {
        let mut i: usize = 0;
        while i < NUM_BUCKETS && self.buckets[i].num_entries() == 0
            invariant
                i <= NUM_BUCKETS,
                self@.wf(),
                forall|j: int| 0 <= j < i ==> (#[trigger] self@.buckets[j]).nodes.len() == 0,
            decreases NUM_BUCKETS - i,
        {
            i = i + 1;
        }
        proof {
            lemma_first_filled(self@.buckets, i as int);
        }
        i
    }

    /// Returns the nodes of the table, the closest to the given key first.
    pub fn closest(&self, t: KeyBytes) -> (r: Vec<EntryView>)
        requires
            self@.wf(),
        ensures
            r.deep_view() == self@.closest(t),
            arranged(self@.entries(), t, r.deep_view()),
            r.len() <= NUM_BUCKETS * K_VALUE,
    {
        let mut out: Vec<EntryView> = Vec::new();
        let ghost bs = self@.buckets;
        let mut i: usize = 0;
        assert(bs.take(0) =~= Seq::empty());
        while i < NUM_BUCKETS
            invariant
                i <= NUM_BUCKETS,
                self@.wf(),
                bs == self@.buckets,
                arranged(concat(bs.take(i as int)), t, out.deep_view()),
                out.len() == concat(bs.take(i as int)).len(),
            decreases NUM_BUCKETS - i,
        {
            let nodes = self.buckets[i].entries();
            let ghost before = concat(bs.take(i as int));
            let ghost here = bs[i as int].nodes;
            let ghost after = concat(bs.take(i + 1));
            proof {
                assert(bs.take(i + 1).drop_last() =~= bs.take(i as int));
                assert(after == before + here);
                lemma_entries_distinct(self@, i + 1);
                assert(before + here.take(0) =~= before);
            }
            let mut k: usize = 0;
            while k < nodes.len()
                invariant
                    k <= nodes.len(),
                    nodes.deep_view() == here,
                    distinct(before + here),
                    arranged(before + here.take(k as int), t, out.deep_view()),
                    out.len() == before.len() + k,
                decreases nodes.len() - k,
            {
                let e = nodes[k].clone();
                proof {
                    let s = before + here;
                    let prefix = before + here.take(k as int);
                    let n = before.len() + k as int;
                    assert(e@ == here[k as int]);
                    assert(s[n] == e@);
                    assert forall|j: int| 0 <= j < out.len() implies (#[trigger] out.deep_view()[j]).key.point
                        != e@.key.point by {
                        let x = out.deep_view()[j];
                        assert(out.deep_view().contains(x));
                        assert(prefix.contains(x));
                        let m = choose|m: int| 0 <= m < prefix.len() && prefix[m] == x;
                        assert(s[m] == x);
                        assert(s[m].key.point != s[n].key.point);
                    }
                }
                let ghost o = out.deep_view();
                insert_by_distance(&mut out, e, t);
                proof {
                    let prefix = before + here.take(k as int);
                    let next = before + here.take(k + 1);
                    assert(next =~= prefix.push(e@));
                    assert forall|x: EntryModel| #[trigger] out.deep_view().contains(x)
                        <==> next.contains(x) by {
                        if next.contains(x) {
                            let m = choose|m: int| 0 <= m < next.len() && next[m] == x;
                            if m < prefix.len() {
                                assert(prefix[m] == x);
                                assert(prefix.contains(x));
                                assert(o.contains(x));
                            }
                        }
                        if prefix.contains(x) {
                            let m = choose|m: int| 0 <= m < prefix.len() && prefix[m] == x;
                            assert(next[m] == x);
                        }
                        if x == e@ {
                            assert(next[prefix.len() as int] == x);
                        }
                        assert(o.contains(x) <==> prefix.contains(x));
                    }
                }
                k = k + 1;
            }
            assert(here.take(k as int) =~= here);
            i = i + 1;
        }
        proof {
            assert(bs.take(NUM_BUCKETS as int) =~= bs);
            lemma_entries_distinct(self@, NUM_BUCKETS as int);
            let a = out.deep_view();
            assert(arranged(self@.entries(), t, a));
            let b = self@.closest(t);
            assert(arranged(self@.entries(), t, b));
            assert forall|e: EntryModel| #[trigger] a.contains(e) <==> b.contains(e) by {
                assert(a.contains(e) <==> self@.entries().contains(e));
                assert(b.contains(e) <==> self@.entries().contains(e));
            }
            lemma_arranged_once(a, b, t);
        }
        out
    }

    /// Returns the keys of the nodes of the table, the closest to the given key first.
    pub fn closest_keys(&self, t: KeyBytes) -> (r: Vec<Key<PeerId>>)
        requires
            self@.wf(),
        ensures
            r.deep_view() == self@.closest_keys(t),
    {
        let es = self.closest(t);
        let ghost s = self@.closest(t);
        let mut r: Vec<Key<PeerId>> = Vec::new();
        let mut i: usize = 0;
        while i < es.len()
            invariant
                i <= es.len(),
                es.deep_view() == s,
                r.len() == i,
                forall|j: int| 0 <= j < i ==> (#[trigger] r[j])@ == s[j].key,
            decreases es.len() - i,
        {
            assert(es.deep_view()[i as int] == es[i as int]@);
            r.push(es[i].node.key.clone());
            i = i + 1;
        }
        assert(r.deep_view() =~= keys_of(s));
        r
    }

    /// Counts the nodes that lie between the local node and a target.
    pub fn count_nodes_between(&self, t: KeyBytes) -> (r: usize)
        requires
            self@.wf(),
        ensures
            r == self@.nodes_between(t),
    {
        let l: KeyBytes = self.local_key.key_bytes();
        let limit: Distance = l.distance(&t);
        let own: Distance = t.distance(&l);
        let ghost bs = self@.buckets;
        let ghost pred = |e: EntryModel| between(l, t, e.key.point);
        let mut n: usize = 0;
        let mut i: usize = 0;
        assert(bs.take(0) =~= Seq::empty());
        assert(concat(bs.take(0)).filter(pred) =~= Seq::empty()) by {
            reveal(Seq::filter);
        }
        while i < NUM_BUCKETS
            invariant
                i <= NUM_BUCKETS,
                self@.wf(),
                bs == self@.buckets,
                l == self@.local.point,
                limit == l.xor(t),
                own == t.xor(l),
                pred == (|e: EntryModel| between(l, t, e.key.point)),
                n == concat(bs.take(i as int)).filter(pred).len(),
                n <= i * K_VALUE,
            decreases NUM_BUCKETS - i,
        {
            let nodes = self.buckets[i].entries();
            let ghost before = concat(bs.take(i as int));
            let ghost here = bs[i as int].nodes;
            let ghost n0 = n;
            proof {
                assert(bs.take(i + 1).drop_last() =~= bs.take(i as int));
                Seq::filter_distributes_over_add(before, here, pred);
                assert(here.take(0).filter(pred) =~= Seq::empty()) by {
                    reveal(Seq::filter);
                }
                assert(bs[i as int].wf());
            }
            let mut k: usize = 0;
            while k < nodes.len()
                invariant
                    k <= nodes.len(),
                    nodes.deep_view() == here,
                    nodes.len() <= K_VALUE,
                    limit == l.xor(t),
                    own == t.xor(l),
                    pred == (|e: EntryModel| between(l, t, e.key.point)),
                    n == n0 + here.take(k as int).filter(pred).len(),
                    n <= n0 + k,
                    n0 <= NUM_BUCKETS * K_VALUE,
                decreases nodes.len() - k,
            {
                let p: KeyBytes = nodes[k].node.key.key_bytes();
                proof {
                    assert(here[k as int] == nodes[k as int]@);
                    assert(here.take(k + 1).drop_last() =~= here.take(k as int));
                    reveal(Seq::filter);
                }
                if t.distance(&p).less(&own) && !limit.less(&l.distance(&p)) {
                    n = n + 1;
                }
                k = k + 1;
            }
            assert(here.take(k as int) =~= here);
            i = i + 1;
        }
        assert(bs.take(NUM_BUCKETS as int) =~= bs);
        n
    }
}

/// Inserts an entry into a list that is sorted by the distance to `t`.
fn insert_by_distance(out: &mut Vec<EntryView>, e: EntryView, t: KeyBytes)
    requires
        ascending(old(out).deep_view(), t),
        forall|j: int|
            0 <= j < old(out).len() ==> (#[trigger] old(out).deep_view()[j]).key.point
                != e@.key.point,
    ensures
        ascending(final(out).deep_view(), t),
        final(out).len() == old(out).len() + 1,
        forall|x: EntryModel| #[trigger]
            final(out).deep_view().contains(x) <==> old(out).deep_view().contains(x) || x == e@,
{
    let ghost s = out.deep_view();
    let d: Distance = t.distance(&e.node.key.key_bytes());
    let mut i: usize = 0;
    while i < out.len() && t.distance(&out[i].node.key.key_bytes()).less(&d)
        invariant
            i <= out.len(),
            s == out.deep_view(),
            d == t.xor(e@.key.point),
            forall|j: int| 0 <= j < i ==> t.to((#[trigger] s[j]).key.point) < d@,
        decreases out.len() - i,
    {
        assert(s[i as int] == out[i as int]@);
        i = i + 1;
    }
    proof {
        if i < out.len() {
            assert(s[i as int] == out[i as int]@);
            lemma_distance_injective(t, s[i as int].key.point, e@.key.point);
        }
    }
    out.insert(i, e);
    proof {
        let r = out.deep_view();
        assert(r =~= s.insert(i as int, e@));
        lemma_inserted(s, t, e@, i as int);
    }
}

} // verus!
