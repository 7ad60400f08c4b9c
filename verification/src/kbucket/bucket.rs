//! A single bucket of the routing table.
use crate::addresses::{Addresses, with_address};
use crate::identity::{Multiaddr, PeerId};
use crate::kbucket::key::{Key, KeyBytes, PeerKeyView};
use crate::time::{Duration, Instant};
use vstd::prelude::*;

verus! {

/// The most nodes that a bucket holds.
pub const K_VALUE: usize = 20;

/// The status of a node in a bucket.
#[derive(Debug, Clone, Copy, PartialEq, Eq, Structural)]
pub enum NodeStatus {
    /// The node is considered connected.
    Connected,
    /// The node is considered disconnected.
    Disconnected,
}

/// A node of the routing table.
#[derive(Debug)]
pub struct Node {
    /// The key of the node, identifying the peer.
    pub key: Key<PeerId>,
    /// The addresses of the peer.
    pub value: Addresses,
}

impl Clone for Node {
    fn clone(&self) -> (r: Self)
        ensures
            r.key@ == self.key@,
            r.value@ == self.value@,
    {
        Node { key: self.key.clone(), value: self.value.clone() }
    }
}

/// A node together with its status.
#[derive(Debug)]
pub struct EntryView {
    /// The node represented by the entry.
    pub node: Node,
    /// The status of the node identified by the key.
    pub status: NodeStatus,
}

/// What an [`EntryView`] says.
pub struct EntryModel {
    pub key: PeerKeyView,
    pub addresses: Seq<Seq<u8>>,
    pub status: NodeStatus,
}

impl View for EntryView {
    type V = EntryModel;

    open spec fn view(&self) -> EntryModel {
        EntryModel { key: self.node.key@, addresses: self.node.value@, status: self.status }
    }
}

impl DeepView for EntryView {
    type V = EntryModel;

    open spec fn deep_view(&self) -> EntryModel {
        self@
    }
}

impl Clone for EntryView {
    fn clone(&self) -> (r: Self)
        ensures
            r@ == self@,
    {
        EntryView { node: self.node.clone(), status: self.status }
    }
}

/// The result of inserting an entry into a bucket.
#[derive(Debug)]
pub enum InsertResult {
    /// The entry has been successfully inserted.
    Inserted,
    /// The entry is pending insertion because the relevant bucket is currently full. It is
    /// inserted after a timeout elapsed, if the status of the least-recently disconnected node
    /// does not change by then.
    Pending {
        /// The key of the least-recently disconnected node that is to be evicted.
        disconnected: Key<PeerId>,
    },
    /// The entry was not inserted because the relevant bucket is full.
    Full,
}

/// What an [`InsertResult`] says.
pub enum InsertModel {
    Inserted,
    Pending { disconnected: PeerKeyView },
    Full,
}

impl View for InsertResult {
    type V = InsertModel;

    open spec fn view(&self) -> InsertModel {
        match self {
            InsertResult::Inserted => InsertModel::Inserted,
            InsertResult::Pending { disconnected } => InsertModel::Pending {
                disconnected: disconnected@,
            },
            InsertResult::Full => InsertModel::Full,
        }
    }
}

/// A node that waits for its insertion into a full bucket.
#[derive(Debug)]
pub struct PendingNode {
    /// The node and the status that it is to be inserted with.
    pub entry: EntryView,
    /// When the node may replace another one.
    pub replace: Instant,
}

/// What a [`PendingNode`] says.
pub struct PendingModel {
    pub entry: EntryModel,
    pub replace: Instant,
}

impl DeepView for PendingNode {
    type V = PendingModel;

    open spec fn deep_view(&self) -> PendingModel {
        PendingModel { entry: self.entry@, replace: self.replace }
    }
}

/// The position of the first entry with the key `p`, or the length if there is none.
pub open spec fn pos(s: Seq<EntryModel>, p: KeyBytes) -> int
    decreases s.len(),
{
    if s.len() == 0 {
        0
    } else if s[0].key.point == p {
        0
    } else {
        1 + pos(s.skip(1), p)
    }
}

/// Whether there is an entry with the key `p`.
pub open spec fn present(s: Seq<EntryModel>, p: KeyBytes) -> bool {
    exists|i: int| 0 <= i < s.len() && (#[trigger] s[i]).key.point == p
}

/// The position of the first connected entry, or the length if there is none.
pub open spec fn first_connected(s: Seq<EntryModel>) -> int
    decreases s.len(),
{
    if s.len() == 0 {
        0
    } else if s[0].status == NodeStatus::Connected {
        0
    } else {
        1 + first_connected(s.skip(1))
    }
}

/// The entries of a bucket with one more: at the end if it is connected, behind the last
/// disconnected one if it is not.
pub open spec fn placed(s: Seq<EntryModel>, e: EntryModel) -> Seq<EntryModel> {
    match e.status {
        NodeStatus::Connected => s.push(e),
        NodeStatus::Disconnected => s.insert(first_connected(s), e),
    }
}

proof fn lemma_pos_found(s: Seq<EntryModel>, p: KeyBytes, i: int)
    requires
        0 <= i <= s.len(),
        forall|j: int| 0 <= j < i ==> (#[trigger] s[j]).key.point != p,
        i < s.len() ==> s[i].key.point == p,
    ensures
        pos(s, p) == i,
    decreases s.len(),
{
    if s.len() > 0 && i > 0 {
        assert(s[0].key.point != p);
        assert forall|j: int| 0 <= j < i - 1 implies (#[trigger] s.skip(1)[j]).key.point != p by {
            assert(s.skip(1)[j] == s[j + 1]);
        }
        lemma_pos_found(s.skip(1), p, i - 1);
    }
}

/// What [`pos`] finds.
pub proof fn lemma_pos(s: Seq<EntryModel>, p: KeyBytes)
    ensures
        0 <= pos(s, p) <= s.len(),
        forall|j: int| 0 <= j < pos(s, p) ==> (#[trigger] s[j]).key.point != p,
        pos(s, p) < s.len() ==> s[pos(s, p)].key.point == p,
        present(s, p) <==> pos(s, p) < s.len(),
    decreases s.len(),
{
    if s.len() > 0 && s[0].key.point != p {
        let t = s.skip(1);
        lemma_pos(t, p);
        assert forall|j: int| 0 <= j < pos(s, p) implies (#[trigger] s[j]).key.point != p by {
            if j > 0 {
                assert(t[j - 1] == s[j]);
            }
        }
        if present(s, p) {
            let i = choose|i: int| 0 <= i < s.len() && (#[trigger] s[i]).key.point == p;
            assert(t[i - 1] == s[i]);
        }
        if present(t, p) {
            let i = choose|i: int| 0 <= i < t.len() && (#[trigger] t[i]).key.point == p;
            assert(t[i] == s[i + 1]);
        }
    } else if s.len() > 0 {
        assert(s[0].key.point == p);
    }
}

proof fn lemma_first_connected_found(s: Seq<EntryModel>, i: int)
    requires
        0 <= i <= s.len(),
        forall|j: int| 0 <= j < i ==> (#[trigger] s[j]).status == NodeStatus::Disconnected,
        i < s.len() ==> s[i].status == NodeStatus::Connected,
    ensures
        first_connected(s) == i,
    decreases s.len(),
{
    if s.len() > 0 && i > 0 {
        assert(s[0].status == NodeStatus::Disconnected);
        assert forall|j: int| 0 <= j < i - 1 implies (#[trigger] s.skip(1)[j]).status
            == NodeStatus::Disconnected by {
            assert(s.skip(1)[j] == s[j + 1]);
        }
        lemma_first_connected_found(s.skip(1), i - 1);
    }
}

/// What [`first_connected`] finds.
pub proof fn lemma_first_connected(s: Seq<EntryModel>)
    ensures
        0 <= first_connected(s) <= s.len(),
        forall|j: int|
            0 <= j < first_connected(s) ==> (#[trigger] s[j]).status == NodeStatus::Disconnected,
        first_connected(s) < s.len() ==> s[first_connected(s)].status == NodeStatus::Connected,
    decreases s.len(),
{
    if s.len() > 0 && s[0].status != NodeStatus::Connected {
        let t = s.skip(1);
        lemma_first_connected(t);
        assert forall|j: int| 0 <= j < first_connected(s) implies (#[trigger] s[j]).status
            == NodeStatus::Disconnected by {
            if j > 0 {
                assert(t[j - 1] == s[j]);
            }
        }
    }
}

/// No two entries have the same key.
pub open spec fn distinct(s: Seq<EntryModel>) -> bool {
    forall|i: int, j: int|
        #![trigger s[i], s[j]]
        0 <= i < j < s.len() ==> s[i].key.point != s[j].key.point
}

/// The disconnected entries come before the connected ones.
pub open spec fn ordered(s: Seq<EntryModel>) -> bool {
    forall|i: int, j: int|
        #![trigger s[i], s[j]]
        0 <= i < j < s.len() && s[i].status == NodeStatus::Connected ==> s[j].status
            == NodeStatus::Connected
}

/// Adding an entry with a new key keeps the keys distinct and the disconnected entries in front.
pub proof fn lemma_placed(s: Seq<EntryModel>, e: EntryModel)
    requires
        distinct(s),
        ordered(s),
        !present(s, e.key.point),
    ensures
        placed(s, e).len() == s.len() + 1,
        distinct(placed(s, e)),
        ordered(placed(s, e)),
        placed(s, e).contains(e),
        forall|i: int| 0 <= i < s.len() ==> placed(s, e).contains(#[trigger] s[i]),
        forall|i: int|
            0 <= i < s.len() + 1 ==> (#[trigger] placed(s, e)[i]) == e || s.contains(
                placed(s, e)[i],
            ),
{
    lemma_first_connected(s);
    let at: int = match e.status {
        NodeStatus::Connected => s.len() as int,
        NodeStatus::Disconnected => first_connected(s),
    };
    let t = placed(s, e);
    assert(t =~= s.insert(at, e));
    assert(t[at] == e);
    assert forall|i: int| 0 <= i < s.len() implies t.contains(#[trigger] s[i]) by {
        if i < at {
            assert(t[i] == s[i]);
        } else {
            assert(t[i + 1] == s[i]);
        }
    }
    assert forall|i: int| 0 <= i < t.len() implies (#[trigger] t[i]) == e || s.contains(t[i]) by {
        if i < at {
            assert(t[i] == s[i]);
        } else if i > at {
            assert(t[i] == s[i - 1]);
        }
    }
    assert forall|i: int, j: int|
        #![trigger t[i], t[j]]
        0 <= i < j < t.len() implies t[i].key.point != t[j].key.point by {
        let a = if i < at { i } else { i - 1 };
        let b = if j < at { j } else { j - 1 };
        if i != at {
            assert(t[i] == s[a]);
        }
        if j != at {
            assert(t[j] == s[b]);
        }
    }
    assert forall|i: int, j: int|
        #![trigger t[i], t[j]]
        0 <= i < j < t.len() && t[i].status == NodeStatus::Connected implies t[j].status
        == NodeStatus::Connected by {
        let a = if i < at { i } else { i - 1 };
        let b = if j < at { j } else { j - 1 };
        if i != at {
            assert(t[i] == s[a]);
        }
        if j != at {
            assert(t[j] == s[b]);
        }
    }
}

/// Taking an entry out keeps the keys distinct and the disconnected entries in front, and takes
/// its key out.
pub proof fn lemma_removed(s: Seq<EntryModel>, at: int)
    requires
        distinct(s),
        ordered(s),
        0 <= at < s.len(),
    ensures
        distinct(s.remove(at)),
        ordered(s.remove(at)),
        !present(s.remove(at), s[at].key.point),
        forall|i: int| 0 <= i < s.len() - 1 ==> s.contains(#[trigger] s.remove(at)[i]),
        forall|i: int| 0 <= i < s.len() && i != at ==> s.remove(at).contains(#[trigger] s[i]),
{
    let t = s.remove(at);
    assert forall|i: int| 0 <= i < t.len() implies s.contains(#[trigger] t[i]) by {
        assert(t[i] == if i < at { s[i] } else { s[i + 1] });
    }
    assert forall|i: int| 0 <= i < s.len() && i != at implies t.contains(#[trigger] s[i]) by {
        if i < at {
            assert(t[i] == s[i]);
        } else {
            assert(t[i - 1] == s[i]);
        }
    }
    assert forall|i: int, j: int|
        #![trigger t[i], t[j]]
        0 <= i < j < t.len() implies t[i].key.point != t[j].key.point by {
        let a = if i < at { i } else { i + 1 };
        let b = if j < at { j } else { j + 1 };
        assert(t[i] == s[a] && t[j] == s[b]);
    }
    assert forall|i: int, j: int|
        #![trigger t[i], t[j]]
        0 <= i < j < t.len() && t[i].status == NodeStatus::Connected implies t[j].status
        == NodeStatus::Connected by {
        let a = if i < at { i } else { i + 1 };
        let b = if j < at { j } else { j + 1 };
        assert(t[i] == s[a] && t[j] == s[b]);
    }
    assert forall|i: int| 0 <= i < t.len() implies (#[trigger] t[i]).key.point
        != s[at].key.point by {
        let a = if i < at { i } else { i + 1 };
        assert(t[i] == s[a]);
        if a < at {
            assert(s[a].key.point != s[at].key.point);
        } else {
            assert(s[at].key.point != s[a].key.point);
        }
    }
}

/// What a [`KBucket`] holds.
pub struct BucketModel {
    pub nodes: Seq<EntryModel>,
    pub pending: Option<PendingModel>,
    pub pending_timeout: Duration,
}

impl BucketModel {
    /// Whether the pending node has the key `p`.
    pub open spec fn pends(self, p: KeyBytes) -> bool {
        self.pending matches Some(n) && n.entry.key.point == p
    }

    /// What holds of every bucket.
    pub open spec fn wf(self) -> bool {
        &&& self.nodes.len() <= K_VALUE
        &&& distinct(self.nodes)
        &&& ordered(self.nodes)
        &&& self.pending matches Some(n) ==> !present(self.nodes, n.entry.key.point)
    }

    /// Whether the peer `k` is among the nodes of the bucket, or pending, with the status `st`.
    pub open spec fn lists(self, k: PeerKeyView, st: NodeStatus) -> bool {
        ||| exists|i: int|
            0 <= i < self.nodes.len() && (#[trigger] self.nodes[i]).key == k
                && self.nodes[i].status == st
        ||| self.pending matches Some(n) && n.entry.key == k && n.entry.status == st
    }

    /// The bucket after an attempt to insert `e` at `now`, and the outcome of the attempt.
    ///
    /// A connected node that finds the bucket full waits for the least-recently disconnected
    /// node to be evicted, if there is one and no other node waits already.
    pub open spec fn inserted(self, e: EntryModel, now: Instant) -> (BucketModel, InsertModel) {
        if self.nodes.len() < K_VALUE {
            (BucketModel { nodes: placed(self.nodes, e), ..self }, InsertModel::Inserted)
        } else if e.status == NodeStatus::Disconnected || self.nodes[0].status
            == NodeStatus::Connected || self.pending is Some {
            (self, InsertModel::Full)
        } else {
            (
                BucketModel {
                    pending: Some(
                        PendingModel { entry: e, replace: now.later_by(self.pending_timeout@) },
                    ),
                    ..self
                },
                InsertModel::Pending { disconnected: self.nodes[0].key },
            )
        }
    }

    /// The bucket after the node with the key `p` was given a status, which moves it behind all
    /// other nodes with that status. The node that waits for the eviction of the least-recently
    /// disconnected node is dropped if that node reconnects.
    pub open spec fn updated(self, p: KeyBytes, status: NodeStatus) -> BucketModel {
        let at = pos(self.nodes, p);
        let e = EntryModel { status, ..self.nodes[at] };
        BucketModel {
            nodes: placed(self.nodes.remove(at), e),
            pending: if at == 0 && status == NodeStatus::Connected {
                None
            } else {
                self.pending
            },
            ..self
        }
    }

    /// The bucket after an address of the node with the key `p` was learned.
    pub open spec fn learned(self, p: KeyBytes, a: Seq<u8>) -> BucketModel {
        let at = pos(self.nodes, p);
        let e = self.nodes[at];
        BucketModel {
            nodes: self.nodes.update(
                at,
                EntryModel { addresses: with_address(e.addresses, a), ..e },
            ),
            ..self
        }
    }

    /// The bucket with another pending entry, which waits as long as the one before.
    pub open spec fn pending_changed(self, e: EntryModel) -> BucketModel {
        BucketModel {
            pending: Some(PendingModel { entry: e, replace: self.pending->0.replace }),
            ..self
        }
    }

    /// The bucket at `now`: a node that has waited long enough takes the place of the
    /// least-recently disconnected node, or a free one. If all nodes are connected by then, it is
    /// dropped.
    pub open spec fn applied(self, now: Instant) -> BucketModel {
        match self.pending {
            Some(n) => if n.replace.nanos > now.nanos {
                self
            } else if self.nodes.len() < K_VALUE {
                BucketModel { nodes: placed(self.nodes, n.entry), pending: None, ..self }
            } else if self.nodes[0].status == NodeStatus::Connected {
                BucketModel { pending: None, ..self }
            } else {
                BucketModel {
                    nodes: placed(self.nodes.remove(0), n.entry),
                    pending: None,
                    ..self
                }
            },
            None => self,
        }
    }
}

/// A bucket of the routing table: up to [`K_VALUE`] nodes, the disconnected ones first, each kind
/// with the least recent one in front, and at most one node that waits for a free place.
#[derive(Debug)]
pub struct KBucket {
    nodes: Vec<EntryView>,
    pending: Option<PendingNode>,
    pending_timeout: Duration,
}

impl View for KBucket {
    type V = BucketModel;

    closed spec fn view(&self) -> BucketModel {
        BucketModel {
            nodes: self.nodes.deep_view(),
            pending: self.pending.deep_view(),
            pending_timeout: self.pending_timeout,
        }
    }
}

impl DeepView for KBucket {
    type V = BucketModel;

    open spec fn deep_view(&self) -> BucketModel {
        self@
    }
}

/// Puts an entry into its place.
fn place(nodes: &mut Vec<EntryView>, e: EntryView)
    ensures
        final(nodes).deep_view() == placed(old(nodes).deep_view(), e@),
{
    match e.status {
        NodeStatus::Connected => {
            nodes.push(e);
            assert(nodes.deep_view() =~= old(nodes).deep_view().push(e@));
        },
        NodeStatus::Disconnected => {
            let ghost s = nodes.deep_view();
            let mut i: usize = 0;
            while i < nodes.len() && nodes[i].status == NodeStatus::Disconnected
                invariant
                    i <= nodes.len(),
                    s == nodes.deep_view(),
                    forall|j: int|
                        0 <= j < i ==> (#[trigger] s[j]).status == NodeStatus::Disconnected,
                decreases nodes.len() - i,
            {
                i = i + 1;
            }
            proof {
                lemma_first_connected_found(s, i as int);
            }
            nodes.insert(i, e);
            assert(nodes.deep_view() =~= s.insert(i as int, e@));
        },
    }
}

impl KBucket {
    /// An empty bucket.
    pub fn new(pending_timeout: Duration) -> (r: KBucket)
        ensures
            r@ == (BucketModel { nodes: Seq::empty(), pending: None, pending_timeout }),
            r@.wf(),
    {
        let nodes: Vec<EntryView> = Vec::new();
        assert(nodes.deep_view() =~= Seq::<EntryModel>::empty());
        KBucket { nodes, pending: None, pending_timeout }
    }

    /// The number of nodes, not counting a pending one.
    pub fn num_entries(&self) -> (r: usize)
        ensures
            r == self@.nodes.len(),
    {
        self.nodes.len()
    }

    /// The nodes, without a pending one.
    pub fn entries(&self) -> (r: &Vec<EntryView>)
        ensures
            r.deep_view() == self@.nodes,
    {
        &self.nodes
    }

    /// The position of the node with the key `p`, or the number of nodes if there is none.
    fn position(&self, p: KeyBytes) -> (r: usize)
        ensures
            r == pos(self@.nodes, p),
            r <= self.nodes.len(),
            r < self.nodes.len() <==> present(self@.nodes, p),
    {
        let ghost s = self.nodes.deep_view();
        let mut i: usize = 0;
        while i < self.nodes.len() && self.nodes[i].node.key.key_bytes() != p
            invariant
                i <= self.nodes.len(),
                s == self.nodes.deep_view(),
                forall|j: int| 0 <= j < i ==> (#[trigger] s[j]).key.point != p,
            decreases self.nodes.len() - i,
        {
            i = i + 1;
        }
        proof {
            lemma_pos_found(s, p, i as int);
            lemma_pos(s, p);
        }
        i
    }

    /// The status of the node with the key `p`.
    pub fn status(&self, p: KeyBytes) -> (r: Option<NodeStatus>)
        ensures
            r is Some <==> present(self@.nodes, p),
            r matches Some(st) ==> st == self@.nodes[pos(self@.nodes, p)].status,
    {
        let i: usize = self.position(p);
        if i < self.nodes.len() {
            Some(self.nodes[i].status)
        } else {
            None
        }
    }

    /// The status of the pending node, if it has the key `p`.
    pub fn pending_status(&self, p: KeyBytes) -> (r: Option<NodeStatus>)
        ensures
            r is Some <==> self@.pends(p),
            r matches Some(st) ==> st == self@.pending->0.entry.status,
    {
        match &self.pending {
            Some(n) => if n.entry.node.key.key_bytes() == p {
                Some(n.entry.status)
            } else {
                None
            },
            None => None,
        }
    }

    /// A copy of the node with the key `p`, or of the pending node if it has that key.
    pub fn get(&self, p: KeyBytes) -> (r: Option<EntryView>)
        ensures
            r.deep_view() == (if present(self@.nodes, p) {
                Some(self@.nodes[pos(self@.nodes, p)])
            } else if self@.pends(p) {
                Some(self@.pending->0.entry)
            } else {
                None
            }),
    {
        let i: usize = self.position(p);
        if i < self.nodes.len() {
            Some(self.nodes[i].clone())
        } else {
            match &self.pending {
                Some(n) => if n.entry.node.key.key_bytes() == p {
                    Some(n.entry.clone())
                } else {
                    None
                },
                None => None,
            }
        }
    }

    /// Inserts a new node into the bucket.
    pub fn insert(&mut self, e: EntryView, now: Instant) -> (r: InsertResult)
        requires
            now.early(),
            old(self)@.wf(),
            !present(old(self)@.nodes, e@.key.point),
            !old(self)@.pends(e@.key.point),
        ensures
            final(self)@ == old(self)@.inserted(e@, now).0,
            r@ == old(self)@.inserted(e@, now).1,
            final(self)@.wf(),
            forall|k: PeerKeyView, st: NodeStatus| #[trigger]
                final(self)@.lists(k, st) ==> old(self)@.lists(k, st) || (k == e@.key && st
                    == e@.status),
    {
        if self.nodes.len() < K_VALUE {
            proof {
                lemma_placed(self.nodes.deep_view(), e@);
            }
            place(&mut self.nodes, e);
            proof {
                if let Some(n) = self@.pending {
                    if present(self@.nodes, n.entry.key.point) {
                        let i = choose|i: int|
                            0 <= i < self@.nodes.len() && (#[trigger] self@.nodes[i]).key.point
                                == n.entry.key.point;
                        assert(self@.nodes[i] == e@ || old(self)@.nodes.contains(self@.nodes[i]));
                    }
                }
            }
            InsertResult::Inserted
        } else if e.status == NodeStatus::Disconnected || self.nodes[0].status
            == NodeStatus::Connected || self.pending.is_some() {
            InsertResult::Full
        } else {
            let disconnected = self.nodes[0].node.key.clone();
            let replace: Instant = now.after(self.pending_timeout);
            self.pending = Some(PendingNode { entry: e, replace });
            InsertResult::Pending { disconnected }
        }
    }

    /// Updates the status of the node with the key `p`.
    pub fn update(&mut self, p: KeyBytes, status: NodeStatus)
        requires
            old(self)@.wf(),
            present(old(self)@.nodes, p),
        ensures
            final(self)@ == old(self)@.updated(p, status),
            final(self)@.wf(),
            forall|k: PeerKeyView, st: NodeStatus| #[trigger]
                final(self)@.lists(k, st) ==> if k.point == p {
                    st == status && k == old(self)@.nodes[pos(old(self)@.nodes, p)].key
                } else {
                    old(self)@.lists(k, st)
                },
    {
        let i: usize = self.position(p);
        let ghost s = self@.nodes;
        let e = self.nodes.remove(i);
        assert(self.nodes.deep_view() =~= s.remove(i as int));
        let moved = EntryView { node: e.node, status };
        proof {
            lemma_pos(s, p);
            lemma_removed(s, i as int);
            lemma_placed(s.remove(i as int), moved@);
        }
        place(&mut self.nodes, moved);
        if i == 0 && status == NodeStatus::Connected {
            self.pending = None;
        }
        proof {
            if let Some(n) = self@.pending {
                if present(self@.nodes, n.entry.key.point) {
                    let k = choose|k: int|
                        0 <= k < self@.nodes.len() && (#[trigger] self@.nodes[k]).key.point
                            == n.entry.key.point;
                    assert(self@.nodes[k] == moved@ || s.remove(i as int).contains(self@.nodes[k]));
                }
            }
        }
    }

    /// Updates the status of the pending node.
    pub fn update_pending(&mut self, status: NodeStatus)
        requires
            old(self)@.wf(),
            old(self)@.pending is Some,
        ensures
            final(self)@ == old(self)@.pending_changed(
                EntryModel { status, ..old(self)@.pending->0.entry },
            ),
            final(self)@.wf(),
            forall|k: PeerKeyView, st: NodeStatus| #[trigger]
                final(self)@.lists(k, st) ==> if k.point == old(self)@.pending->0.entry.key.point {
                    st == status && k == old(self)@.pending->0.entry.key
                } else {
                    old(self)@.lists(k, st)
                },
    {
        if let Some(n) = self.pending.take() {
            self.pending = Some(
                PendingNode {
                    entry: EntryView { node: n.entry.node, status },
                    replace: n.replace,
                },
            );
        }
    }

    /// Adds an address to the node with the key `p`.
    pub fn add_address(&mut self, p: KeyBytes, a: Multiaddr)
        requires
            old(self)@.wf(),
            present(old(self)@.nodes, p),
        ensures
            final(self)@ == old(self)@.learned(p, a@),
            final(self)@.wf(),
            forall|k: PeerKeyView, st: NodeStatus| #[trigger]
                final(self)@.lists(k, st) ==> old(self)@.lists(k, st),
    {
        let i: usize = self.position(p);
        let ghost s = self@.nodes;
        let mut e = self.nodes[i].clone();
        e.node.value.insert(a);
        self.nodes.set(i, e);
        proof {
            lemma_pos(s, p);
            let t = self.nodes.deep_view();
            assert(t =~= s.update(i as int, e@));
            assert forall|k: int| 0 <= k < s.len() implies (#[trigger] t[k]).key == s[k].key
                && t[k].status == s[k].status by {}
            if let Some(n) = self@.pending {
                if present(t, n.entry.key.point) {
                    let k = choose|k: int|
                        0 <= k < t.len() && (#[trigger] t[k]).key.point == n.entry.key.point;
                    assert(s[k].key.point == n.entry.key.point);
                }
            }
        }
    }

    /// Adds an address to the pending node.
    pub fn add_pending_address(&mut self, a: Multiaddr)
        requires
            old(self)@.wf(),
            old(self)@.pending is Some,
        ensures
            final(self)@ == old(self)@.pending_changed(
                EntryModel {
                    addresses: with_address(old(self)@.pending->0.entry.addresses, a@),
                    ..old(self)@.pending->0.entry
                },
            ),
            final(self)@.wf(),
            forall|k: PeerKeyView, st: NodeStatus| #[trigger]
                final(self)@.lists(k, st) ==> old(self)@.lists(k, st),
    {
        if let Some(n) = self.pending.take() {
            let mut value = n.entry.node.value;
            value.insert(a);
            self.pending = Some(
                PendingNode {
                    entry: EntryView {
                        node: Node { key: n.entry.node.key, value },
                        status: n.entry.status,
                    },
                    replace: n.replace,
                },
            );
        }
    }

    /// Removes the node with the key `p`.
    pub fn remove(&mut self, p: KeyBytes) -> (r: EntryView)
        requires
            old(self)@.wf(),
            present(old(self)@.nodes, p),
        ensures
            r@ == old(self)@.nodes[pos(old(self)@.nodes, p)],
            final(self)@ == (BucketModel {
                nodes: old(self)@.nodes.remove(pos(old(self)@.nodes, p)),
                ..old(self)@
            }),
            final(self)@.wf(),
            !present(final(self)@.nodes, p),
            forall|k: PeerKeyView, st: NodeStatus| #[trigger]
                final(self)@.lists(k, st) ==> old(self)@.lists(k, st),
    {
        let i: usize = self.position(p);
        let ghost s = self@.nodes;
        let e = self.nodes.remove(i);
        proof {
            assert(self.nodes.deep_view() =~= s.remove(i as int));
            lemma_pos(s, p);
            lemma_removed(s, i as int);
            if let Some(n) = self@.pending {
                if present(self@.nodes, n.entry.key.point) {
                    let k = choose|k: int|
                        0 <= k < self@.nodes.len() && (#[trigger] self@.nodes[k]).key.point
                            == n.entry.key.point;
                    assert(s.contains(self@.nodes[k]));
                }
            }
        }
        e
    }

    /// Removes the pending node.
    pub fn remove_pending(&mut self) -> (r: EntryView)
        requires
            old(self)@.wf(),
            old(self)@.pending is Some,
        ensures
            r@ == old(self)@.pending->0.entry,
            final(self)@ == (BucketModel { pending: None, ..old(self)@ }),
            final(self)@.wf(),
            forall|k: PeerKeyView, st: NodeStatus| #[trigger]
                final(self)@.lists(k, st) ==> old(self)@.lists(k, st),
    {
        let n = self.pending.take().unwrap();
        n.entry
    }

    /// Inserts the pending node if it has waited long enough.
    pub fn apply_pending(&mut self, now: Instant)
        requires
            old(self)@.wf(),
        ensures
            final(self)@ == old(self)@.applied(now),
            final(self)@.wf(),
            forall|k: PeerKeyView, st: NodeStatus| #[trigger]
                final(self)@.lists(k, st) ==> old(self)@.lists(k, st),
    {
        let ready: bool = match &self.pending {
            Some(n) => n.replace.nanos <= now.nanos,
            None => false,
        };
        if ready {
            let n = self.pending.take().unwrap();
            let ghost s = self@.nodes;
            if self.nodes.len() < K_VALUE {
                proof {
                    lemma_placed(s, n.entry@);
                }
                place(&mut self.nodes, n.entry);
            } else if self.nodes[0].status == NodeStatus::Disconnected {
                let _evicted = self.nodes.remove(0);
                proof {
                    assert(self.nodes.deep_view() =~= s.remove(0));
                    lemma_removed(s, 0);
                    if present(s.remove(0), n.entry@.key.point) {
                        let k = choose|k: int|
                            0 <= k < s.remove(0).len() && (#[trigger] s.remove(0)[k]).key.point
                                == n.entry@.key.point;
                        assert(s.contains(s.remove(0)[k]));
                    }
                    lemma_placed(s.remove(0), n.entry@);
                }
                place(&mut self.nodes, n.entry);
            }
        }
    }
}

} // verus!
