//! Queries: lookups in the DHT that are in progress.
use crate::collections::{AddressBook, AddressMap};
use crate::identity::{Multiaddr, PeerId};
use crate::info::{QueryInfo, QueryInfoView};
use crate::kbucket::K_VALUE;
use crate::kbucket::key::{Distance, Key, KeyBytes, PeerKeyView, hash_of};
use crate::num::NonZeroUsize;
use crate::time::{Duration, Instant};
use vstd::prelude::*;

verus! {

/// The default for the level of parallelism of iterative queries.
pub const ALPHA_VALUE: usize = 3;

/// Unique identifier for an active query.
#[derive(Debug, Clone, Copy, PartialEq, Eq, Structural)]
pub struct QueryId(pub usize);

/// Execution statistics of a query.
#[derive(Debug, Clone, Copy, PartialEq, Eq, Structural)]
pub struct QueryStats {
    pub requests: u32,
    pub success: u32,
    pub failure: u32,
    pub start: Option<Instant>,
    pub end: Option<Instant>,
}

/// The sum of two counters, which stick at the largest number.
pub open spec fn saturated(a: u32, b: u32) -> u32 {
    if a + b > u32::MAX {
        u32::MAX
    } else {
        (a + b) as u32
    }
}

impl QueryStats {
    /// The statistics of a query that has not done anything.
    pub open spec fn none() -> QueryStats {
        QueryStats { requests: 0, success: 0, failure: 0, start: None, end: None }
    }

    /// The statistics of two phases of a query as a whole: the counters are added up, it started
    /// with the phase that started first and ended with the phase that ended last.
    pub open spec fn merged(self, other: QueryStats) -> QueryStats {
        QueryStats {
            requests: saturated(self.requests, other.requests),
            success: saturated(self.success, other.success),
            failure: saturated(self.failure, other.failure),
            start: match (self.start, other.start) {
                (Some(a), Some(b)) => Some(a.earlier(b)),
                (Some(a), None) => Some(a),
                (None, b) => b,
            },
            end: match (self.end, other.end) {
                (Some(a), Some(b)) => if a.nanos <= b.nanos {
                    Some(b)
                } else {
                    Some(a)
                },
                (Some(a), None) => Some(a),
                (None, b) => b,
            },
        }
    }

    /// The statistics of a query that has not done anything.
    pub fn empty() -> (r: Self)
        ensures
            r == QueryStats::none(),
    {
        QueryStats { requests: 0, success: 0, failure: 0, start: None, end: None }
    }

    /// Merges these stats with the given stats of another query, e.g. to accumulate statistics
    /// from a multi-phase query.
    pub fn merge(self, other: QueryStats) -> (r: Self)
        ensures
            r == self.merged(other),
    {
        QueryStats {
            requests: self.requests.saturating_add(other.requests),
            success: self.success.saturating_add(other.success),
            failure: self.failure.saturating_add(other.failure),
            start: match (self.start, other.start) {
                (Some(a), Some(b)) => if a.nanos <= b.nanos {
                    Some(a)
                } else {
                    Some(b)
                },
                (Some(a), None) => Some(a),
                (None, b) => b,
            },
            end: match (self.end, other.end) {
                (Some(a), Some(b)) => if a.nanos <= b.nanos {
                    Some(b)
                } else {
                    Some(a)
                },
                (Some(a), None) => Some(a),
                (None, b) => b,
            },
        }
    }
}

/// The configuration of queries.
#[derive(Debug, Clone, Copy)]
pub struct QueryConfig {
    pub timeout: Duration,
    pub replication_factor: NonZeroUsize,
    pub parallelism: NonZeroUsize,
    pub disjoint_query_paths: bool,
}

impl Default for QueryConfig {
    fn default() -> (r: Self)
        ensures
            r.timeout@ == 60 * 1_000_000_000,
            r.replication_factor@ == K_VALUE,
            r.parallelism@ == ALPHA_VALUE,
            !r.disjoint_query_paths,
    {
        QueryConfig {
            timeout: Duration::from_secs(60),
            replication_factor: NonZeroUsize::new(K_VALUE).unwrap(),
            parallelism: NonZeroUsize::new(ALPHA_VALUE).unwrap(),
            disjoint_query_paths: false,
        }
    }
}

/// How a query chooses the peers that it contacts.
#[derive(Debug, Clone, Copy, PartialEq, Eq, Structural)]
pub enum QueryKind {
    /// The query moves towards the peers closest to a target, on the given number of disjoint
    /// paths.
    Closest { target: KeyBytes, paths: usize },
    /// The query contacts a fixed set of peers.
    Fixed,
}

/// What a [`QueryPeer`] says.
pub struct QueryPeerModel {
    pub key: PeerKeyView,
    pub succeeded: bool,
}

/// A peer in a query.
#[derive(Debug)]
pub struct QueryPeer {
    /// The peer.
    pub key: Key<PeerId>,
    /// Whether the peer has answered a request.
    pub succeeded: bool,
}

impl View for QueryPeer {
    type V = QueryPeerModel;

    open spec fn view(&self) -> QueryPeerModel {
        QueryPeerModel { key: self.key@, succeeded: self.succeeded }
    }
}

impl DeepView for QueryPeer {
    type V = QueryPeerModel;

    open spec fn deep_view(&self) -> QueryPeerModel {
        self@
    }
}

/// Peers that have not been contacted.
pub open spec fn fresh(ks: Seq<PeerKeyView>) -> Seq<QueryPeerModel> {
    Seq::new(ks.len(), |i: int| QueryPeerModel { key: ks[i], succeeded: false })
}

/// The position of the first peer that is at least as far from `target` as `d`, or the length if
/// there is none.
pub open spec fn slot(s: Seq<QueryPeerModel>, target: KeyBytes, d: nat) -> int
    decreases s.len(),
{
    if s.len() == 0 {
        0
    } else if target.to(s[0].key.point) >= d {
        0
    } else {
        1 + slot(s.skip(1), target, d)
    }
}

/// The peers of a query towards `target` with the candidate `id`, in the order of their distance.
/// A candidate that is known already changes nothing.
pub open spec fn with_candidate(s: Seq<QueryPeerModel>, target: KeyBytes, id: Seq<u8>) -> Seq<
    QueryPeerModel,
> {
    let key = PeerKeyView { id, point: hash_of(id) };
    let at = slot(s, target, target.to(key.point));
    if at < s.len() && s[at].key.point == key.point {
        s
    } else {
        s.insert(at, QueryPeerModel { key, succeeded: false })
    }
}

/// The peers of a query towards `target` with some candidates.
pub open spec fn with_candidates(
    s: Seq<QueryPeerModel>,
    target: KeyBytes,
    ids: Seq<Seq<u8>>,
) -> Seq<QueryPeerModel>
    decreases ids.len(),
{
    if ids.len() == 0 {
        s
    } else {
        with_candidate(with_candidates(s, target, ids.drop_last()), target, ids.last())
    }
}

/// The position of the peer `id`, or the length if it is not among the peers.
pub open spec fn peer_at(s: Seq<QueryPeerModel>, id: Seq<u8>) -> int
    decreases s.len(),
{
    if s.len() == 0 {
        0
    } else if s[0].key.id == id {
        0
    } else {
        1 + peer_at(s.skip(1), id)
    }
}

/// The identifiers of the peers that have answered.
pub open spec fn answered(s: Seq<QueryPeerModel>) -> Seq<Seq<u8>>
    decreases s.len(),
{
    if s.len() == 0 {
        Seq::empty()
    } else if s.last().succeeded {
        answered(s.drop_last()).push(s.last().key.id)
    } else {
        answered(s.drop_last())
    }
}

/// The first `n` of a sequence, or all of it if it is shorter.
pub open spec fn at_most<A>(s: Seq<A>, n: nat) -> Seq<A> {
    if n < s.len() {
        s.take(n as int)
    } else {
        s
    }
}

proof fn lemma_slot_found(s: Seq<QueryPeerModel>, target: KeyBytes, d: nat, i: int)
    requires
        0 <= i <= s.len(),
        forall|j: int| 0 <= j < i ==> target.to((#[trigger] s[j]).key.point) < d,
        i < s.len() ==> target.to(s[i].key.point) >= d,
    ensures
        slot(s, target, d) == i,
    decreases s.len(),
{
    if s.len() > 0 && i > 0 {
        assert(target.to(s[0].key.point) < d);
        assert forall|j: int| 0 <= j < i - 1 implies target.to(
            (#[trigger] s.skip(1)[j]).key.point,
        ) < d by {
            assert(s.skip(1)[j] == s[j + 1]);
        }
        lemma_slot_found(s.skip(1), target, d, i - 1);
    }
}

proof fn lemma_peer_at_found(s: Seq<QueryPeerModel>, id: Seq<u8>, i: int)
    requires
        0 <= i <= s.len(),
        forall|j: int| 0 <= j < i ==> (#[trigger] s[j]).key.id != id,
        i < s.len() ==> s[i].key.id == id,
    ensures
        peer_at(s, id) == i,
    decreases s.len(),
{
    if s.len() > 0 && i > 0 {
        assert(s[0].key.id != id);
        assert forall|j: int| 0 <= j < i - 1 implies (#[trigger] s.skip(1)[j]).key.id != id by {
            assert(s.skip(1)[j] == s[j + 1]);
        }
        lemma_peer_at_found(s.skip(1), id, i - 1);
    }
}

/// What a [`Query`] says.
#[verifier::ext_equal]
pub struct QueryModel {
    pub id: QueryId,
    pub kind: QueryKind,
    pub peers: Seq<QueryPeerModel>,
    pub num_results: nat,
    pub stats: QueryStats,
    pub finished: bool,
    pub info: QueryInfoView,
    pub addresses: AddressMap,
}

impl QueryModel {
    /// The query after `peer` has answered and reported the peers `closer`.
    ///
    /// An answer counts once, and only if the query is still running and has the peer among its
    /// own. The peers that were reported become candidates, unless the set of peers is fixed.
    pub open spec fn succeeded(self, peer: Seq<u8>, closer: Seq<Seq<u8>>) -> QueryModel {
        let at = peer_at(self.peers, peer);
        if self.finished || at >= self.peers.len() || self.peers[at].succeeded {
            self
        } else {
            let marked = self.peers.update(
                at,
                QueryPeerModel { succeeded: true, ..self.peers[at] },
            );
            QueryModel {
                peers: match self.kind {
                    QueryKind::Closest { target, .. } => with_candidates(marked, target, closer),
                    QueryKind::Fixed => marked,
                },
                stats: QueryStats { success: saturated(self.stats.success, 1), ..self.stats },
                ..self
            }
        }
    }

    /// The peers that the query has found: the first ones that have answered.
    pub open spec fn found(self) -> Seq<Seq<u8>> {
        at_most(answered(self.peers), self.num_results)
    }
}

/// The state of a query that is specific to its purpose.
pub struct QueryInner {
    /// The query-specific state.
    pub info: QueryInfo,
    /// Addresses of peers discovered during a query.
    pub addresses: AddressBook,
}

impl QueryInner {
    /// The state of a query that has not discovered anything.
    pub fn new(info: QueryInfo) -> (r: Self)
        ensures
            r.info == info,
            r.addresses@ == AddressMap::empty(),
    {
        QueryInner { info, addresses: AddressBook::new() }
    }
}

/// The outcome of a query.
pub struct QueryOutcome {
    /// The state that is specific to the purpose of the query.
    pub inner: QueryInner,
    /// The statistics of the query.
    pub stats: QueryStats,
    /// The peers that the query has found.
    pub peers: Vec<PeerId>,
    /// All peers that have answered.
    pub answered: Vec<PeerId>,
}

/// A query in a [`QueryPool`].
pub struct Query {
    id: QueryId,
    kind: QueryKind,
    peers: Vec<QueryPeer>,
    num_results: usize,
    stats: QueryStats,
    finished: bool,
    inner: QueryInner,
}

impl View for Query {
    type V = QueryModel;

    closed spec fn view(&self) -> QueryModel {
        QueryModel {
            id: self.id,
            kind: self.kind,
            peers: self.peers.deep_view(),
            num_results: self.num_results as nat,
            stats: self.stats,
            finished: self.finished,
            info: self.inner.info@,
            addresses: self.inner.addresses@,
        }
    }
}

impl DeepView for Query {
    type V = QueryModel;

    open spec fn deep_view(&self) -> QueryModel {
        self@
    }
}

/// Adds a candidate to the peers of a query towards `target`.
fn add_candidate(peers: &mut Vec<QueryPeer>, target: KeyBytes, id: PeerId)
    ensures
        final(peers).deep_view() == with_candidate(old(peers).deep_view(), target, id@),
{
    let ghost s = peers.deep_view();
    let key = Key::new(id);
    let p: KeyBytes = key.key_bytes();
    let d: Distance = target.distance(&p);
    let mut i: usize = 0;
    while i < peers.len() && target.distance(&peers[i].key.key_bytes()).less(&d)
        invariant
            i <= peers.len(),
            s == peers.deep_view(),
            d == target.xor(p),
            forall|j: int| 0 <= j < i ==> target.to((#[trigger] s[j]).key.point) < d@,
        decreases peers.len() - i,
    {
        assert(s[i as int] == peers[i as int]@);
        i = i + 1;
    }
    proof {
        if i < peers.len() {
            assert(s[i as int] == peers[i as int]@);
        }
        lemma_slot_found(s, target, d@, i as int);
    }
    if i < peers.len() && peers[i].key.key_bytes() == p {
        return ;
    }
    peers.insert(i, QueryPeer { key, succeeded: false });
    assert(peers.deep_view() =~= s.insert(
        i as int,
        QueryPeerModel { key: key@, succeeded: false },
    ));
}

impl Query {
    /// The state that is specific to the purpose of the query.
    pub closed spec fn inner_spec(self) -> QueryInner {
        self.inner
    }

    /// Gets the unique ID of the query.
    pub fn id(&self) -> (r: QueryId)
        ensures
            r == self@.id,
    {
        self.id
    }

    /// How the query chooses the peers that it contacts.
    pub fn kind(&self) -> (r: QueryKind)
        ensures
            r == self@.kind,
    {
        self.kind
    }

    /// Gets the current execution statistics of the query.
    pub fn stats(&self) -> (r: &QueryStats)
        ensures
            *r == self@.stats,
    {
        &self.stats
    }

    /// Gets information about the type and state of the query.
    pub fn info(&self) -> (r: &QueryInfo)
        ensures
            r@ == self@.info,
            *r == self.inner_spec().info,
    {
        &self.inner.info
    }

    /// The addresses that the query has discovered of a peer.
    pub fn addresses_of(&self, peer: &PeerId) -> (r: Option<Vec<Multiaddr>>)
        ensures
            r is Some <==> self@.addresses.contains_key(peer@),
            r matches Some(v) ==> v.deep_view() == self@.addresses[peer@],
    {
        self.inner.addresses.get(peer.as_bytes())
    }

    /// Checks whether the query has finished.
    pub fn is_finished(&self) -> (r: bool)
        ensures
            r == self@.finished,
    {
        self.finished
    }

    /// Finishes the query prematurely.
    pub fn finish(&mut self)
        ensures
            final(self)@ == (QueryModel { finished: true, ..old(self)@ }),
    {
        self.finished = true;
    }

    /// Notes the addresses of a peer that was discovered.
    pub fn note_addresses(&mut self, peer: &PeerId, addrs: Vec<Multiaddr>)
        ensures
            final(self)@ == (QueryModel {
                addresses: old(self)@.addresses.insert(peer@, addrs.deep_view()),
                ..old(self)@
            }),
    {
        let k: Vec<u8> = peer.as_bytes().clone();
        assert(k@ =~= peer@);
        self.inner.addresses.insert(k, addrs);
    }

    /// Informs the query that `peer` has answered a request and reported the peers `closer`.
    pub fn on_success(&mut self, peer: &PeerId, closer: Vec<PeerId>)
        ensures
            final(self)@ == old(self)@.succeeded(peer@, closer.deep_view()),
    {
        let ghost s = self.peers.deep_view();
        let mut i: usize = 0;
        while i < self.peers.len() && self.peers[i].key.preimage() != peer
            invariant
                i <= self.peers.len(),
                s == self.peers.deep_view(),
                forall|j: int| 0 <= j < i ==> (#[trigger] s[j]).key.id != peer@,
            decreases self.peers.len() - i,
        {
            i = i + 1;
        }
        proof {
            lemma_peer_at_found(s, peer@, i as int);
        }
        if self.finished || i >= self.peers.len() || self.peers[i].succeeded {
            return ;
        }
        self.peers[i].succeeded = true;
        assert(self.peers.deep_view() =~= s.update(
            i as int,
            QueryPeerModel { succeeded: true, ..s[i as int] },
        ));
        self.stats.success = self.stats.success.saturating_add(1);
        if let QueryKind::Closest { target, .. } = self.kind {
            let ghost marked = self.peers.deep_view();
            let ghost ids = closer.deep_view();
            let ghost q0 = self@;
            let n: usize = closer.len();
            let mut k: usize = 0;
            assert(ids.take(0) =~= Seq::empty());
            while k < n
                invariant
                    k <= n,
                    n == closer.len(),
                    ids == closer.deep_view(),
                    self@ == (QueryModel {
                        peers: with_candidates(marked, target, ids.take(k as int)),
                        ..q0
                    }),
                decreases n - k,
            {
                assert(ids[k as int] == closer[k as int]@);
                add_candidate(&mut self.peers, target, closer[k].clone());
                assert(ids.take(k + 1).drop_last() =~= ids.take(k as int));
                k = k + 1;
            }
            assert(ids.take(n as int) =~= ids);
        }
    }

    /// Consumes the query, producing its outcome.
    pub fn into_result(self) -> (r: QueryOutcome)
        ensures
            r.inner == self.inner_spec(),
            r.inner.info@ == self@.info,
            r.stats == self@.stats,
            r.peers.deep_view() == self@.found(),
            r.answered.deep_view() == answered(self@.peers),
    {
        let mut peers: Vec<PeerId> = Vec::new();
        let mut replied: Vec<PeerId> = Vec::new();
        let ghost s = self.peers.deep_view();
        let mut i: usize = 0;
        assert(s.take(0) =~= Seq::empty());
        assert(peers.deep_view() =~= Seq::empty());
        assert(replied.deep_view() =~= Seq::empty());
        while i < self.peers.len()
            invariant
                i <= self.peers.len(),
                s == self.peers.deep_view(),
                peers.deep_view() == at_most(answered(s.take(i as int)), self.num_results as nat),
                replied.deep_view() == answered(s.take(i as int)),
            decreases self.peers.len() - i,
        {
            let ghost before = peers.deep_view();
            let ghost a = answered(s.take(i as int));
            proof {
                assert(s.take(i + 1).drop_last() =~= s.take(i as int));
                assert(s[i as int] == self.peers[i as int]@);
            }
            if self.peers[i].succeeded {
                if peers.len() < self.num_results {
                    peers.push(self.peers[i].key.preimage().clone());
                    assert(peers.deep_view() =~= before.push(s[i as int].key.id));
                }
                replied.push(self.peers[i].key.preimage().clone());
                assert(replied.deep_view() =~= a.push(s[i as int].key.id));
            }
            proof {
                let b = answered(s.take(i + 1));
                assert(peers.deep_view() =~= at_most(b, self.num_results as nat));
            }
            i = i + 1;
        }
        assert(s.take(i as int) =~= s);
        QueryOutcome { inner: self.inner, stats: self.stats, peers, answered: replied }
    }
}

/// The position of the query `id`, or the length if there is none.
pub open spec fn query_at(s: Seq<QueryModel>, id: QueryId) -> int
    decreases s.len(),
{
    if s.len() == 0 {
        0
    } else if s[0].id == id {
        0
    } else {
        1 + query_at(s.skip(1), id)
    }
}

/// Whether there is a query `id`.
pub open spec fn query_present(s: Seq<QueryModel>, id: QueryId) -> bool {
    query_at(s, id) < s.len()
}

/// The queries `s` with `q`, in place of a query with the same id.
pub open spec fn with_query(s: Seq<QueryModel>, q: QueryModel) -> Seq<QueryModel> {
    if query_present(s, q.id) {
        s.update(query_at(s, q.id), q)
    } else {
        s.push(q)
    }
}

/// No two queries have the same id.
pub open spec fn distinct_ids(s: Seq<QueryModel>) -> bool {
    forall|i: int, j: int| #![trigger s[i], s[j]] 0 <= i < j < s.len() ==> s[i].id != s[j].id
}

/// The queries have the same ids, one by one.
pub open spec fn same_ids(s: Seq<QueryModel>, t: Seq<QueryModel>) -> bool {
    t.len() == s.len() && forall|i: int| 0 <= i < s.len() ==> (#[trigger] t[i]).id == s[i].id
}

/// What [`query_at`] finds.
pub proof fn lemma_query_at(s: Seq<QueryModel>, id: QueryId)
    ensures
        0 <= query_at(s, id) <= s.len(),
        forall|j: int| 0 <= j < query_at(s, id) ==> (#[trigger] s[j]).id != id,
        query_present(s, id) ==> s[query_at(s, id)].id == id,
        !query_present(s, id) ==> forall|j: int| 0 <= j < s.len() ==> (#[trigger] s[j]).id != id,
    decreases s.len(),
{
    if s.len() > 0 && s[0].id != id {
        let t = s.skip(1);
        lemma_query_at(t, id);
        assert forall|j: int| 0 <= j < query_at(s, id) implies (#[trigger] s[j]).id != id by {
            if j > 0 {
                assert(t[j - 1] == s[j]);
            }
        }
    }
}

proof fn lemma_query_at_found(s: Seq<QueryModel>, id: QueryId, i: int)
    requires
        0 <= i <= s.len(),
        forall|j: int| 0 <= j < i ==> (#[trigger] s[j]).id != id,
        i < s.len() ==> s[i].id == id,
    ensures
        query_at(s, id) == i,
    decreases s.len(),
{
    lemma_query_at(s, id);
    let k = query_at(s, id);
    if i < k {
        assert(s[i].id != id);
    } else if k < i {
        assert(s[k].id != id);
    }
}

/// What some queries say.
pub open spec fn models(s: Seq<Query>) -> Seq<QueryModel> {
    Seq::new(s.len(), |i: int| s[i]@)
}

/// The queries in `s` that are running.
pub open spec fn running(s: Seq<QueryModel>) -> Seq<QueryModel> {
    s.filter(|q: QueryModel| !q.finished)
}

/// The queries `s` after the running ones among them have become `changed`.
pub open spec fn with_running(s: Seq<QueryModel>, changed: Seq<QueryModel>) -> Seq<QueryModel>
    decreases s.len(),
{
    if s.len() == 0 {
        Seq::empty()
    } else if s.last().finished {
        with_running(s.drop_last(), changed).push(s.last())
    } else {
        with_running(s.drop_last(), changed.drop_last()).push(changed.last())
    }
}

/// What a [`QueryPool`] holds.
#[verifier::ext_equal]
pub struct PoolModel {
    pub next_id: usize,
    pub config: QueryConfig,
    pub queries: Seq<QueryModel>,
}

/// The identifier that follows `id`.
pub open spec fn id_after(id: usize) -> usize {
    if id == usize::MAX {
        0
    } else {
        (id + 1) as usize
    }
}

impl PoolModel {
    /// What holds of every pool.
    pub open spec fn wf(self) -> bool {
        distinct_ids(self.queries)
    }

    /// Whether the next identifier and those that follow it are not in use. This holds until the
    /// identifiers wrap around.
    pub open spec fn fresh(self) -> bool {
        forall|i: int| 0 <= i < self.queries.len() ==> (#[trigger] self.queries[i]).id.0
            < self.next_id
    }

    /// Whether the pool `next` still has fresh identifiers, if this one has and they do not wrap
    /// around.
    pub open spec fn keeps_fresh(self, next: PoolModel) -> bool {
        self.fresh() && self.next_id < usize::MAX ==> next.fresh()
    }

    /// Whether a query `id` is new in the pool `next`, if this one has fresh identifiers: the
    /// identifier was not in use, one query is added, and all others stay as they are.
    pub open spec fn opens(self, id: QueryId, next: PoolModel) -> bool {
        &&& self.keeps_fresh(next)
        &&& self.fresh() ==> {
            &&& self.get(id) is None
            &&& next.get(id) is Some
            &&& next.queries.len() == self.queries.len() + 1
            &&& forall|other: QueryId| other != id ==> #[trigger] next.get(other) == self.get(other)
        }
    }

    /// The number of disjoint paths that an iterative query uses.
    pub open spec fn paths(self) -> nat {
        if self.config.disjoint_query_paths {
            self.config.parallelism@
        } else {
            1
        }
    }

    /// A new query `id` for the peers closest to `target`, about `info`, that starts from `peers`.
    pub open spec fn closest_query(
        self,
        id: QueryId,
        target: KeyBytes,
        peers: Seq<PeerKeyView>,
        info: QueryInfoView,
    ) -> QueryModel {
        QueryModel {
            id,
            kind: QueryKind::Closest { target, paths: self.paths() as usize },
            peers: fresh(peers),
            num_results: self.config.replication_factor@,
            stats: QueryStats::none(),
            finished: false,
            info,
            addresses: AddressMap::empty(),
        }
    }

    /// A new query `id` of `peers`, about `info`.
    pub open spec fn fixed_query(
        self,
        id: QueryId,
        peers: Seq<PeerKeyView>,
        info: QueryInfoView,
    ) -> QueryModel {
        QueryModel {
            id,
            kind: QueryKind::Fixed,
            peers: fresh(peers),
            num_results: peers.len(),
            stats: QueryStats::none(),
            finished: false,
            info,
            addresses: AddressMap::empty(),
        }
    }

    /// The pool after the query `id` was set to look for the peers closest to `target`.
    pub open spec fn continued(
        self,
        id: QueryId,
        target: KeyBytes,
        peers: Seq<PeerKeyView>,
        info: QueryInfoView,
    ) -> PoolModel {
        PoolModel {
            queries: with_query(self.queries, self.closest_query(id, target, peers, info)),
            ..self
        }
    }

    /// The pool with a new query for the peers closest to `target`.
    pub open spec fn added(
        self,
        target: KeyBytes,
        peers: Seq<PeerKeyView>,
        info: QueryInfoView,
    ) -> PoolModel {
        PoolModel {
            next_id: id_after(self.next_id),
            ..self.continued(QueryId(self.next_id), target, peers, info)
        }
    }

    /// The pool with a new query of a fixed set of peers.
    pub open spec fn added_fixed(self, peers: Seq<PeerKeyView>, info: QueryInfoView) -> PoolModel {
        PoolModel {
            next_id: id_after(self.next_id),
            queries: with_query(
                self.queries,
                self.fixed_query(QueryId(self.next_id), peers, info),
            ),
            ..self
        }
    }

    /// The pool after the query `id` was replaced.
    pub open spec fn replaced(self, id: QueryId, q: QueryModel) -> PoolModel {
        PoolModel { queries: self.queries.update(query_at(self.queries, id), q), ..self }
    }

    /// The pool without the query `id`.
    pub open spec fn removed(self, id: QueryId) -> PoolModel {
        if query_present(self.queries, id) {
            PoolModel { queries: self.queries.remove(query_at(self.queries, id)), ..self }
        } else {
            self
        }
    }

    /// The query `id`, if it is in the pool.
    pub open spec fn get(self, id: QueryId) -> Option<QueryModel> {
        if query_present(self.queries, id) {
            Some(self.queries[query_at(self.queries, id)])
        } else {
            None
        }
    }
}

/// Putting a query into a pool keeps the ids distinct.
pub proof fn lemma_with_query(s: Seq<QueryModel>, q: QueryModel)
    requires
        distinct_ids(s),
    ensures
        distinct_ids(with_query(s, q)),
        query_present(with_query(s, q), q.id),
        with_query(s, q)[query_at(with_query(s, q), q.id)] == q,
{
    lemma_query_at(s, q.id);
    let t = with_query(s, q);
    let i = if query_present(s, q.id) { query_at(s, q.id) } else { s.len() as int };
    assert(t[i] == q);
    assert forall|j: int| 0 <= j < i implies (#[trigger] t[j]).id != q.id by {
        assert(t[j] == s[j]);
    }
    lemma_query_at_found(t, q.id, i);
    assert forall|a: int, b: int| #![trigger t[a], t[b]] 0 <= a < b < t.len() implies t[a].id
        != t[b].id by {
        if a != i {
            assert(t[a] == s[a]);
        }
        if b != i {
            assert(t[b] == s[b]);
        }
        if query_present(s, q.id) {
            assert(s[a].id != s[b].id);
        } else if b == i {
            assert(s[a].id != q.id);
        }
    }
}

/// A query that is put into a pool is found there, and every other query is found as before.
pub proof fn lemma_with_query_get(p: PoolModel, q: QueryModel, id: QueryId)
    requires
        p.wf(),
    ensures
        (PoolModel { queries: with_query(p.queries, q), ..p }).get(id) == if id == q.id {
            Some(q)
        } else {
            p.get(id)
        },
{
    let s = p.queries;
    let t = with_query(s, q);
    lemma_with_query(s, q);
    if id != q.id {
        lemma_query_at(s, q.id);
        lemma_query_at(s, id);
        let k = query_at(s, id);
        assert forall|j: int| 0 <= j < k implies (#[trigger] t[j]).id != id by {
            if query_present(s, q.id) && j == query_at(s, q.id) {
            } else {
                assert(t[j] == s[j]);
            }
        }
        if k < s.len() {
            assert(t[k] == s[k]);
            lemma_query_at_found(t, id, k);
        } else {
            assert forall|j: int| 0 <= j < t.len() implies (#[trigger] t[j]).id != id by {
                if t[j] != q {
                    assert(t[j] == s[j]);
                }
            }
            lemma_query_at_found(t, id, t.len() as int);
        }
    }
}

/// A query with the next identifier is new in a pool that has fresh identifiers.
pub proof fn lemma_opened(p: PoolModel, q: QueryModel)
    requires
        p.wf(),
        q.id.0 == p.next_id,
    ensures
        p.opens(
            q.id,
            PoolModel {
                next_id: id_after(p.next_id),
                queries: with_query(p.queries, q),
                ..p
            },
        ),
{
    let next = PoolModel {
        next_id: id_after(p.next_id),
        queries: with_query(p.queries, q),
        ..p
    };
    lemma_query_at(p.queries, q.id);
    lemma_with_query(p.queries, q);
    if p.fresh() {
        if query_present(p.queries, q.id) {
            assert(p.queries[query_at(p.queries, q.id)].id.0 < p.next_id);
        }
        assert(next.queries == p.queries.push(q));
        assert forall|other: QueryId| other != q.id implies #[trigger] next.get(other) == p.get(
            other,
        ) by {
            lemma_with_query_get(p, q, other);
        }
        assert forall|i: int| p.next_id < usize::MAX && 0 <= i < next.queries.len() implies (
        #[trigger] next.queries[i]).id.0 < next.next_id by {
            if i < p.queries.len() {
                assert(next.queries[i] == p.queries[i]);
            }
        }
    }
}

/// Going on with a query whose identifier was given out keeps the identifiers fresh.
pub proof fn lemma_continued_fresh(
    p: PoolModel,
    id: QueryId,
    target: KeyBytes,
    peers: Seq<PeerKeyView>,
    info: QueryInfoView,
)
    requires
        p.fresh(),
        id.0 < p.next_id,
    ensures
        p.continued(id, target, peers, info).fresh(),
{
    let s = p.queries;
    let q = p.closest_query(id, target, peers, info);
    let t = with_query(s, q);
    lemma_query_at(s, id);
    assert forall|i: int| 0 <= i < t.len() implies (#[trigger] t[i]).id.0 < p.next_id by {
        if t[i] != q {
            assert(t[i] == s[i]);
        }
    }
}

/// Changing a query that keeps its identifier finds it changed, and every other query as it was.
pub proof fn lemma_replaced_get(p: PoolModel, id: QueryId, q: QueryModel, other: QueryId)
    requires
        p.get(id) is Some,
        q.id == id,
    ensures
        p.replaced(id, q).get(other) == if other == id {
            Some(q)
        } else {
            p.get(other)
        },
        p.fresh() ==> p.replaced(id, q).fresh(),
{
    let s = p.queries;
    let t = p.replaced(id, q).queries;
    lemma_query_at(s, id);
    let at = query_at(s, id);
    assert(forall|i: int| 0 <= i < s.len() ==> (#[trigger] t[i]).id == s[i].id);
    lemma_query_at(s, other);
    let m = query_at(s, other);
    lemma_query_at_found(t, other, m);
}

/// Changing a query keeps the ids distinct as long as the query keeps its own.
pub proof fn lemma_replaced(p: PoolModel, id: QueryId, q: QueryModel)
    requires
        p.get(id) is Some,
        q.id == id,
    ensures
        p.replaced(id, q).get(id) == Some(q),
        p.wf() ==> p.replaced(id, q).wf(),
{
    let s = p.queries;
    let t = p.replaced(id, q).queries;
    lemma_query_at(s, id);
    lemma_query_at(t, id);
    let a = query_at(s, id);
    let b = query_at(t, id);
    assert(t[a] == q);
    if b < a {
        assert(t[b] == s[b]);
    }
    assert(forall|i: int| 0 <= i < s.len() ==> (#[trigger] t[i]).id == s[i].id);
}

/// Changing the running queries keeps the ids as long as each of them keeps its own.
pub proof fn lemma_with_running(s: Seq<QueryModel>, changed: Seq<QueryModel>)
    requires
        changed.len() == running(s).len(),
        forall|i: int| 0 <= i < changed.len() ==> (#[trigger] changed[i]).id == running(s)[i].id,
    ensures
        same_ids(s, with_running(s, changed)),
        distinct_ids(s) ==> distinct_ids(with_running(s, changed)),
    decreases s.len(),
{
    reveal(Seq::filter);
    let t = with_running(s, changed);
    if s.len() > 0 {
        let front = s.drop_last();
        if s.last().finished {
            lemma_with_running(front, changed);
        } else {
            let rest = changed.drop_last();
            assert(running(s).drop_last() =~= running(front));
            assert forall|i: int| 0 <= i < rest.len() implies (#[trigger] rest[i]).id == running(
                front,
            )[i].id by {
                assert(changed[i].id == running(s)[i].id);
            }
            lemma_with_running(front, rest);
        }
        assert forall|i: int| 0 <= i < s.len() implies (#[trigger] t[i]).id == s[i].id by {
            if i < front.len() {
                assert(front[i] == s[i]);
            }
        }
    }
    if distinct_ids(s) {
        assert forall|a: int, b: int| #![trigger t[a], t[b]] 0 <= a < b < t.len() implies t[a].id
            != t[b].id by {
            assert(s[a].id != s[b].id);
        }
    }
}

/// The queries that are in progress.
pub struct QueryPool {
    next_id: usize,
    config: QueryConfig,
    queries: Vec<Query>,
}

impl View for QueryPool {
    type V = PoolModel;

    closed spec fn view(&self) -> PoolModel {
        PoolModel {
            next_id: self.next_id,
            config: self.config,
            queries: self.queries.deep_view(),
        }
    }
}

/// Peers that have not been contacted.
fn fresh_peers(keys: Vec<Key<PeerId>>) -> (r: Vec<QueryPeer>)
    ensures
        r.deep_view() == fresh(keys.deep_view()),
{
    let ghost ks = keys.deep_view();
    let mut r: Vec<QueryPeer> = Vec::new();
    let mut i: usize = 0;
    while i < keys.len()
        invariant
            i <= keys.len(),
            ks == keys.deep_view(),
            r.len() == i,
            forall|j: int|
                0 <= j < i ==> (#[trigger] r[j])@ == (QueryPeerModel {
                    key: ks[j],
                    succeeded: false,
                }),
        decreases keys.len() - i,
    {
        assert(ks[i as int] == keys[i as int]@);
        r.push(QueryPeer { key: keys[i].clone(), succeeded: false });
        i = i + 1;
    }
    assert(r.deep_view() =~= fresh(ks));
    r
}

impl QueryPool {
    /// Creates a new, empty pool with the given configuration.
    pub fn new(config: QueryConfig) -> (r: Self)
        ensures
            r@ == (PoolModel { next_id: 0, config, queries: Seq::empty() }),
            r@.wf(),
    {
        let queries: Vec<Query> = Vec::new();
        assert(queries.deep_view() =~= Seq::empty());
        QueryPool { next_id: 0, config, queries }
    }

    /// Gets a reference to the config.
    pub fn config(&self) -> (r: &QueryConfig)
        ensures
            *r == self@.config,
    {
        &self.config
    }

    /// The number of queries in the pool.
    pub fn size(&self) -> (r: usize)
        ensures
            r == self@.queries.len(),
    {
        self.queries.len()
    }

    /// The query at a position in the pool.
    pub fn at(&self, i: usize) -> (r: &Query)
        requires
            i < self@.queries.len(),
        ensures
            r@ == self@.queries[i as int],
    {
        &self.queries[i]
    }

    /// All queries in the pool.
    pub fn as_mut_slice(&mut self) -> (r: &mut [Query])
        ensures
            models(r@) == old(self)@.queries,
            final(self)@ == (PoolModel { queries: models(final(r)@), ..old(self)@ }),
    {
        assert(models(self.queries@) =~= self.queries.deep_view());
        self.queries.as_mut_slice()
    }

    /// The position of the query `id`, or the number of queries if there is none.
    fn position(&self, id: QueryId) -> (r: usize)
        ensures
            r == query_at(self@.queries, id),
            r <= self.queries.len(),
    {
        let ghost s = self.queries.deep_view();
        let mut i: usize = 0;
        while i < self.queries.len() && self.queries[i].id != id
            invariant
                i <= self.queries.len(),
                s == self.queries.deep_view(),
                forall|j: int| 0 <= j < i ==> (#[trigger] s[j]).id != id,
            decreases self.queries.len() - i,
        {
            assert(s[i as int] == self.queries[i as int]@);
            i = i + 1;
        }
        proof {
            if i < self.queries.len() {
                assert(s[i as int] == self.queries[i as int]@);
            }
            lemma_query_at_found(s, id, i as int);
        }
        i
    }

    /// Puts a query into the pool, in place of a query with the same id.
    fn put(&mut self, q: Query)
        requires
            old(self)@.wf(),
        ensures
            final(self)@ == (PoolModel {
                queries: with_query(old(self)@.queries, q@),
                ..old(self)@
            }),
            final(self)@.wf(),
    {
        let ghost s = self.queries.deep_view();
        proof {
            lemma_with_query(s, q@);
        }
        let i: usize = self.position(q.id);
        if i < self.queries.len() {
            self.queries.set(i, q);
            assert(self.queries.deep_view() =~= s.update(i as int, q@));
        } else {
            self.queries.push(q);
            assert(self.queries.deep_view() =~= s.push(q@));
        }
    }

    /// The id of the next query.
    fn take_id(&mut self) -> (r: QueryId)
        ensures
            r.0 == old(self)@.next_id,
            final(self)@ == (PoolModel { next_id: id_after(old(self)@.next_id), ..old(self)@ }),
    {
        let id: usize = self.next_id;
        if id == usize::MAX {
            self.next_id = 0;
        } else {
            self.next_id = id + 1;
        }
        QueryId(id)
    }

    /// Continues an earlier query with a new search for the peers closest to `target`.
    pub fn continue_iter_closest(
        &mut self,
        id: QueryId,
        target: KeyBytes,
        peers: Vec<Key<PeerId>>,
        inner: QueryInner,
    )
        requires
            old(self)@.wf(),
            inner.addresses@ == AddressMap::empty(),
        ensures
            final(self)@ == old(self)@.continued(id, target, peers.deep_view(), inner.info@),
            id.0 < old(self)@.next_id ==> old(self)@.keeps_fresh(final(self)@),
            final(self)@.wf(),
    {
        proof {
            if self@.fresh() && id.0 < self@.next_id {
                lemma_continued_fresh(self@, id, target, peers.deep_view(), inner.info@);
            }
        }
        let paths: usize = if self.config.disjoint_query_paths {
            self.config.parallelism.get()
        } else {
            1
        };
        let q = Query {
            id,
            kind: QueryKind::Closest { target, paths },
            peers: fresh_peers(peers),
            num_results: self.config.replication_factor.get(),
            stats: QueryStats::empty(),
            finished: false,
            inner,
        };
        self.put(q);
    }

    /// Adds a query to the pool that iterates towards the closest peers to the target.
    pub fn add_iter_closest(
        &mut self,
        target: KeyBytes,
        peers: Vec<Key<PeerId>>,
        inner: QueryInner,
    ) -> (r: QueryId)
        requires
            old(self)@.wf(),
            inner.addresses@ == AddressMap::empty(),
        ensures
            r.0 == old(self)@.next_id,
            final(self)@ == old(self)@.added(target, peers.deep_view(), inner.info@),
            old(self)@.opens(r, final(self)@),
            final(self)@.wf(),
    {
        proof {
            let id = QueryId(self@.next_id);
            lemma_opened(
                self@,
                self@.closest_query(id, target, peers.deep_view(), inner.info@),
            );
        }
        let id: QueryId = self.take_id();
        self.continue_iter_closest(id, target, peers, inner);
        id
    }

    /// Adds a query to the pool that contacts a fixed set of peers.
    pub fn add_fixed(&mut self, peers: Vec<Key<PeerId>>, inner: QueryInner) -> (r: QueryId)
        requires
            old(self)@.wf(),
            inner.addresses@ == AddressMap::empty(),
        ensures
            r.0 == old(self)@.next_id,
            final(self)@ == old(self)@.added_fixed(peers.deep_view(), inner.info@),
            old(self)@.opens(r, final(self)@),
            final(self)@.wf(),
    {
        proof {
            let id = QueryId(self@.next_id);
            lemma_opened(self@, self@.fixed_query(id, peers.deep_view(), inner.info@));
        }
        let id: QueryId = self.take_id();
        let n: usize = peers.len();
        let q = Query {
            id,
            kind: QueryKind::Fixed,
            peers: fresh_peers(peers),
            num_results: n,
            stats: QueryStats::empty(),
            finished: false,
            inner,
        };
        self.put(q);
        id
    }

    /// Takes a query out of the pool.
    pub fn remove(&mut self, id: &QueryId) -> (r: Option<Query>)
        requires
            old(self)@.wf(),
        ensures
            r.deep_view() == old(self)@.get(*id),
            final(self)@ == old(self)@.removed(*id),
            old(self)@.keeps_fresh(final(self)@),
            final(self)@.wf(),
    {
        let i: usize = self.position(*id);
        if i < self.queries.len() {
            let ghost s = self.queries.deep_view();
            let q = self.queries.remove(i);
            proof {
                let t = self.queries.deep_view();
                assert(t =~= s.remove(i as int));
                assert forall|a: int, b: int| #![trigger t[a], t[b]] 0 <= a < b < t.len() implies t[a].id
                    != t[b].id by {
                    let a1 = if a < i { a } else { a + 1 };
                    let b1 = if b < i { b } else { b + 1 };
                    assert(t[a] == s[a1] && t[b] == s[b1]);
                }
                assert forall|a: int| old(self)@.fresh() && 0 <= a < t.len() implies (
                #[trigger] t[a]).id.0 < old(self)@.next_id by {
                    let a1 = if a < i { a } else { a + 1 };
                    assert(t[a] == s[a1]);
                }
            }
            Some(q)
        } else {
            None
        }
    }

    /// Returns a reference to a query with the given ID, if it is in the pool.
    pub fn get(&self, id: &QueryId) -> (r: Option<&Query>)
        ensures
            r is Some <==> self@.get(*id) is Some,
            r matches Some(q) ==> q@ == self@.get(*id)->0,
    {
        let i: usize = self.position(*id);
        if i < self.queries.len() {
            Some(&self.queries[i])
        } else {
            None
        }
    }

    /// Returns a mutable reference to a query with the given ID, if it is in the pool.
    pub fn get_mut(&mut self, id: &QueryId) -> (r: Option<&mut Query>)
        ensures
            r is Some <==> old(self)@.get(*id) is Some,
            r is None ==> final(self)@ == old(self)@,
            r matches Some(q) ==> {
                &&& q@ == old(self)@.get(*id)->0
                &&& final(self)@ == old(self)@.replaced(*id, final(q)@)
            },
    {
        let i: usize = self.position(*id);
        if i < self.queries.len() {
            let ghost s = self.queries.deep_view();
            let q = &mut self.queries[i];
            Some(q)
        } else {
            None
        }
    }
}

} // verus!
