//! What the behaviour is at a point in time, and how it changes.
use crate::config::{KademliaBucketInserts, KademliaConfig, Quorum};
use crate::event::{
    AddProviderErrorView, AddProviderOkView, BootstrapErrorView, BootstrapOkView,
    GetClosestPeersErrorView, GetClosestPeersOkView, GetProvidersErrorView, GetProvidersOkView,
    GetRecordErrorView, GetRecordOkView, KademliaEventView, PutRecordErrorView, PutRecordOkView,
    QueryResultView,
};
use crate::info::{AddProviderContext, PeerRecordView, PutRecordContext, QueryInfoView};
use crate::jobs::PutRecordJobView;
use crate::kbucket::bucket::{BucketModel, EntryModel, NodeStatus};
use crate::kbucket::key::{KeyBytes, PeerKeyView, hash_of};
use crate::kbucket::table::{Entry, NUM_BUCKETS, TableModel};
use crate::protocol::{KadConnectionType, KadPeerView, reported};
use crate::query::{PoolModel, QueryId, QueryModel, QueryStats, answered, at_most};
use crate::record::{ProviderRecordView, RecordView};
use crate::store::StoreView;
use crate::time::{Duration, Instant, exp_decrease_spec, expiry_spec};
use vstd::prelude::*;

verus! {

/// What a [`Kademlia`](crate::kad::Kademlia) holds.
#[verifier::ext_equal]
pub struct KademliaView {
    /// The routing table.
    pub table: TableModel,
    /// The strategy for the insertion of peers into the routing table.
    pub inserts: KademliaBucketInserts,
    /// The queries.
    pub queries: PoolModel,
    /// The peers that are connected.
    pub connected: Set<Seq<u8>>,
    /// The interval of the job that publishes provider records, if there is one.
    pub add_provider_interval: Option<Duration>,
    /// The job that replicates and publishes records, if there is one.
    pub put_record_job: Option<PutRecordJobView>,
    /// The lifetime of records.
    pub record_ttl: Option<Duration>,
    /// The lifetime of provider records.
    pub provider_record_ttl: Option<Duration>,
    /// How long an idle connection is kept.
    pub connection_idle_timeout: Duration,
    /// The addresses of the local node.
    pub local_addrs: Seq<Seq<u8>>,
    /// The record store.
    pub store: StoreView,
}

/// The interval of the job for records, if there is one.
pub open spec fn job_interval(config: KademliaConfig) -> Option<Duration> {
    if config.record_replication_interval is Some {
        config.record_replication_interval
    } else {
        config.record_publication_interval
    }
}

/// The behaviour of the node `id` that has just been set up.
pub open spec fn initial(id: Seq<u8>, store: StoreView, config: KademliaConfig) -> KademliaView {
    KademliaView {
        table: TableModel {
            local: PeerKeyView { id, point: hash_of(id) },
            buckets: Seq::new(
                NUM_BUCKETS as nat,
                |i: int|
                    BucketModel {
                        nodes: Seq::empty(),
                        pending: None,
                        pending_timeout: config.kbucket_pending_timeout,
                    },
            ),
        },
        inserts: config.kbucket_inserts,
        queries: PoolModel {
            next_id: 0,
            config: config.query_config,
            queries: Seq::empty(),
        },
        connected: Set::empty(),
        add_provider_interval: config.provider_publication_interval,
        put_record_job: match job_interval(config) {
            Some(interval) => Some(
                PutRecordJobView {
                    local_id: id,
                    interval,
                    publish_interval: config.record_publication_interval,
                    record_ttl: config.record_ttl,
                    skipped: Set::empty(),
                },
            ),
            None => None,
        },
        record_ttl: config.record_ttl,
        provider_record_ttl: config.provider_record_ttl,
        connection_idle_timeout: config.connection_idle_timeout,
        local_addrs: Seq::empty(),
        store,
    }
}

/// Until when a record is kept that was received from a peer and names the expiration `expires`,
/// if it may be kept until `limit`.
pub open spec fn kept_until(expires: Option<Instant>, limit: Option<Instant>) -> Option<Instant> {
    match (expires, limit) {
        (None, None) => None,
        (Some(t), None) => Some(t),
        (None, Some(l)) => Some(l),
        (Some(t), Some(l)) => Some(t.earlier(l)),
    }
}

/// The addresses `m` of discovered peers after the peers `ps` were discovered.
pub open spec fn noted(m: Map<Seq<u8>, Seq<Seq<u8>>>, ps: Seq<KadPeerView>) -> Map<
    Seq<u8>,
    Seq<Seq<u8>>,
>
    decreases ps.len(),
{
    if ps.len() == 0 {
        m
    } else {
        noted(m, ps.drop_last()).insert(ps.last().node_id, ps.last().multiaddrs)
    }
}

/// The entries in `s` that are not of the peer `id`.
pub open spec fn without(s: Seq<EntryModel>, id: Seq<u8>) -> Seq<EntryModel> {
    s.filter(|e: EntryModel| e.key.id != id)
}

/// The identifiers of some peers.
pub open spec fn ids_of(ps: Seq<KadPeerView>) -> Seq<Seq<u8>> {
    ps.map_values(|p: KadPeerView| p.node_id)
}

/// The number of bootstrap lookups that are left once the first of `n` has been started.
pub open spec fn lookups_left(n: nat) -> u32 {
    if n == 0 {
        0
    } else {
        (n - 1) as u32
    }
}

/// The event that reports the result of a query.
pub open spec fn query_result(q: QueryModel, result: QueryResultView) -> Option<KademliaEventView> {
    Some(KademliaEventView::QueryResult { id: q.id, result, stats: q.stats })
}

/// The event that reports how the storing of a record has ended.
pub open spec fn put_record_event(
    q: QueryModel,
    context: PutRecordContext,
    result: core::result::Result<PutRecordOkView, PutRecordErrorView>,
) -> Option<KademliaEventView> {
    match context {
        PutRecordContext::Publish => query_result(q, QueryResultView::PutRecord(result)),
        PutRecordContext::Republish => query_result(q, QueryResultView::RepublishRecord(result)),
        PutRecordContext::Replicate => None,
        PutRecordContext::Cache => None,
    }
}

/// The event that reports how the announcement of a provider has ended.
pub open spec fn add_provider_event(
    q: QueryModel,
    context: AddProviderContext,
    result: core::result::Result<AddProviderOkView, AddProviderErrorView>,
) -> Option<KademliaEventView> {
    match context {
        AddProviderContext::Publish => query_result(q, QueryResultView::StartProviding(result)),
        AddProviderContext::Republish => query_result(
            q,
            QueryResultView::RepublishProvider(result),
        ),
    }
}

/// Whether one of the peers `ids` stands at `p`.
pub open spec fn stands_at(ids: Set<Seq<u8>>, p: KeyBytes) -> bool {
    exists|id: Seq<u8>| #[trigger] ids.contains(id) && hash_of(id) == p
}

impl KademliaView {
    /// What holds of the behaviour at any time, but perhaps for the peer that stands at `but`.
    pub open spec fn inv_but(self, but: Option<KeyBytes>) -> bool {
        &&& self.table.wf()
        &&& self.queries.wf()
        &&& self.local_addrs.no_duplicates()
        &&& forall|k: PeerKeyView| #[trigger]
            self.table.lists(k, NodeStatus::Connected) && but != Some(k.point)
                ==> stands_at(self.connected, k.point)
    }

    /// What holds of the behaviour at any time: the routing table and the queries are in order, no
    /// address of the local node occurs twice, and the peers that the routing table lists as connected are connected.
    pub open spec fn inv(self) -> bool {
        self.inv_but(None)
    }

    /// The configured replication factor.
    pub open spec fn k(self) -> nat {
        self.queries.config.replication_factor@
    }

    /// The behaviour with a new lookup of the peers closest to `t`.
    pub open spec fn looking_up(self, t: KeyBytes, info: QueryInfoView) -> KademliaView {
        KademliaView {
            queries: self.queries.added(t, self.table.closest_keys(t), info),
            ..self
        }
    }

    /// The record with the given key in the local store, unless it has expired at `now`.
    pub open spec fn live_record(self, key: Seq<u8>, now: Instant) -> Option<RecordView> {
        match self.store.get(key) {
            Some(r) => if r.expired(now) {
                None
            } else {
                Some(r)
            },
            None => None,
        }
    }

    /// Whether the record with the given key in the local store has expired at `now`.
    pub open spec fn outdated(self, key: Seq<u8>, now: Instant) -> bool {
        self.store.get(key) matches Some(r) && r.expired(now)
    }

    /// The behaviour after the record with the given key was dropped if it has expired at `now`.
    pub open spec fn expunged(self, key: Seq<u8>, now: Instant) -> KademliaView {
        match self.store.get(key) {
            Some(r) => if r.expired(now) {
                KademliaView { store: self.store.removed(key), ..self }
            } else {
                self
            },
            None => self,
        }
    }

    /// The records that a lookup of `key` starts with at `now`: the one in the local store, if
    /// there is one.
    pub open spec fn records_at_hand(self, key: Seq<u8>, now: Instant) -> Seq<PeerRecordView> {
        match self.live_record(key, now) {
            Some(record) => seq![PeerRecordView { peer: None, record }],
            None => Seq::empty(),
        }
    }

    /// The behaviour after the lookup of a record was started at `now`. The lookup is finished
    /// already if the record in the local store meets the quorum.
    pub open spec fn record_sought(
        self,
        key: Seq<u8>,
        quorum: Quorum,
        now: Instant,
    ) -> KademliaView {
        let records = self.records_at_hand(key, now);
        let quorum = quorum.of(self.k());
        let v = self.expunged(key, now).looking_up(
            hash_of(key),
            QueryInfoView::GetRecord { key, records, quorum, cache_at: None },
        );
        let id = QueryId(self.queries.next_id);
        if records.len() >= quorum {
            KademliaView {
                queries: v.queries.replaced(
                    id,
                    QueryModel { finished: true, ..v.queries.get(id)->0 },
                ),
                ..v
            }
        } else {
            v
        }
    }

    /// The record `r` as the local node publishes it.
    pub open spec fn own_record(self, r: RecordView) -> RecordView {
        RecordView { publisher: Some(self.table.local.id), ..r }
    }

    /// The record `r` with the configured lifetime from `now` on, if it names no expiration.
    pub open spec fn lasting(self, r: RecordView, now: Instant) -> RecordView {
        RecordView {
            expires: if r.expires is Some {
                r.expires
            } else {
                expiry_spec(now, self.record_ttl)
            },
            ..r
        }
    }

    /// The record `r` as it is sent to other peers by a local node that publishes it at `now`.
    pub open spec fn published_record(self, r: RecordView, now: Instant) -> RecordView {
        self.lasting(self.own_record(r), now)
    }

    /// The behaviour after the storing of a record was started.
    pub open spec fn putting(
        self,
        record: RecordView,
        quorum: Quorum,
        context: PutRecordContext,
    ) -> KademliaView {
        self.looking_up(
            hash_of(record.key),
            QueryInfoView::PutRecord { record, quorum: quorum.of(self.k()), context },
        )
    }

    /// The behaviour after the record `r` was stored locally and its publication was started at
    /// `now`.
    pub open spec fn record_put(
        self,
        r: RecordView,
        quorum: Quorum,
        now: Instant,
    ) -> KademliaView {
        KademliaView { store: self.store.stored(self.own_record(r)), ..self }.putting(
            self.published_record(r, now),
            quorum,
            PutRecordContext::Publish,
        )
    }

    /// The behaviour after a record that the local node has published was taken out of the local
    /// store.
    pub open spec fn record_removed(self, key: Seq<u8>) -> KademliaView {
        match self.store.get(key) {
            Some(r) => if r.publisher == Some(self.table.local.id) {
                KademliaView { store: self.store.removed(key), ..self }
            } else {
                self
            },
            None => self,
        }
    }

    /// The behaviour after the announcement of the local node as a provider was started.
    pub open spec fn announcing(self, key: Seq<u8>, context: AddProviderContext) -> KademliaView {
        self.looking_up(
            hash_of(key),
            QueryInfoView::AddProvider {
                key,
                provider_id: self.table.local.id,
                external_addresses: Seq::empty(),
                get_closest_peers_stats: QueryStats::none(),
                context,
            },
        )
    }

    /// The provider record that the local node stores for itself.
    pub open spec fn own_provider_record(self, key: Seq<u8>) -> ProviderRecordView {
        ProviderRecordView {
            key,
            provider: self.table.local.id,
            expires: None,
            addresses: Seq::empty(),
        }
    }

    /// The peers in `ps` other than the local node.
    pub open spec fn without_self(self, ps: Seq<KadPeerView>) -> Seq<KadPeerView> {
        ps.filter(|p: KadPeerView| p.node_id != self.table.local.id)
    }

    /// The query `q` after `source` has answered and reported the peers `ps`.
    pub open spec fn progressed(self, q: QueryModel, source: Seq<u8>, ps: Seq<KadPeerView>) -> QueryModel {
        let others = self.without_self(ps);
        QueryModel { addresses: noted(q.addresses, others), ..q }.succeeded(source, ids_of(others))
    }

    /// The behaviour after `source` has answered a request of the query `id` and reported the
    /// peers `ps`.
    pub open spec fn after_discovery(
        self,
        id: QueryId,
        source: Seq<u8>,
        ps: Seq<KadPeerView>,
    ) -> KademliaView {
        match self.queries.get(id) {
            Some(q) => KademliaView {
                queries: self.queries.replaced(id, self.progressed(q, source, ps)),
                ..self
            },
            None => self,
        }
    }

    /// The nodes in the routing table other than `source`, the closest to `target` first.
    pub open spec fn closest_but(self, target: KeyBytes, source: Seq<u8>) -> Seq<EntryModel> {
        without(self.table.closest(target), source)
    }

    /// The peers closest to `target` that are reported to `source`.
    pub open spec fn closer_peers(self, target: KeyBytes, source: Seq<u8>) -> Seq<KadPeerView> {
        if target == self.table.local.point {
            Seq::empty()
        } else {
            at_most(self.closest_but(target, source), self.k()).map_values(
                |e: EntryModel| reported(e),
            )
        }
    }

    /// The addresses that are reported of a provider.
    pub open spec fn provider_addresses(self, p: ProviderRecordView) -> Option<Seq<Seq<u8>>> {
        if p.addresses.len() > 0 {
            Some(p.addresses)
        } else if p.provider == self.table.local.id {
            Some(self.local_addrs)
        } else {
            match self.table.get(hash_of(p.provider)) {
                Some(e) => Some(e.addresses),
                None => None,
            }
        }
    }

    /// What is reported to `source` of a provider.
    pub open spec fn provider_report(self, source: Seq<u8>, p: ProviderRecordView) -> Option<
        KadPeerView,
    > {
        if p.provider == source {
            None
        } else {
            match self.provider_addresses(p) {
                Some(multiaddrs) => Some(
                    KadPeerView {
                        node_id: p.provider,
                        multiaddrs,
                        connection_ty: if self.connected.contains(p.provider) {
                            KadConnectionType::Connected
                        } else {
                            KadConnectionType::NotConnected
                        },
                    },
                ),
                None => None,
            }
        }
    }

    /// The providers of the value for `key` that are reported to `source`.
    pub open spec fn known_providers(self, key: Seq<u8>, source: Seq<u8>) -> Seq<KadPeerView> {
        at_most(
            (self.store.providers)(key).filter_map(
                |p: ProviderRecordView| self.provider_report(source, p),
            ),
            self.k(),
        )
    }

    /// The routing table after the connection to `peer` has changed at `now`.
    pub open spec fn table_after(
        self,
        peer: Seq<u8>,
        address: Option<Seq<u8>>,
        status: NodeStatus,
        now: Instant,
    ) -> TableModel {
        let p = hash_of(peer);
        let told = match address {
            Some(a) => self.table.learned(p, a),
            None => self.table,
        };
        match self.table.entry(p) {
            Entry::Present(st) => if st != status {
                told.updated(p, status)
            } else {
                told
            },
            Entry::Pending(st) => if st != status {
                told.updated(p, status)
            } else {
                told
            },
            Entry::Absent => match address {
                Some(a) => if status == NodeStatus::Connected && self.inserts
                    == KademliaBucketInserts::OnConnected {
                    self.table.inserted(
                        EntryModel {
                            key: PeerKeyView { id: peer, point: p },
                            addresses: seq![a],
                            status,
                        },
                        now,
                    )
                } else {
                    self.table
                },
                None => self.table,
            },
            Entry::SelfEntry => self.table,
        }
    }

    /// The behaviour after the connection to `peer` has changed at `now`.
    pub open spec fn connection_changed(
        self,
        peer: Seq<u8>,
        address: Option<Seq<u8>>,
        status: NodeStatus,
        now: Instant,
    ) -> KademliaView {
        KademliaView { table: self.table_after(peer, address, status, now), ..self }
    }

    /// The behaviour after a peer has connected.
    pub open spec fn peer_connected(self, peer: Seq<u8>) -> KademliaView {
        KademliaView { connected: self.connected.insert(peer), ..self }
    }

    /// The behaviour after a peer has disconnected.
    pub open spec fn peer_disconnected(self, peer: Seq<u8>) -> KademliaView {
        let p = hash_of(peer);
        KademliaView {
            connected: self.connected.remove(peer),
            table: match self.table.entry(p) {
                Entry::Present(NodeStatus::Connected) => self.table.updated(
                    p,
                    NodeStatus::Disconnected,
                ),
                Entry::Pending(NodeStatus::Connected) => self.table.updated(
                    p,
                    NodeStatus::Disconnected,
                ),
                _ => self.table,
            },
            ..self
        }
    }

    /// By how many nodes the local node is farther from `t` than the nodes that a record at `t` is
    /// replicated to.
    pub open spec fn beyond_k(self, t: KeyBytes) -> u32 {
        let between = self.table.nodes_between(t);
        if between <= self.k() {
            0
        } else {
            (between - self.k()) as u32
        }
    }

    /// Until when a record at `t` that is received at `now` may be kept.
    pub open spec fn keep_limit(self, t: KeyBytes, now: Instant) -> Option<Instant> {
        match self.record_ttl {
            Some(ttl) => Some(now.later_by(exp_decrease_spec(ttl@, self.beyond_k(t)))),
            None => None,
        }
    }

    /// The record `r` as the local node keeps it when a peer sends it at `now`.
    pub open spec fn kept_record(self, r: RecordView, now: Instant) -> RecordView {
        RecordView {
            expires: kept_until(r.expires, self.keep_limit(hash_of(r.key), now)),
            ..r
        }
    }

    /// The behaviour after the next run of the replication job was told to leave a record out.
    pub open spec fn skipping(self, key: Seq<u8>) -> KademliaView {
        KademliaView {
            put_record_job: match self.put_record_job {
                Some(job) => Some(
                    PutRecordJobView { skipped: job.skipped.insert(key), ..job },
                ),
                None => None,
            },
            ..self
        }
    }

    /// Whether the behaviour may be `next` after a peer has sent the record `r` at `now`, if
    /// `accepted` says whether the sender was told that the record was accepted.
    pub open spec fn record_taken(
        self,
        r: RecordView,
        now: Instant,
        accepted: bool,
        next: KademliaView,
    ) -> bool {
        let kept = self.kept_record(r, now);
        let skipping = self.skipping(r.key);
        if r.publisher == Some(self.table.local.id) {
            accepted && next == self
        } else if kept.expired(now) {
            accepted && next == skipping
        } else if accepted {
            next == KademliaView { store: self.store.stored(kept), ..skipping }
        } else {
            next == skipping
        }
    }

    /// The record that names `provider` as a provider for `key` since `now`.
    pub open spec fn provider_record(
        self,
        key: Seq<u8>,
        provider: KadPeerView,
        now: Instant,
    ) -> ProviderRecordView {
        ProviderRecordView {
            key,
            provider: provider.node_id,
            expires: expiry_spec(now, self.provider_record_ttl),
            addresses: provider.multiaddrs,
        }
    }

    /// Whether the behaviour may be `next` after `provider` has announced itself at `now`. The
    /// store may have no place for another provider record.
    pub open spec fn provider_taken(
        self,
        key: Seq<u8>,
        provider: KadPeerView,
        now: Instant,
        next: KademliaView,
    ) -> bool {
        &&& next == KademliaView { store: next.store, ..self }
        &&& next.store == self.store || (provider.node_id != self.table.local.id
            && self.store.provided(self.provider_record(key, provider, now), next.store))
    }

    /// The behaviour after the bootstrap query `id` went on with the first of the lookups in
    /// `remaining`.
    pub open spec fn bootstrapping(self, id: QueryId, remaining: Seq<PeerKeyView>) -> KademliaView {
        if remaining.len() == 0 {
            self
        } else {
            let target = remaining[0];
            KademliaView {
                queries: self.queries.continued(
                    id,
                    target.point,
                    self.table.closest_keys(target.point),
                    QueryInfoView::Bootstrap {
                        peer: target.id,
                        remaining: Some(remaining.skip(1)),
                    },
                ),
                ..self
            }
        }
    }

    /// The behaviour after a record was sent to a peer that did not have it.
    pub open spec fn caching(self, record: RecordView, at: Seq<u8>) -> KademliaView {
        KademliaView {
            queries: self.queries.added_fixed(
                seq![PeerKeyView { id: at, point: hash_of(at) }],
                QueryInfoView::PutRecord { record, quorum: 1, context: PutRecordContext::Cache },
            ),
            ..self
        }
    }

    /// The behaviour after the query `q` has finished. A bootstrap query whose first lookup has
    /// finished goes on with lookups of `targets`.
    pub open spec fn after_finish(self, q: QueryModel, targets: Seq<PeerKeyView>) -> KademliaView {
        match q.info {
            QueryInfoView::Bootstrap { remaining, .. } => self.bootstrapping(
                q.id,
                match remaining {
                    Some(r) => r,
                    None => targets,
                },
            ),
            QueryInfoView::GetRecord { records, quorum, cache_at, .. } => match cache_at {
                Some(at) => if records.len() >= quorum {
                    self.caching(records[0].record, at.id)
                } else {
                    self
                },
                None => self,
            },
            _ => self,
        }
    }

    /// The behaviour after the query `q` has timed out.
    pub open spec fn after_timeout(self, q: QueryModel) -> KademliaView {
        match q.info {
            QueryInfoView::Bootstrap { remaining: Some(remaining), .. } => self.bootstrapping(
                q.id,
                remaining,
            ),
            _ => self,
        }
    }
}

/// The event that reports that the query `q` has finished.
pub open spec fn finish_event(q: QueryModel, targets: Seq<PeerKeyView>) -> Option<
    KademliaEventView,
> {
    match q.info {
        QueryInfoView::Bootstrap { peer, remaining } => query_result(
            q,
            QueryResultView::Bootstrap(
                Ok(
                    BootstrapOkView {
                        peer,
                        num_remaining: lookups_left(
                            match remaining {
                                Some(r) => r.len(),
                                None => targets.len(),
                            },
                        ),
                    },
                ),
            ),
        ),
        QueryInfoView::GetClosestPeers { key } => query_result(
            q,
            QueryResultView::GetClosestPeers(
                Ok(GetClosestPeersOkView { key, peers: q.found() }),
            ),
        ),
        QueryInfoView::GetProviders { key, providers } => query_result(
            q,
            QueryResultView::GetProviders(
                Ok(GetProvidersOkView { key, providers, closest_peers: q.found() }),
            ),
        ),
        QueryInfoView::AddProvider { key, get_closest_peers_stats, context, .. } => {
            add_provider_event(
                QueryModel { stats: get_closest_peers_stats.merged(q.stats), ..q },
                context,
                Ok(AddProviderOkView { key }),
            )
        },
        QueryInfoView::GetRecord { key, records, quorum, .. } => query_result(
            q,
            QueryResultView::GetRecord(
                if records.len() >= quorum {
                    Ok(GetRecordOkView { records })
                } else if records.len() == 0 {
                    Err(GetRecordErrorView::NotFound { key, closest_peers: q.found() })
                } else {
                    Err(GetRecordErrorView::QuorumFailed { key, records, quorum })
                },
            ),
        ),
        QueryInfoView::PutRecord { record, quorum, context } => put_record_event(
            q,
            context,
            if answered(q.peers).len() >= quorum {
                Ok(PutRecordOkView { key: record.key })
            } else {
                Err(
                    PutRecordErrorView::QuorumFailed {
                        key: record.key,
                        success: answered(q.peers),
                        quorum,
                    },
                )
            },
        ),
    }
}

/// The event that reports that the query `q` has timed out.
pub open spec fn timeout_event(q: QueryModel) -> Option<KademliaEventView> {
    match q.info {
        QueryInfoView::Bootstrap { peer, remaining } => query_result(
            q,
            QueryResultView::Bootstrap(
                Err(
                    BootstrapErrorView::Timeout {
                        peer,
                        num_remaining: match remaining {
                            Some(r) => Some(lookups_left(r.len())),
                            None => None,
                        },
                    },
                ),
            ),
        ),
        QueryInfoView::AddProvider { key, context, .. } => add_provider_event(
            q,
            context,
            Err(AddProviderErrorView::Timeout { key }),
        ),
        QueryInfoView::GetClosestPeers { key } => query_result(
            q,
            QueryResultView::GetClosestPeers(
                Err(GetClosestPeersErrorView::Timeout { key, peers: q.found() }),
            ),
        ),
        QueryInfoView::PutRecord { record, quorum, context } => put_record_event(
            q,
            context,
            Err(
                PutRecordErrorView::Timeout {
                    key: record.key,
                    success: answered(q.peers),
                    quorum,
                },
            ),
        ),
        QueryInfoView::GetRecord { key, records, quorum, .. } => query_result(
            q,
            QueryResultView::GetRecord(Err(GetRecordErrorView::Timeout { key, records, quorum })),
        ),
        QueryInfoView::GetProviders { key, providers } => query_result(
            q,
            QueryResultView::GetProviders(
                Err(
                    GetProvidersErrorView::Timeout { key, providers, closest_peers: q.found() },
                ),
            ),
        ),
    }
}

} // verus!
