//! What queries are about.
use crate::collections::PeerSet;
use crate::identity::{Multiaddr, PeerId};
use crate::kbucket::key::{Key, PeerKeyView};
use crate::num::NonZeroUsize;
use crate::protocol::{
    KadConnectionType, KadPeer, KadPeerView, KadRequestMsg, KadRequestView,
};
use crate::query::{QueryId, QueryStats};
use crate::record::{self, Record, RecordView};
use vstd::prelude::*;

verus! {

/// What a [`PeerRecord`] says.
pub struct PeerRecordView {
    pub peer: Option<Seq<u8>>,
    pub record: RecordView,
}

/// A record either received by the given peer or retrieved from the local record store.
#[derive(Debug, PartialEq, Eq)]
pub struct PeerRecord {
    /// The peer from whom the record was received. `None` if the record was retrieved from local
    /// storage.
    pub peer: Option<PeerId>,
    pub record: Record,
}

impl View for PeerRecord {
    type V = PeerRecordView;

    open spec fn view(&self) -> PeerRecordView {
        PeerRecordView { peer: self.peer.deep_view(), record: self.record@ }
    }
}

impl DeepView for PeerRecord {
    type V = PeerRecordView;

    open spec fn deep_view(&self) -> PeerRecordView {
        self@
    }
}

impl Clone for PeerRecord {
    fn clone(&self) -> (r: Self)
        ensures
            r@ == self@,
    {
        PeerRecord { peer: self.peer.clone(), record: self.record.clone() }
    }
}

/// The context of a [`QueryInfo::AddProvider`] query.
#[derive(Debug, Copy, Clone, PartialEq, Eq, Structural)]
pub enum AddProviderContext {
    Publish,
    Republish,
}

/// The context of a [`QueryInfo::PutRecord`] query.
#[derive(Debug, Copy, Clone, PartialEq, Eq, Structural)]
pub enum PutRecordContext {
    Publish,
    Republish,
    Replicate,
    Cache,
}

/// What a [`QueryInfo`] says.
#[allow(inconsistent_fields)]
pub enum QueryInfoView {
    Bootstrap { peer: Seq<u8>, remaining: Option<Seq<PeerKeyView>> },
    GetClosestPeers { key: Seq<u8> },
    GetProviders { key: Seq<u8>, providers: Set<Seq<u8>> },
    AddProvider {
        key: Seq<u8>,
        provider_id: Seq<u8>,
        external_addresses: Seq<Seq<u8>>,
        get_closest_peers_stats: QueryStats,
        context: AddProviderContext,
    },
    PutRecord { record: RecordView, quorum: nat, context: PutRecordContext },
    GetRecord {
        key: Seq<u8>,
        records: Seq<PeerRecordView>,
        quorum: nat,
        cache_at: Option<PeerKeyView>,
    },
}

/// Information about a running query.
#[allow(inconsistent_fields)]
#[derive(Debug)]
pub enum QueryInfo {
    /// A query that bootstraps the local node.
    Bootstrap {
        /// The targeted peer ID.
        peer: PeerId,
        /// The remaining random peer IDs to query, one per bucket that still needs refreshing.
        ///
        /// This is `None` if the initial self-lookup has not yet completed and `Some` with an
        /// empty list if bootstrapping is complete.
        remaining: Option<Vec<Key<PeerId>>>,
    },
    /// A lookup of the peers closest to a key.
    GetClosestPeers { key: Vec<u8> },
    /// A lookup of the providers for a key.
    GetProviders {
        /// The key for which to search for providers.
        key: record::Key,
        /// The found providers.
        providers: PeerSet,
    },
    /// A (repeated) query that announces a provider.
    AddProvider {
        /// The record key.
        key: record::Key,
        /// The local peer ID that is advertised as a provider.
        provider_id: PeerId,
        /// The external addresses of the provider being advertised.
        external_addresses: Vec<Multiaddr>,
        /// Query statistics from the finished `GetClosestPeers` phase.
        get_closest_peers_stats: QueryStats,
        /// The execution context of the query.
        context: AddProviderContext,
    },
    /// A (repeated) query that stores a record.
    PutRecord {
        record: Record,
        /// The expected quorum of responses w.r.t. the replication factor.
        quorum: NonZeroUsize,
        /// The execution context of the query.
        context: PutRecordContext,
    },
    /// A lookup of a record.
    GetRecord {
        /// The key to look for.
        key: record::Key,
        /// The records with the id of the peer that returned them. `None` when the record was
        /// found in the local store.
        records: Vec<PeerRecord>,
        /// The number of records to look for.
        quorum: NonZeroUsize,
        /// The closest peer to `key` that did not return a record.
        ///
        /// When a record is found in a standard Kademlia query (quorum == 1), it is cached at
        /// this peer as soon as a record is found.
        cache_at: Option<Key<PeerId>>,
    },
}

impl View for QueryInfo {
    type V = QueryInfoView;

    open spec fn view(&self) -> QueryInfoView {
        match self {
            QueryInfo::Bootstrap { peer, remaining } => QueryInfoView::Bootstrap {
                peer: peer@,
                remaining: remaining.deep_view(),
            },
            QueryInfo::GetClosestPeers { key } => QueryInfoView::GetClosestPeers { key: key@ },
            QueryInfo::GetProviders { key, providers } => QueryInfoView::GetProviders {
                key: key@,
                providers: providers@,
            },
            QueryInfo::AddProvider {
                key,
                provider_id,
                external_addresses,
                get_closest_peers_stats,
                context,
            } => QueryInfoView::AddProvider {
                key: key@,
                provider_id: provider_id@,
                external_addresses: external_addresses.deep_view(),
                get_closest_peers_stats: *get_closest_peers_stats,
                context: *context,
            },
            QueryInfo::PutRecord { record, quorum, context } => QueryInfoView::PutRecord {
                record: record@,
                quorum: quorum@,
                context: *context,
            },
            QueryInfo::GetRecord { key, records, quorum, cache_at } => QueryInfoView::GetRecord {
                key: key@,
                records: records.deep_view(),
                quorum: quorum@,
                cache_at: cache_at.deep_view(),
            },
        }
    }
}

impl Clone for QueryInfo {
    fn clone(&self) -> (r: Self)
        ensures
            r@ == self@,
    {
        match self {
            QueryInfo::Bootstrap { peer, remaining } => QueryInfo::Bootstrap {
                peer: peer.clone(),
                remaining: match remaining {
                    Some(keys) => {
                        let copy = keys.clone();
                        assert(copy.deep_view() =~= keys.deep_view());
                        Some(copy)
                    },
                    None => None,
                },
            },
            QueryInfo::GetClosestPeers { key } => {
                let key: Vec<u8> = key.clone();
                QueryInfo::GetClosestPeers { key }
            },
            QueryInfo::GetProviders { key, providers } => QueryInfo::GetProviders {
                key: key.clone(),
                providers: providers.clone(),
            },
            QueryInfo::AddProvider {
                key,
                provider_id,
                external_addresses,
                get_closest_peers_stats,
                context,
            } => {
                let addresses = external_addresses.clone();
                assert(addresses.deep_view() =~= external_addresses.deep_view());
                QueryInfo::AddProvider {
                    key: key.clone(),
                    provider_id: provider_id.clone(),
                    external_addresses: addresses,
                    get_closest_peers_stats: *get_closest_peers_stats,
                    context: *context,
                }
            },
            QueryInfo::PutRecord { record, quorum, context } => QueryInfo::PutRecord {
                record: record.clone(),
                quorum: *quorum,
                context: *context,
            },
            QueryInfo::GetRecord { key, records, quorum, cache_at } => {
                let copy = records.clone();
                assert(copy.deep_view() =~= records.deep_view());
                QueryInfo::GetRecord {
                    key: key.clone(),
                    records: copy,
                    quorum: *quorum,
                    cache_at: cache_at.clone(),
                }
            },
        }
    }
}

/// The request that a query about `info` sends to the peers that it contacts.
pub open spec fn request_of(info: QueryInfoView) -> KadRequestView {
    match info {
        QueryInfoView::Bootstrap { peer, .. } => KadRequestView::FindNode { key: peer },
        QueryInfoView::GetClosestPeers { key } => KadRequestView::FindNode { key },
        QueryInfoView::GetProviders { key, .. } => KadRequestView::GetProviders { key },
        QueryInfoView::AddProvider {
            key,
            provider_id,
            external_addresses,
            ..
        } => KadRequestView::AddProvider {
            key,
            provider: KadPeerView {
                node_id: provider_id,
                multiaddrs: external_addresses,
                connection_ty: KadConnectionType::Connected,
            },
        },
        QueryInfoView::GetRecord { key, .. } => KadRequestView::GetValue { key },
        QueryInfoView::PutRecord { record, .. } => KadRequestView::PutValue { record },
    }
}

impl QueryInfo {
    /// Creates the request that is sent to a peer in the context of a query.
    pub fn to_request(&self, _query_id: QueryId) -> (r: KadRequestMsg)
        ensures
            r@ == request_of(self@),
    {
        match self {
            QueryInfo::Bootstrap { peer, .. } => KadRequestMsg::FindNode {
                key: peer.clone().into_bytes(),
            },
            QueryInfo::GetClosestPeers { key } => {
                let key: Vec<u8> = key.clone();
                KadRequestMsg::FindNode { key }
            },
            QueryInfo::GetProviders { key, .. } => KadRequestMsg::GetProviders { key: key.clone() },
            QueryInfo::AddProvider { key, provider_id, external_addresses, .. } => {
                let multiaddrs = external_addresses.clone();
                assert(multiaddrs.deep_view() =~= external_addresses.deep_view());
                KadRequestMsg::AddProvider {
                    key: key.clone(),
                    provider: KadPeer {
                        node_id: provider_id.clone(),
                        multiaddrs,
                        connection_ty: KadConnectionType::Connected,
                    },
                }
            },
            QueryInfo::GetRecord { key, .. } => KadRequestMsg::GetValue { key: key.clone() },
            QueryInfo::PutRecord { record, .. } => KadRequestMsg::PutValue {
                record: record.clone(),
            },
        }
    }
}

/// The phases of a [`QueryInfo::AddProvider`] query.
#[derive(Debug)]
pub enum AddProviderPhase {
    /// The query is searching for the closest nodes to the record key.
    GetClosestPeers,
    /// The query advertises the local node as a provider for the key to the closest nodes to the
    /// key.
    AddProvider {
        /// The local peer ID that is advertised as a provider.
        provider_id: PeerId,
        /// The external addresses of the provider being advertised.
        external_addresses: Vec<Multiaddr>,
        /// Query statistics from the finished `GetClosestPeers` phase.
        get_closest_peers_stats: QueryStats,
    },
}

impl Clone for AddProviderPhase {
    fn clone(&self) -> (r: Self)
        ensures
            match *self {
                AddProviderPhase::GetClosestPeers => r is GetClosestPeers,
                AddProviderPhase::AddProvider {
                    provider_id,
                    external_addresses,
                    get_closest_peers_stats,
                } => r is AddProvider && r->provider_id@ == provider_id@
                    && r->external_addresses.deep_view() == external_addresses.deep_view()
                    && r->get_closest_peers_stats == get_closest_peers_stats,
            },
    {
        match self {
            AddProviderPhase::GetClosestPeers => AddProviderPhase::GetClosestPeers,
            AddProviderPhase::AddProvider {
                provider_id,
                external_addresses,
                get_closest_peers_stats,
            } => {
                let addresses = external_addresses.clone();
                assert(addresses.deep_view() =~= external_addresses.deep_view());
                AddProviderPhase::AddProvider {
                    provider_id: provider_id.clone(),
                    external_addresses: addresses,
                    get_closest_peers_stats: *get_closest_peers_stats,
                }
            },
        }
    }
}

/// The phases of a [`QueryInfo::PutRecord`] query.
#[derive(Debug, PartialEq, Eq)]
pub enum PutRecordPhase {
    /// The query is searching for the closest nodes to the record key.
    GetClosestPeers,
    /// The query is replicating the record to the closest nodes to the key.
    PutRecord {
        /// A list of peers the given record has been successfully replicated to.
        success: Vec<PeerId>,
        /// Query statistics from the finished `GetClosestPeers` phase.
        get_closest_peers_stats: QueryStats,
    },
}

impl Clone for PutRecordPhase {
    fn clone(&self) -> (r: Self)
        ensures
            match *self {
                PutRecordPhase::GetClosestPeers => r is GetClosestPeers,
                PutRecordPhase::PutRecord { success, get_closest_peers_stats } => r is PutRecord
                    && r->success.deep_view() == success.deep_view()
                    && r->get_closest_peers_stats == get_closest_peers_stats,
            },
    {
        match self {
            PutRecordPhase::GetClosestPeers => PutRecordPhase::GetClosestPeers,
            PutRecordPhase::PutRecord { success, get_closest_peers_stats } => {
                let copy = success.clone();
                assert(copy.deep_view() =~= success.deep_view());
                PutRecordPhase::PutRecord {
                    success: copy,
                    get_closest_peers_stats: *get_closest_peers_stats,
                }
            },
        }
    }
}

} // verus!
