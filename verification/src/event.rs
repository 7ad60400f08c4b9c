//! The events that the behaviour produces.
use crate::addresses::Addresses;
use crate::collections::PeerSet;
use crate::identity::{Multiaddr, PeerId};
use crate::info::{PeerRecord, PeerRecordView};
use crate::num::NonZeroUsize;
use crate::query::{QueryId, QueryStats};
use crate::record;
use vstd::prelude::*;

verus! {

/// The events produced by the Kademlia behaviour.
#[allow(inconsistent_fields)]
#[derive(Debug)]
pub enum KademliaEvent {
    /// A query has produced a result.
    QueryResult {
        /// The ID of the query that finished.
        id: QueryId,
        /// The result of the query.
        result: QueryResult,
        /// Execution statistics from the query.
        stats: QueryStats,
    },
    /// The routing table has been updated with a new peer and / or address, thereby possibly
    /// evicting another peer.
    RoutingUpdated {
        /// The ID of the peer that was added or updated.
        peer: PeerId,
        /// The full list of known addresses of `peer`.
        addresses: Addresses,
        /// The ID of the peer that was evicted from the routing table to make room for the new
        /// peer, if any.
        old_peer: Option<PeerId>,
    },
    /// A peer has connected for whom no listen address is known.
    UnroutablePeer { peer: PeerId },
    /// A connection to a peer has been established for whom a listen address is known but the
    /// peer has not been added to the routing table either because
    /// [`KademliaBucketInserts::Manual`](crate::config::KademliaBucketInserts::Manual) is
    /// configured or because the corresponding bucket is full.
    RoutablePeer { peer: PeerId, address: Multiaddr },
    /// A connection to a peer has been established for whom a listen address is known but the
    /// peer is only pending insertion into the routing table if the least-recently disconnected
    /// peer is unresponsive, i.e. the peer may not make it into the routing table.
    PendingRoutablePeer { peer: PeerId, address: Multiaddr },
}

/// What a [`KademliaEvent`] says.
#[allow(inconsistent_fields)]
pub enum KademliaEventView {
    QueryResult { id: QueryId, result: QueryResultView, stats: QueryStats },
    RoutingUpdated { peer: Seq<u8>, addresses: Seq<Seq<u8>>, old_peer: Option<Seq<u8>> },
    UnroutablePeer { peer: Seq<u8> },
    RoutablePeer { peer: Seq<u8>, address: Seq<u8> },
    PendingRoutablePeer { peer: Seq<u8>, address: Seq<u8> },
}

impl View for KademliaEvent {
    type V = KademliaEventView;

    open spec fn view(&self) -> KademliaEventView {
        match self {
            KademliaEvent::QueryResult { id, result, stats } => KademliaEventView::QueryResult {
                id: *id,
                result: result@,
                stats: *stats,
            },
            KademliaEvent::RoutingUpdated { peer, addresses, old_peer } => {
                KademliaEventView::RoutingUpdated {
                    peer: peer@,
                    addresses: addresses@,
                    old_peer: old_peer.deep_view(),
                }
            },
            KademliaEvent::UnroutablePeer { peer } => KademliaEventView::UnroutablePeer {
                peer: peer@,
            },
            KademliaEvent::RoutablePeer { peer, address } => KademliaEventView::RoutablePeer {
                peer: peer@,
                address: address@,
            },
            KademliaEvent::PendingRoutablePeer { peer, address } => {
                KademliaEventView::PendingRoutablePeer { peer: peer@, address: address@ }
            },
        }
    }
}

impl DeepView for KademliaEvent {
    type V = KademliaEventView;

    open spec fn deep_view(&self) -> KademliaEventView {
        self@
    }
}

/// The results of Kademlia queries.
#[derive(Debug)]
pub enum QueryResult {
    /// The result of bootstrapping.
    Bootstrap(BootstrapResult),
    /// The result of a lookup of closest peers.
    GetClosestPeers(GetClosestPeersResult),
    /// The result of a lookup of providers.
    GetProviders(GetProvidersResult),
    /// The result of the announcement of the local node as a provider.
    StartProviding(AddProviderResult),
    /// The result of a (automatic) republishing of a provider record.
    RepublishProvider(AddProviderResult),
    /// The result of a lookup of a record.
    GetRecord(GetRecordResult),
    /// The result of storing a record.
    PutRecord(PutRecordResult),
    /// The result of a (automatic) republishing of a (value-)record.
    RepublishRecord(PutRecordResult),
}

/// What a [`QueryResult`] says.
pub enum QueryResultView {
    Bootstrap(core::result::Result<BootstrapOkView, BootstrapErrorView>),
    GetClosestPeers(core::result::Result<GetClosestPeersOkView, GetClosestPeersErrorView>),
    GetProviders(core::result::Result<GetProvidersOkView, GetProvidersErrorView>),
    StartProviding(core::result::Result<AddProviderOkView, AddProviderErrorView>),
    RepublishProvider(core::result::Result<AddProviderOkView, AddProviderErrorView>),
    GetRecord(core::result::Result<GetRecordOkView, GetRecordErrorView>),
    PutRecord(core::result::Result<PutRecordOkView, PutRecordErrorView>),
    RepublishRecord(core::result::Result<PutRecordOkView, PutRecordErrorView>),
}

/// What a result says, where what its two sides say is known.
pub open spec fn result_view<T: View, E: View>(r: core::result::Result<T, E>) -> core::result::Result<
    T::V,
    E::V,
> {
    match r {
        Ok(t) => Ok(t@),
        Err(e) => Err(e@),
    }
}

impl View for QueryResult {
    type V = QueryResultView;

    open spec fn view(&self) -> QueryResultView {
        match self {
            QueryResult::Bootstrap(r) => QueryResultView::Bootstrap(result_view(*r)),
            QueryResult::GetClosestPeers(r) => QueryResultView::GetClosestPeers(result_view(*r)),
            QueryResult::GetProviders(r) => QueryResultView::GetProviders(result_view(*r)),
            QueryResult::StartProviding(r) => QueryResultView::StartProviding(result_view(*r)),
            QueryResult::RepublishProvider(r) => QueryResultView::RepublishProvider(
                result_view(*r),
            ),
            QueryResult::GetRecord(r) => QueryResultView::GetRecord(result_view(*r)),
            QueryResult::PutRecord(r) => QueryResultView::PutRecord(result_view(*r)),
            QueryResult::RepublishRecord(r) => QueryResultView::RepublishRecord(result_view(*r)),
        }
    }
}

/// The result of a lookup of a record.
pub type GetRecordResult = core::result::Result<GetRecordOk, GetRecordError>;

/// The successful result of a lookup of a record.
#[derive(Debug)]
pub struct GetRecordOk {
    pub records: Vec<PeerRecord>,
}

/// What a [`GetRecordOk`] says.
pub struct GetRecordOkView {
    pub records: Seq<PeerRecordView>,
}

impl View for GetRecordOk {
    type V = GetRecordOkView;

    open spec fn view(&self) -> GetRecordOkView {
        GetRecordOkView { records: self.records.deep_view() }
    }
}

impl Clone for GetRecordOk {
    fn clone(&self) -> (r: Self)
        ensures
            r@ == self@,
    {
        let records = self.records.clone();
        assert(records.deep_view() =~= self.records.deep_view());
        GetRecordOk { records }
    }
}

/// The error result of a lookup of a record.
#[allow(inconsistent_fields)]
#[derive(Debug)]
pub enum GetRecordError {
    NotFound { key: record::Key, closest_peers: Vec<PeerId> },
    QuorumFailed { key: record::Key, records: Vec<PeerRecord>, quorum: NonZeroUsize },
    Timeout { key: record::Key, records: Vec<PeerRecord>, quorum: NonZeroUsize },
}

/// What a [`GetRecordError`] says.
#[allow(inconsistent_fields)]
pub enum GetRecordErrorView {
    NotFound { key: Seq<u8>, closest_peers: Seq<Seq<u8>> },
    QuorumFailed { key: Seq<u8>, records: Seq<PeerRecordView>, quorum: nat },
    Timeout { key: Seq<u8>, records: Seq<PeerRecordView>, quorum: nat },
}

impl View for GetRecordError {
    type V = GetRecordErrorView;

    open spec fn view(&self) -> GetRecordErrorView {
        match self {
            GetRecordError::NotFound { key, closest_peers } => GetRecordErrorView::NotFound {
                key: key@,
                closest_peers: closest_peers.deep_view(),
            },
            GetRecordError::QuorumFailed { key, records, quorum } => {
                GetRecordErrorView::QuorumFailed {
                    key: key@,
                    records: records.deep_view(),
                    quorum: quorum@,
                }
            },
            GetRecordError::Timeout { key, records, quorum } => GetRecordErrorView::Timeout {
                key: key@,
                records: records.deep_view(),
                quorum: quorum@,
            },
        }
    }
}

impl Clone for GetRecordError {
    fn clone(&self) -> (r: Self)
        ensures
            r@ == self@,
    {
        match self {
            GetRecordError::NotFound { key, closest_peers } => {
                let peers = closest_peers.clone();
                assert(peers.deep_view() =~= closest_peers.deep_view());
                GetRecordError::NotFound { key: key.clone(), closest_peers: peers }
            },
            GetRecordError::QuorumFailed { key, records, quorum } => {
                let copy = records.clone();
                assert(copy.deep_view() =~= records.deep_view());
                GetRecordError::QuorumFailed { key: key.clone(), records: copy, quorum: *quorum }
            },
            GetRecordError::Timeout { key, records, quorum } => {
                let copy = records.clone();
                assert(copy.deep_view() =~= records.deep_view());
                GetRecordError::Timeout { key: key.clone(), records: copy, quorum: *quorum }
            },
        }
    }
}

impl GetRecordError {
    /// The key of the record for which the operation failed.
    pub open spec fn key_spec(self) -> record::Key {
        match self {
            GetRecordError::QuorumFailed { key, .. } => key,
            GetRecordError::Timeout { key, .. } => key,
            GetRecordError::NotFound { key, .. } => key,
        }
    }

    /// Gets the key of the record for which the operation failed.
    pub fn key(&self) -> (r: &record::Key)
        ensures
            *r == self.key_spec(),
    {
        match self {
            GetRecordError::QuorumFailed { key, .. } => key,
            GetRecordError::Timeout { key, .. } => key,
            GetRecordError::NotFound { key, .. } => key,
        }
    }

    /// Extracts the key of the record for which the operation failed, consuming the error.
    pub fn into_key(self) -> (r: record::Key)
        ensures
            r == self.key_spec(),
    {
        match self {
            GetRecordError::QuorumFailed { key, .. } => key,
            GetRecordError::Timeout { key, .. } => key,
            GetRecordError::NotFound { key, .. } => key,
        }
    }
}

/// The result of storing a record.
pub type PutRecordResult = core::result::Result<PutRecordOk, PutRecordError>;

/// The successful result of storing a record.
#[derive(Debug)]
pub struct PutRecordOk {
    pub key: record::Key,
}

/// What a [`PutRecordOk`] says.
pub struct PutRecordOkView {
    pub key: Seq<u8>,
}

impl View for PutRecordOk {
    type V = PutRecordOkView;

    open spec fn view(&self) -> PutRecordOkView {
        PutRecordOkView { key: self.key@ }
    }
}

impl Clone for PutRecordOk {
    fn clone(&self) -> (r: Self)
        ensures
            r@ == self@,
    {
        PutRecordOk { key: self.key.clone() }
    }
}

/// The error result of storing a record.
#[allow(inconsistent_fields)]
#[derive(Debug)]
pub enum PutRecordError {
    QuorumFailed {
        key: record::Key,
        /// [`PeerId`]s of the peers the record was successfully stored on.
        success: Vec<PeerId>,
        quorum: NonZeroUsize,
    },
    Timeout {
        key: record::Key,
        /// [`PeerId`]s of the peers the record was successfully stored on.
        success: Vec<PeerId>,
        quorum: NonZeroUsize,
    },
}

/// What a [`PutRecordError`] says.
#[allow(inconsistent_fields)]
pub enum PutRecordErrorView {
    QuorumFailed { key: Seq<u8>, success: Seq<Seq<u8>>, quorum: nat },
    Timeout { key: Seq<u8>, success: Seq<Seq<u8>>, quorum: nat },
}

impl View for PutRecordError {
    type V = PutRecordErrorView;

    open spec fn view(&self) -> PutRecordErrorView {
        match self {
            PutRecordError::QuorumFailed { key, success, quorum } => {
                PutRecordErrorView::QuorumFailed {
                    key: key@,
                    success: success.deep_view(),
                    quorum: quorum@,
                }
            },
            PutRecordError::Timeout { key, success, quorum } => PutRecordErrorView::Timeout {
                key: key@,
                success: success.deep_view(),
                quorum: quorum@,
            },
        }
    }
}

impl PutRecordError {
    /// The key of the record for which the operation failed.
    pub open spec fn key_spec(self) -> record::Key {
        match self {
            PutRecordError::QuorumFailed { key, .. } => key,
            PutRecordError::Timeout { key, .. } => key,
        }
    }

    /// Gets the key of the record for which the operation failed.
    pub fn key(&self) -> (r: &record::Key)
        ensures
            *r == self.key_spec(),
    {
        match self {
            PutRecordError::QuorumFailed { key, .. } => key,
            PutRecordError::Timeout { key, .. } => key,
        }
    }

    /// Extracts the key of the record for which the operation failed, consuming the error.
    pub fn into_key(self) -> (r: record::Key)
        ensures
            r == self.key_spec(),
    {
        match self {
            PutRecordError::QuorumFailed { key, .. } => key,
            PutRecordError::Timeout { key, .. } => key,
        }
    }
}

/// The result of bootstrapping.
pub type BootstrapResult = core::result::Result<BootstrapOk, BootstrapError>;

/// The successful result of bootstrapping.
#[derive(Debug)]
pub struct BootstrapOk {
    pub peer: PeerId,
    pub num_remaining: u32,
}

/// What a [`BootstrapOk`] says.
pub struct BootstrapOkView {
    pub peer: Seq<u8>,
    pub num_remaining: u32,
}

impl View for BootstrapOk {
    type V = BootstrapOkView;

    open spec fn view(&self) -> BootstrapOkView {
        BootstrapOkView { peer: self.peer@, num_remaining: self.num_remaining }
    }
}

impl Clone for BootstrapOk {
    fn clone(&self) -> (r: Self)
        ensures
            r@ == self@,
    {
        BootstrapOk { peer: self.peer.clone(), num_remaining: self.num_remaining }
    }
}

/// The error result of bootstrapping.
#[derive(Debug)]
pub enum BootstrapError {
    Timeout { peer: PeerId, num_remaining: Option<u32> },
}

/// What a [`BootstrapError`] says.
pub enum BootstrapErrorView {
    Timeout { peer: Seq<u8>, num_remaining: Option<u32> },
}

impl View for BootstrapError {
    type V = BootstrapErrorView;

    open spec fn view(&self) -> BootstrapErrorView {
        match self {
            BootstrapError::Timeout { peer, num_remaining } => BootstrapErrorView::Timeout {
                peer: peer@,
                num_remaining: *num_remaining,
            },
        }
    }
}

impl Clone for BootstrapError {
    fn clone(&self) -> (r: Self)
        ensures
            r@ == self@,
    {
        match self {
            BootstrapError::Timeout { peer, num_remaining } => BootstrapError::Timeout {
                peer: peer.clone(),
                num_remaining: *num_remaining,
            },
        }
    }
}

/// The result of a lookup of closest peers.
pub type GetClosestPeersResult = core::result::Result<GetClosestPeersOk, GetClosestPeersError>;

/// The successful result of a lookup of closest peers.
#[derive(Debug)]
pub struct GetClosestPeersOk {
    pub key: Vec<u8>,
    pub peers: Vec<PeerId>,
}

/// What a [`GetClosestPeersOk`] says.
pub struct GetClosestPeersOkView {
    pub key: Seq<u8>,
    pub peers: Seq<Seq<u8>>,
}

impl View for GetClosestPeersOk {
    type V = GetClosestPeersOkView;

    open spec fn view(&self) -> GetClosestPeersOkView {
        GetClosestPeersOkView { key: self.key@, peers: self.peers.deep_view() }
    }
}

impl Clone for GetClosestPeersOk {
    fn clone(&self) -> (r: Self)
        ensures
            r@ == self@,
    {
        let key: Vec<u8> = self.key.clone();
        let peers = self.peers.clone();
        assert(peers.deep_view() =~= self.peers.deep_view());
        GetClosestPeersOk { key, peers }
    }
}

/// The error result of a lookup of closest peers.
#[derive(Debug)]
pub enum GetClosestPeersError {
    Timeout { key: Vec<u8>, peers: Vec<PeerId> },
}

/// What a [`GetClosestPeersError`] says.
pub enum GetClosestPeersErrorView {
    Timeout { key: Seq<u8>, peers: Seq<Seq<u8>> },
}

impl View for GetClosestPeersError {
    type V = GetClosestPeersErrorView;

    open spec fn view(&self) -> GetClosestPeersErrorView {
        match self {
            GetClosestPeersError::Timeout { key, peers } => GetClosestPeersErrorView::Timeout {
                key: key@,
                peers: peers.deep_view(),
            },
        }
    }
}

impl Clone for GetClosestPeersError {
    fn clone(&self) -> (r: Self)
        ensures
            r@ == self@,
    {
        match self {
            GetClosestPeersError::Timeout { key, peers } => {
                let key: Vec<u8> = key.clone();
                let copy = peers.clone();
                assert(copy.deep_view() =~= peers.deep_view());
                GetClosestPeersError::Timeout { key, peers: copy }
            },
        }
    }
}

impl GetClosestPeersError {
    /// The key for which the operation failed.
    pub open spec fn key_spec(self) -> Vec<u8> {
        match self {
            GetClosestPeersError::Timeout { key, .. } => key,
        }
    }

    /// Gets the key for which the operation failed.
    pub fn key(&self) -> (r: &Vec<u8>)
        ensures
            *r == self.key_spec(),
    {
        match self {
            GetClosestPeersError::Timeout { key, .. } => key,
        }
    }

    /// Extracts the key for which the operation failed, consuming the error.
    pub fn into_key(self) -> (r: Vec<u8>)
        ensures
            r == self.key_spec(),
    {
        match self {
            GetClosestPeersError::Timeout { key, .. } => key,
        }
    }
}

/// The result of a lookup of providers.
pub type GetProvidersResult = core::result::Result<GetProvidersOk, GetProvidersError>;

/// The successful result of a lookup of providers.
#[derive(Debug)]
pub struct GetProvidersOk {
    pub key: record::Key,
    pub providers: PeerSet,
    pub closest_peers: Vec<PeerId>,
}

/// What a [`GetProvidersOk`] says.
pub struct GetProvidersOkView {
    pub key: Seq<u8>,
    pub providers: Set<Seq<u8>>,
    pub closest_peers: Seq<Seq<u8>>,
}

impl View for GetProvidersOk {
    type V = GetProvidersOkView;

    open spec fn view(&self) -> GetProvidersOkView {
        GetProvidersOkView {
            key: self.key@,
            providers: self.providers@,
            closest_peers: self.closest_peers.deep_view(),
        }
    }
}

impl Clone for GetProvidersOk {
    fn clone(&self) -> (r: Self)
        ensures
            r@ == self@,
    {
        let closest_peers = self.closest_peers.clone();
        assert(closest_peers.deep_view() =~= self.closest_peers.deep_view());
        GetProvidersOk { key: self.key.clone(), providers: self.providers.clone(), closest_peers }
    }
}

/// The error result of a lookup of providers.
#[derive(Debug)]
pub enum GetProvidersError {
    Timeout { key: record::Key, providers: PeerSet, closest_peers: Vec<PeerId> },
}

/// What a [`GetProvidersError`] says.
pub enum GetProvidersErrorView {
    Timeout { key: Seq<u8>, providers: Set<Seq<u8>>, closest_peers: Seq<Seq<u8>> },
}

impl View for GetProvidersError {
    type V = GetProvidersErrorView;

    open spec fn view(&self) -> GetProvidersErrorView {
        match self {
            GetProvidersError::Timeout { key, providers, closest_peers } => {
                GetProvidersErrorView::Timeout {
                    key: key@,
                    providers: providers@,
                    closest_peers: closest_peers.deep_view(),
                }
            },
        }
    }
}

impl Clone for GetProvidersError {
    fn clone(&self) -> (r: Self)
        ensures
            r@ == self@,
    {
        match self {
            GetProvidersError::Timeout { key, providers, closest_peers } => {
                let peers = closest_peers.clone();
                assert(peers.deep_view() =~= closest_peers.deep_view());
                GetProvidersError::Timeout {
                    key: key.clone(),
                    providers: providers.clone(),
                    closest_peers: peers,
                }
            },
        }
    }
}

impl GetProvidersError {
    /// The key for which the operation failed.
    pub open spec fn key_spec(self) -> record::Key {
        match self {
            GetProvidersError::Timeout { key, .. } => key,
        }
    }

    /// Gets the key for which the operation failed.
    pub fn key(&self) -> (r: &record::Key)
        ensures
            *r == self.key_spec(),
    {
        match self {
            GetProvidersError::Timeout { key, .. } => key,
        }
    }

    /// Extracts the key for which the operation failed, consuming the error.
    pub fn into_key(self) -> (r: record::Key)
        ensures
            r == self.key_spec(),
    {
        match self {
            GetProvidersError::Timeout { key, .. } => key,
        }
    }
}

/// The result of publishing a provider record.
pub type AddProviderResult = core::result::Result<AddProviderOk, AddProviderError>;

/// The successful result of publishing a provider record.
#[derive(Debug)]
pub struct AddProviderOk {
    pub key: record::Key,
}

/// What an [`AddProviderOk`] says.
pub struct AddProviderOkView {
    pub key: Seq<u8>,
}

impl View for AddProviderOk {
    type V = AddProviderOkView;

    open spec fn view(&self) -> AddProviderOkView {
        AddProviderOkView { key: self.key@ }
    }
}

impl Clone for AddProviderOk {
    fn clone(&self) -> (r: Self)
        ensures
            r@ == self@,
    {
        AddProviderOk { key: self.key.clone() }
    }
}

/// The possible errors when publishing a provider record.
#[derive(Debug)]
pub enum AddProviderError {
    /// The query timed out.
    Timeout { key: record::Key },
}

/// What an [`AddProviderError`] says.
pub enum AddProviderErrorView {
    Timeout { key: Seq<u8> },
}

impl View for AddProviderError {
    type V = AddProviderErrorView;

    open spec fn view(&self) -> AddProviderErrorView {
        match self {
            AddProviderError::Timeout { key } => AddProviderErrorView::Timeout { key: key@ },
        }
    }
}

impl AddProviderError {
    /// The key for which the operation failed.
    pub open spec fn key_spec(self) -> record::Key {
        match self {
            AddProviderError::Timeout { key } => key,
        }
    }

    /// Gets the key for which the operation failed.
    pub fn key(&self) -> (r: &record::Key)
        ensures
            *r == self.key_spec(),
    {
        match self {
            AddProviderError::Timeout { key } => key,
        }
    }

    /// Extracts the key for which the operation failed.
    pub fn into_key(self) -> (r: record::Key)
        ensures
            r == self.key_spec(),
    {
        match self {
            AddProviderError::Timeout { key } => key,
        }
    }
}

/// The possible outcomes of adding an address of a peer to the routing table.
#[derive(Debug, Clone, Copy, PartialEq, Eq, Structural)]
pub enum RoutingUpdate {
    /// The given peer and address has been added to the routing table.
    Success,
    /// The peer and address is pending insertion into the routing table, if a disconnected peer
    /// fails to respond.
    Pending,
    /// The routing table update failed, either because the corresponding bucket for the peer is
    /// full and the pending slot(s) are occupied, or because the given peer ID is deemed invalid
    /// (e.g. refers to the local peer ID).
    Failed,
}

/// The key that an error gives is the key that it says the operation was about.
pub proof fn lemma_error_keys(
    get: GetRecordError,
    put: PutRecordError,
    closest: GetClosestPeersError,
    providers: GetProvidersError,
    announced: AddProviderError,
)
    ensures
        match get@ {
            GetRecordErrorView::NotFound { key, .. } => get.key_spec()@ == key,
            GetRecordErrorView::QuorumFailed { key, .. } => get.key_spec()@ == key,
            GetRecordErrorView::Timeout { key, .. } => get.key_spec()@ == key,
        },
        match put@ {
            PutRecordErrorView::QuorumFailed { key, .. } => put.key_spec()@ == key,
            PutRecordErrorView::Timeout { key, .. } => put.key_spec()@ == key,
        },
        closest@ matches GetClosestPeersErrorView::Timeout { key, .. } && closest.key_spec()@ == key,
        providers@ matches GetProvidersErrorView::Timeout { key, .. } && providers.key_spec()@
            == key,
        announced@ matches AddProviderErrorView::Timeout { key } && announced.key_spec()@ == key,
{
}

} // verus!
