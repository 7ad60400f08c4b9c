//! The messages that peers exchange, and the events that they cause.
use crate::identity::{Multiaddr, PeerId};
use crate::kbucket::bucket::{EntryModel, EntryView, NodeStatus};
use crate::record::{self, Record, RecordView};
use vstd::prelude::*;
use vstd::std_specs::convert::FromSpecImpl;

verus! {

/// The connection of a peer to the one that reports it.
#[derive(Debug, Clone, Copy, PartialEq, Eq, Structural)]
pub enum KadConnectionType {
    /// The sender has no connection to the peer.
    NotConnected,
    /// The sender is connected to the peer.
    Connected,
}

/// What a [`KadPeer`] says.
pub struct KadPeerView {
    pub node_id: Seq<u8>,
    pub multiaddrs: Seq<Seq<u8>>,
    pub connection_ty: KadConnectionType,
}

/// A peer, as reported by the node that sends the message.
#[derive(Debug, PartialEq, Eq)]
pub struct KadPeer {
    /// Identifier of the peer.
    pub node_id: PeerId,
    /// The multiaddresses that the sender thinks can be used in order to reach the peer.
    pub multiaddrs: Vec<Multiaddr>,
    /// How the sender is connected to that remote.
    pub connection_ty: KadConnectionType,
}

impl View for KadPeer {
    type V = KadPeerView;

    open spec fn view(&self) -> KadPeerView {
        KadPeerView {
            node_id: self.node_id@,
            multiaddrs: self.multiaddrs.deep_view(),
            connection_ty: self.connection_ty,
        }
    }
}

impl DeepView for KadPeer {
    type V = KadPeerView;

    open spec fn deep_view(&self) -> KadPeerView {
        self@
    }
}

impl Clone for KadPeer {
    fn clone(&self) -> (r: Self)
        ensures
            r@ == self@,
    {
        let multiaddrs = self.multiaddrs.clone();
        assert(multiaddrs.deep_view() =~= self.multiaddrs.deep_view());
        KadPeer {
            node_id: self.node_id.clone(),
            multiaddrs,
            connection_ty: self.connection_ty,
        }
    }
}

/// The connection type that is reported of a node with the given status.
pub open spec fn connection_of(status: NodeStatus) -> KadConnectionType {
    match status {
        NodeStatus::Connected => KadConnectionType::Connected,
        NodeStatus::Disconnected => KadConnectionType::NotConnected,
    }
}

/// What is reported of an entry of the routing table.
pub open spec fn reported(e: EntryModel) -> KadPeerView {
    KadPeerView {
        node_id: e.key.id,
        multiaddrs: e.addresses,
        connection_ty: connection_of(e.status),
    }
}

impl From<EntryView> for KadPeer {
    fn from(e: EntryView) -> (r: KadPeer)
        ensures
            r@ == reported(e@),
    {
        KadPeer {
            node_id: e.node.key.into_preimage(),
            multiaddrs: e.node.value.into_vec(),
            connection_ty: match e.status {
                NodeStatus::Connected => KadConnectionType::Connected,
                NodeStatus::Disconnected => KadConnectionType::NotConnected,
            },
        }
    }
}

impl FromSpecImpl<EntryView> for KadPeer {
    open spec fn obeys_from_spec() -> bool {
        true
    }

    open spec fn from_spec(e: EntryView) -> KadPeer {
        KadPeer {
            node_id: e.node.key.preimage_spec(),
            multiaddrs: e.node.value.vec_spec(),
            connection_ty: connection_of(e.status),
        }
    }
}

/// What a [`KadRequestMsg`] says.
pub enum KadRequestView {
    Ping,
    FindNode { key: Seq<u8> },
    GetProviders { key: Seq<u8> },
    AddProvider { key: Seq<u8>, provider: KadPeerView },
    GetValue { key: Seq<u8> },
    PutValue { record: RecordView },
}

/// Request that we can send to a peer or that we received from a peer.
#[allow(inconsistent_fields)]
#[derive(Debug)]
pub enum KadRequestMsg {
    /// Ping request.
    Ping,
    /// Request for the list of nodes whose IDs are the closest to `key`.
    FindNode {
        /// The key for which to locate the closest nodes.
        key: Vec<u8>,
    },
    /// Same as `FindNode`, but should also return the entries of the local providers list for
    /// this key.
    GetProviders {
        /// Identifier being searched.
        key: record::Key,
    },
    /// Indicates that this list of providers is known for this key.
    AddProvider {
        /// Key for which we should add providers.
        key: record::Key,
        /// Known provider for this key.
        provider: KadPeer,
    },
    /// Request to get a value from the dht records.
    GetValue {
        /// The key we are searching for.
        key: record::Key,
    },
    /// Request to put a value into the dht records.
    PutValue {
        /// The record to store.
        record: Record,
    },
}

impl View for KadRequestMsg {
    type V = KadRequestView;

    open spec fn view(&self) -> KadRequestView {
        match self {
            KadRequestMsg::Ping => KadRequestView::Ping,
            KadRequestMsg::FindNode { key } => KadRequestView::FindNode { key: key@ },
            KadRequestMsg::GetProviders { key } => KadRequestView::GetProviders { key: key@ },
            KadRequestMsg::AddProvider { key, provider } => KadRequestView::AddProvider {
                key: key@,
                provider: provider@,
            },
            KadRequestMsg::GetValue { key } => KadRequestView::GetValue { key: key@ },
            KadRequestMsg::PutValue { record } => KadRequestView::PutValue { record: record@ },
        }
    }
}

/// What a [`KadResponseMsg`] says.
pub enum KadResponseView {
    Pong,
    FindNode { closer_peers: Seq<KadPeerView> },
    GetProviders { closer_peers: Seq<KadPeerView>, provider_peers: Seq<KadPeerView> },
    GetValue { record: Option<RecordView>, closer_peers: Seq<KadPeerView> },
    PutValue { key: Seq<u8>, value: Seq<u8> },
}

/// Response that we can send to a peer or that we received from a peer.
#[derive(Debug)]
pub enum KadResponseMsg {
    /// Ping response.
    Pong,
    /// Response to a `FindNode`.
    FindNode {
        /// Results of the request.
        closer_peers: Vec<KadPeer>,
    },
    /// Response to a `GetProviders`.
    GetProviders {
        /// Nodes closest to the key.
        closer_peers: Vec<KadPeer>,
        /// Known providers for this key.
        provider_peers: Vec<KadPeer>,
    },
    /// Response to a `GetValue`.
    GetValue {
        /// Result that might have been found.
        record: Option<Record>,
        /// Nodes closest to the key.
        closer_peers: Vec<KadPeer>,
    },
    /// Response to a `PutValue`.
    PutValue {
        /// The key of the record.
        key: record::Key,
        /// Value of the record.
        value: Vec<u8>,
    },
}

impl View for KadResponseMsg {
    type V = KadResponseView;

    open spec fn view(&self) -> KadResponseView {
        match self {
            KadResponseMsg::Pong => KadResponseView::Pong,
            KadResponseMsg::FindNode { closer_peers } => KadResponseView::FindNode {
                closer_peers: closer_peers.deep_view(),
            },
            KadResponseMsg::GetProviders { closer_peers, provider_peers } => {
                KadResponseView::GetProviders {
                    closer_peers: closer_peers.deep_view(),
                    provider_peers: provider_peers.deep_view(),
                }
            },
            KadResponseMsg::GetValue { record, closer_peers } => KadResponseView::GetValue {
                record: record.deep_view(),
                closer_peers: closer_peers.deep_view(),
            },
            KadResponseMsg::PutValue { key, value } => KadResponseView::PutValue {
                key: key@,
                value: value@,
            },
        }
    }
}

impl DeepView for KadResponseMsg {
    type V = KadResponseView;

    open spec fn deep_view(&self) -> KadResponseView {
        self@
    }
}

/// An event that is reported to the behaviour.
#[derive(Debug)]
pub enum ProtocolEvent {
    /// A peer has connected.
    PeerConnected(PeerId),
    /// A peer has disconnected.
    PeerDisconnected(PeerId),
    /// A request of a peer, which waits for an answer.
    KadRequest {
        /// The request.
        request: KadRequestMsg,
        /// The peer that sent it.
        source: PeerId,
    },
    /// Any other event. It has no effect on the behaviour.
    Other,
}

} // verus!
