//! The errors of the behaviour.
use crate::identity::PeerId;
use vstd::prelude::*;

verus! {

/// The ways in which an operation can fail.
#[derive(Debug)]
pub enum KadError {
    /// There are no known peers in the routing table.
    NoKnownPeers,
    /// A message was received from a peer that may not send it.
    InvalidSource(PeerId),
    /// A channel was closed.
    Closed(u32),
    /// The store is at capacity with respect to the number of records.
    MaxRecords,
    /// The store is at capacity with respect to the number of provider records.
    MaxProviderRecords,
    /// The store cannot hold a value of this size.
    ValueTooLarge,
}

/// What a [`KadError`] says.
pub enum KadErrorView {
    NoKnownPeers,
    InvalidSource(Seq<u8>),
    Closed(u32),
    MaxRecords,
    MaxProviderRecords,
    ValueTooLarge,
}

impl View for KadError {
    type V = KadErrorView;

    open spec fn view(&self) -> KadErrorView {
        match self {
            KadError::NoKnownPeers => KadErrorView::NoKnownPeers,
            KadError::InvalidSource(peer) => KadErrorView::InvalidSource(peer@),
            KadError::Closed(n) => KadErrorView::Closed(*n),
            KadError::MaxRecords => KadErrorView::MaxRecords,
            KadError::MaxProviderRecords => KadErrorView::MaxProviderRecords,
            KadError::ValueTooLarge => KadErrorView::ValueTooLarge,
        }
    }
}

/// The result of an operation that can fail.
pub type Result<T> = core::result::Result<T, KadError>;

/// An operation failed due to no known peers in the routing table.
#[derive(Debug)]
pub struct NoKnownPeers();

impl Clone for NoKnownPeers {
    fn clone(&self) -> (r: Self)
        ensures
            r == *self,
    {
        NoKnownPeers()
    }
}

impl NoKnownPeers {
    /// What is shown to a user.
    pub fn message(&self) -> (r: &'static str)
        ensures
            r@ == "No known peers."@,
    {
        "No known peers."
    }
}

} // verus!
