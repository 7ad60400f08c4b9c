//! The commands by which the behaviour is controlled.
use crate::identity::PeerId;
use crate::record;
use vstd::prelude::*;

verus! {

/// A command to the behaviour.
#[derive(Debug)]
pub enum ControlCommand {
    /// Looks up the peers closest to a key.
    Lookup(Vec<u8>),
    /// Looks up a peer.
    FindPeer(PeerId),
    /// Looks up the providers of the value for a key.
    FindProviders(record::Key),
    /// Announces the local node as a provider of the value for a key.
    Providing(record::Key),
    /// Stores a value under a key.
    PutValue(record::Key),
    /// Looks up the value for a key.
    GetValue(record::Key),
}

/// The answer to a command.
#[derive(Debug, Clone, Copy, PartialEq, Eq, Structural)]
pub enum ControlReply {
    /// Nothing was found.
    Nothing,
    /// The command was carried out.
    Done,
}

} // verus!
