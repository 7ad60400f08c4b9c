//! The Kademlia DHT behaviour of a libp2p node.
pub mod addresses;
pub mod collections;
pub mod config;
pub mod control;
pub mod error;
pub mod event;
pub mod identity;
pub mod info;
pub mod jobs;
pub mod kad;
pub mod kbucket;
pub mod num;
pub mod protocol;
pub mod query;
pub mod record;
pub mod store;
pub mod time;

pub use crate::addresses::Addresses;
pub use crate::config::{KademliaBucketInserts, KademliaConfig, Quorum};
pub use crate::error::KadError;
pub use crate::event::{KademliaEvent, QueryResult};
pub use crate::identity::{Multiaddr, PeerId};
pub use crate::kad::Kademlia;
pub use crate::kbucket::K_VALUE;
pub use crate::record::{ProviderRecord, Record};
