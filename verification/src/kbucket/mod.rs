//! The routing table.
pub mod bucket;
pub mod key;
pub mod table;
pub use bucket::{EntryView, InsertResult, K_VALUE, KBucket, Node, NodeStatus};
pub use key::{Distance, Key, KeyBytes};
pub use table::{Entry, KBucketRef, KBucketsTable, NUM_BUCKETS};
