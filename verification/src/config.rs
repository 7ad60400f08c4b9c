//! The configuration of the behaviour.
use crate::kbucket::K_VALUE;
use crate::num::NonZeroUsize;
use crate::query::{ALPHA_VALUE, QueryConfig};
use crate::time::Duration;
use vstd::prelude::*;

verus! {

/// The configurable strategies for the insertion of peers and their addresses into the k-buckets
/// of the Kademlia routing table.
#[derive(Copy, Clone, Debug, PartialEq, Eq, Structural)]
pub enum KademliaBucketInserts {
    /// Whenever a connection to a peer is established and that peer is not yet in the routing
    /// table, it is inserted as long as there is a free slot in the corresponding k-bucket. If
    /// the k-bucket is full but still has a free pending slot, it may be inserted into the
    /// routing table at a later time if an unresponsive disconnected peer is evicted from the
    /// bucket.
    OnConnected,
    /// Peers are not added to the routing table when they connect.
    ///
    /// Routing table entries are still updated as peers connect and disconnect, that is, the
    /// order of the entries as well as the network addresses.
    Manual,
}

/// The configuration of the Kademlia behaviour.
#[derive(Debug, Clone, Copy)]
pub struct KademliaConfig {
    pub kbucket_pending_timeout: Duration,
    pub query_config: QueryConfig,
    pub record_ttl: Option<Duration>,
    pub record_replication_interval: Option<Duration>,
    pub record_publication_interval: Option<Duration>,
    pub provider_record_ttl: Option<Duration>,
    pub provider_publication_interval: Option<Duration>,
    pub connection_idle_timeout: Duration,
    pub kbucket_inserts: KademliaBucketInserts,
}

/// Whether a duration is given and is that of `secs` seconds.
pub open spec fn is_secs(d: Option<Duration>, secs: nat) -> bool {
    d matches Some(d) && d@ == secs * 1_000_000_000
}

impl KademliaConfig {
    /// Whether this is the default configuration.
    pub open spec fn is_default(self) -> bool {
        &&& self.kbucket_pending_timeout@ == 60 * 1_000_000_000
        &&& self.query_config.timeout@ == 60 * 1_000_000_000
        &&& self.query_config.replication_factor@ == K_VALUE
        &&& self.query_config.parallelism@ == ALPHA_VALUE
        &&& !self.query_config.disjoint_query_paths
        &&& is_secs(self.record_ttl, 36 * 60 * 60)
        &&& is_secs(self.record_replication_interval, 60 * 60)
        &&& is_secs(self.record_publication_interval, 24 * 60 * 60)
        &&& is_secs(self.provider_publication_interval, 12 * 60 * 60)
        &&& is_secs(self.provider_record_ttl, 24 * 60 * 60)
        &&& self.connection_idle_timeout@ == 10 * 1_000_000_000
        &&& self.kbucket_inserts == KademliaBucketInserts::OnConnected
    }
}

impl Default for KademliaConfig {
    fn default() -> (r: Self)
        ensures
            r.is_default(),
    {
        KademliaConfig {
            kbucket_pending_timeout: Duration::from_secs(60),
            query_config: QueryConfig::default(),
            record_ttl: Some(Duration::from_secs(36 * 60 * 60)),
            record_replication_interval: Some(Duration::from_secs(60 * 60)),
            record_publication_interval: Some(Duration::from_secs(24 * 60 * 60)),
            provider_publication_interval: Some(Duration::from_secs(12 * 60 * 60)),
            provider_record_ttl: Some(Duration::from_secs(24 * 60 * 60)),
            connection_idle_timeout: Duration::from_secs(10),
            kbucket_inserts: KademliaBucketInserts::OnConnected,
        }
    }
}

impl KademliaConfig {
    /// Sets the timeout for a single query.
    ///
    /// A single query usually comprises at least as many requests as the replication factor, so
    /// this is not a request timeout.
    ///
    /// The default is 60 seconds.
    pub fn set_query_timeout(&mut self, timeout: Duration) -> (r: &mut Self)
        ensures
            *r == (KademliaConfig {
                query_config: QueryConfig { timeout, ..old(self).query_config },
                ..*old(self)
            }),
            *final(self) == *final(r),
    {
        self.query_config.timeout = timeout;
        self
    }

    /// Sets the replication factor to use.
    ///
    /// The replication factor determines to how many closest peers a record is replicated. The
    /// default is [`K_VALUE`].
    pub fn set_replication_factor(&mut self, replication_factor: NonZeroUsize) -> (r: &mut Self)
        ensures
            *r == (KademliaConfig {
                query_config: QueryConfig { replication_factor, ..old(self).query_config },
                ..*old(self)
            }),
            *final(self) == *final(r),
    {
        self.query_config.replication_factor = replication_factor;
        self
    }

    /// Sets the allowed level of parallelism for iterative queries.
    ///
    /// The `alpha` parameter in the Kademlia paper. The maximum number of peers that an iterative
    /// query is allowed to wait for in parallel while iterating towards the closest nodes to a
    /// target. Defaults to `ALPHA_VALUE`.
    ///
    /// This only controls the level of parallelism of an iterative query, not the level of
    /// parallelism of a query to a fixed set of peers.
    ///
    /// When used with [`KademliaConfig::disjoint_query_paths`] it equals the amount of disjoint
    /// paths used.
    pub fn set_parallelism(&mut self, parallelism: NonZeroUsize) -> (r: &mut Self)
        ensures
            *r == (KademliaConfig {
                query_config: QueryConfig { parallelism, ..old(self).query_config },
                ..*old(self)
            }),
            *final(self) == *final(r),
    {
        self.query_config.parallelism = parallelism;
        self
    }

    /// Require iterative queries to use disjoint paths for increased resiliency in the presence
    /// of potentially adversarial nodes.
    ///
    /// When enabled the number of disjoint paths used equals the configured parallelism.
    ///
    /// See the S/Kademlia paper for more information on the high level design as well as its
    /// security improvements.
    pub fn disjoint_query_paths(&mut self, enabled: bool) -> (r: &mut Self)
        ensures
            *r == (KademliaConfig {
                query_config: QueryConfig {
                    disjoint_query_paths: enabled,
                    ..old(self).query_config
                },
                ..*old(self)
            }),
            *final(self) == *final(r),
    {
        self.query_config.disjoint_query_paths = enabled;
        self
    }

    /// Sets the TTL for stored records.
    ///
    /// The TTL should be significantly longer than the (re-)publication interval, to avoid
    /// premature expiration of records. The default is 36 hours.
    ///
    /// `None` means records never expire.
    ///
    /// Does not apply to provider records.
    pub fn set_record_ttl(&mut self, record_ttl: Option<Duration>) -> (r: &mut Self)
        ensures
            *r == (KademliaConfig { record_ttl, ..*old(self) }),
            *final(self) == *final(r),
    {
        self.record_ttl = record_ttl;
        self
    }

    /// Sets the (re-)replication interval for stored records.
    ///
    /// Periodic replication of stored records ensures that the records are always replicated to
    /// the available nodes closest to the key in the context of DHT topology changes (i.e. nodes
    /// joining and leaving), thus ensuring persistence until the record expires. Replication does
    /// not prolong the regular lifetime of a record (for otherwise it would live forever
    /// regardless of the configured TTL). The expiry of a record is only extended through
    /// re-publication.
    ///
    /// This interval should be significantly shorter than the publication interval, to ensure
    /// persistence between re-publications. The default is 1 hour.
    ///
    /// `None` means that stored records are never re-replicated.
    ///
    /// Does not apply to provider records.
    pub fn set_replication_interval(&mut self, interval: Option<Duration>) -> (r: &mut Self)
        ensures
            *r == (KademliaConfig { record_replication_interval: interval, ..*old(self) }),
            *final(self) == *final(r),
    {
        self.record_replication_interval = interval;
        self
    }

    /// Sets the (re-)publication interval of stored records.
    ///
    /// Records persist in the DHT until they expire. By default, published records are
    /// re-published in regular intervals for as long as the record exists in the local storage of
    /// the original publisher, thereby extending the records lifetime.
    ///
    /// This interval should be significantly shorter than the record TTL, to ensure records do
    /// not expire prematurely. The default is 24 hours.
    ///
    /// `None` means that stored records are never automatically re-published.
    ///
    /// Does not apply to provider records.
    pub fn set_publication_interval(&mut self, interval: Option<Duration>) -> (r: &mut Self)
        ensures
            *r == (KademliaConfig { record_publication_interval: interval, ..*old(self) }),
            *final(self) == *final(r),
    {
        self.record_publication_interval = interval;
        self
    }

    /// Sets the TTL for provider records.
    ///
    /// `None` means that stored provider records never expire.
    ///
    /// Must be significantly larger than the provider publication interval.
    pub fn set_provider_record_ttl(&mut self, ttl: Option<Duration>) -> (r: &mut Self)
        ensures
            *r == (KademliaConfig { provider_record_ttl: ttl, ..*old(self) }),
            *final(self) == *final(r),
    {
        self.provider_record_ttl = ttl;
        self
    }

    /// Sets the interval at which provider records for keys provided by the local node are
    /// re-published.
    ///
    /// `None` means that stored provider records are never automatically re-published.
    ///
    /// Must be significantly less than the provider record TTL.
    pub fn set_provider_publication_interval(&mut self, interval: Option<Duration>) -> (r:
        &mut Self)
        ensures
            *r == (KademliaConfig { provider_publication_interval: interval, ..*old(self) }),
            *final(self) == *final(r),
    {
        self.provider_publication_interval = interval;
        self
    }

    /// Sets the amount of time to keep connections alive when they're idle.
    pub fn set_connection_idle_timeout(&mut self, duration: Duration) -> (r: &mut Self)
        ensures
            *r == (KademliaConfig { connection_idle_timeout: duration, ..*old(self) }),
            *final(self) == *final(r),
    {
        self.connection_idle_timeout = duration;
        self
    }

    /// Sets the k-bucket insertion strategy for the Kademlia routing table.
    pub fn set_kbucket_inserts(&mut self, inserts: KademliaBucketInserts) -> (r: &mut Self)
        ensures
            *r == (KademliaConfig { kbucket_inserts: inserts, ..*old(self) }),
            *final(self) == *final(r),
    {
        self.kbucket_inserts = inserts;
        self
    }
}

/// A quorum w.r.t. the configured replication factor specifies the minimum number of distinct
/// nodes that must be successfully contacted in order for a query to succeed.
#[derive(Debug, Copy, Clone, PartialEq, Eq, Structural)]
pub enum Quorum {
    One,
    Majority,
    All,
    N(NonZeroUsize),
}

impl Quorum {
    /// The number of peers that the quorum asks for, out of a total.
    pub open spec fn of(self, total: nat) -> nat {
        match self {
            Quorum::One => 1,
            Quorum::Majority => total / 2 + 1,
            Quorum::All => total,
            Quorum::N(n) => if n@ < total {
                n@
            } else {
                total
            },
        }
    }

    /// Evaluate the quorum w.r.t a given total (number of peers).
    pub fn eval(&self, total: NonZeroUsize) -> (r: NonZeroUsize)
        ensures
            r@ == self.of(total@),
    {
        match self {
            Quorum::One => NonZeroUsize::one(),
            Quorum::Majority => NonZeroUsize::new(total.get() / 2 + 1).unwrap(),
            Quorum::All => total,
            Quorum::N(n) => if n.get() < total.get() {
                *n
            } else {
                total
            },
        }
    }
}

/// A quorum is at least one node and never more nodes than there are.
pub proof fn lemma_quorum_in_range(q: Quorum, total: nat)
    requires
        total > 0,
        q matches Quorum::N(n) ==> n@ > 0,
    ensures
        1 <= q.of(total) <= total,
{
}

/// By default a record is replicated more often than it is published, and is published again before
/// it expires. The same holds of provider records. The lifetime of a record is a day and a half, that
/// of a provider record a day.
pub proof fn lemma_default_intervals(c: KademliaConfig)
    requires
        c.is_default(),
    ensures
        c.record_replication_interval is Some,
        c.record_publication_interval is Some,
        c.record_ttl is Some,
        c.provider_publication_interval is Some,
        c.provider_record_ttl is Some,
        c.record_replication_interval->0@ < c.record_publication_interval->0@ < c.record_ttl->0@,
        c.provider_publication_interval->0@ < c.provider_record_ttl->0@,
        24 * c.record_replication_interval->0@ == c.record_publication_interval->0@,
        2 * c.record_ttl->0@ == 3 * c.record_publication_interval->0@,
        2 * c.provider_publication_interval->0@ == c.provider_record_ttl->0@,
        c.provider_record_ttl->0@ == 86_400_000_000_000,
        c.record_publication_interval->0@ == c.provider_record_ttl->0@,
        c.kbucket_pending_timeout@ == 60_000_000_000,
        c.query_config.timeout@ == 60_000_000_000,
        c.connection_idle_timeout@ == 10_000_000_000,
        c.query_config.replication_factor@ == 20,
        c.query_config.parallelism@ == 3,
        !c.query_config.disjoint_query_paths,
        c.kbucket_inserts == KademliaBucketInserts::OnConnected,
{
}

} // verus!
