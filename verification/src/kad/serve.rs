//! How the behaviour responds to what happens around it.
use crate::addresses::Addresses;
use crate::config::KademliaBucketInserts;
use crate::control::{ControlCommand, ControlReply};
use crate::error::{KadError, KadErrorView, Result};
use crate::identity::{Multiaddr, PeerId};
use crate::info::QueryInfoView;
use crate::kad::Kademlia;
use crate::kad::model::{KademliaView, stands_at};
use crate::kbucket::bucket::{EntryModel, NodeStatus};
use crate::kbucket::key::{Key, KeyBytes, PeerKeyView, hash_of};
use crate::kbucket::table::{Entry, TableModel, lemma_found, lemma_listed};
use crate::protocol::{
    KadConnectionType, KadPeer, KadRequestMsg, KadRequestView, KadResponseMsg, KadResponseView,
    ProtocolEvent, reported,
};
use crate::query::at_most;
use crate::record::{self, ProviderRecord, ProviderRecordView, Record, RecordView};
use crate::store::RecordStore;
use crate::time::{Duration, Instant, exp_decrease, expiry};
use vstd::prelude::*;

verus! {

/// The answer to a request, as it is sent to the peer that made it.
pub type Answer = Result<Option<KadResponseMsg>>;

/// What an [`Answer`] says.
pub open spec fn answer_view(a: Answer) -> core::result::Result<
    Option<KadResponseView>,
    KadErrorView,
> {
    match a {
        Ok(r) => Ok(r.deep_view()),
        Err(e) => Err(e@),
    }
}

impl KademliaView {
    /// Whether a record that a peer sends at `now` is offered to the store.
    pub open spec fn offers_record(self, r: RecordView, now: Instant) -> bool {
        r.publisher != Some(self.table.local.id) && !self.kept_record(r, now).expired(now)
    }

    /// Whether the store is asked to change because of a request of `source` at `now`.
    pub open spec fn asks_store(
        self,
        request: KadRequestView,
        source: Seq<u8>,
        now: Instant,
    ) -> bool {
        match request {
            KadRequestView::PutValue { record } => self.offers_record(record, now),
            KadRequestView::AddProvider { provider, .. } => provider.node_id == source && source
                != self.table.local.id,
            KadRequestView::GetValue { key } => self.outdated(key, now),
            _ => false,
        }
    }

    /// Whether a request of `source` may be answered with `answer` at `now` and leave the
    /// behaviour as `next`.
    pub open spec fn serves(
        self,
        request: KadRequestView,
        source: Seq<u8>,
        now: Instant,
        answer: core::result::Result<Option<KadResponseView>, KadErrorView>,
        next: KademliaView,
    ) -> bool {
        match request {
            KadRequestView::Ping => answer == Ok::<_, KadErrorView>(Some(KadResponseView::Pong))
                && next == self,
            KadRequestView::FindNode { key } => answer == Ok::<_, KadErrorView>(
                Some(
                    KadResponseView::FindNode {
                        closer_peers: self.closer_peers(hash_of(key), source),
                    },
                ),
            ) && next == self,
            KadRequestView::AddProvider { key, provider } => if provider.node_id != source {
                answer == Err::<Option<KadResponseView>, _>(KadErrorView::InvalidSource(source))
                    && next == self
            } else {
                answer == Ok::<_, KadErrorView>(None::<KadResponseView>) && self.provider_taken(
                    key,
                    provider,
                    now,
                    next,
                )
            },
            KadRequestView::GetProviders { key } => answer == Ok::<_, KadErrorView>(
                Some(
                    KadResponseView::GetProviders {
                        closer_peers: self.closer_peers(hash_of(key), source),
                        provider_peers: self.known_providers(key, source),
                    },
                ),
            ) && next == self,
            KadRequestView::GetValue { key } => answer == Ok::<_, KadErrorView>(
                Some(
                    KadResponseView::GetValue {
                        record: self.live_record(key, now),
                        closer_peers: self.closer_peers(hash_of(key), source),
                    },
                ),
            ) && next == self.expunged(key, now),
            KadRequestView::PutValue { record } => match answer {
                Ok(response) => response == Some(
                    KadResponseView::PutValue { key: record.key, value: record.value },
                ) && self.record_taken(record, now, true, next),
                Err(_) => self.record_taken(record, now, false, next),
            },
        }
    }
}

/// Whether the peer `k` is in the table or pending.
pub open spec fn known(t: TableModel, k: PeerKeyView) -> bool {
    exists|st: NodeStatus| #[trigger] t.lists(k, st)
}

/// The answer to a peer whose record was handed to the store, which told whether it has stored it.
pub fn put_answer(outcome: Result<()>, record: Record) -> (r: Result<KadResponseMsg>)
    ensures
        outcome is Ok ==> (r matches Ok(m) && m@ == (KadResponseView::PutValue {
            key: record@.key,
            value: record@.value,
        })),
        outcome matches Err(e) ==> r == Err::<KadResponseMsg, _>(e),
{
    match outcome {
        Ok(()) => Ok(KadResponseMsg::PutValue { key: record.key, value: record.value }),
        Err(e) => Err(e),
    }
}

impl<TStore: RecordStore> Kademlia<TStore> {
    /// Whether what a peer has sent at `now` is stored, unless the store is one that may refuse it:
    /// a peer whose record is refused is told an error with which the store may refuse the record,
    /// and a peer that announces itself is stored as a provider unless the store may refuse that.
    pub open spec fn only_store_refuses(
        &self,
        request: KadRequestView,
        now: Instant,
        answer: core::result::Result<Option<KadResponseView>, KadErrorView>,
        next: KademliaView,
    ) -> bool {
        match request {
            KadRequestView::PutValue { record } => answer matches Err(e)
                ==> self.store_spec().refuses_record(self@.kept_record(record, now), e),
            KadRequestView::AddProvider { key, provider } => answer is Ok && provider.node_id
                != self@.table.local.id ==> {
                let record = self@.provider_record(key, provider, now);
                self@.store.provided(record, next.store) || (next == self@
                    && exists|e: KadErrorView| #[trigger]
                    self.store_spec().refuses_provider(record, e))
            },
            _ => true,
        }
    }

    /// Finds the closest peers to a `target` in the context of a request by the `source` peer,
    /// such that the `source` peer is never included in the result.
    pub fn find_closest<T>(&self, target: &Key<T>, source: &PeerId) -> (r: Vec<KadPeer>)
        requires
            self@.inv(),
        ensures
            r.deep_view() == self@.closer_peers(target.point(), source@),
    {
        let t: KeyBytes = target.key_bytes();
        let mut r: Vec<KadPeer> = Vec::new();
        assert(r.deep_view() =~= Seq::empty());
        if t == self.kbuckets.local_key().key_bytes() {
            return r;
        }
        let entries = self.kbuckets.closest(t);
        let k: usize = self.queries.config().replication_factor.get();
        let ghost s = entries.deep_view();
        let ghost pred = |e: EntryModel| e.key.id != source@;
        let ghost tell = |e: EntryModel| reported(e);
        let mut i: usize = 0;
        proof {
            reveal(Seq::filter);
            assert(r.deep_view() =~= at_most(s.take(0).filter(pred), k as nat).map_values(tell));
        }
        while i < entries.len()
            invariant
                i <= entries.len(),
                s == entries.deep_view(),
                pred == (|e: EntryModel| e.key.id != source@),
                tell == (|e: EntryModel| reported(e)),
                r.deep_view() == at_most(s.take(i as int).filter(pred), k as nat).map_values(tell),
            decreases entries.len() - i,
        {
            let ghost before = s.take(i as int).filter(pred);
            let ghost r0 = r.deep_view();
            proof {
                assert(s[i as int] == entries[i as int]@);
                assert(s.take(i + 1).drop_last() =~= s.take(i as int));
                reveal(Seq::filter);
            }
            if entries[i].node.key.preimage() != source && r.len() < k {
                let p = KadPeer::from(entries[i].clone());
                r.push(p);
                assert(r.deep_view() =~= r0.push(reported(s[i as int])));
            }
            assert(r.deep_view() =~= at_most(s.take(i + 1).filter(pred), k as nat).map_values(tell));
            i = i + 1;
        }
        assert(s.take(i as int) =~= s);
        r
    }

    /// What is reported to `source` of a provider.
    fn report_provider(&self, source: &PeerId, p: ProviderRecord) -> (r: Option<KadPeer>)
        requires
            self@.inv(),
        ensures
            r.deep_view() == self@.provider_report(source@, p@),
    {
        if p.provider == *source {
            return None;
        }
        let connection_ty: KadConnectionType = if self.connected_peers.contains(
            p.provider.as_bytes(),
        ) {
            KadConnectionType::Connected
        } else {
            KadConnectionType::NotConnected
        };
        let multiaddrs = if p.addresses.len() > 0 {
            p.addresses
        } else if p.provider == *self.kbuckets.local_key().preimage() {
            // The provider is the local node, whose addresses are filled in on demand.
            let addrs = self.local_addrs.clone();
            assert(addrs.deep_view() =~= self.local_addrs.deep_view());
            addrs
        } else {
            // It is a provider record without addresses, so the routing table is asked for them.
            match self.kbuckets.get(KeyBytes::hash(p.provider.as_bytes())) {
                Some(e) => e.node.value.into_vec(),
                None => {
                    return None;
                },
            }
        };
        Some(KadPeer { node_id: p.provider, multiaddrs, connection_ty })
    }

    /// Collects all peers who are known to be providers of the value for a given key.
    pub fn provider_peers(&self, key: &record::Key, source: &PeerId) -> (r: Vec<KadPeer>)
        requires
            self@.inv(),
        ensures
            r.deep_view() == self@.known_providers(key@, source@),
    {
        let records = self.store.providers(key);
        let k: usize = self.queries.config().replication_factor.get();
        let ghost s = records.deep_view();
        let ghost tell = |p: ProviderRecordView| self@.provider_report(source@, p);
        let mut r: Vec<KadPeer> = Vec::new();
        let mut i: usize = 0;
        assert(r.deep_view() =~= at_most(s.take(0).filter_map(tell), k as nat));
        while i < records.len()
            invariant
                i <= records.len(),
                self@.inv(),
                s == records.deep_view(),
                tell == (|p: ProviderRecordView| self@.provider_report(source@, p)),
                r.deep_view() == at_most(s.take(i as int).filter_map(tell), k as nat),
            decreases records.len() - i,
        {
            let ghost before = s.take(i as int).filter_map(tell);
            let ghost r0 = r.deep_view();
            proof {
                assert(s[i as int] == records[i as int]@);
                assert(s.take(i + 1).drop_last() =~= s.take(i as int));
            }
            if let Some(p) = self.report_provider(source, records[i].clone()) {
                if r.len() < k {
                    r.push(p);
                    assert(r.deep_view() =~= r0.push(p@));
                }
                assert(s.take(i + 1).filter_map(tell) =~= before.push(p@));
            }
            assert(r.deep_view() =~= at_most(s.take(i + 1).filter_map(tell), k as nat));
            i = i + 1;
        }
        assert(s.take(i as int) =~= s);
        r
    }

    /// Updates the routing table with a new connection status and address of a peer at `now`.
    pub fn connection_updated_at(
        &mut self,
        peer: PeerId,
        address: Option<Multiaddr>,
        new_status: NodeStatus,
        now: Instant,
    )
        requires
            now.early(),
            old(self)@.inv_but(Some(hash_of(peer@))),
        ensures
            final(self).clock_spec() == old(self).clock_spec(),
            final(self).store_spec() == old(self).store_spec(),
            final(self)@ == old(self)@.connection_changed(
                peer@,
                address.deep_view(),
                new_status,
                now,
            ),
            final(self)@.inv_but(Some(hash_of(peer@))),
            new_status == NodeStatus::Disconnected || old(self)@.connected.contains(peer@)
                ==> final(self)@.inv(),
            final(self)@.table.get(hash_of(peer@)) matches Some(e) ==> e.status == new_status,
            forall|k: PeerKeyView, st: NodeStatus| #[trigger]
                final(self)@.table.lists(k, st) ==> known(old(self)@.table, k) || (k.id == peer@
                    && new_status == NodeStatus::Connected && address is Some
                    && old(self)@.inserts == KademliaBucketInserts::OnConnected),
    {
        let key = Key::new(peer);
        let p: KeyBytes = key.key_bytes();
        let ghost v0 = self@;
        proof {
            assert(v0.connected.contains(key@.id) ==> stands_at(v0.connected, p));
            assert forall|k: PeerKeyView, st: NodeStatus| #[trigger]
                v0.table.lists(k, st) && k.point == p implies (v0.table.get(p) matches Some(e)
                && e.status == st) by {
                lemma_listed(v0.table, k, st);
            }
            if v0.table.get(p) is Some {
                lemma_found(v0.table, p);
                assert(known(v0.table, v0.table.get(p)->0.key));
            }
            assert(forall|k: PeerKeyView, st: NodeStatus| #[trigger]
                v0.table.lists(k, st) ==> known(v0.table, k));
        }
        match self.kbuckets.entry(p) {
            Entry::Present(old_status) => {
                if let Some(address) = address {
                    self.kbuckets.add_address(p, address);
                }
                proof {
                    lemma_found(self@.table, p);
                }
                if old_status != new_status {
                    self.kbuckets.update(p, new_status);
                }
            },
            Entry::Pending(old_status) => {
                if let Some(address) = address {
                    self.kbuckets.add_address(p, address);
                }
                proof {
                    lemma_found(self@.table, p);
                }
                if old_status != new_status {
                    self.kbuckets.update(p, new_status);
                }
            },
            Entry::Absent => {
                // Only connected nodes with a known address are newly inserted.
                if new_status == NodeStatus::Connected && self.kbucket_inserts
                    == KademliaBucketInserts::OnConnected {
                    if let Some(address) = address {
                        self.kbuckets.insert(key, Addresses::new(address), new_status, now);
                    }
                }
            },
            Entry::SelfEntry => {},
        }
        proof {
            if self@.table.get(p) is Some {
                lemma_found(self@.table, p);
            }
        }
    }

    /// Updates the routing table with a new connection status and address of a peer.
    pub fn connection_updated(
        &mut self,
        peer: PeerId,
        address: Option<Multiaddr>,
        new_status: NodeStatus,
    )
        requires
            old(self)@.inv_but(Some(hash_of(peer@))),
        ensures
            final(self).clock_spec() == old(self).clock_spec(),
            final(self).store_spec() == old(self).store_spec(),
            exists|now: Instant|
                now.early() && old(self).clock_spec().may_show(now) && final(self)@
                    == #[trigger] old(self)@.connection_changed(
                    peer@,
                    address.deep_view(),
                    new_status,
                    now,
                ),
            final(self)@.inv_but(Some(hash_of(peer@))),
            new_status == NodeStatus::Disconnected || old(self)@.connected.contains(peer@)
                ==> final(self)@.inv(),
            final(self)@.table.get(hash_of(peer@)) matches Some(e) ==> e.status == new_status,
    {
        let now: Instant = self.clock.now();
        self.connection_updated_at(peer, address, new_status, now);
    }

    /// The record that is stored when a peer sends `record` at `now`.
    ///
    /// Its expiration is exponentially inversely proportional to the number of nodes between the
    /// local node and the closest node to the key (beyond the replication factor). This ensures
    /// avoiding over-caching outside of the k closest nodes to a key.
    pub fn record_to_keep(&self, record: Record, now: Instant) -> (r: Record)
        requires
            self@.inv(),
            now.early(),
        ensures
            r@ == self@.kept_record(record@, now),
    {
        let target: KeyBytes = KeyBytes::hash(record.key.as_bytes());
        let num_between: usize = self.kbuckets.count_nodes_between(target);
        let k: usize = self.queries.config().replication_factor.get();
        let num_beyond_k: u32 = if num_between <= k {
            0
        } else {
            (num_between - k) as u32
        };
        let limit: Option<Instant> = match self.record_ttl {
            Some(ttl) => {
                let ttl: Duration = exp_decrease(ttl, num_beyond_k);
                Some(now.after(ttl))
            },
            None => None,
        };
        // The smaller TTL prevails. Only if neither TTL is set is the record stored "forever".
        let expires: Option<Instant> = match (record.expires, limit) {
            (None, None) => None,
            (Some(t), None) => Some(t),
            (None, Some(l)) => Some(l),
            (Some(t), Some(l)) => if t.nanos <= l.nanos {
                Some(t)
            } else {
                Some(l)
            },
        };
        Record { expires, ..record }
    }

    /// Processes a record received from a peer at `now`.
    ///
    /// The peer is told that the record was accepted even in the case where the record is
    /// discarded due to being expired.
    pub fn record_received(&mut self, _source: PeerId, record: Record, now: Instant) -> (r: Result<
        KadResponseMsg,
    >)
        requires
            old(self)@.inv(),
            now.early(),
        ensures
            final(self).clock_spec() == old(self).clock_spec(),
            old(self)@.record_taken(record@, now, r is Ok, final(self)@),
            r matches Ok(m) ==> m@ == (KadResponseView::PutValue {
                key: record@.key,
                value: record@.value,
            }),
            r matches Err(e) ==> old(self).store_spec().refuses_record(
                old(self)@.kept_record(record@, now),
                e@,
            ),
            old(self)@.offers_record(record@, now) || final(self).store_spec()
                == old(self).store_spec(),
            final(self)@.inv(),
    {
        if let Some(publisher) = &record.publisher {
            if publisher == self.kbuckets.local_key().preimage() {
                // If the (alleged) publisher is the local node, do nothing. The record of the
                // original publisher should never change as a result of replication and the
                // publisher is always assumed to have the "right" value.
                return Ok(KadResponseMsg::PutValue { key: record.key, value: record.value });
            }
        }
        let record = self.record_to_keep(record, now);
        if let Some(job) = &mut self.put_record_job {
            // Ignore the record in the next run of the replication job, since we can assume the
            // sender replicated the record to the k closest peers.
            job.skip(record.key.clone());
        }
        assert(self@ == old(self)@.skipping(record@.key));
        let outcome: Result<()> = if !record.is_expired(now) {
            self.store.put(record.clone())
        } else {
            Ok(())
        };
        put_answer(outcome, record)
    }

    /// The record that is stored when a peer announces itself as a provider at `now`.
    pub fn provider_to_keep(&self, key: record::Key, provider: KadPeer, now: Instant) -> (r:
        ProviderRecord)
        requires
            now.early(),
        ensures
            r@ == self@.provider_record(key@, provider@, now),
    {
        ProviderRecord {
            key,
            provider: provider.node_id,
            expires: expiry(now, self.provider_record_ttl),
            addresses: provider.multiaddrs,
        }
    }

    /// Processes a provider record received from a peer at `now`.
    pub fn provider_received(&mut self, key: record::Key, provider: KadPeer, now: Instant)
        requires
            old(self)@.inv(),
            now.early(),
        ensures
            final(self).clock_spec() == old(self).clock_spec(),
            old(self)@.provider_taken(key@, provider@, now, final(self)@),
            ({
                let v = old(self)@;
                let record = v.provider_record(key@, provider@, now);
                if provider@.node_id == v.table.local.id {
                    final(self)@ == v && final(self).store_spec() == old(self).store_spec()
                } else {
                    v.store.provided(record, final(self)@.store) || (final(self)@ == v
                        && exists|e: KadErrorView| #[trigger]
                        old(self).store_spec().refuses_provider(record, e))
                }
            }),
            final(self)@.inv(),
    {
        if provider.node_id != *self.kbuckets.local_key().preimage() {
            let record = self.provider_to_keep(key, provider, now);
            match self.store.add_provider(record) {
                Ok(()) => {},
                Err(e) => {
                    assert(old(self).store_spec().refuses_provider(record@, e@));
                },
            }
        }
    }

    /// Called when a new peer is connected.
    pub fn handle_peer_connected(&mut self, peer_id: PeerId)
        requires
            old(self)@.inv(),
        ensures
            final(self).clock_spec() == old(self).clock_spec(),
            final(self).store_spec() == old(self).store_spec(),
            final(self)@ == old(self)@.peer_connected(peer_id@),
            final(self)@.inv(),
    {
        self.connected_peers.insert(peer_id.into_bytes());
        proof {
            let a = old(self)@.connected;
            let b = self@.connected;
            assert forall|p: KeyBytes| stands_at(a, p) implies #[trigger] stands_at(b, p) by {
                let id = choose|id: Seq<u8>| #[trigger] a.contains(id) && hash_of(id) == p;
                assert(b.contains(id));
            }
        }
    }

    /// Called when a peer is disconnected.
    pub fn handle_peer_disconnected(&mut self, peer_id: PeerId)
        requires
            old(self)@.inv(),
        ensures
            final(self).clock_spec() == old(self).clock_spec(),
            final(self).store_spec() == old(self).store_spec(),
            final(self)@ == old(self)@.peer_disconnected(peer_id@),
            final(self)@.table.get(hash_of(peer_id@)) matches Some(e) ==> e.status
                == NodeStatus::Disconnected,
            final(self)@.inv(),
    {
        self.connected_peers.remove(peer_id.as_bytes());
        proof {
            let a = old(self)@.connected;
            let b = self@.connected;
            assert forall|p: KeyBytes| stands_at(a, p) && p != hash_of(peer_id@) implies #[trigger] stands_at(
                b,
                p,
            ) by {
                let id = choose|id: Seq<u8>| #[trigger] a.contains(id) && hash_of(id) == p;
                assert(b.contains(id));
            }
        }
        self.connection_updated(peer_id, None, NodeStatus::Disconnected);
    }

    /// Handles a request of a peer at `now` and returns the answer to it.
    pub fn handle_kad_request_at(&mut self, request: KadRequestMsg, source: PeerId, now: Instant) -> (r:
        Answer)
        requires
            old(self)@.inv(),
            now.early(),
        ensures
            final(self).clock_spec() == old(self).clock_spec(),
            old(self)@.serves(request@, source@, now, answer_view(r), final(self)@),
            old(self).only_store_refuses(request@, now, answer_view(r), final(self)@),
            old(self)@.asks_store(request@, source@, now) || final(self).store_spec()
                == old(self).store_spec(),
            final(self)@.inv(),
    {
        match request {
            KadRequestMsg::Ping => Ok(Some(KadResponseMsg::Pong)),
            KadRequestMsg::FindNode { key } => {
                let closer_peers = self.find_closest(&Key::new(key), &source);
                Ok(Some(KadResponseMsg::FindNode { closer_peers }))
            },
            KadRequestMsg::AddProvider { key, provider } => {
                // Only accept a provider record from a legitimate peer.
                if provider.node_id != source {
                    Err(KadError::InvalidSource(source))
                } else {
                    self.provider_received(key, provider, now);
                    // The request does not require a response.
                    Ok(None)
                }
            },
            KadRequestMsg::GetProviders { key } => {
                let provider_peers = self.provider_peers(&key, &source);
                let closer_peers = self.find_closest(&Key::new(key), &source);
                Ok(Some(KadResponseMsg::GetProviders { closer_peers, provider_peers }))
            },
            KadRequestMsg::GetValue { key } => {
                // Lookup the record locally.
                let record = match self.store.get(&key) {
                    Some(record) => if record.is_expired(now) {
                        self.store.remove(&key);
                        None
                    } else {
                        Some(record)
                    },
                    None => None,
                };
                let closer_peers = self.find_closest(&Key::new(key), &source);
                Ok(Some(KadResponseMsg::GetValue { record, closer_peers }))
            },
            KadRequestMsg::PutValue { record } => match self.record_received(source, record, now) {
                Ok(response) => Ok(Some(response)),
                Err(e) => Err(e),
            },
        }
    }

    /// Handles a request of a peer and returns the answer to it.
    pub fn handle_kad_request(&mut self, request: KadRequestMsg, source: PeerId) -> (r: Answer)
        requires
            old(self)@.inv(),
        ensures
            final(self).clock_spec() == old(self).clock_spec(),
            exists|now: Instant|
                now.early() && old(self).clock_spec().may_show(now)
                    && #[trigger] old(self)@.serves(
                    request@,
                    source@,
                    now,
                    answer_view(r),
                    final(self)@,
                ) && old(self).only_store_refuses(
                    request@,
                    now,
                    answer_view(r),
                    final(self)@,
                ) && (old(self)@.asks_store(request@, source@, now) || final(self).store_spec()
                    == old(self).store_spec()),
            final(self)@.inv(),
    {
        let now: Instant = self.clock.now();
        self.handle_kad_request_at(request, source, now)
    }

    /// Handles an event of the protocol handler. `None` says that there will be no more events.
    ///
    /// Returns the answer to the request of a peer, if the event is one.
    pub fn handle_events(&mut self, msg: Option<ProtocolEvent>) -> (r: Result<Option<Answer>>)
        requires
            old(self)@.inv(),
        ensures
            final(self).clock_spec() == old(self).clock_spec(),
            match msg {
                Some(ProtocolEvent::PeerConnected(peer_id)) => r is Ok && r->Ok_0 is None
                    && final(self)@ == old(self)@.peer_connected(peer_id@),
                Some(ProtocolEvent::PeerDisconnected(peer_id)) => r is Ok && r->Ok_0 is None
                    && final(self)@ == old(self)@.peer_disconnected(peer_id@),
                Some(ProtocolEvent::KadRequest { request, source }) => r is Ok && r->Ok_0 is Some
                    && exists|now: Instant|
                    now.early() && old(self).clock_spec().may_show(now) && #[trigger] old(self)@.serves(
                        request@,
                        source@,
                        now,
                        answer_view(r->Ok_0->0),
                        final(self)@,
                    ) && old(self).only_store_refuses(
                        request@,
                        now,
                        answer_view(r->Ok_0->0),
                        final(self)@,
                    ) && (old(self)@.asks_store(request@, source@, now) || final(self).store_spec()
                        == old(self).store_spec()),
                Some(ProtocolEvent::Other) => r is Ok && r->Ok_0 is None && final(self)@
                    == old(self)@,
                None => r is Err && r->Err_0@ == KadErrorView::Closed(1) && final(self)@
                    == old(self)@,
            },
            !(msg matches Some(ProtocolEvent::KadRequest { .. })) ==> final(self).store_spec()
                == old(self).store_spec(),
            final(self)@.inv(),
    {
        match msg {
            Some(ProtocolEvent::PeerConnected(peer_id)) => {
                self.handle_peer_connected(peer_id);
                Ok(None)
            },
            Some(ProtocolEvent::PeerDisconnected(peer_id)) => {
                self.handle_peer_disconnected(peer_id);
                Ok(None)
            },
            Some(ProtocolEvent::KadRequest { request, source }) => {
                let answer = self.handle_kad_request(request, source);
                Ok(Some(answer))
            },
            Some(ProtocolEvent::Other) => Ok(None),
            None => Err(KadError::Closed(1)),
        }
    }

    /// Carries out a command. `None` says that there will be no more commands.
    ///
    /// Returns the answer to the command.
    pub fn on_control_command(&mut self, cmd: Option<ControlCommand>) -> (r: Option<ControlReply>)
        requires
            old(self)@.inv(),
        ensures
            final(self).clock_spec() == old(self).clock_spec(),
            final(self).store_spec() == old(self).store_spec(),
            match cmd {
                Some(ControlCommand::Lookup(key)) => r == Some(ControlReply::Nothing)
                    && final(self)@ == old(self)@.looking_up(
                    hash_of(key@),
                    QueryInfoView::GetClosestPeers { key: key@ },
                ),
                Some(ControlCommand::FindPeer(_)) => r == Some(ControlReply::Nothing)
                    && final(self)@ == old(self)@,
                Some(ControlCommand::FindProviders(_)) => r == Some(ControlReply::Nothing)
                    && final(self)@ == old(self)@,
                Some(_) => r == Some(ControlReply::Done) && final(self)@ == old(self)@,
                None => r is None && final(self)@ == old(self)@,
            },
            old(self)@.queries.keeps_fresh(final(self)@.queries),
            final(self)@.inv(),
    {
        match cmd {
            Some(ControlCommand::Lookup(key)) => {
                self.get_closest_peers(key);
                Some(ControlReply::Nothing)
            },
            Some(ControlCommand::FindPeer(_)) => Some(ControlReply::Nothing),
            Some(ControlCommand::FindProviders(_)) => Some(ControlReply::Nothing),
            Some(ControlCommand::Providing(_)) => Some(ControlReply::Done),
            Some(ControlCommand::PutValue(_)) => Some(ControlReply::Done),
            Some(ControlCommand::GetValue(_)) => Some(ControlReply::Done),
            None => None,
        }
    }
}

} // verus!
