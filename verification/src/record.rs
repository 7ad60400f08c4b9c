//! Records that are stored in the DHT.
use crate::identity::{Multiaddr, PeerId, same_bytes};
use crate::time::Instant;
use vstd::prelude::*;
use vstd::std_specs::cmp::PartialEqSpecImpl;

verus! {

/// The key of a record.
#[derive(Debug)]
pub struct Key {
    bytes: Vec<u8>,
}

impl View for Key {
    type V = Seq<u8>;

    closed spec fn view(&self) -> Seq<u8> {
        self.bytes@
    }
}

impl DeepView for Key {
    type V = Seq<u8>;

    open spec fn deep_view(&self) -> Seq<u8> {
        self@
    }
}

impl Clone for Key {
    fn clone(&self) -> (r: Self)
        ensures
            r@ == self@,
    {
        Key { bytes: self.bytes.clone() }
    }
}

impl PartialEq for Key {
    fn eq(&self, other: &Self) -> (r: bool) {
        same_bytes(&self.bytes, &other.bytes)
    }
}

impl PartialEqSpecImpl for Key {
    open spec fn obeys_eq_spec() -> bool {
        true
    }

    open spec fn eq_spec(&self, other: &Self) -> bool {
        self@ == other@
    }
}

impl Eq for Key {

}

impl Key {
    /// The key with the given bytes.
    pub fn new(bytes: Vec<u8>) -> (r: Self)
        ensures
            r@ == bytes@,
    {
        Key { bytes }
    }

    /// The bytes of the key.
    pub fn as_bytes(&self) -> (r: &Vec<u8>)
        ensures
            r@ == self@,
    {
        &self.bytes
    }
}

/// What a [`Record`] says.
pub struct RecordView {
    pub key: Seq<u8>,
    pub value: Seq<u8>,
    pub publisher: Option<Seq<u8>>,
    pub expires: Option<Instant>,
}

impl RecordView {
    /// Whether the record has expired at `now`.
    pub open spec fn expired(self, now: Instant) -> bool {
        self.expires matches Some(t) && now.nanos >= t.nanos
    }
}

/// A record stored in the DHT.
#[derive(Debug, PartialEq, Eq)]
pub struct Record {
    /// Key of the record.
    pub key: Key,
    /// Value of the record.
    pub value: Vec<u8>,
    /// The (original) publisher of the record.
    pub publisher: Option<PeerId>,
    /// The expiration time as measured by the local clock.
    pub expires: Option<Instant>,
}

impl View for Record {
    type V = RecordView;

    open spec fn view(&self) -> RecordView {
        RecordView {
            key: self.key@,
            value: self.value@,
            publisher: self.publisher.deep_view(),
            expires: self.expires,
        }
    }
}

impl DeepView for Record {
    type V = RecordView;

    open spec fn deep_view(&self) -> RecordView {
        self@
    }
}

impl Clone for Record {
    fn clone(&self) -> (r: Self)
        ensures
            r@ == self@,
    {
        Record {
            key: self.key.clone(),
            value: self.value.clone(),
            publisher: self.publisher.clone(),
            expires: self.expires,
        }
    }
}

impl Record {
    /// Creates a new record that has neither a publisher nor an expiration.
    pub fn new(key: Key, value: Vec<u8>) -> (r: Self)
        ensures
            r@ == (RecordView { key: key@, value: value@, publisher: None, expires: None }),
    {
        Record { key, value, publisher: None, expires: None }
    }

    /// Checks whether the record is expired with respect to the given point in time.
    pub fn is_expired(&self, now: Instant) -> (r: bool)
        ensures
            r == self@.expired(now),
    {
        match self.expires {
            Some(t) => now.nanos >= t.nanos,
            None => false,
        }
    }
}

/// What a [`ProviderRecord`] says.
pub struct ProviderRecordView {
    pub key: Seq<u8>,
    pub provider: Seq<u8>,
    pub expires: Option<Instant>,
    pub addresses: Seq<Seq<u8>>,
}

/// A record that names a provider of the value for a key.
#[derive(Debug)]
pub struct ProviderRecord {
    /// The key whose value is provided by the provider.
    pub key: Key,
    /// The provider of the value for the key.
    pub provider: PeerId,
    /// The expiration time as measured by the local clock.
    pub expires: Option<Instant>,
    /// The known addresses that the provider may be listening on.
    pub addresses: Vec<Multiaddr>,
}

impl View for ProviderRecord {
    type V = ProviderRecordView;

    open spec fn view(&self) -> ProviderRecordView {
        ProviderRecordView {
            key: self.key@,
            provider: self.provider@,
            expires: self.expires,
            addresses: self.addresses.deep_view(),
        }
    }
}

impl DeepView for ProviderRecord {
    type V = ProviderRecordView;

    open spec fn deep_view(&self) -> ProviderRecordView {
        self@
    }
}

impl Clone for ProviderRecord {
    fn clone(&self) -> (r: Self)
        ensures
            r@ == self@,
    {
        let addresses = self.addresses.clone();
        assert(addresses.deep_view() =~= self.addresses.deep_view());
        ProviderRecord {
            key: self.key.clone(),
            provider: self.provider.clone(),
            expires: self.expires,
            addresses,
        }
    }
}

impl ProviderRecord {
    /// Creates a new provider record that does not expire.
    pub fn new(key: Key, provider: PeerId, addresses: Vec<Multiaddr>) -> (r: Self)
        ensures
            r@ == (ProviderRecordView {
                key: key@,
                provider: provider@,
                expires: None,
                addresses: addresses.deep_view(),
            }),
    {
        ProviderRecord { key, provider, expires: None, addresses }
    }
}

/// A record expires at the point in time that it names, not before, and stays expired. One that
/// names none never expires.
pub proof fn lemma_expires(r: RecordView, now: Instant, later: Instant)
    ensures
        r.expires is None ==> !r.expired(now),
        r.expires matches Some(t) ==> (r.expired(now) <==> t.nanos <= now.nanos),
        r.expired(now) && now.nanos <= later.nanos ==> r.expired(later),
{
}

} // verus!
