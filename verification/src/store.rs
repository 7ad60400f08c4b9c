//! The storage of records.
use crate::error::{KadError, KadErrorView, Result};
use crate::identity::PeerId;
use crate::record::{Key, ProviderRecord, ProviderRecordView, Record, RecordView};
use vstd::prelude::*;

verus! {

/// What a [`RecordStore`] holds.
#[verifier::ext_equal]
pub struct StoreView {
    /// The records by their keys.
    pub records: Map<Seq<u8>, RecordView>,
    /// The provider records for a key.
    pub providers: spec_fn(Seq<u8>) -> Seq<ProviderRecordView>,
}

impl StoreView {
    /// The record with the given key.
    pub open spec fn get(self, key: Seq<u8>) -> Option<RecordView> {
        if self.records.contains_key(key) {
            Some(self.records[key])
        } else {
            None
        }
    }

    /// The store with the record `r`, in place of a record with the same key.
    pub open spec fn stored(self, r: RecordView) -> StoreView {
        StoreView { records: self.records.insert(r.key, r), ..self }
    }

    /// The store without a record with the given key.
    pub open spec fn removed(self, key: Seq<u8>) -> StoreView {
        StoreView { records: self.records.remove(key), ..self }
    }

    /// Whether the provider record `r` was added to the store if it now holds `next`. Other
    /// provider records for the same key may have been dropped.
    pub open spec fn provided(self, r: ProviderRecordView, next: StoreView) -> bool {
        &&& next.records == self.records
        &&& (next.providers)(r.key).contains(r)
        &&& forall|p: ProviderRecordView| #[trigger]
            (next.providers)(r.key).contains(p) ==> p == r || (self.providers)(r.key).contains(p)
        &&& forall|k: Seq<u8>| k != r.key ==> #[trigger] (next.providers)(k) == (self.providers)(k)
    }

    /// The store without the provider records of `provider` for `key`.
    pub open spec fn unprovided(self, key: Seq<u8>, provider: Seq<u8>) -> StoreView {
        StoreView {
            providers: |k: Seq<u8>|
                if k == key {
                    others(provider, (self.providers)(k))
                } else {
                    (self.providers)(k)
                },
            ..self
        }
    }
}

/// The provider records in `s` that are not of `provider`.
pub open spec fn others(provider: Seq<u8>, s: Seq<ProviderRecordView>) -> Seq<ProviderRecordView> {
    s.filter(|p: ProviderRecordView| p.provider != provider)
}

/// A store of records and of provider records.
///
/// A store may have limits. It says which records it may refuse for want of a place, and with
/// which error. A record that it may not refuse is stored.
pub trait RecordStore {
    /// What the store holds.
    spec fn contents(&self) -> StoreView;

    /// Whether the store may refuse the record `r` with the error `e`.
    spec fn refuses_record(&self, r: RecordView, e: KadErrorView) -> bool;

    /// Whether the store may refuse the provider record `r` with the error `e`.
    spec fn refuses_provider(&self, r: ProviderRecordView, e: KadErrorView) -> bool;

    /// Gets a record from the store, given its key.
    fn get(&self, key: &Key) -> (r: Option<Record>)
        ensures
            r.deep_view() == self.contents().get(key@),
    ;

    /// Puts a record into the store.
    fn put(&mut self, record: Record) -> (r: Result<()>)
        ensures
            r is Ok ==> final(self).contents() == old(self).contents().stored(record@),
            r is Err ==> final(self).contents() == old(self).contents(),
            r matches Err(e) ==> old(self).refuses_record(record@, e@),
    ;

    /// Removes the record with the given key from the store.
    fn remove(&mut self, key: &Key)
        ensures
            final(self).contents() == old(self).contents().removed(key@),
    ;

    /// Adds a provider record to the store.
    fn add_provider(&mut self, record: ProviderRecord) -> (r: Result<()>)
        ensures
            r is Ok ==> old(self).contents().provided(record@, final(self).contents()),
            r is Err ==> final(self).contents() == old(self).contents(),
            r matches Err(e) ==> old(self).refuses_provider(record@, e@),
    ;

    /// Gets a copy of the stored provider records for the given key.
    fn providers(&self, key: &Key) -> (r: Vec<ProviderRecord>)
        ensures
            r.deep_view() == (self.contents().providers)(key@),
    ;

    /// Removes the provider records of a provider for a key from the store.
    fn remove_provider(&mut self, key: &Key, provider: &PeerId)
        ensures
            final(self).contents() == old(self).contents().unprovided(key@, provider@),
    ;
}

/// The last record in `s` with the given key.
pub open spec fn lookup(s: Seq<RecordView>, key: Seq<u8>) -> Option<RecordView>
    decreases s.len(),
{
    if s.len() == 0 {
        None
    } else if s.last().key == key {
        Some(s.last())
    } else {
        lookup(s.drop_last(), key)
    }
}

/// The provider records in `s` for a key.
pub open spec fn for_key(key: Seq<u8>, s: Seq<ProviderRecordView>) -> Seq<ProviderRecordView> {
    s.filter(|p: ProviderRecordView| p.key == key)
}

/// What a [`MemoryStore`] holds.
pub struct MemoryStoreView {
    pub max_records: nat,
    pub max_value_bytes: nat,
    pub max_provider_records: nat,
    pub records: Seq<RecordView>,
    pub providers: Seq<ProviderRecordView>,
}

impl MemoryStoreView {
    /// The records and the provider records.
    pub open spec fn contents(self) -> StoreView {
        StoreView {
            records: Map::new(
                |k: Seq<u8>| lookup(self.records, k) is Some,
                |k: Seq<u8>| lookup(self.records, k)->0,
            ),
            providers: |k: Seq<u8>| for_key(k, self.providers),
        }
    }

    /// Whether there is a record of `provider` for `key`.
    pub open spec fn provides(self, key: Seq<u8>, provider: Seq<u8>) -> bool {
        exists|i: int|
            0 <= i < self.providers.len() && (#[trigger] self.providers[i]).key == key
                && self.providers[i].provider == provider
    }
}

/// A store that keeps its records in memory, up to a number of them.
#[derive(Debug)]
pub struct MemoryStore {
    max_records: usize,
    max_value_bytes: usize,
    max_provider_records: usize,
    records: Vec<Record>,
    providers: Vec<ProviderRecord>,
}

impl View for MemoryStore {
    type V = MemoryStoreView;

    closed spec fn view(&self) -> MemoryStoreView {
        MemoryStoreView {
            max_records: self.max_records as nat,
            max_value_bytes: self.max_value_bytes as nat,
            max_provider_records: self.max_provider_records as nat,
            records: self.records.deep_view(),
            providers: self.providers.deep_view(),
        }
    }
}

impl MemoryStore {
    /// Creates an empty store with the given limits.
    pub fn new(
        max_records: usize,
        max_value_bytes: usize,
        max_provider_records: usize,
    ) -> (r: Self)
        ensures
            r@ == (MemoryStoreView {
                max_records: max_records as nat,
                max_value_bytes: max_value_bytes as nat,
                max_provider_records: max_provider_records as nat,
                records: Seq::empty(),
                providers: Seq::empty(),
            }),
    {
        let records: Vec<Record> = Vec::new();
        let providers: Vec<ProviderRecord> = Vec::new();
        assert(records.deep_view() =~= Seq::empty());
        assert(providers.deep_view() =~= Seq::empty());
        MemoryStore { max_records, max_value_bytes, max_provider_records, records, providers }
    }

    /// Takes the records with the given key out.
    fn drop_records(&mut self, key: &Key)
        ensures
            final(self)@ == (MemoryStoreView {
                records: old(self)@.records.filter(|r: RecordView| r.key != key@),
                ..old(self)@
            }),
    {
        let ghost s = self.records.deep_view();
        let ghost pred = |r: RecordView| r.key != key@;
        let mut kept: Vec<Record> = Vec::new();
        let mut i: usize = 0;
        assert(s.take(0).filter(pred) =~= Seq::empty()) by {
            reveal(Seq::filter);
        }
        assert(kept.deep_view() =~= Seq::empty());
        while i < self.records.len()
            invariant
                i <= self.records.len(),
                s == self.records.deep_view(),
                pred == (|r: RecordView| r.key != key@),
                kept.deep_view() == s.take(i as int).filter(pred),
            decreases self.records.len() - i,
        {
            proof {
                assert(s[i as int] == self.records[i as int]@);
                assert(s.take(i + 1).drop_last() =~= s.take(i as int));
                reveal(Seq::filter);
            }
            if self.records[i].key != *key {
                let ghost k0 = kept.deep_view();
                kept.push(self.records[i].clone());
                assert(kept.deep_view() =~= k0.push(s[i as int]));
            }
            i = i + 1;
        }
        assert(s.take(i as int) =~= s);
        self.records = kept;
    }

    /// Takes the records of `provider` for `key` out.
    fn drop_providers(&mut self, key: &Key, provider: &PeerId)
        ensures
            final(self)@ == (MemoryStoreView {
                providers: old(self)@.providers.filter(
                    |p: ProviderRecordView| p.key != key@ || p.provider != provider@,
                ),
                ..old(self)@
            }),
    {
        let ghost s = self.providers.deep_view();
        let ghost pred = |p: ProviderRecordView| p.key != key@ || p.provider != provider@;
        let mut kept: Vec<ProviderRecord> = Vec::new();
        let mut i: usize = 0;
        assert(s.take(0).filter(pred) =~= Seq::empty()) by {
            reveal(Seq::filter);
        }
        assert(kept.deep_view() =~= Seq::empty());
        while i < self.providers.len()
            invariant
                i <= self.providers.len(),
                s == self.providers.deep_view(),
                pred == (|p: ProviderRecordView| p.key != key@ || p.provider != provider@),
                kept.deep_view() == s.take(i as int).filter(pred),
            decreases self.providers.len() - i,
        {
            proof {
                assert(s[i as int] == self.providers[i as int]@);
                assert(s.take(i + 1).drop_last() =~= s.take(i as int));
                reveal(Seq::filter);
            }
            if self.providers[i].key != *key || self.providers[i].provider != *provider {
                let ghost k0 = kept.deep_view();
                kept.push(self.providers[i].clone());
                assert(kept.deep_view() =~= k0.push(s[i as int]));
            }
            i = i + 1;
        }
        assert(s.take(i as int) =~= s);
        self.providers = kept;
    }
}

proof fn lemma_lookup_dropped(s: Seq<RecordView>, key: Seq<u8>, k: Seq<u8>)
    ensures
        lookup(s.filter(|r: RecordView| r.key != key), k) == if k == key {
            None
        } else {
            lookup(s, k)
        },
    decreases s.len(),
{
    reveal(Seq::filter);
    let pred = |r: RecordView| r.key != key;
    if s.len() > 0 {
        lemma_lookup_dropped(s.drop_last(), key, k);
        let front = s.drop_last().filter(pred);
        if pred(s.last()) {
            assert(front.push(s.last()).drop_last() =~= front);
        }
    }
}

proof fn lemma_dropped(v: MemoryStoreView, key: Seq<u8>)
    ensures
        (MemoryStoreView {
            records: v.records.filter(|r: RecordView| r.key != key),
            ..v
        }).contents() == v.contents().removed(key),
{
    let w = MemoryStoreView { records: v.records.filter(|r: RecordView| r.key != key), ..v };
    assert forall|k: Seq<u8>| #[trigger] w.contents().records.contains_key(k) <==> v.contents().removed(
        key,
    ).records.contains_key(k) by {
        lemma_lookup_dropped(v.records, key, k);
    }
    assert forall|k: Seq<u8>| #[trigger]
        w.contents().records.contains_key(k) implies w.contents().records[k]
        == v.contents().removed(key).records[k] by {
        lemma_lookup_dropped(v.records, key, k);
    }
    assert(w.contents().records =~= v.contents().removed(key).records);
    assert(w.contents().providers =~= v.contents().removed(key).providers);
}

proof fn lemma_pushed(v: MemoryStoreView, r: RecordView)
    ensures
        (MemoryStoreView { records: v.records.push(r), ..v }).contents() == v.contents().stored(r),
{
    let w = MemoryStoreView { records: v.records.push(r), ..v };
    assert(v.records.push(r).drop_last() =~= v.records);
    assert(w.contents().records =~= v.contents().stored(r).records);
    assert(w.contents().providers =~= v.contents().stored(r).providers);
}

proof fn lemma_for_key_dropped(
    s: Seq<ProviderRecordView>,
    key: Seq<u8>,
    provider: Seq<u8>,
    k: Seq<u8>,
)
    ensures
        for_key(k, s.filter(|p: ProviderRecordView| p.key != key || p.provider != provider))
            == if k == key {
            others(provider, for_key(k, s))
        } else {
            for_key(k, s)
        },
    decreases s.len(),
{
    reveal(Seq::filter);
    let keep = |p: ProviderRecordView| p.key != key || p.provider != provider;
    let here = |p: ProviderRecordView| p.key == k;
    let other = |p: ProviderRecordView| p.provider != provider;
    if s.len() > 0 {
        let front = s.drop_last();
        lemma_for_key_dropped(front, key, provider, k);
        let x = s.last();
        if keep(x) {
            assert(front.filter(keep).push(x).drop_last() =~= front.filter(keep));
        }
        if here(x) {
            assert(front.filter(here).push(x).drop_last() =~= front.filter(here));
        }
        assert(front.filter(here).filter(other) == others(provider, for_key(k, front)));
    }
}

proof fn lemma_unprovided(v: MemoryStoreView, key: Seq<u8>, provider: Seq<u8>)
    ensures
        (MemoryStoreView {
            providers: v.providers.filter(
                |p: ProviderRecordView| p.key != key || p.provider != provider,
            ),
            ..v
        }).contents() == v.contents().unprovided(key, provider),
{
    let w = MemoryStoreView {
        providers: v.providers.filter(
            |p: ProviderRecordView| p.key != key || p.provider != provider,
        ),
        ..v
    };
    let a = w.contents().providers;
    let b = v.contents().unprovided(key, provider).providers;
    assert forall|k: Seq<u8>| #[trigger] a(k) == b(k) by {
        lemma_for_key_dropped(v.providers, key, provider, k);
    }
    assert(a =~= b);
    assert(w.contents().records =~= v.contents().unprovided(key, provider).records);
}

proof fn lemma_provided(v: MemoryStoreView, r: ProviderRecordView)
    ensures
        v.contents().provided(
            r,
            (MemoryStoreView {
                providers: v.providers.filter(
                    |p: ProviderRecordView| p.key != r.key || p.provider != r.provider,
                ).push(r),
                ..v
            }).contents(),
        ),
{
    reveal(Seq::filter);
    let s = v.providers.filter(|p: ProviderRecordView| p.key != r.key || p.provider != r.provider);
    let w = MemoryStoreView { providers: s.push(r), ..v };
    let c = w.contents();
    let a = v.contents();
    assert(s.push(r).drop_last() =~= s);
    assert(c.records =~= a.records);
    assert forall|k: Seq<u8>| k != r.key implies #[trigger] (c.providers)(k) == (a.providers)(k) by {
        lemma_for_key_dropped(v.providers, r.key, r.provider, k);
    }
    let old_list = (a.providers)(r.key);
    let kept = others(r.provider, old_list);
    let new_list = (c.providers)(r.key);
    lemma_for_key_dropped(v.providers, r.key, r.provider, r.key);
    assert(new_list =~= kept.push(r));
    assert(new_list[kept.len() as int] == r);
    assert forall|p: ProviderRecordView| #[trigger] new_list.contains(p) implies p == r
        || old_list.contains(p) by {
        let i = choose|i: int| 0 <= i < new_list.len() && new_list[i] == p;
        if i < kept.len() {
            assert(kept[i] == p);
            assert(kept.contains(p));
            old_list.lemma_filter_contains_rev(|q: ProviderRecordView| q.provider != r.provider, p);
        }
    }
}

impl RecordStore for MemoryStore {
    open spec fn contents(&self) -> StoreView {
        self@.contents()
    }

    open spec fn refuses_record(&self, r: RecordView, e: KadErrorView) -> bool {
        if r.value.len() >= self@.max_value_bytes {
            e == KadErrorView::ValueTooLarge
        } else {
            e == KadErrorView::MaxRecords && lookup(self@.records, r.key) is None
                && self@.records.len() >= self@.max_records
        }
    }

    open spec fn refuses_provider(&self, r: ProviderRecordView, e: KadErrorView) -> bool {
        e == KadErrorView::MaxProviderRecords && !self@.provides(r.key, r.provider)
            && self@.providers.len() >= self@.max_provider_records
    }

    fn get(&self, key: &Key) -> (r: Option<Record>) {
        let ghost s = self.records.deep_view();
        let mut n: usize = self.records.len();
        assert(s.take(n as int) =~= s);
        while n > 0
            invariant
                n <= self.records.len(),
                s == self.records.deep_view(),
                lookup(s, key@) == lookup(s.take(n as int), key@),
            decreases n,
        {
            assert(s[n - 1] == self.records[n - 1]@);
            assert(s.take(n as int).drop_last() =~= s.take(n - 1));
            if self.records[n - 1].key == *key {
                return Some(self.records[n - 1].clone());
            }
            n = n - 1;
        }
        None
    }

    fn put(&mut self, record: Record) -> (r: Result<()>)
        ensures
            r is Ok <==> record@.value.len() < old(self)@.max_value_bytes && (lookup(
                old(self)@.records,
                record@.key,
            ) is Some || old(self)@.records.len() < old(self)@.max_records),
            r matches Err(e) ==> e == if record@.value.len() >= old(self)@.max_value_bytes {
                KadError::ValueTooLarge
            } else {
                KadError::MaxRecords
            },
            r is Err ==> final(self)@ == old(self)@,
            r is Ok ==> final(self)@ == (MemoryStoreView {
                records: old(self)@.records.filter(|x: RecordView| x.key != record@.key).push(
                    record@,
                ),
                ..old(self)@
            }),
    {
        if record.value.len() >= self.max_value_bytes {
            return Err(KadError::ValueTooLarge);
        }
        let known = self.get(&record.key).is_some();
        if !known && self.records.len() >= self.max_records {
            return Err(KadError::MaxRecords);
        }
        proof {
            lemma_dropped(self@, record@.key);
        }
        self.drop_records(&record.key);
        proof {
            lemma_pushed(self@, record@);
        }
        let ghost v = self@;
        self.records.push(record);
        proof {
            assert(self.records.deep_view() =~= v.records.push(record@));
            assert(old(self).contents().removed(record@.key).stored(record@).records
                =~= old(self).contents().stored(record@).records);
        }
        Ok(())
    }

    fn remove(&mut self, key: &Key)
        ensures
            final(self)@ == (MemoryStoreView {
                records: old(self)@.records.filter(|r: RecordView| r.key != key@),
                ..old(self)@
            }),
    {
        proof {
            lemma_dropped(self@, key@);
        }
        self.drop_records(key);
    }

    fn add_provider(&mut self, record: ProviderRecord) -> (r: Result<()>)
        ensures
            r is Ok <==> old(self)@.provides(record@.key, record@.provider)
                || old(self)@.providers.len() < old(self)@.max_provider_records,
            r matches Err(e) ==> e == KadError::MaxProviderRecords,
            r is Err ==> final(self)@ == old(self)@,
            r is Ok ==> final(self)@ == (MemoryStoreView {
                providers: old(self)@.providers.filter(
                    |p: ProviderRecordView| p.key != record@.key || p.provider != record@.provider,
                ).push(record@),
                ..old(self)@
            }),
    {
        let ghost s = self.providers.deep_view();
        let mut known: bool = false;
        let mut i: usize = 0;
        while i < self.providers.len() && !known
            invariant
                i <= self.providers.len(),
                s == self.providers.deep_view(),
                known ==> exists|j: int|
                    0 <= j < s.len() && (#[trigger] s[j]).key == record@.key && s[j].provider
                        == record@.provider,
                !known ==> forall|j: int|
                    0 <= j < i ==> (#[trigger] s[j]).key != record@.key || s[j].provider
                        != record@.provider,
            decreases self.providers.len() - i,
        {
            assert(s[i as int] == self.providers[i as int]@);
            if self.providers[i].key == record.key && self.providers[i].provider
                == record.provider {
                known = true;
            }
            i = i + 1;
        }
        assert(known == self@.provides(record@.key, record@.provider));
        if !known && self.providers.len() >= self.max_provider_records {
            return Err(KadError::MaxProviderRecords);
        }
        proof {
            lemma_provided(self@, record@);
        }
        self.drop_providers(&record.key, &record.provider);
        let ghost v = self@;
        self.providers.push(record);
        assert(self.providers.deep_view() =~= v.providers.push(record@));
        Ok(())
    }

    fn providers(&self, key: &Key) -> (r: Vec<ProviderRecord>) {
        let ghost s = self.providers.deep_view();
        let ghost pred = |p: ProviderRecordView| p.key == key@;
        let mut found: Vec<ProviderRecord> = Vec::new();
        let mut i: usize = 0;
        assert(s.take(0).filter(pred) =~= Seq::empty()) by {
            reveal(Seq::filter);
        }
        assert(found.deep_view() =~= Seq::empty());
        while i < self.providers.len()
            invariant
                i <= self.providers.len(),
                s == self.providers.deep_view(),
                pred == (|p: ProviderRecordView| p.key == key@),
                found.deep_view() == s.take(i as int).filter(pred),
            decreases self.providers.len() - i,
        {
            proof {
                assert(s[i as int] == self.providers[i as int]@);
                assert(s.take(i + 1).drop_last() =~= s.take(i as int));
                reveal(Seq::filter);
            }
            if self.providers[i].key == *key {
                let ghost f0 = found.deep_view();
                found.push(self.providers[i].clone());
                assert(found.deep_view() =~= f0.push(s[i as int]));
            }
            i = i + 1;
        }
        assert(s.take(i as int) =~= s);
        found
    }

    fn remove_provider(&mut self, key: &Key, provider: &PeerId)
        ensures
            final(self)@ == (MemoryStoreView {
                providers: old(self)@.providers.filter(
                    |p: ProviderRecordView| p.key != key@ || p.provider != provider@,
                ),
                ..old(self)@
            }),
    {
        proof {
            lemma_unprovided(self@, key@, provider@);
        }
        self.drop_providers(key, provider);
    }
}

/// A record that is stored is found under its key, one that is removed is not found any more, and
/// every other record is found as before. The provider records stay.
pub proof fn lemma_records_changed(s: StoreView, r: RecordView, key: Seq<u8>, k: Seq<u8>)
    ensures
        s.get(k) is Some <==> s.records.contains_key(k),
        s.get(k) matches Some(x) ==> x == s.records[k],
        s.stored(r).get(k) == if k == r.key {
            Some(r)
        } else {
            s.get(k)
        },
        s.removed(key).get(k) == if k == key {
            None
        } else {
            s.get(k)
        },
        s.stored(r).providers == s.providers,
        s.removed(key).providers == s.providers,
{
}

/// A provider record that was added is among the provider records for its key, which holds none that
/// it did not hold before but for that one. The provider records for other keys and all records stay.
pub proof fn lemma_provider_added(
    s: StoreView,
    r: ProviderRecordView,
    next: StoreView,
    p: ProviderRecordView,
    key: Seq<u8>,
)
    requires
        s.provided(r, next),
    ensures
        (next.providers)(r.key).contains(r),
        (next.providers)(r.key).contains(p) && p != r ==> (s.providers)(r.key).contains(p),
        key != r.key ==> (next.providers)(key) == (s.providers)(key),
        next.records == s.records,
{
}

/// The removal of a provider takes out its provider records for the key and no others, and leaves the
/// others in their order. The provider records for other keys and all records stay.
pub proof fn lemma_provider_dropped(
    s: StoreView,
    key: Seq<u8>,
    provider: Seq<u8>,
    p: ProviderRecordView,
    other: Seq<u8>,
)
    ensures
        ({
            let next = s.unprovided(key, provider);
            &&& (next.providers)(key) == (s.providers)(key).filter(
                |x: ProviderRecordView| x.provider != provider,
            )
            &&& (next.providers)(key).contains(p) <==> (s.providers)(key).contains(p) && p.provider
                != provider
            &&& other != key ==> (next.providers)(other) == (s.providers)(other)
            &&& next.records == s.records
        }),
{
    let before = (s.providers)(key);
    let keep = |x: ProviderRecordView| x.provider != provider;
    let after = before.filter(keep);
    if after.contains(p) {
        before.lemma_filter_contains_rev(keep, p);
        let i = choose|i: int| 0 <= i < after.len() && after[i] == p;
        before.lemma_filter_pred(keep, i);
    }
    if before.contains(p) && p.provider != provider {
        let i = choose|i: int| 0 <= i < before.len() && before[i] == p;
        before.lemma_filter_contains(keep, i);
    }
}

/// What is looked up is the last record with the key, and nothing only if no record has the key.
pub proof fn lemma_lookup(s: Seq<RecordView>, key: Seq<u8>)
    ensures
        lookup(s, key) is None <==> forall|i: int|
            0 <= i < s.len() ==> (#[trigger] s[i]).key != key,
        lookup(s, key) matches Some(r) ==> r.key == key && exists|i: int|
            0 <= i < s.len() && #[trigger] s[i] == r && forall|j: int|
                i < j < s.len() ==> (#[trigger] s[j]).key != key,
    decreases s.len(),
{
    if s.len() > 0 {
        let front = s.drop_last();
        lemma_lookup(front, key);
        if s.last().key == key {
            assert(s[s.len() - 1] == s.last());
        } else {
            if let Some(r) = lookup(front, key) {
                let i = choose|i: int|
                    0 <= i < front.len() && #[trigger] front[i] == r && forall|j: int|
                        i < j < front.len() ==> (#[trigger] front[j]).key != key;
                assert(s[i] == r);
                assert forall|j: int| i < j < s.len() implies (#[trigger] s[j]).key != key by {
                    if j < front.len() {
                        assert(front[j] == s[j]);
                    }
                }
            } else {
                assert forall|i: int| 0 <= i < s.len() implies (#[trigger] s[i]).key != key by {
                    if i < front.len() {
                        assert(front[i] == s[i]);
                    }
                }
            }
        }
    }
}

/// A store in memory holds the last record that it has for a key, and the provider records that it
/// has for a key in their order.
pub proof fn lemma_memory_contents(v: MemoryStoreView, key: Seq<u8>, i: int)
    requires
        0 <= i < v.records.len(),
        v.records[i].key == key,
        forall|j: int| i < j < v.records.len() ==> (#[trigger] v.records[j]).key != key,
    ensures
        v.contents().get(key) == Some(v.records[i]),
        (v.contents().providers)(key) == v.providers.filter(|p: ProviderRecordView| p.key == key),
{
    lemma_lookup(v.records, key);
    let r = lookup(v.records, key)->0;
    let m = choose|m: int|
        0 <= m < v.records.len() && #[trigger] v.records[m] == r && forall|j: int|
            m < j < v.records.len() ==> (#[trigger] v.records[j]).key != key;
    if m < i {
        assert(v.records[i].key != key);
    }
}

/// A store in memory holds no record for a key if it has none.
pub proof fn lemma_memory_lacks(v: MemoryStoreView, key: Seq<u8>)
    requires
        forall|j: int| 0 <= j < v.records.len() ==> (#[trigger] v.records[j]).key != key,
    ensures
        v.contents().get(key) is None,
{
    lemma_lookup(v.records, key);
}

/// A store in memory refuses a record whose value is not smaller than the limit, and a new record
/// when it has as many as it may have. It refuses a new provider record when it has as many of them
/// as it may have. A record that takes the place of another is not refused for want of a place.
pub proof fn lemma_memory_refuses(
    m: MemoryStore,
    r: RecordView,
    p: ProviderRecordView,
    e: KadErrorView,
)
    ensures
        m.refuses_record(r, e) ==> r.value.len() >= m@.max_value_bytes || m@.records.len()
            >= m@.max_records,
        m.refuses_record(r, KadErrorView::ValueTooLarge) <==> r.value.len() >= m@.max_value_bytes,
        m.refuses_record(r, KadErrorView::MaxRecords) <==> r.value.len() < m@.max_value_bytes
            && m@.records.len() >= m@.max_records && forall|i: int|
            0 <= i < m@.records.len() ==> (#[trigger] m@.records[i]).key != r.key,
        m.refuses_record(r, e) ==> e == KadErrorView::ValueTooLarge || e
            == KadErrorView::MaxRecords,
        m.refuses_provider(p, e) <==> e == KadErrorView::MaxProviderRecords && m@.providers.len()
            >= m@.max_provider_records && forall|i: int|
            0 <= i < m@.providers.len() ==> (#[trigger] m@.providers[i]).key != p.key
                || m@.providers[i].provider != p.provider,
{
    lemma_lookup(m@.records, r.key);
}

} // verus!
