//! The periodic jobs.
use crate::collections::ByteSet;
use crate::identity::PeerId;
use crate::record;
use crate::time::Duration;
use vstd::prelude::*;

verus! {

/// What a [`PutRecordJob`] says.
#[verifier::ext_equal]
pub struct PutRecordJobView {
    pub local_id: Seq<u8>,
    pub interval: Duration,
    pub publish_interval: Option<Duration>,
    pub record_ttl: Option<Duration>,
    pub skipped: Set<Seq<u8>>,
}

/// Periodic job for replicating and publishing records.
pub struct PutRecordJob {
    local_id: PeerId,
    interval: Duration,
    publish_interval: Option<Duration>,
    record_ttl: Option<Duration>,
    skipped: ByteSet,
}

impl View for PutRecordJob {
    type V = PutRecordJobView;

    closed spec fn view(&self) -> PutRecordJobView {
        PutRecordJobView {
            local_id: self.local_id@,
            interval: self.interval,
            publish_interval: self.publish_interval,
            record_ttl: self.record_ttl,
            skipped: self.skipped@,
        }
    }
}

impl DeepView for PutRecordJob {
    type V = PutRecordJobView;

    open spec fn deep_view(&self) -> PutRecordJobView {
        self@
    }
}

impl PutRecordJob {
    /// Creates a new periodic job for replicating and re-publishing locally stored records.
    pub fn new(
        local_id: PeerId,
        interval: Duration,
        publish_interval: Option<Duration>,
        record_ttl: Option<Duration>,
    ) -> (r: Self)
        ensures
            r@ == (PutRecordJobView {
                local_id: local_id@,
                interval,
                publish_interval,
                record_ttl,
                skipped: Set::empty(),
            }),
    {
        PutRecordJob { local_id, interval, publish_interval, record_ttl, skipped: ByteSet::new() }
    }

    /// The interval at which the job runs.
    pub fn interval(&self) -> (r: Duration)
        ensures
            r == self@.interval,
    {
        self.interval
    }

    /// Adds the key of a record that is ignored on the current or next run of the job.
    pub fn skip(&mut self, key: record::Key)
        ensures
            final(self)@ == (PutRecordJobView {
                skipped: old(self)@.skipped.insert(key@),
                ..old(self)@
            }),
    {
        let k: Vec<u8> = key.as_bytes().clone();
        assert(k@ =~= key@);
        self.skipped.insert(k);
    }

    /// Whether the record with the given key is ignored on the current or next run of the job.
    pub fn skips(&self, key: &record::Key) -> (r: bool)
        ensures
            r == self@.skipped.contains(key@),
    {
        self.skipped.contains(key.as_bytes())
    }
}

/// Periodic job for replicating provider records.
pub struct AddProviderJob {
    interval: Duration,
}

impl AddProviderJob {
    /// The interval at which the job runs.
    pub closed spec fn interval_spec(self) -> Duration {
        self.interval
    }

    /// Creates a new periodic job for provider announcements.
    pub fn new(interval: Duration) -> (r: Self)
        ensures
            r.interval_spec() == interval,
    {
        AddProviderJob { interval }
    }

    /// The interval at which the job runs.
    pub fn interval(&self) -> (r: Duration)
        ensures
            r == self.interval_spec(),
    {
        self.interval
    }
}

} // verus!
