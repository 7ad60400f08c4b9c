//! Spans of time, points in time, and the clock that gives them.
use vstd::arithmetic::power2::pow2;
use vstd::prelude::*;

verus! {

/// The number of nanoseconds in a second.
pub const NANOS_PER_SEC: u32 = 1_000_000_000;

/// A span of time, to the nanosecond.
#[derive(Debug, Clone, Copy, PartialEq, Eq, Structural)]
pub struct Duration {
    secs: u64,
    nanos: u32,
}

impl View for Duration {
    type V = nat;

    /// The span in nanoseconds.
    closed spec fn view(&self) -> nat {
        self.secs as nat * 1_000_000_000 + self.nanos as nat
    }
}

impl Duration {
    #[verifier::type_invariant]
    spec fn normal(self) -> bool {
        self.nanos < 1_000_000_000
    }

    /// The longest span, in nanoseconds.
    pub open spec fn max_nanos() -> nat {
        (u64::MAX as nat) * 1_000_000_000 + 999_999_999
    }

    /// A span of whole seconds.
    pub fn from_secs(secs: u64) -> (r: Self)
        ensures
            r@ == secs as nat * 1_000_000_000,
    {
        Duration { secs, nanos: 0 }
    }

    /// A span of whole seconds and a fraction of a second in nanoseconds.
    pub fn new(secs: u64, nanos: u32) -> (r: Self)
        requires
            nanos < NANOS_PER_SEC,
        ensures
            r@ == secs as nat * 1_000_000_000 + nanos as nat,
    {
        Duration { secs, nanos }
    }

    /// The number of whole seconds in the span.
    pub fn as_secs(self) -> (r: u64)
        ensures
            r as nat == self@ / 1_000_000_000,
    {
        proof {
            use_type_invariant(&self);
        }
        self.secs
    }

    /// The span in nanoseconds.
    pub fn as_nanos(self) -> (r: u128)
        ensures
            r as nat == self@,
            r as nat <= Duration::max_nanos(),
    {
        proof {
            use_type_invariant(&self);
        }
        self.secs as u128 * 1_000_000_000 + self.nanos as u128
    }
}

/// A point in time: the nanoseconds that have passed since the clock was started.
#[derive(Debug, Clone, Copy, PartialEq, Eq, Structural)]
pub struct Instant {
    pub nanos: u128,
}

impl Instant {
    /// Whether any span of time can be added to this point in time.
    pub open spec fn early(self) -> bool {
        self.nanos + Duration::max_nanos() <= u128::MAX
    }

    /// The point in time that lies `d` nanoseconds after this one.
    pub open spec fn later_by(self, d: nat) -> Instant {
        Instant { nanos: (self.nanos + d) as u128 }
    }

    /// The earlier of two points in time.
    pub open spec fn earlier(self, other: Instant) -> Instant {
        if self.nanos <= other.nanos {
            self
        } else {
            other
        }
    }

    /// The point in time at which `elapsed` has passed since the clock was started.
    pub fn from_elapsed(elapsed: Duration) -> (r: Instant)
        ensures
            r.nanos == elapsed@,
            r.early(),
    {
        Instant { nanos: elapsed.as_nanos() }
    }

    /// The point in time that lies `d` after this one.
    pub fn after(self, d: Duration) -> (r: Instant)
        requires
            self.early(),
        ensures
            r == self.later_by(d@),
    {
        Instant { nanos: self.nanos + d.as_nanos() }
    }
}

/// The point in time at which something that lives for `ttl` from `now` on expires.
pub open spec fn expiry_spec(now: Instant, ttl: Option<Duration>) -> Option<Instant> {
    match ttl {
        Some(d) => Some(now.later_by(d@)),
        None => None,
    }
}

/// The point in time at which something that lives for `ttl` from `now` on expires. Without a
/// `ttl` it never does.
pub fn expiry(now: Instant, ttl: Option<Duration>) -> (r: Option<Instant>)
    requires
        now.early(),
    ensures
        r == expiry_spec(now, ttl),
{
    match ttl {
        Some(d) => Some(now.after(d)),
        None => None,
    }
}

/// The nanoseconds that are left of `nanos` once its whole seconds were halved `exp` times.
pub open spec fn exp_decrease_spec(nanos: nat, exp: u32) -> nat {
    if exp < 64 {
        (nanos / 1_000_000_000) / pow2(exp as nat) * 1_000_000_000
    } else {
        0
    }
}

/// Exponentially decreases the given duration (base 2), in whole seconds.
pub fn exp_decrease(ttl: Duration, exp: u32) -> (r: Duration)
    ensures
        r@ == exp_decrease_spec(ttl@, exp),
        r@ <= ttl@,
{
    let secs: u64 = ttl.as_secs();
    if exp < 64 {
        let shift: u64 = exp as u64;
        proof {
            vstd::bits::lemma_u64_shr_is_div(secs, shift);
            vstd::arithmetic::power2::lemma_pow2_pos(shift as nat);
            vstd::arithmetic::div_mod::lemma_div_is_ordered_by_denominator(
                secs as int,
                1,
                pow2(shift as nat) as int,
            );
        }
        Duration::from_secs(secs >> shift)
    } else {
        Duration::from_secs(0)
    }
}

/// The larger the exponent, the shorter the span that is left. Whole seconds are left of it as they
/// are if the exponent is zero.
pub proof fn lemma_exp_decrease(nanos: nat, a: u32, b: u32)
    requires
        a <= b,
    ensures
        exp_decrease_spec(nanos, b) <= exp_decrease_spec(nanos, a) <= nanos,
        exp_decrease_spec(nanos, 0) == nanos / 1_000_000_000 * 1_000_000_000,
{
    let secs = nanos / 1_000_000_000;
    vstd::arithmetic::power2::lemma2_to64();
    vstd::arithmetic::power2::lemma_pow2_pos(a as nat);
    vstd::arithmetic::power2::lemma_pow2_pos(b as nat);
    if a < b {
        vstd::arithmetic::power2::lemma_pow2_strictly_increases(a as nat, b as nat);
    }
    vstd::arithmetic::div_mod::lemma_div_is_ordered_by_denominator(
        secs as int,
        pow2(a as nat) as int,
        pow2(b as nat) as int,
    );
    vstd::arithmetic::div_mod::lemma_div_is_ordered_by_denominator(
        secs as int,
        1,
        pow2(a as nat) as int,
    );
}

/// `std::time::Instant`, a reading of the monotonic clock.
#[verifier::external_type_specification]
#[verifier::external_body]
pub struct ExStdInstant(std::time::Instant);

/// Calls `std::time::Instant::now`. Nothing is claimed of the reading.
#[verifier::external_body]
fn read_monotonic_clock() -> (r: std::time::Instant) {
    std::time::Instant::now()
}

/// Calls `std::time::Instant::elapsed` and hands the span back as whole seconds and the
/// nanoseconds of the last, incomplete second. Only that the latter are less than a second is
/// claimed, as `std::time::Duration::subsec_nanos` documents.
#[verifier::external_body]
fn elapsed_since(start: &std::time::Instant) -> (r: (u64, u32))
    ensures
        r.1 < 1_000_000_000,
{
    let d = start.elapsed();
    (d.as_secs(), d.subsec_nanos())
}

/// A clock that counts from the moment at which it was started.
pub struct Clock {
    start: std::time::Instant,
}

impl Clock {
    /// Whether the clock may show `t`: the time that has passed since it was started is a span of
    /// time.
    pub closed spec fn may_show(self, t: Instant) -> bool {
        t.nanos <= Duration::max_nanos()
    }

    /// Starts a clock.
    pub fn start() -> Clock {
        Clock { start: read_monotonic_clock() }
    }

    /// The current time, early enough for any span of time to be added to it.
    pub fn now(&self) -> (r: Instant)
        ensures
            r.early(),
            self.may_show(r),
    {
        let (secs, nanos) = elapsed_since(&self.start);
        Instant::from_elapsed(Duration::new(secs, nanos))
    }
}

/// Each further step of the exponent halves the whole seconds that are left.
pub proof fn lemma_halved(nanos: nat, exp: u32)
    requires
        nanos <= Duration::max_nanos(),
        exp < u32::MAX,
    ensures
        exp_decrease_spec(nanos, 0) / 1_000_000_000 == nanos / 1_000_000_000,
        exp_decrease_spec(nanos, (exp + 1) as u32) / 1_000_000_000 == (exp_decrease_spec(nanos, exp)
            / 1_000_000_000) / 2,
        exp_decrease_spec(nanos, exp) % 1_000_000_000 == 0,
{
    let secs = nanos / 1_000_000_000;
    vstd::arithmetic::power2::lemma2_to64();
    vstd::arithmetic::power2::lemma2_to64_rest();
    if exp < 64 {
        vstd::arithmetic::power2::lemma_pow2_pos(exp as nat);
        vstd::arithmetic::power2::lemma_pow2_unfold((exp + 1) as nat);
        vstd::arithmetic::div_mod::lemma_div_denominator(
            secs as int,
            pow2(exp as nat) as int,
            2,
        );
        assert(pow2(exp as nat) * 2 == pow2((exp + 1) as nat));
        if exp == 63 {
            vstd::arithmetic::div_mod::lemma_basic_div(secs as int, pow2(64) as int);
        }
    }
}

/// Something expires after its lifetime has passed, and never if it has none.
pub proof fn lemma_expiry(now: Instant, ttl: Option<Duration>)
    requires
        now.early(),
        ttl matches Some(d) ==> d@ <= Duration::max_nanos(),
    ensures
        match ttl {
            Some(d) => expiry_spec(now, ttl) is Some && expiry_spec(now, ttl)->0.nanos - now.nanos
                == d@,
            None => expiry_spec(now, ttl) is None,
        },
{
}

/// The earlier of two points in time is one of them, and neither lies before it.
pub proof fn lemma_earlier(a: Instant, b: Instant)
    ensures
        a.earlier(b) == a || a.earlier(b) == b,
        a.earlier(b).nanos <= a.nanos,
        a.earlier(b).nanos <= b.nanos,
{
}

} // verus!
