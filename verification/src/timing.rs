//! Shared timing for ticks, books and other events. No clock reads or host I/O.
//!
//! Inputs are descriptions, not authenticated evidence. The caller obtains them
//! from its trusted clock provider.
use vstd::prelude::*;

verus! {

/// A unique capture-session identifier, bound to one host and boot.
#[derive(Debug, Clone, Copy, PartialEq, Eq)]
pub struct ClockDomain {
    pub session_id: [u8; 16],
    pub epoch: u64,
}

/// Monotonic time is read at the END of the bracket surrounding the UTC read.
#[derive(Debug, Clone, Copy, PartialEq, Eq)]
pub struct ClockReading {
    pub domain: ClockDomain,
    pub utc_ns: i64,
    pub monotonic_ns: i64,
    pub read_span_ns: u64,
}

/// One immutable, persisted provider observation.
#[derive(Debug, Clone, Copy, PartialEq, Eq)]
pub struct ClockState {
    pub domain: ClockDomain,
    pub id: u64,
    pub collection_started_mono_ns: i64,
    pub published_mono_ns: i64,
    pub valid_until_mono_ns: i64,
    pub synchronized: bool,
    pub base_error_ns: u64,
    pub growth_allowance_ppb: Option<u64>,
}

pub open spec fn all_zero(id: Seq<u8>) -> bool {
    forall|i: int| 0 <= i < id.len() ==> id[i] == 0u8
}

impl ClockDomain {
    pub open spec fn spec_valid(self) -> bool {
        !all_zero(self.session_id@) && self.epoch != 0
    }

    pub fn valid(self) -> (r: bool)
        ensures
            r == self.spec_valid(),
    {
        let mut nonzero = false;
        let mut i: usize = 0;
        while i < 16
            invariant
                i <= 16,
                nonzero == !(forall|j: int| 0 <= j < i ==> self.session_id@[j] == 0u8),
            decreases 16 - i,
        {
            if self.session_id[i] != 0 {
                nonzero = true;
            }
            i = i + 1;
        }
        nonzero && self.epoch != 0
    }
}



impl ClockReading {
    pub open spec fn spec_valid(self) -> bool {
        &&& self.domain.spec_valid()
        &&& self.monotonic_ns >= 0
        &&& self.read_span_ns <= self.monotonic_ns
    }

    /// Monotonic time at the start of the bracket around the UTC read.
    pub open spec fn bracket_start(self) -> int {
        self.monotonic_ns - self.read_span_ns
    }

    pub fn valid(self) -> (r: bool)
        ensures
            r == self.spec_valid(),
    {
        self.domain.valid() && self.monotonic_ns >= 0 && self.read_span_ns <= self.monotonic_ns as u64
    }
}

impl ClockState {
    pub open spec fn spec_valid(self) -> bool {
        &&& self.domain.spec_valid()
        &&& self.id != 0
        &&& self.collection_started_mono_ns >= 0
        &&& self.published_mono_ns >= self.collection_started_mono_ns
        &&& self.valid_until_mono_ns > self.published_mono_ns
        &&& self.base_error_ns > 0
    }

    pub fn valid(self) -> (r: bool)
        ensures
            r == self.spec_valid(),
    {
        self.domain.valid() && self.id != 0 && self.collection_started_mono_ns >= 0
            && self.published_mono_ns >= self.collection_started_mono_ns
            && self.valid_until_mono_ns > self.published_mono_ns && self.base_error_ns > 0
    }
}

/// Two domains are the same capture session and clock epoch.
pub open spec fn same_domain(a: ClockDomain, b: ClockDomain) -> bool {
    a.session_id@ == b.session_id@ && a.epoch == b.epoch
}

fn same_session(a: &[u8; 16], b: &[u8; 16]) -> (r: bool)
    ensures
        r == (a@ == b@),
{
    let mut i: usize = 0;
    while i < 16
        invariant
            i <= 16,
            forall|j: int| 0 <= j < i ==> a@[j] == b@[j],
        decreases 16 - i,
    {
        if a[i] != b[i] {
            return false;
        }
        i = i + 1;
    }
    assert(a@ =~= b@);
    true
}

fn domains_match(a: &ClockDomain, b: &ClockDomain) -> (r: bool)
    ensures
        r == same_domain(*a, *b),
{
    same_session(&a.session_id, &b.session_id) && a.epoch == b.epoch
}

#[derive(Debug, Clone, Copy, PartialEq, Eq, Structural)]
pub enum TimeQuality {
    Estimated,
    MissingEvidence,
    InvalidEvidence,
    DifferentDomain,
    FutureEvidence,
    ExpiredEvidence,
    Unsynchronized,
    MissingGrowthModel,
    ArithmeticOverflow,
}

#[derive(Debug, Clone, Copy, PartialEq, Eq, Structural)]
pub struct UtcInterval {
    pub earliest_ns: i64,
    pub latest_ns: i64,
}

#[derive(Debug, Clone, Copy, PartialEq, Eq, Structural)]
pub enum TimingError {
    InvalidReading,
    InvalidSourceResolution,
    InvalidSequence,
    DifferentSession,
    MonotonicRegression,
    EpochRegression,
    UnmarkedWallclockRegression,
}

impl TimingError {
    /// The human-readable description of this error.
    pub fn message(&self) -> (r: &'static str)
        ensures
            *self == TimingError::InvalidReading ==> r@ == "invalid clock reading or domain"@,
            *self == TimingError::InvalidSourceResolution ==> r@ == "source resolution must be positive"@,
            *self == TimingError::InvalidSequence ==> r@ == "capture sequence must be positive"@,
            *self == TimingError::DifferentSession ==> r@ == "receive and availability use different sessions"@,
            *self == TimingError::MonotonicRegression ==> r@ == "availability precedes receipt"@,
            *self == TimingError::EpochRegression ==> r@ == "availability clock epoch regresses"@,
            *self == TimingError::UnmarkedWallclockRegression ==> r@ == "wallclock regression requires a new epoch"@,
    {
        match self {
            TimingError::InvalidReading => "invalid clock reading or domain",
            TimingError::InvalidSourceResolution => "source resolution must be positive",
            TimingError::InvalidSequence => "capture sequence must be positive",
            TimingError::DifferentSession => "receive and availability use different sessions",
            TimingError::MonotonicRegression => "availability precedes receipt",
            TimingError::EpochRegression => "availability clock epoch regresses",
            TimingError::UnmarkedWallclockRegression => "wallclock regression requires a new epoch",
        }
    }
}

/// Ceiling of `x / d` for nonnegative `x` and positive `d`.
pub open spec fn ceil_div(x: int, d: int) -> int {
    (x + d - 1) / d
}

/// The estimated error: base error, growth allowance over the age since collection
/// start (rounded up to a whole nanosecond) and the width of the read bracket.
pub open spec fn error_bound(reading: ClockReading, state: ClockState, growth: u64) -> int {
    state.base_error_ns + ceil_div(
        (reading.monotonic_ns - state.collection_started_mono_ns) * growth,
        1_000_000_000,
    ) + reading.read_span_ns
}

/// An error estimate is representable, and so is the interval around `utc`.
pub open spec fn representable(utc: i64, error: int) -> bool {
    &&& error <= u64::MAX
    &&& i64::MIN <= utc - error
    &&& utc + error <= i64::MAX
}

/// Whether the evidence was published before the whole read bracket (so its id is recorded).
pub open spec fn evidence_precedes(reading: ClockReading, state: Option<&ClockState>) -> bool {
    match state {
        None => false,
        Some(s) => s.spec_valid() && same_domain(s.domain, reading.domain)
            && s.published_mono_ns <= reading.bracket_start(),
    }
}

/// The quality that a reading receives from optional clock evidence.
pub open spec fn assessed_quality(reading: ClockReading, state: Option<&ClockState>) -> TimeQuality {
    match state {
        None => TimeQuality::MissingEvidence,
        Some(s) => if !s.spec_valid() {
            TimeQuality::InvalidEvidence
        } else if !same_domain(s.domain, reading.domain) {
            TimeQuality::DifferentDomain
        } else if s.published_mono_ns > reading.bracket_start() {
            TimeQuality::FutureEvidence
        } else if reading.monotonic_ns > s.valid_until_mono_ns {
            TimeQuality::ExpiredEvidence
        } else if !s.synchronized {
            TimeQuality::Unsynchronized
        } else {
            match s.growth_allowance_ppb {
                None => TimeQuality::MissingGrowthModel,
                Some(g) => if representable(reading.utc_ns, error_bound(reading, *s, g)) {
                    TimeQuality::Estimated
                } else {
                    TimeQuality::ArithmeticOverflow
                },
            }
        },
    }
}

/// UTC stays unmodified even when evidence fails. An absent interval is never
/// equivalent to a zero error estimate. This is an estimated, not physical bound.
#[derive(Debug, Clone, Copy, PartialEq, Eq)]
pub struct AssessedTime {
    reading: ClockReading,
    clock_state_id: Option<u64>,
    quality: TimeQuality,
    error_estimate_ns: Option<u64>,
    interval: Option<UtcInterval>,
}

impl AssessedTime {
    /// Every assessment keeps these: an interval and an error estimate exist exactly for
    /// an estimated quality; the error is positive; the interval is UTC plus/minus the error;
    /// an estimate always names the clock state it came from.
    pub open spec fn wf(self) -> bool {
        let q = self.spec_quality();
        let e = self.spec_error_estimate_ns();
        let iv = self.spec_interval();
        &&& (q == TimeQuality::Estimated) == iv.is_some()
        &&& (q == TimeQuality::Estimated) == e.is_some()
        &&& q == TimeQuality::Estimated ==> {
            &&& self.spec_clock_state_id().is_some()
            &&& e.unwrap() > 0
            &&& iv.unwrap().earliest_ns == self.spec_reading().utc_ns - e.unwrap()
            &&& iv.unwrap().latest_ns == self.spec_reading().utc_ns + e.unwrap()
        }
    }

    pub closed spec fn spec_reading(self) -> ClockReading {
        self.reading
    }

    pub closed spec fn spec_clock_state_id(self) -> Option<u64> {
        self.clock_state_id
    }

    pub closed spec fn spec_quality(self) -> TimeQuality {
        self.quality
    }

    pub closed spec fn spec_error_estimate_ns(self) -> Option<u64> {
        self.error_estimate_ns
    }

    pub closed spec fn spec_interval(self) -> Option<UtcInterval> {
        self.interval
    }

    /// Assess a reading against optional clock evidence. Only an invalid reading is refused.
    pub fn assess(reading: ClockReading, state: Option<&ClockState>) -> (r: Result<Self, TimingError>)
        ensures
            !reading.spec_valid() ==> r == Err::<Self, TimingError>(TimingError::InvalidReading),
            reading.spec_valid() ==> r is Ok,
            r matches Ok(a) ==> {
                &&& a.wf()
                &&& a.spec_reading() == reading
                &&& a.spec_quality() == assessed_quality(reading, state)
                &&& a.spec_clock_state_id() == (if evidence_precedes(reading, state) {
                    Some(state.unwrap().id)
                } else {
                    None
                })
                &&& a.spec_quality() == TimeQuality::Estimated ==> {
                    let e = error_bound(reading, *state.unwrap(), state.unwrap().growth_allowance_ppb.unwrap());
                    &&& a.spec_error_estimate_ns() == Some(e as u64)
                    &&& a.spec_interval() == Some(UtcInterval {
                        earliest_ns: (reading.utc_ns - e) as i64,
                        latest_ns: (reading.utc_ns + e) as i64,
                    })
                }
                &&& a.spec_quality() != TimeQuality::Estimated ==> {
                    &&& a.spec_error_estimate_ns() is None
                    &&& a.spec_interval() is None
                }
            },
    {
        if !reading.valid() {
            return Err(TimingError::InvalidReading);
        }
        let state = match state {
            None => {
                return Ok(Self {
                    reading,
                    clock_state_id: None,
                    quality: TimeQuality::MissingEvidence,
                    error_estimate_ns: None,
                    interval: None,
                });
            },
            Some(state) => state,
        };
        let failed = |quality: TimeQuality, id: Option<u64>| -> (a: Self)
            requires
                quality != TimeQuality::Estimated,
            ensures
                a.reading == reading && a.clock_state_id == id && a.quality == quality
                    && a.error_estimate_ns is None && a.interval is None,
        {
            Self { reading, clock_state_id: id, quality, error_estimate_ns: None, interval: None }
        };
        if !state.valid() {
            return Ok(failed(TimeQuality::InvalidEvidence, None));
        }
        if !domains_match(&state.domain, &reading.domain) {
            return Ok(failed(TimeQuality::DifferentDomain, None));
        }
        // A publication during the read bracket might postdate the UTC read.
        // Only a state already available before the bracket can qualify it.
        let bracket_start = reading.monotonic_ns - reading.read_span_ns as i64;
        if state.published_mono_ns > bracket_start {
            return Ok(failed(TimeQuality::FutureEvidence, None));
        }
        let id = Some(state.id);
        if reading.monotonic_ns > state.valid_until_mono_ns {
            return Ok(failed(TimeQuality::ExpiredEvidence, id));
        }
        if !state.synchronized {
            return Ok(failed(TimeQuality::Unsynchronized, id));
        }
        let growth = match state.growth_allowance_ppb {
            None => {
                return Ok(failed(TimeQuality::MissingGrowthModel, id));
            },
            Some(g) => g,
        };
        let age = (reading.monotonic_ns - state.collection_started_mono_ns) as u128;
        let g = growth as u128;
        assert(age * g < 0x8000_0000_0000_0000_0000_0000_0000_0000u128) by (nonlinear_arith)
            requires
                age < 0x8000_0000_0000_0000u128,
                g < 0x1_0000_0000_0000_0000u128,
        ;
        let product = age * g;
        let aging = (product + 999_999_999) / 1_000_000_000;
        let total = state.base_error_ns as u128 + aging + reading.read_span_ns as u128;
        // Calculate in i128; an interval wider than the stored i64 UTC domain
        // cannot be presented as a valid bound by clipping its endpoints.
        if total > u64::MAX as u128 {
            return Ok(failed(TimeQuality::ArithmeticOverflow, id));
        }
        let error = total as u64;
        let earliest = reading.utc_ns as i128 - error as i128;
        let latest = reading.utc_ns as i128 + error as i128;
        if earliest < i64::MIN as i128 || latest > i64::MAX as i128 {
            return Ok(failed(TimeQuality::ArithmeticOverflow, id));
        }
        Ok(Self {
            reading,
            clock_state_id: id,
            quality: TimeQuality::Estimated,
            error_estimate_ns: Some(error),
            interval: Some(UtcInterval { earliest_ns: earliest as i64, latest_ns: latest as i64 }),
        })
    }

    pub fn reading(&self) -> (r: ClockReading)
        ensures
            r == self.spec_reading(),
    {
        self.reading
    }

    pub fn clock_state_id(&self) -> (r: Option<u64>)
        ensures
            r == self.spec_clock_state_id(),
    {
        self.clock_state_id
    }

    pub fn quality(&self) -> (r: TimeQuality)
        ensures
            r == self.spec_quality(),
    {
        self.quality
    }

    pub fn error_estimate_ns(&self) -> (r: Option<u64>)
        ensures
            r == self.spec_error_estimate_ns(),
    {
        self.error_estimate_ns
    }

    pub fn interval(&self) -> (r: Option<UtcInterval>)
        ensures
            r == self.spec_interval(),
    {
        self.interval
    }
}


#[derive(Debug, Clone, Copy, PartialEq, Eq, Structural)]
pub enum SourceTimeKind {
    ExchangeEvent,
    BrokerSend,
    Other,
}

/// Only construct when the source contract permits normalization to UTC.
#[derive(Debug, Clone, Copy, PartialEq, Eq, Structural)]
pub struct SourceTime {
    pub utc_ns: i64,
    pub resolution_ns: u64,
    pub kind: SourceTimeKind,
}

/// The first rule that a proposed event timing breaks, if any.
pub open spec fn timing_violation(
    broker_time: Option<SourceTime>,
    received: AssessedTime,
    available: AssessedTime,
    capture_sequence: u64,
) -> Option<TimingError> {
    let r = received.spec_reading();
    let a = available.spec_reading();
    if broker_time matches Some(source) && source.resolution_ns == 0 {
        Some(TimingError::InvalidSourceResolution)
    } else if capture_sequence == 0 {
        Some(TimingError::InvalidSequence)
    } else if r.domain.session_id@ != a.domain.session_id@ {
        Some(TimingError::DifferentSession)
    } else if a.monotonic_ns < r.monotonic_ns {
        Some(TimingError::MonotonicRegression)
    } else if a.domain.epoch < r.domain.epoch {
        Some(TimingError::EpochRegression)
    } else if a.domain.epoch == r.domain.epoch && a.utc_ns < r.utc_ns {
        Some(TimingError::UnmarkedWallclockRegression)
    } else {
        None
    }
}

/// Shared companion metadata for any tick, book or news payload. Independent
/// receive/availability assessments prevent reusing an expired receive estimate.
#[derive(Debug, Clone, Copy, PartialEq, Eq)]
pub struct EventTiming {
    schema_version: u32,
    broker_time: Option<SourceTime>,
    received: AssessedTime,
    available: AssessedTime,
    capture_sequence: u64,
}

impl EventTiming {
    /// Every event timing satisfies all the rules that `new` checks.
    pub open spec fn wf(self) -> bool {
        &&& self.spec_schema_version() == 1
        &&& timing_violation(
            self.spec_broker_time(),
            self.spec_received(),
            self.spec_available(),
            self.spec_capture_sequence(),
        ) is None
    }

    pub closed spec fn spec_broker_time(self) -> Option<SourceTime> {
        self.broker_time
    }

    pub closed spec fn spec_received(self) -> AssessedTime {
        self.received
    }

    pub closed spec fn spec_available(self) -> AssessedTime {
        self.available
    }

    pub closed spec fn spec_capture_sequence(self) -> u64 {
        self.capture_sequence
    }

    pub closed spec fn spec_schema_version(self) -> u32 {
        self.schema_version
    }

    /// Whether the availability interval lies entirely at or before `cutoff_ns`.
    pub open spec fn spec_available_by(self, cutoff_ns: i64) -> bool {
        self.spec_available().spec_interval() matches Some(iv) && iv.latest_ns <= cutoff_ns
    }

    pub fn new(
        broker_time: Option<SourceTime>,
        received: AssessedTime,
        available: AssessedTime,
        capture_sequence: u64,
    ) -> (r: Result<Self, TimingError>)
        ensures
            timing_violation(broker_time, received, available, capture_sequence) matches Some(e)
                ==> r == Err::<Self, TimingError>(e),
            timing_violation(broker_time, received, available, capture_sequence) is None ==> (r matches Ok(t) && {
                &&& t.wf()
                &&& t.spec_broker_time() == broker_time
                &&& t.spec_received() == received
                &&& t.spec_available() == available
                &&& t.spec_capture_sequence() == capture_sequence
                &&& t.spec_schema_version() == 1
            }),
    {
        if let Some(source) = broker_time {
            if source.resolution_ns == 0 {
                return Err(TimingError::InvalidSourceResolution);
            }
        }
        if capture_sequence == 0 {
            return Err(TimingError::InvalidSequence);
        }
        if !same_session(&received.reading.domain.session_id, &available.reading.domain.session_id) {
            return Err(TimingError::DifferentSession);
        }
        if available.reading.monotonic_ns < received.reading.monotonic_ns {
            return Err(TimingError::MonotonicRegression);
        }
        if available.reading.domain.epoch < received.reading.domain.epoch {
            return Err(TimingError::EpochRegression);
        }
        if available.reading.domain.epoch == received.reading.domain.epoch
            && available.reading.utc_ns < received.reading.utc_ns {
            return Err(TimingError::UnmarkedWallclockRegression);
        }
        Ok(Self { schema_version: 1, broker_time, received, available, capture_sequence })
    }

    pub fn broker_time(&self) -> (r: Option<SourceTime>)
        ensures
            r == self.spec_broker_time(),
    {
        self.broker_time
    }

    pub fn received(&self) -> (r: AssessedTime)
        ensures
            r == self.spec_received(),
    {
        self.received
    }

    pub fn available(&self) -> (r: AssessedTime)
        ensures
            r == self.spec_available(),
    {
        self.available
    }

    pub fn capture_sequence(&self) -> (r: u64)
        ensures
            r == self.spec_capture_sequence(),
    {
        self.capture_sequence
    }

    /// Conservative filter under the stated estimate assumptions. Stream order
    /// and dependency checks remain the replay driver's responsibility.
    pub fn available_by_estimated_utc(&self, cutoff_ns: i64) -> (r: bool)
        ensures
            r == self.spec_available_by(cutoff_ns),
    {
        match self.available.interval {
            Some(interval) => interval.latest_ns <= cutoff_ns,
            None => false,
        }
    }
}

/// Availability by a cutoff holds for every later cutoff.
pub proof fn lemma_available_by_is_monotone(timing: EventTiming, earlier: i64, later: i64)
    requires
        earlier <= later,
        timing.spec_available_by(earlier),
    ensures
        timing.spec_available_by(later),
{
}

/// An event counts as available only when its own availability assessment is an estimate,
/// and then exactly when the upper end of UTC plus its error is at or before the cutoff.
pub proof fn lemma_available_only_when_estimated(timing: EventTiming, cutoff_ns: i64)
    requires
        timing.spec_available().wf(),
    ensures
        timing.spec_available_by(cutoff_ns) <==> {
            &&& timing.spec_available().spec_quality() == TimeQuality::Estimated
            &&& timing.spec_available().spec_reading().utc_ns
                + timing.spec_available().spec_error_estimate_ns().unwrap() <= cutoff_ns
        },
{
}

/// An estimated assessment never has zero uncertainty, and its interval is the raw UTC
/// reading widened by the error on both sides; a failed assessment has neither.
pub proof fn lemma_estimate_is_positive_and_centered(a: AssessedTime)
    requires
        a.wf(),
    ensures
        a.spec_quality() == TimeQuality::Estimated ==> {
            &&& a.spec_error_estimate_ns() is Some
            &&& a.spec_error_estimate_ns().unwrap() > 0
            &&& a.spec_interval() is Some
            &&& a.spec_interval().unwrap().earliest_ns == a.spec_reading().utc_ns
                - a.spec_error_estimate_ns().unwrap()
            &&& a.spec_interval().unwrap().latest_ns == a.spec_reading().utc_ns
                + a.spec_error_estimate_ns().unwrap()
            &&& a.spec_clock_state_id() is Some
        },
        a.spec_quality() != TimeQuality::Estimated ==> a.spec_interval() is None
            && a.spec_error_estimate_ns() is None,
{
}

/// Evidence published after the start of the read bracket never qualifies a reading,
/// however good it is otherwise.
pub proof fn lemma_later_evidence_never_qualifies(reading: ClockReading, state: ClockState)
    requires
        state.spec_valid(),
        same_domain(state.domain, reading.domain),
        state.published_mono_ns > reading.bracket_start(),
    ensures
        assessed_quality(reading, Some(&state)) == TimeQuality::FutureEvidence,
        !evidence_precedes(reading, Some(&state)),
{
}

/// Every event timing that exists satisfies the checks of `new`.
pub proof fn lemma_event_timing_is_consistent(timing: EventTiming)
    requires
        timing.wf(),
    ensures
        timing_violation(
            timing.spec_broker_time(),
            timing.spec_received(),
            timing.spec_available(),
            timing.spec_capture_sequence(),
        ) is None,
        timing.spec_capture_sequence() > 0,
        timing.spec_received().spec_reading().domain.session_id@
            == timing.spec_available().spec_reading().domain.session_id@,
        timing.spec_received().spec_reading().monotonic_ns
            <= timing.spec_available().spec_reading().monotonic_ns,
{
}

/// What every event timing satisfies: its receipt and availability readings come from the same
/// clock session, availability is not earlier in monotonic time nor from an earlier clock epoch,
/// within one epoch its UTC time is not earlier, and its capture sequence is positive.
pub proof fn lemma_event_timing_order(t: EventTiming)
    requires
        t.wf(),
    ensures
        t.spec_available().spec_reading().domain.session_id@ == t.spec_received().spec_reading().domain.session_id@,
        t.spec_available().spec_reading().monotonic_ns >= t.spec_received().spec_reading().monotonic_ns,
        t.spec_available().spec_reading().domain.epoch >= t.spec_received().spec_reading().domain.epoch,
        t.spec_available().spec_reading().domain.epoch == t.spec_received().spec_reading().domain.epoch
            ==> t.spec_available().spec_reading().utc_ns >= t.spec_received().spec_reading().utc_ns,
        t.spec_capture_sequence() > 0,
{
}

/// An availability reading from an earlier clock epoch than the receipt is never accepted; where
/// the readings share a session, monotonic time does not go back and the source resolution and
/// sequence are valid, it is refused as an epoch regression.
pub proof fn lemma_epoch_regression_refused(
    broker_time: Option<SourceTime>,
    received: AssessedTime,
    available: AssessedTime,
    capture_sequence: u64,
)
    requires
        available.spec_reading().domain.epoch < received.spec_reading().domain.epoch,
    ensures
        timing_violation(broker_time, received, available, capture_sequence) is Some,
        !(broker_time matches Some(source) && source.resolution_ns == 0) && capture_sequence != 0
            && available.spec_reading().domain.session_id@ == received.spec_reading().domain.session_id@
            && available.spec_reading().monotonic_ns >= received.spec_reading().monotonic_ns
            ==> timing_violation(broker_time, received, available, capture_sequence) == Some(TimingError::EpochRegression),
{
}

} // verus!
