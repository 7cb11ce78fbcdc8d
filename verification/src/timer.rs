//! Stage timing of a run: preprocessing, calculation, output and the whole.
use vstd::prelude::*;
use std::time::{Duration, Instant};

verus! {

/// `std::time::Instant`, carried through as an opaque value.
#[verifier::external_type_specification]
#[verifier::external_body]
pub struct ExInstant(Instant);

/// `Instant::now`: the current time of the monotonic clock. Nothing is
/// promised of the value.
#[verifier::external_body]
fn clock_now() -> Instant {
    Instant::now()
}

/// `Instant::elapsed` on `origin`, taken in whole nanoseconds
/// (`Duration::as_nanos`): the time passed since `origin`. The value depends
/// on the clock, so nothing is promised of it.
#[verifier::external_body]
fn nanos_since(origin: &Instant) -> u128 {
    origin.elapsed().as_nanos()
}

/// The span of `nanos` nanoseconds, as `Duration::from_nanos` makes it.
pub uninterp spec fn span_of_nanos(nanos: u64) -> Duration;

/// `Duration::from_nanos`: the span of `nanos` nanoseconds. The contract
/// names the result; it depends on `nanos` alone.
#[verifier::external_body]
fn duration_from_nanos(nanos: u64) -> (d: Duration)
    ensures
        d == span_of_nanos(nanos),
{
    Duration::from_nanos(nanos)
}

/// Nanoseconds from reading `from` to reading `to`: zero where `to` is not
/// later, and at most `u64::MAX`.
pub open spec fn stage_span(from: u128, to: u128) -> u64 {
    if to <= from {
        0
    } else if to - from > u64::MAX {
        u64::MAX
    } else {
        (to - from) as u64
    }
}

/// Time spent in each stage of a run.
#[derive(Debug, Clone, Copy)]
pub struct StageTimes {
    pub preprocess: Duration,
    pub calculation: Duration,
    pub output: Duration,
    pub total: Duration,
}

/// A timer of the stages of a run. The run starts when the timer is made;
/// clock readings are kept as nanoseconds since then.
pub struct Timer {
    origin: Instant,
    start_stage: u128,
    last_reading: Ghost<u128>,
    times: StageTimes,
}

/// The span from reading `from` to reading `to`, as [`stage_span`] gives it.
fn span_between(from: u128, to: u128) -> (d: Duration)
    ensures
        d == span_of_nanos(stage_span(from, to)),
{
    let nanos: u64 = if to <= from {
        0
    } else if to - from > u64::MAX as u128 {
        u64::MAX
    } else {
        (to - from) as u64
    };
    duration_from_nanos(nanos)
}

impl Timer {
    /// The times recorded so far.
    pub closed spec fn recorded(&self) -> StageTimes {
        self.times
    }

    /// When the current stage started, in nanoseconds since the run started.
    pub closed spec fn stage_start(&self) -> u128 {
        self.start_stage
    }

    /// The latest clock reading, in nanoseconds since the run started.
    pub closed spec fn last_reading(&self) -> u128 {
        self.last_reading@
    }

    /// A timer started now: the run and its first stage start at reading 0,
    /// and every stage time is the empty span.
    pub fn new() -> (t: Timer)
        ensures
            t.stage_start() == 0,
            t.last_reading() == 0,
            t.recorded().preprocess == span_of_nanos(0),
            t.recorded().calculation == span_of_nanos(0),
            t.recorded().output == span_of_nanos(0),
            t.recorded().total == span_of_nanos(0),
    {
        let origin = clock_now();
        let zero = duration_from_nanos(0);
        Timer {
            origin,
            start_stage: 0,
            last_reading: Ghost(0),
            times: StageTimes { preprocess: zero, calculation: zero, output: zero, total: zero },
        }
    }

    /// Reads the clock, in nanoseconds since the run started.
    fn read_clock(&mut self) -> (now: u128)
        ensures
            now == final(self).last_reading(),
            final(self).stage_start() == old(self).stage_start(),
            final(self).recorded() == old(self).recorded(),
    {
        let now = nanos_since(&self.origin);
        self.last_reading = Ghost(now);
        now
    }

    /// Starts a new stage at a fresh clock reading; the recorded times stay.
    pub fn start_stage(&mut self)
        ensures
            final(self).stage_start() == final(self).last_reading(),
            final(self).recorded() == old(self).recorded(),
    {
        self.start_stage = self.read_clock();
    }

    /// Records the span from the stage start to a fresh clock reading as the
    /// preprocessing time.
    pub fn end_preprocess(&mut self)
        ensures
            final(self).stage_start() == old(self).stage_start(),
            final(self).recorded().preprocess == span_of_nanos(
                stage_span(old(self).stage_start(), final(self).last_reading()),
            ),
            final(self).recorded().calculation == old(self).recorded().calculation,
            final(self).recorded().output == old(self).recorded().output,
            final(self).recorded().total == old(self).recorded().total,
    {
        let now = self.read_clock();
        self.times.preprocess = span_between(self.start_stage, now);
    }

    /// Records the span from the stage start to a fresh clock reading as the
    /// calculation time.
    pub fn end_calculation(&mut self)
        ensures
            final(self).stage_start() == old(self).stage_start(),
            final(self).recorded().calculation == span_of_nanos(
                stage_span(old(self).stage_start(), final(self).last_reading()),
            ),
            final(self).recorded().preprocess == old(self).recorded().preprocess,
            final(self).recorded().output == old(self).recorded().output,
            final(self).recorded().total == old(self).recorded().total,
    {
        let now = self.read_clock();
        self.times.calculation = span_between(self.start_stage, now);
    }

    /// Records the span from the stage start to a fresh clock reading as the
    /// output time.
    pub fn end_output(&mut self)
        ensures
            final(self).stage_start() == old(self).stage_start(),
            final(self).recorded().output == span_of_nanos(
                stage_span(old(self).stage_start(), final(self).last_reading()),
            ),
            final(self).recorded().preprocess == old(self).recorded().preprocess,
            final(self).recorded().calculation == old(self).recorded().calculation,
            final(self).recorded().total == old(self).recorded().total,
    {
        let now = self.read_clock();
        self.times.output = span_between(self.start_stage, now);
    }

    /// Records the span from the start of the run to a fresh clock reading
    /// as the total time.
    pub fn end_total(&mut self)
        ensures
            final(self).stage_start() == old(self).stage_start(),
            final(self).recorded().total == span_of_nanos(stage_span(0, final(self).last_reading())),
            final(self).recorded().preprocess == old(self).recorded().preprocess,
            final(self).recorded().calculation == old(self).recorded().calculation,
            final(self).recorded().output == old(self).recorded().output,
    {
        let now = self.read_clock();
        self.times.total = span_between(0, now);
    }

    /// The times recorded so far.
    pub fn times(&self) -> (r: StageTimes)
        ensures
            r == self.recorded(),
    {
        self.times
    }
}

} // verus!
