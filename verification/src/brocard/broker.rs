//! The broker: it cuts a range into chunks, keeps count of the chunks at
//! work, and tunes the chunk size toward a target duration.
//!
//! The broker decides and leaves the doing to its caller.  One turn of the
//! caller's loop asks [`BrocardBroker::next_step`] what to do, does it, and
//! hands each report that comes back to [`BrocardBroker::record`].
use vstd::prelude::*;
use crate::brocard::report::{count_solutions, nearest_miss, BrocardReport, ReportSummary};
use crate::brocard::span::{span_valid, BrocardSpan, SpanView};
use crate::math::prime::{odd_primes_above, take_primes};

verus! {

/// The broker of one run.
pub struct BrocardBroker {
    start: u128,
    span: u128,
    chunk_size: usize,
    target_time: u128,
    workers: usize,
    next_start: u128,
    active_jobs: usize,
    started_jobs: u128,
    total_checked: u128,
    backoff: usize,
}

/// What a broker holds.
#[derive(Debug, PartialEq, Eq, Structural, Clone, Copy)]
pub struct BrokerState {
    /// The first candidate of the range.
    pub start: u128,
    /// The length of the range: its last candidate is `start + span`.
    pub span: u128,
    /// The span of the next chunk.
    pub chunk_size: usize,
    /// The duration that a chunk should take, in nanoseconds.
    pub target_time: u128,
    /// The number of chunks that can be at work at once.
    pub workers: usize,
    /// The first candidate of the next chunk.
    pub next_start: u128,
    /// The number of chunks at work.
    pub active_jobs: usize,
    /// The number of chunks handed out.
    pub started_jobs: u128,
    /// The number of outcomes reported.
    pub total_checked: u128,
    /// The number of reports to let pass before the chunk size may change.
    pub backoff: usize,
}

/// What the caller of the broker is to do next.
pub enum BrokerStep {
    /// Solve this span on a free worker, and hand its report to
    /// [`BrocardBroker::record`].
    Dispatch(BrocardSpan),
    /// Wait for a chunk at work to report, and hand its report to
    /// [`BrocardBroker::record`].
    Await,
    /// The prime source has no primes for the next chunk that the solver
    /// can use.  The broker is as it was.
    Stalled,
    /// The range is handed out and every chunk has reported.
    Finished,
}

impl View for BrocardBroker {
    type V = BrokerState;

    closed spec fn view(&self) -> BrokerState {
        BrokerState {
            start: self.start,
            span: self.span,
            chunk_size: self.chunk_size,
            target_time: self.target_time,
            workers: self.workers,
            next_start: self.next_start,
            active_jobs: self.active_jobs,
            started_jobs: self.started_jobs,
            total_checked: self.total_checked,
            backoff: self.backoff,
        }
    }
}

/// Why a broker cannot be made with its parameters.
#[derive(Debug, PartialEq, Eq, Structural, Clone, Copy)]
pub enum ConfigError {
    /// The chunk size does not fit within the span.
    ChunkExceedsSpan,
    /// The target time is zero.
    ZeroTargetTime,
    /// The chunk size is zero.
    ZeroChunkSize,
    /// The range leaves no room for one chunk beyond its end.
    RangeTooLarge,
}

/// The reason, if any, for which a broker cannot be made with these
/// parameters.
pub open spec fn config_error(start: u128, span: u128, chunk_size: usize, target_time: u128)
    -> Option<ConfigError> {
    if chunk_size > span {
        Some(ConfigError::ChunkExceedsSpan)
    } else if target_time == 0 {
        Some(ConfigError::ZeroTargetTime)
    } else if chunk_size == 0 {
        Some(ConfigError::ZeroChunkSize)
    } else if start + span + usize::MAX > u128::MAX {
        Some(ConfigError::RangeTooLarge)
    } else {
        None
    }
}

/// The parameters a broker can be made with: a chunk size above zero that
/// fits within the span, a target time above zero, and a range that leaves
/// room for one chunk beyond its end.
pub open spec fn valid_config(start: u128, span: u128, chunk_size: usize, target_time: u128) -> bool {
    &&& 0 < chunk_size <= span
    &&& target_time > 0
    &&& start + span + usize::MAX <= u128::MAX
}

/// The state is in order.
pub open spec fn state_valid(st: BrokerState) -> bool {
    &&& st.chunk_size > 0
    &&& st.target_time > 0
    &&& st.workers > 0
    &&& st.active_jobs <= st.workers
    &&& st.start + st.span + usize::MAX <= u128::MAX
    &&& st.start <= st.next_start <= st.start + st.span + usize::MAX
    &&& st.started_jobs <= st.next_start - st.start
}

/// A chunk can be handed out: a worker is free and the next chunk starts
/// within the range.
pub open spec fn dispatching(st: BrokerState) -> bool {
    st.active_jobs < st.workers && st.next_start <= st.start + st.span
}

/// The next chunk: `chunk_size` candidates from `next_start` on and the one
/// after them, with the first `prime_count` odd probable primes above its
/// last candidate.
pub open spec fn next_chunk(st: BrokerState, prime_count: usize) -> SpanView {
    SpanView {
        start: st.next_start,
        span: st.chunk_size as u128,
        primes: odd_primes_above((st.next_start + st.chunk_size) as nat, prime_count as nat),
    }
}

/// The next chunk has all its primes and the solver can take it.
pub open spec fn chunk_ready(st: BrokerState, prime_count: usize) -> bool {
    next_chunk(st, prime_count).primes.len() == prime_count && span_valid(
        next_chunk(st, prime_count),
    )
}

/// The state after the next chunk was handed out.
pub open spec fn dispatched(st: BrokerState) -> BrokerState {
    BrokerState {
        next_start: (st.next_start + st.chunk_size) as u128,
        active_jobs: (st.active_jobs + 1) as usize,
        started_jobs: (st.started_jobs + 1) as u128,
        ..st
    }
}

/// A chunk's duration is off target: it differs from the target by more
/// than 2% of the target, a fiftieth rounded down.
pub open spec fn off_target(duration: u128, target: u128) -> bool {
    let delta = if duration > target {
        duration - target
    } else {
        target - duration
    };
    delta > target / 50
}

/// The chunk size after an adjustment: half the size, though not below 1,
/// where the chunk ran longer than the target; three times the size,
/// though not above `usize::MAX`, where it did not.
pub open spec fn resized(chunk_size: usize, duration: u128, target: u128) -> usize {
    if duration > target {
        if chunk_size / 2 >= 1 {
            chunk_size / 2
        } else {
            1
        }
    } else {
        if chunk_size * 3 <= usize::MAX {
            (chunk_size * 3) as usize
        } else {
            usize::MAX
        }
    }
}

/// The chunk size is adjusted on this report: the duration is off target
/// and the damping counter has run down.
pub open spec fn adjusts(st: BrokerState, duration: u128) -> bool {
    off_target(duration, st.target_time) && st.backoff == 0
}

/// The state after a report of `outcomes` outcomes and the given duration:
/// one chunk fewer is at work, the outcomes are counted, and either the
/// chunk size is adjusted and the damping counter set to the number of
/// workers, or the damping counter goes down by one, though not below 0.
pub open spec fn recorded(st: BrokerState, outcomes: usize, duration: u128) -> BrokerState {
    BrokerState {
        active_jobs: (st.active_jobs - 1) as usize,
        total_checked: if st.total_checked + outcomes <= u128::MAX {
            (st.total_checked + outcomes) as u128
        } else {
            u128::MAX
        },
        chunk_size: if adjusts(st, duration) {
            resized(st.chunk_size, duration, st.target_time)
        } else {
            st.chunk_size
        },
        backoff: if adjusts(st, duration) {
            st.workers
        } else if st.backoff > 0 {
            (st.backoff - 1) as usize
        } else {
            0
        },
        ..st
    }
}

/// A report on target leaves the chunk size as it is, and so does every
/// report while the damping counter runs.
pub proof fn lemma_on_target_is_stable(st: BrokerState, outcomes: usize, duration: u128)
    requires
        !off_target(duration, st.target_time) || st.backoff > 0,
    ensures
        recorded(st, outcomes, duration).chunk_size == st.chunk_size,
{
}

/// An adjustment moves the chunk size toward the target: down, and at
/// least to half rounded up, after a chunk that ran long; up, and at most
/// threefold, after one that did not.  The size stays above zero.
pub proof fn lemma_resize_direction(chunk_size: usize, duration: u128, target: u128)
    requires
        chunk_size > 0,
    ensures
        resized(chunk_size, duration, target) > 0,
        duration > target ==> resized(chunk_size, duration, target) <= chunk_size && 2 * resized(
            chunk_size,
            duration,
            target,
        ) + 1 >= chunk_size,
        duration <= target ==> chunk_size <= resized(chunk_size, duration, target) <= 3
            * chunk_size,
{
}

/// After an adjustment the next `workers` reports leave the chunk size as
/// it is.
pub proof fn lemma_adjustment_damps(st: BrokerState, outcomes: usize, duration: u128)
    requires
        adjusts(st, duration),
    ensures
        recorded(st, outcomes, duration).backoff == st.workers,
{
}

impl BrocardBroker {
    /// The state is in order.
    pub open spec fn wf(&self) -> bool {
        state_valid(self@)
    }

    /// Whether a broker can be made with these parameters.
    pub fn is_valid_config(start: u128, span: u128, chunk_size: usize, target_time: u128) -> (ok:
        bool)
        ensures
            ok == valid_config(start, span, chunk_size, target_time),
    {
        if chunk_size == 0 || chunk_size as u128 > span || target_time == 0 {
            return false;
        }
        match start.checked_add(span) {
            Some(end) => end <= u128::MAX - usize::MAX as u128,
            None => false,
        }
    }

    /// A broker for the candidates `start..=start + span`, with one worker,
    /// or the reason for which there is none.  `target_time` is in
    /// nanoseconds.
    pub fn try_new(start: u128, span: u128, chunk_size: usize, target_time: u128) -> (made: Result<
        BrocardBroker,
        ConfigError,
    >)
        ensures
            match made {
                Ok(broker) => {
                    &&& valid_config(start, span, chunk_size, target_time)
                    &&& broker.wf()
                    &&& broker@ == (BrokerState {
                        start,
                        span,
                        chunk_size,
                        target_time,
                        workers: 1,
                        next_start: start,
                        active_jobs: 0,
                        started_jobs: 0,
                        total_checked: 0,
                        backoff: 1,
                    })
                },
                Err(e) => config_error(start, span, chunk_size, target_time) == Some(e),
            },
    {
        if chunk_size as u128 > span {
            Err(ConfigError::ChunkExceedsSpan)
        } else if target_time == 0 {
            Err(ConfigError::ZeroTargetTime)
        } else if chunk_size == 0 {
            Err(ConfigError::ZeroChunkSize)
        } else if !BrocardBroker::is_valid_config(start, span, chunk_size, target_time) {
            Err(ConfigError::RangeTooLarge)
        } else {
            Ok(BrocardBroker::new(start, span, chunk_size, target_time))
        }
    }

    /// A broker for the candidates `start..=start + span`, with one worker.
    /// `target_time` is in nanoseconds.
    pub fn new(start: u128, span: u128, chunk_size: usize, target_time: u128) -> (broker:
        BrocardBroker)
        requires
            valid_config(start, span, chunk_size, target_time),
        ensures
            broker.wf(),
            broker@ == (BrokerState {
                start,
                span,
                chunk_size,
                target_time,
                workers: 1,
                next_start: start,
                active_jobs: 0,
                started_jobs: 0,
                total_checked: 0,
                backoff: 1,
            }),
    {
        BrocardBroker {
            start,
            span,
            chunk_size,
            target_time,
            workers: 1,
            next_start: start,
            active_jobs: 0,
            started_jobs: 0,
            total_checked: 0,
            backoff: 1,
        }
    }

    /// Starts a run on `workers` workers: nothing is handed out yet, and
    /// the damping counter is set to the number of workers.
    pub fn begin(&mut self, workers: usize)
        requires
            old(self).wf(),
            workers > 0,
        ensures
            final(self).wf(),
            final(self)@ == (BrokerState {
                workers,
                next_start: old(self)@.start,
                active_jobs: 0,
                started_jobs: 0,
                total_checked: 0,
                backoff: workers,
                ..old(self)@
            }),
    {
        self.workers = workers;
        self.next_start = self.start;
        self.active_jobs = 0;
        self.started_jobs = 0;
        self.total_checked = 0;
        self.backoff = workers;
    }

    /// What the broker holds.
    pub fn state(&self) -> (st: BrokerState)
        ensures
            st == self@,
    {
        BrokerState {
            start: self.start,
            span: self.span,
            chunk_size: self.chunk_size,
            target_time: self.target_time,
            workers: self.workers,
            next_start: self.next_start,
            active_jobs: self.active_jobs,
            started_jobs: self.started_jobs,
            total_checked: self.total_checked,
            backoff: self.backoff,
        }
    }

    /// Decides what to do next.
    ///
    /// With every worker busy the caller is to wait for a report.  With
    /// the next chunk starting beyond the range, the caller is to wait
    /// while chunks are at work, and the run is finished when none is.
    /// Otherwise the next chunk is made and handed out, unless the prime
    /// source cannot supply it: the broker stalls and stays as it was.
    pub fn next_step(&mut self, prime_count: usize) -> (step: BrokerStep)
        requires
            old(self).wf(),
        ensures
            final(self).wf(),
            match step {
                BrokerStep::Await => {
                    &&& final(self)@ == old(self)@
                    &&& old(self)@.active_jobs >= old(self)@.workers || (old(self)@.next_start > old(
                        self,
                    )@.start + old(self)@.span && old(self)@.active_jobs > 0)
                },
                BrokerStep::Finished => {
                    &&& final(self)@ == old(self)@
                    &&& old(self)@.next_start > old(self)@.start + old(self)@.span
                    &&& old(self)@.active_jobs == 0
                },
                BrokerStep::Stalled => {
                    &&& final(self)@ == old(self)@
                    &&& dispatching(old(self)@)
                    &&& !chunk_ready(old(self)@, prime_count)
                },
                BrokerStep::Dispatch(chunk) => {
                    &&& final(self)@ == dispatched(old(self)@)
                    &&& dispatching(old(self)@)
                    &&& chunk_ready(old(self)@, prime_count)
                    &&& chunk@ == next_chunk(old(self)@, prime_count)
                },
            },
    {
        if self.active_jobs >= self.workers {
            return BrokerStep::Await;
        }
        if self.next_start > self.start + self.span {
            if self.active_jobs > 0 {
                return BrokerStep::Await;
            }
            return BrokerStep::Finished;
        }
        let last: u128 = self.next_start + self.chunk_size as u128;
        let primes = take_primes(last, prime_count);
        let complete: bool = primes.len() == prime_count;
        let chunk = BrocardSpan::new(self.next_start, self.chunk_size as u128, primes);
        if !complete || !chunk.is_valid() {
            return BrokerStep::Stalled;
        }
        self.next_start = last;
        self.active_jobs = self.active_jobs + 1;
        self.started_jobs = self.started_jobs + 1;
        BrokerStep::Dispatch(chunk)
    }

    /// Takes in the report of a chunk: the chunk is no longer at work, its
    /// outcomes are counted, and the chunk size is adjusted or the damping
    /// counter run down, as [`recorded`] says.  Returns what the report
    /// adds up to.
    pub fn record(&mut self, report: &BrocardReport) -> (sum: ReportSummary)
        requires
            old(self).wf(),
            old(self)@.active_jobs > 0,
        ensures
            final(self).wf(),
            final(self)@ == recorded(old(self)@, report.candidates.len(), report.duration),
            sum.total == report.candidates@.len(),
            sum.solutions == count_solutions(report.candidates@),
            (sum.best_candidate, sum.best_passed) == nearest_miss(report.candidates@),
    {
        let sum = report.summary();
        self.total_checked = self.total_checked.saturating_add(report.candidates.len() as u128);
        self.adjust(report.duration);
        self.active_jobs = self.active_jobs - 1;
        sum
    }

    /// The size-adjustment rule, applied to the duration of one chunk.
    fn adjust(&mut self, duration: u128)
        requires
            old(self).wf(),
        ensures
            final(self).wf(),
            final(self)@ == (BrokerState {
                chunk_size: if adjusts(old(self)@, duration) {
                    resized(old(self)@.chunk_size, duration, old(self)@.target_time)
                } else {
                    old(self)@.chunk_size
                },
                backoff: if adjusts(old(self)@, duration) {
                    old(self)@.workers
                } else if old(self)@.backoff > 0 {
                    (old(self)@.backoff - 1) as usize
                } else {
                    0
                },
                ..old(self)@
            }),
    {
        let delta: u128 = if duration > self.target_time {
            duration - self.target_time
        } else {
            self.target_time - duration
        };
        if delta > self.target_time / 50 && self.backoff == 0 {
            self.backoff = self.workers;
            if duration > self.target_time {
                let half: usize = self.chunk_size / 2;
                self.chunk_size = if half == 0 {
                    1
                } else {
                    half
                };
            } else {
                self.chunk_size = match self.chunk_size.checked_mul(3) {
                    Some(tripled) => tripled,
                    None => usize::MAX,
                };
            }
        } else if self.backoff > 0 {
            self.backoff = self.backoff - 1;
        }
    }
}

} // verus!
