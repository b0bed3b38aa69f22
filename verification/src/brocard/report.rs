//! The report of one solver run: outcomes in candidate order, the primes
//! used, and timing; and its line-oriented text form.
use vstd::prelude::*;
use std::time::{Duration, Instant};
use crate::brocard::candidate::BrocardCandidate;

verus! {

/// `std::time::Instant`, a reading of the monotonic clock.  Nothing is
/// known of what it holds.
#[verifier::external_type_specification]
#[verifier::external_body]
pub struct ExInstant(std::time::Instant);

/// `std::time::Instant::now` reads the clock.  Nothing is claimed of the
/// reading.
pub assume_specification[ std::time::Instant::now ]() -> (now: Instant)
;

/// `std::time::Instant::elapsed` measures the time since the reading was
/// taken.  Nothing is claimed of the measure.
pub assume_specification[ std::time::Instant::elapsed ](start: &Instant) -> (elapsed: Duration)
;

/// `std::time::Duration::as_nanos` gives a duration in whole nanoseconds.
/// Nothing is claimed of the number.
pub assume_specification[ std::time::Duration::as_nanos ](duration: &Duration) -> (nanos: u128)
;

/// The report of one solver run.
#[derive(Debug, PartialEq)]
pub struct BrocardReport {
    /// The outcomes, in the order they were pushed.
    pub candidates: Vec<BrocardCandidate>,
    /// The primes that the candidates were tested against.
    pub primes: Vec<u128>,
    /// When the report was made.
    pub start_time: Instant,
    /// The time from making the report to the last call of
    /// [`BrocardReport::finish`], in nanoseconds; 0 before the first.
    pub duration: u128,
}

/// What a report's outcomes add up to.
#[derive(Debug, PartialEq, Eq, Structural, Clone, Copy)]
pub struct ReportSummary {
    /// The number of outcomes.
    pub total: usize,
    /// The number of those that are solutions.
    pub solutions: usize,
    /// The first non-solution that survived the most primes, or 0 where no
    /// non-solution survived any.
    pub best_candidate: u128,
    /// The number of primes that non-solution survived.
    pub best_passed: usize,
}

/// The number of solutions among the outcomes.
pub open spec fn count_solutions(cs: Seq<BrocardCandidate>) -> nat
    decreases cs.len(),
{
    if cs.len() == 0 {
        0
    } else {
        count_solutions(cs.drop_last()) + if cs.last() is Solution {
            1nat
        } else {
            0nat
        }
    }
}

/// The nearest miss among the outcomes, as candidate and primes survived:
/// the first non-solution whose count is above zero and above every
/// earlier one; `(0, 0)` where there is none.
pub open spec fn nearest_miss(cs: Seq<BrocardCandidate>) -> (u128, usize)
    decreases cs.len(),
{
    if cs.len() == 0 {
        (0, 0)
    } else {
        let before = nearest_miss(cs.drop_last());
        match cs.last() {
            BrocardCandidate::Nonsolution { candidate, passed } => if passed > before.1 {
                (candidate, passed)
            } else {
                before
            },
            BrocardCandidate::Solution(_) => before,
        }
    }
}

/// The decimal digits of `n` as ASCII, least significant first.
pub open spec fn digits_reversed(n: nat) -> Seq<u8>
    decreases n,
{
    if n < 10 {
        seq![(48 + n) as u8]
    } else {
        seq![(48 + n % 10) as u8] + digits_reversed(n / 10)
    }
}

/// `n` in decimal, as ASCII, without leading zeros.
pub open spec fn decimal(n: nat) -> Seq<u8> {
    let digits = digits_reversed(n);
    Seq::new(digits.len(), |i: int| digits[digits.len() - 1 - i])
}

/// The line of one outcome: `S:<candidate>` and a newline for a solution,
/// nothing for a non-solution.
pub open spec fn candidate_line(c: BrocardCandidate) -> Seq<u8> {
    match c {
        BrocardCandidate::Solution(n) => seq![0x53u8, 0x3au8] + decimal(n as nat) + seq![0x0au8],
        BrocardCandidate::Nonsolution { .. } => Seq::empty(),
    }
}

/// The lines of the solutions among the outcomes, in order.
pub open spec fn solution_lines(cs: Seq<BrocardCandidate>) -> Seq<u8>
    decreases cs.len(),
{
    if cs.len() == 0 {
        Seq::empty()
    } else {
        solution_lines(cs.drop_last()) + candidate_line(cs.last())
    }
}

/// The summary line: `N:<outcomes>,M:<nearest miss>,<primes it survived>`
/// and a newline.
pub open spec fn summary_line(cs: Seq<BrocardCandidate>) -> Seq<u8> {
    let best = nearest_miss(cs);
    seq![0x4eu8, 0x3au8] + decimal(cs.len()) + seq![0x2cu8, 0x4du8, 0x3au8] + decimal(
        best.0 as nat,
    ) + seq![0x2cu8] + decimal(best.1 as nat) + seq![0x0au8]
}

/// The primes, each in decimal and followed by a comma.
pub open spec fn prime_list(ps: Seq<u128>) -> Seq<u8>
    decreases ps.len(),
{
    if ps.len() == 0 {
        Seq::empty()
    } else {
        prime_list(ps.drop_last()) + decimal(ps.last() as nat) + seq![0x2cu8]
    }
}

/// The text form of a report, in ASCII:
///
/// ```text
/// S:<candidate>                  one line for each solution, in order
/// N:<outcomes>,M:<nearest miss>,<primes it survived>
/// P:<prime>,<prime>,...,         each prime is followed by a comma
/// ```
///
/// Every line ends in a newline.
pub open spec fn report_text(cs: Seq<BrocardCandidate>, ps: Seq<u128>) -> Seq<u8> {
    solution_lines(cs) + summary_line(cs) + seq![0x50u8, 0x3au8] + prime_list(ps) + seq![0x0au8]
}

/// Appends `n` in decimal.
fn push_decimal(out: &mut Vec<u8>, n: u128)
    ensures
        final(out)@ == old(out)@ + decimal(n as nat),
{
    let mut digits: Vec<u8> = Vec::new();
    let mut rest: u128 = n;
    digits.push(48u8 + (rest % 10) as u8);
    rest = rest / 10;
    while rest > 0
        invariant
            digits.len() >= 1,
            rest > 0 ==> digits_reversed(n as nat) == digits@ + digits_reversed(rest as nat),
            rest == 0 ==> digits_reversed(n as nat) == digits@,
        decreases rest,
    {
        let ghost before = digits@;
        digits.push(48u8 + (rest % 10) as u8);
        proof {
            assert(digits@ == before + seq![(48 + rest % 10) as u8]);
            if rest >= 10 {
                assert(digits@ + digits_reversed((rest / 10) as nat) == before + (seq![
                    (48 + rest % 10) as u8,
                ] + digits_reversed((rest / 10) as nat)));
            }
        }
        rest = rest / 10;
    }
    let ghost start = out@;
    let mut k: usize = digits.len();
    while k > 0
        invariant
            k <= digits.len(),
            digits@ == digits_reversed(n as nat),
            out@ == start + decimal(n as nat).subrange(0, digits.len() - k),
        decreases k,
    {
        k = k - 1;
        let ghost before = out@;
        out.push(digits[k]);
        proof {
            let d = decimal(n as nat);
            let m = digits.len() - k;
            assert(d.subrange(0, m) == d.subrange(0, m - 1).push(d[m - 1]));
            assert(out@ == start + d.subrange(0, m));
        }
    }
    proof {
        let d = decimal(n as nat);
        assert(d.subrange(0, digits.len() as int) == d);
    }
}

impl Clone for BrocardReport {
    /// A copy of the report, with the same outcomes, primes and timing.
    fn clone(&self) -> (copy: Self)
        ensures
            copy.candidates@ == self.candidates@,
            copy.primes@ == self.primes@,
            copy.start_time == self.start_time,
            copy.duration == self.duration,
    {
        let candidates = self.candidates.clone();
        let primes = self.primes.clone();
        proof {
            assert(candidates@ =~= self.candidates@);
            assert(primes@ =~= self.primes@);
        }
        BrocardReport { candidates, primes, start_time: self.start_time, duration: self.duration }
    }
}

impl BrocardReport {
    /// An empty report on the given primes.
    pub fn new(primes: Vec<u128>) -> (report: Self)
        ensures
            report.candidates@ == Seq::<BrocardCandidate>::empty(),
            report.primes == primes,
            report.duration == 0,
    {
        BrocardReport { candidates: Vec::new(), primes, start_time: Instant::now(), duration: 0 }
    }

    /// Appends one outcome.
    pub fn push(&mut self, candidate: BrocardCandidate)
        ensures
            final(self).candidates@ == old(self).candidates@.push(candidate),
            final(self).primes == old(self).primes,
            final(self).start_time == old(self).start_time,
            final(self).duration == old(self).duration,
    {
        self.candidates.push(candidate);
    }

    /// Stamps the time elapsed since the report was made.  A later call
    /// overwrites the stamp of an earlier one.
    pub fn finish(&mut self) -> (this: &mut Self)
        ensures
            this.candidates == old(self).candidates,
            this.primes == old(self).primes,
            this.start_time == old(self).start_time,
            *final(self) == *final(this),
    {
        let elapsed: Duration = self.start_time.elapsed();
        self.stamp(elapsed.as_nanos())
    }

    /// Stamps a measured duration, in nanoseconds, in place of any earlier
    /// stamp.  Outcomes, primes and start time stay as they are.
    pub fn stamp(&mut self, nanos: u128) -> (this: &mut Self)
        ensures
            this.candidates == old(self).candidates,
            this.primes == old(self).primes,
            this.start_time == old(self).start_time,
            this.duration == nanos,
            *final(self) == *final(this),
    {
        self.duration = nanos;
        self
    }

    /// What the outcomes add up to.
    pub fn summary(&self) -> (sum: ReportSummary)
        ensures
            sum.total == self.candidates@.len(),
            sum.solutions == count_solutions(self.candidates@),
            (sum.best_candidate, sum.best_passed) == nearest_miss(self.candidates@),
    {
        let mut solutions: usize = 0;
        let mut max: u128 = 0;
        let mut max_passed: usize = 0;
        let mut i: usize = 0;
        while i < self.candidates.len()
            invariant
                i <= self.candidates.len(),
                solutions <= i,
                solutions == count_solutions(self.candidates@.subrange(0, i as int)),
                (max, max_passed) == nearest_miss(self.candidates@.subrange(0, i as int)),
            decreases self.candidates.len() - i,
        {
            proof {
                let next = self.candidates@.subrange(0, i + 1);
                assert(next.drop_last() == self.candidates@.subrange(0, i as int));
            }
            match self.candidates[i] {
                BrocardCandidate::Solution(_) => {
                    solutions = solutions + 1;
                },
                BrocardCandidate::Nonsolution { candidate, passed } => {
                    if passed > max_passed {
                        max = candidate;
                        max_passed = passed;
                    }
                },
            }
            i = i + 1;
        }
        proof {
            assert(self.candidates@.subrange(0, i as int) == self.candidates@);
        }
        ReportSummary {
            total: self.candidates.len(),
            solutions,
            best_candidate: max,
            best_passed: max_passed,
        }
    }

    /// The text form of the report, to be stored as it is.
    pub fn to_text(&self) -> (text: Vec<u8>)
        ensures
            text@ == report_text(self.candidates@, self.primes@),
    {
        let mut out: Vec<u8> = Vec::new();
        let mut i: usize = 0;
        while i < self.candidates.len()
            invariant
                i <= self.candidates.len(),
                out@ == solution_lines(self.candidates@.subrange(0, i as int)),
            decreases self.candidates.len() - i,
        {
            proof {
                let next = self.candidates@.subrange(0, i + 1);
                assert(next.drop_last() == self.candidates@.subrange(0, i as int));
            }
            let ghost before = out@;
            match self.candidates[i] {
                BrocardCandidate::Solution(n) => {
                    out.push(0x53u8);
                    out.push(0x3au8);
                    push_decimal(&mut out, n);
                    out.push(0x0au8);
                    assert(out@ == before + (seq![0x53u8, 0x3au8] + decimal(n as nat) + seq![0x0au8]));
                },
                BrocardCandidate::Nonsolution { .. } => {
                    assert(out@ == before + Seq::<u8>::empty());
                },
            }
            i = i + 1;
        }
        proof {
            assert(self.candidates@.subrange(0, i as int) == self.candidates@);
        }
        let sum = self.summary();
        let ghost lines = out@;
        out.push(0x4eu8);
        out.push(0x3au8);
        push_decimal(&mut out, sum.total as u128);
        out.push(0x2cu8);
        out.push(0x4du8);
        out.push(0x3au8);
        push_decimal(&mut out, sum.best_candidate);
        out.push(0x2cu8);
        push_decimal(&mut out, sum.best_passed as u128);
        out.push(0x0au8);
        assert(out@ == lines + summary_line(self.candidates@));
        out.push(0x50u8);
        out.push(0x3au8);
        let ghost head = out@;
        let mut j: usize = 0;
        while j < self.primes.len()
            invariant
                j <= self.primes.len(),
                out@ == head + prime_list(self.primes@.subrange(0, j as int)),
            decreases self.primes.len() - j,
        {
            proof {
                let next = self.primes@.subrange(0, j + 1);
                assert(next.drop_last() == self.primes@.subrange(0, j as int));
            }
            let ghost before = out@;
            push_decimal(&mut out, self.primes[j]);
            out.push(0x2cu8);
            assert(out@ == before + (decimal(self.primes[j as int] as nat) + seq![0x2cu8]));
            j = j + 1;
        }
        proof {
            assert(self.primes@.subrange(0, j as int) == self.primes@);
        }
        out.push(0x0au8);
        assert(out@ == report_text(self.candidates@, self.primes@));
        out
    }
}

} // verus!
