//! The solver of one contiguous span of candidates.
use vstd::prelude::*;
use vstd::arithmetic::div_mod::{
    lemma_add_mod_noop,
    lemma_mul_mod_noop_left,
    lemma_small_mod,
};
use vstd::arithmetic::power::lemma_pow_mod_noop;
use vstd::arithmetic::power2::pow2;
use crate::brocard::candidate::BrocardCandidate;
use crate::brocard::report::BrocardReport;
use crate::math::fermat::{
    is_perfect_square,
    lemma_even_pow2_is_residue,
    lemma_nonresidue_is_no_perfect_square,
};
use crate::math::legendre::{naive_legendre_spec, symbol_product, LegendreSymbol};
use crate::math::prime::is_prime_spec;
use crate::math::modular::factorial;
use crate::montgomery::elt::Elt;
use crate::montgomery::space::{valid_modulus, Space};

verus! {

/// The exponent of the Montgomery constant that the solver builds its
/// spaces with.
pub const R_EXP: usize = 64;

/// The candidates `start..=start + span` and the primes to test each
/// against.
pub struct BrocardSpan {
    start: u128,
    span: u128,
    primes: Vec<u128>,
}

/// What a span holds.
pub struct SpanView {
    pub start: u128,
    pub span: u128,
    pub primes: Seq<u128>,
}

impl View for BrocardSpan {
    type V = SpanView;

    closed spec fn view(&self) -> SpanView {
        SpanView { start: self.start, span: self.span, primes: self.primes@ }
    }
}

/// The symbol that the solver finds for `c! + 1` modulo `p`: the symbol by
/// Euler's criterion, multiplied by the symbol of the Montgomery constant
/// `2^64`, as [`Space::legendre`] gives it.
pub open spec fn residue_test(c: nat, p: nat) -> LegendreSymbol {
    symbol_product(
        naive_legendre_spec(factorial(c) + 1, p),
        naive_legendre_spec(pow2(R_EXP as nat), p),
    )
}

/// `o` is the outcome of the candidate `c` on the primes, taken in order.
///
/// A prime whose test gives `Nonresidue` is a witness: `c! + 1` is no
/// square.  The candidate is a non-solution where a witness exists, and
/// `passed` is the place of the first one: the number of primes tested
/// before it, none of them a witness.  It is a solution where no prime is a
/// witness.
pub open spec fn is_outcome(o: BrocardCandidate, c: u128, primes: Seq<u128>) -> bool {
    match o {
        BrocardCandidate::Solution(n) => {
            &&& n == c
            &&& forall|i: int|
                0 <= i < primes.len() ==> residue_test(c as nat, #[trigger] primes[i] as nat)
                    != LegendreSymbol::Nonresidue
        },
        BrocardCandidate::Nonsolution { candidate, passed } => {
            &&& candidate == c
            &&& passed < primes.len()
            &&& residue_test(c as nat, primes[passed as int] as nat) == LegendreSymbol::Nonresidue
            &&& forall|i: int|
                0 <= i < passed ==> residue_test(c as nat, #[trigger] primes[i] as nat)
                    != LegendreSymbol::Nonresidue
        },
    }
}

/// A candidate has one outcome.
pub proof fn lemma_outcome_unique(
    o1: BrocardCandidate,
    o2: BrocardCandidate,
    c: u128,
    primes: Seq<u128>,
)
    requires
        is_outcome(o1, c, primes),
        is_outcome(o2, c, primes),
    ensures
        o1 == o2,
{
    match (o1, o2) {
        (
            BrocardCandidate::Nonsolution { passed: first, .. },
            BrocardCandidate::Nonsolution { passed: second, .. },
        ) => {
            if first < second {
                assert(residue_test(c as nat, primes[first as int] as nat)
                    != LegendreSymbol::Nonresidue);
            }
            if second < first {
                assert(residue_test(c as nat, primes[second as int] as nat)
                    != LegendreSymbol::Nonresidue);
            }
        },
        (BrocardCandidate::Nonsolution { passed, .. }, BrocardCandidate::Solution(_)) => {
            assert(residue_test(c as nat, primes[passed as int] as nat)
                != LegendreSymbol::Nonresidue);
        },
        (BrocardCandidate::Solution(_), BrocardCandidate::Nonsolution { passed, .. }) => {
            assert(residue_test(c as nat, primes[passed as int] as nat)
                != LegendreSymbol::Nonresidue);
        },
        _ => {},
    }
}

/// `c` solves Brocard's problem: `c! + 1` is a perfect square.
pub open spec fn brocard_solution(c: nat) -> bool {
    is_perfect_square(factorial(c) + 1)
}

/// On an odd prime the solver's test is Euler's criterion itself: the
/// Montgomery constant `2^64` is a square.
pub proof fn lemma_residue_test_on_prime(c: nat, p: nat)
    requires
        is_prime_spec(p),
        p % 2 == 1,
    ensures
        residue_test(c, p) == naive_legendre_spec(factorial(c) + 1, p),
{
    lemma_even_pow2_is_residue(p, R_EXP as nat);
}

/// A non-solution is none: where the witness of the outcome is an odd
/// prime, `c! + 1` is no perfect square.
pub proof fn lemma_witness_excludes_solution(o: BrocardCandidate, c: u128, primes: Seq<u128>)
    requires
        is_outcome(o, c, primes),
        o matches BrocardCandidate::Nonsolution { passed, .. } && is_prime_spec(
            primes[passed as int] as nat,
        ) && primes[passed as int] % 2 == 1,
    ensures
        !brocard_solution(c as nat),
{
    match o {
        BrocardCandidate::Nonsolution { passed, .. } => {
            let p = primes[passed as int] as nat;
            lemma_residue_test_on_prime(c as nat, p);
            lemma_nonresidue_is_no_perfect_square(p, factorial(c as nat) + 1);
        },
        _ => {},
    }
}

/// No solution is lost: on odd primes the outcome of a candidate that
/// solves Brocard's problem is `Solution`.
pub proof fn lemma_solution_is_kept(o: BrocardCandidate, c: u128, primes: Seq<u128>)
    requires
        is_outcome(o, c, primes),
        brocard_solution(c as nat),
        forall|i: int|
            0 <= i < primes.len() ==> is_prime_spec(#[trigger] primes[i] as nat) && primes[i] % 2
                == 1,
    ensures
        o == BrocardCandidate::Solution(c),
{
    if o is Nonsolution {
        lemma_witness_excludes_solution(o, c, primes);
    }
}

/// The factorial that the solver carries from candidate to candidate:
/// `start!` modulo `p`, multiplied in turn by `start + 1`, ..., `start + steps`
/// and reduced after each step.
pub open spec fn running_factorial(start: nat, steps: nat, p: nat) -> nat
    decreases steps,
{
    if steps == 0 {
        factorial(start) % p
    } else {
        (running_factorial(start, (steps - 1) as nat, p) * (start + steps)) % p
    }
}

/// Carrying the factorial along gives what computing it afresh gives: after
/// `steps` steps from `start` the running value is `(start + steps)!`
/// modulo `p`.  So the outcomes of a span are those of its candidates
/// taken one by one.
pub proof fn lemma_running_factorial(start: nat, steps: nat, p: nat)
    requires
        p > 0,
    ensures
        running_factorial(start, steps, p) == factorial(start + steps) % p,
    decreases steps,
{
    if steps > 0 {
        let c = start + steps;
        lemma_running_factorial(start, (steps - 1) as nat, p);
        lemma_mul_mod_noop_left(factorial((c - 1) as nat) as int, c as int, p as int);
        assert(factorial(c) == c * factorial((c - 1) as nat));
        assert(factorial((c - 1) as nat) * c == c * factorial((c - 1) as nat)) by (nonlinear_arith);
    }
}

/// A span can be solved: its last candidate and the number of its
/// candidates fit their types, and each prime is a valid modulus for the
/// exponent [`R_EXP`].
pub open spec fn span_valid(v: SpanView) -> bool {
    &&& v.start + v.span <= u128::MAX
    &&& v.span < usize::MAX
    &&& forall|i: int|
        0 <= i < v.primes.len() ==> valid_modulus(#[trigger] v.primes[i] as nat, R_EXP as nat)
}

proof fn lemma_residue_test(space: &Space, c: nat, sum: nat)
    requires
        space.wf(),
        space.r_exp == R_EXP,
        sum == (factorial(c) % (space.n as nat) + 1) % (space.n as nat),
    ensures
        space.legendre_spec(sum) == residue_test(c, space.n as nat),
{
    let p = space.n as int;
    let f = factorial(c) as int;
    lemma_small_mod(1, p as nat);
    lemma_add_mod_noop(f, 1, p);
    assert(sum == (f + 1) % p);
    lemma_pow_mod_noop(f + 1, ((p - 1) / 2) as nat, p);
}

impl BrocardSpan {
    /// The span of the candidates `start..=start + span`, to be tested
    /// against `primes` in the order given.
    pub fn new(start: u128, span: u128, primes: Vec<u128>) -> (s: BrocardSpan)
        ensures
            s@ == (SpanView { start, span, primes: primes@ }),
    {
        BrocardSpan { start, span, primes }
    }

    /// Whether the span can be solved.
    pub fn is_valid(&self) -> (ok: bool)
        ensures
            ok == span_valid(self@),
    {
        if self.span > u128::MAX - self.start {
            return false;
        }
        if self.span >= usize::MAX as u128 {
            return false;
        }
        let mut i: usize = 0;
        while i < self.primes.len()
            invariant
                i <= self.primes.len(),
                forall|j: int|
                    0 <= j < i ==> valid_modulus(#[trigger] self.primes@[j] as nat, R_EXP as nat),
            decreases self.primes.len() - i,
        {
            if !Space::is_valid_modulus(self.primes[i], R_EXP) {
                assert(!valid_modulus(self@.primes[i as int] as nat, R_EXP as nat));
                return false;
            }
            i = i + 1;
        }
        true
    }

    /// Classifies every candidate of the span, as [`BrocardSpan::solve`]
    /// does, where the span can be solved; `None` where it cannot.
    pub fn try_solve(&self) -> (solved: Option<BrocardReport>)
        ensures
            solved is Some <==> span_valid(self@),
            solved matches Some(report) ==> {
                &&& report.primes@ == self@.primes
                &&& report.candidates@.len() == self@.span + 1
                &&& forall|k: int|
                    0 <= k <= self@.span ==> is_outcome(
                        #[trigger] report.candidates@[k],
                        (self@.start + k) as u128,
                        self@.primes,
                    )
            },
    {
        if self.is_valid() {
            Some(self.solve())
        } else {
            None
        }
    }

    /// Classifies every candidate of the span.
    ///
    /// One space is built for each prime and the factorial of the first
    /// candidate is computed in each.  From candidate to candidate each
    /// factorial is carried along by one multiplication.  The primes are
    /// tried in order on `c! + 1`, up to the first witness.  The report
    /// holds one outcome for each candidate, in ascending order, and is
    /// stamped with the time the run took.
    pub fn solve(&self) -> (report: BrocardReport)
        requires
            span_valid(self@),
        ensures
            report.primes@ == self@.primes,
            report.candidates@.len() == self@.span + 1,
            forall|k: int|
                0 <= k <= self@.span ==> is_outcome(
                    #[trigger] report.candidates@[k],
                    (self@.start + k) as u128,
                    self@.primes,
                ),
    {
        let mut result = BrocardReport::new(self.primes.clone());
        assert(result.primes@ == self.primes@);
        let count: usize = self.primes.len();

        let mut spaces: Vec<Space> = Vec::new();
        let mut i: usize = 0;
        while i < count
            invariant
                span_valid(self@),
                count == self.primes.len(),
                i <= count,
                spaces.len() == i,
                forall|j: int|
                    0 <= j < i ==> (#[trigger] spaces[j]).wf() && spaces[j].n == self.primes[j]
                        && spaces[j].r_exp == R_EXP,
            decreases count - i,
        {
            assert(valid_modulus(self@.primes[i as int] as nat, R_EXP as nat));
            spaces.push(Space::new(self.primes[i], R_EXP));
            i = i + 1;
        }

        let mut v: Vec<Elt> = Vec::new();
        let mut i: usize = 0;
        while i < count
            invariant
                count == self.primes.len(),
                spaces.len() == count,
                i <= count,
                v.len() == i,
                forall|j: int|
                    0 <= j < count ==> (#[trigger] spaces[j]).wf() && spaces[j].n == self.primes[j]
                        && spaces[j].r_exp == R_EXP,
                forall|j: int|
                    0 <= j < i ==> (#[trigger] v[j]).wf() && *v[j].space == spaces[j] && v[j].value()
                        == factorial(self.start as nat) % (self.primes[j] as nat),
            decreases count - i,
        {
            v.push(spaces[i].factorial(self.start));
            i = i + 1;
        }

        let end: u128 = self.start + self.span;
        let mut candidate: u128 = self.start;
        loop
            invariant_except_break
                result.candidates@.len() == candidate - self.start,
                forall|j: int|
                    0 <= j < count ==> (#[trigger] v[j]).wf() && *v[j].space == spaces[j] && v[j].value()
                        == factorial(candidate as nat) % (self.primes[j] as nat),
            invariant
                span_valid(self@),
                end == self.start + self.span,
                self.start <= candidate <= end,
                count == self.primes.len(),
                spaces.len() == count,
                v.len() == count,
                result.primes@ == self.primes@,
                forall|j: int|
                    0 <= j < count ==> (#[trigger] spaces[j]).wf() && spaces[j].n == self.primes[j]
                        && spaces[j].r_exp == R_EXP,
                forall|k: int|
                    0 <= k < result.candidates@.len() ==> is_outcome(
                        #[trigger] result.candidates@[k],
                        (self.start + k) as u128,
                        self.primes@,
                    ),
            ensures
                result.candidates@.len() == self.span + 1,
            decreases end - candidate,
        {
            let mut passed: usize = 0;
            let mut witness: bool = false;
            while passed < count && !witness
                invariant
                    count == self.primes.len(),
                    spaces.len() == count,
                    v.len() == count,
                    passed <= count,
                    forall|j: int|
                        0 <= j < count ==> (#[trigger] spaces[j]).wf() && spaces[j].n
                            == self.primes[j] && spaces[j].r_exp == R_EXP,
                    forall|j: int|
                        0 <= j < count ==> (#[trigger] v[j]).wf() && *v[j].space == spaces[j]
                            && v[j].value() == factorial(candidate as nat) % (self.primes[j] as nat),
                    forall|j: int|
                        0 <= j < passed ==> residue_test(
                            candidate as nat,
                            #[trigger] self.primes@[j] as nat,
                        ) != LegendreSymbol::Nonresidue,
                    witness ==> passed < count && residue_test(
                        candidate as nat,
                        self.primes@[passed as int] as nat,
                    ) == LegendreSymbol::Nonresidue,
                decreases
                        count - passed + (if witness {
                            0int
                        } else {
                            1int
                        }),
            {
                let shifted = v[passed] + 1;
                let sym = shifted.legendre();
                proof {
                    lemma_residue_test(v[passed as int].space, candidate as nat, shifted.value());
                }
                if sym == LegendreSymbol::Nonresidue {
                    witness = true;
                } else {
                    passed = passed + 1;
                }
            }
            let ghost before = result.candidates@;
            if witness {
                result.push(BrocardCandidate::Nonsolution { candidate, passed });
            } else {
                result.push(BrocardCandidate::Solution(candidate));
            }
            proof {
                assert forall|k: int| 0 <= k < result.candidates@.len() implies is_outcome(
                    #[trigger] result.candidates@[k],
                    (self.start + k) as u128,
                    self.primes@,
                ) by {
                    if k < before.len() {
                        assert(result.candidates@[k] == before[k]);
                    }
                }
            }
            if candidate == end {
                break;
            }
            candidate = candidate + 1;
            let mut j: usize = 0;
            while j < count
                invariant
                    count == self.primes.len(),
                    spaces.len() == count,
                    v.len() == count,
                    j <= count,
                    candidate >= 1,
                    forall|i: int|
                        0 <= i < count ==> (#[trigger] spaces[i]).wf() && spaces[i].n
                            == self.primes[i] && spaces[i].r_exp == R_EXP,
                    forall|i: int|
                        0 <= i < count ==> (#[trigger] v[i]).wf() && *v[i].space == spaces[i],
                    forall|i: int|
                        0 <= i < j ==> (#[trigger] v[i]).value() == factorial(candidate as nat) % (
                        self.primes[i] as nat),
                    forall|i: int|
                        j <= i < count ==> (#[trigger] v[i]).value() == factorial(
                            (candidate - 1) as nat,
                        ) % (self.primes[i] as nat),
                decreases count - j,
            {
                let next = v[j] * candidate;
                proof {
                    let p = self.primes[j as int] as int;
                    let f = factorial((candidate - 1) as nat) as int;
                    lemma_mul_mod_noop_left(f, candidate as int, p);
                    assert(factorial(candidate as nat) == candidate * factorial(
                        (candidate - 1) as nat,
                    ));
                    assert(f * candidate == candidate * f) by (nonlinear_arith);
                }
                v.set(j, next);
                j = j + 1;
            }
        }
        result.finish();
        result
    }
}

} // verus!
