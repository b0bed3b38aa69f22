//! Prime numbers: the Miller-Rabin test on a fixed set of bases, a sieve over
//! a segment, and a source of odd probable primes above a bound.
use vstd::prelude::*;
use vstd::arithmetic::div_mod::{lemma_fundamental_div_mod, lemma_mod_multiples_basic};
use vstd::arithmetic::power::{lemma_pow_mod_noop, lemma_pow_multiplies, pow};
use vstd::arithmetic::power2::{lemma2_to64, lemma_pow2_pos, lemma_pow2_unfold, pow2};
use crate::math::euclid::divides;
use crate::math::mod_exp;
use crate::math::modular::{lemma_low_bit, mod_exp_spec};

verus! {

/// `n` is prime: at least 2, with no divisor strictly between 1 and itself.
pub open spec fn is_prime_spec(n: nat) -> bool {
    n >= 2 && forall|d: nat| 1 < d < n ==> !divides(d, n)
}

/// The bases of the Miller-Rabin test: the first twelve primes.
pub const MR_BASES: [u128; 12] = [2, 3, 5, 7, 11, 13, 17, 19, 23, 29, 31, 37];

/// The odd part of `m`: what is left of it when every factor 2 is removed.
pub open spec fn odd_part(m: nat) -> nat
    decreases m,
{
    if m == 0 || m % 2 == 1 {
        m
    } else {
        odd_part(m / 2)
    }
}

/// How often 2 divides `m`.
pub open spec fn two_adicity(m: nat) -> nat
    decreases m,
{
    if m == 0 || m % 2 == 1 {
        0
    } else {
        1 + two_adicity(m / 2)
    }
}

/// `a^(d * 2^i) mod n`: the power `a^d` after `i` squarings.
pub open spec fn squared_power(n: nat, a: nat, d: nat, i: nat) -> nat {
    mod_exp_spec(a, d * pow2(i), n)
}

/// `n` is a strong probable prime to the base `a`: with `n - 1 = d * 2^s`
/// and `d` odd, either `a^d` is 1 modulo `n`, or one of `a^d`, `a^(2d)`, ...,
/// `a^(2^(s-1) d)` is `-1` modulo `n`.  Every odd prime is one to every
/// base.
pub open spec fn strong_probable_prime(n: nat, a: nat) -> bool {
    let d = odd_part((n - 1) as nat);
    let s = two_adicity((n - 1) as nat);
    ||| squared_power(n, a, d, 0) == 1
    ||| exists|i: nat| i < s && #[trigger] squared_power(n, a, d, i) == n - 1
}

/// The verdict of the bases from index `from` on, taken in turn: a base
/// equal to `n` settles that `n` is prime, a base to which `n` is no strong
/// probable prime settles that it is not, and `n` survives where no base is
/// left.
pub open spec fn survives_bases(n: nat, from: nat) -> bool
    decreases 12 - from,
{
    if from >= 12 {
        true
    } else if MR_BASES@[from as int] == n {
        true
    } else {
        strong_probable_prime(n, MR_BASES@[from as int] as nat) && survives_bases(n, from + 1)
    }
}

/// What [`is_prime`] decides: 2, or an odd number from 3 on that survives
/// the twelve bases.  Every prime is a probable prime; a composite number
/// that is one would have to be a strong pseudoprime to all twelve bases.
pub open spec fn is_probable_prime(n: nat) -> bool {
    n == 2 || (n >= 3 && n % 2 == 1 && survives_bases(n, 0))
}

proof fn lemma_squaring(n: nat, a: nat, d: nat, i: nat)
    requires
        n > 0,
        d > 0,
    ensures
        mod_exp_spec(squared_power(n, a, d, i), 2, n) == squared_power(n, a, d, i + 1),
{
    let e: nat = d * pow2(i);
    lemma_pow2_pos(i);
    lemma_pow2_unfold(i + 1);
    assert(e > 0) by (nonlinear_arith)
        requires
            e == d * pow2(i),
            d > 0,
            pow2(i) > 0,
    ;
    assert(d * pow2(i + 1) == e * 2) by (nonlinear_arith)
        requires
            e == d * pow2(i),
            pow2(i + 1) == 2 * pow2(i),
    ;
    lemma_pow_mod_noop(pow(a as int, e), 2, n as int);
    lemma_pow_multiplies(a as int, e, 2);
}

/// A number is its odd part times a power of two.
pub proof fn lemma_odd_part(m: nat)
    requires
        m > 0,
    ensures
        odd_part(m) % 2 == 1,
        odd_part(m) * pow2(two_adicity(m)) == m,
    decreases m,
{
    if m % 2 == 1 {
        lemma2_to64();
        assert(m * 1 == m) by (nonlinear_arith);
    } else {
        let h = m / 2;
        lemma_odd_part(h);
        lemma_pow2_unfold(two_adicity(m));
        assert(odd_part(m) * pow2(two_adicity(m)) == m) by (nonlinear_arith)
            requires
                odd_part(m) == odd_part(h),
                pow2(two_adicity(m)) == 2 * pow2(two_adicity(h)),
                odd_part(h) * pow2(two_adicity(h)) == h,
                m == 2 * h,
        ;
    }
}

/// Modulo a prime, a chain of squarings that arrives at 1 started at 1 or
/// passed through `-1`.
proof fn lemma_power_chain(p: nat, a: nat, d: nat, i: nat)
    requires
        is_prime_spec(p),
        d >= 1,
        squared_power(p, a, d, i) == 1,
    ensures
        squared_power(p, a, d, 0) == 1 || exists|j: nat|
            j < i && #[trigger] squared_power(p, a, d, j) == p - 1,
    decreases i,
{
    if i > 0 {
        let j: nat = (i - 1) as nat;
        let x = squared_power(p, a, d, j);
        lemma_squaring(p, a, d, j);
        vstd::arithmetic::power::lemma_square_is_pow2(x as int);
        lemma_pow2_pos(j);
        assert(d * pow2(j) > 0) by (nonlinear_arith)
            requires
                d >= 1,
                pow2(j) > 0,
        ;
        vstd::arithmetic::div_mod::lemma_mod_bound(pow(a as int, d * pow2(j)), p as int);
        crate::math::fermat::lemma_square_root_of_one(p, x);
        if x == 1 {
            lemma_power_chain(p, a, d, j);
        }
    }
}

/// Every prime from 3 on is a strong probable prime to every base that it
/// does not divide.
pub proof fn lemma_prime_is_strong_probable_prime(p: nat, a: nat)
    requires
        is_prime_spec(p),
        p >= 3,
        a % p != 0,
    ensures
        strong_probable_prime(p, a),
{
    let d = odd_part((p - 1) as nat);
    let s = two_adicity((p - 1) as nat);
    lemma_odd_part((p - 1) as nat);
    crate::math::fermat::lemma_fermat(p, a);
    assert(squared_power(p, a, d, s) == 1);
    lemma_power_chain(p, a, d, s);
}

/// A number below 49 with no factor 2, 3 or 5 besides itself is prime.
proof fn lemma_small_prime(b: nat)
    requires
        2 <= b < 49,
        b % 2 != 0 || b == 2,
        b % 3 != 0 || b == 3,
        b % 5 != 0 || b == 5,
    ensures
        is_prime_spec(b),
{
    if crossed(b, 7) {
        let d = choose|d: nat| d < 7 && #[trigger] small_factor(d, b);
        if d == 2 {
        } else if d == 3 {
        } else if d == 4 {
        } else if d == 5 {
        } else if d == 6 {
        }
        assert(false);
    }
    lemma_prime_iff_uncrossed(b, 7);
}

/// The bases of the test are primes.
pub proof fn lemma_bases_are_prime()
    ensures
        forall|i: int| 0 <= i < 12 ==> is_prime_spec(#[trigger] MR_BASES@[i] as nat),
{
    lemma_small_prime(2);
    lemma_small_prime(3);
    lemma_small_prime(5);
    lemma_small_prime(7);
    lemma_small_prime(11);
    lemma_small_prime(13);
    lemma_small_prime(17);
    lemma_small_prime(19);
    lemma_small_prime(23);
    lemma_small_prime(29);
    lemma_small_prime(31);
    lemma_small_prime(37);
}

proof fn lemma_prime_survives(p: nat, from: nat)
    requires
        is_prime_spec(p),
        p >= 3,
    ensures
        survives_bases(p, from),
    decreases 12 - from,
{
    if from < 12 {
        let b = MR_BASES@[from as int] as nat;
        if b != p {
            lemma_bases_are_prime();
            assert(is_prime_spec(b));
            if b < p {
                vstd::arithmetic::div_mod::lemma_small_mod(b, p);
            } else {
                // A prime has no divisor strictly between 1 and itself.
                assert(!divides(p, b));
            }
            lemma_prime_is_strong_probable_prime(p, b);
        }
        lemma_prime_survives(p, from + 1);
    }
}

/// The test misses no prime: every prime is a probable prime.
pub proof fn lemma_prime_is_probable_prime(n: nat)
    requires
        is_prime_spec(n),
    ensures
        is_probable_prime(n),
{
    if n != 2 {
        if n % 2 == 0 {
            assert(divides(2, n));
        }
        lemma_prime_survives(n, 0);
    }
}

/// One base of the Miller-Rabin test: whether `a` shows that `n` is
/// composite, where `n - 1 = d * 2^s`.
fn check_composite(n: u128, a: u128, d: u128, s: u128) -> (composite: bool)
    requires
        n >= 2,
        d >= 1,
        s >= 1,
    ensures
        composite == !({
            ||| squared_power(n as nat, a as nat, d as nat, 0) == 1
            ||| exists|i: nat|
                i < s && #[trigger] squared_power(n as nat, a as nat, d as nat, i) == n - 1
        }),
{
    proof {
        lemma2_to64();
        assert(d * 1 == d) by (nonlinear_arith);
    }
    let mut x: u128 = mod_exp(a, d, n);
    assert(x == squared_power(n as nat, a as nat, d as nat, 0));
    if x == 1 || x == n - 1 {
        return false;
    }
    let mut i: u128 = 1;
    while i < s
        invariant
            n >= 2,
            d >= 1,
            1 <= i <= s,
            x == squared_power(n as nat, a as nat, d as nat, (i - 1) as nat),
            squared_power(n as nat, a as nat, d as nat, 0) != 1,
            forall|k: nat| k < i ==> #[trigger] squared_power(n as nat, a as nat, d as nat, k) != n - 1,
        decreases s - i,
    {
        proof {
            lemma_squaring(n as nat, a as nat, d as nat, (i - 1) as nat);
        }
        x = mod_exp(x, 2, n);
        if x == n - 1 {
            assert(squared_power(n as nat, a as nat, d as nat, i as nat) == n - 1);
            return false;
        }
        i = i + 1;
    }
    true
}

/// The Miller-Rabin primality test on the bases [`MR_BASES`].
pub fn is_prime(n: u128) -> (prime: bool)
    ensures
        prime == is_probable_prime(n as nat),
        is_prime_spec(n as nat) ==> prime,
{
    proof {
        if is_prime_spec(n as nat) {
            lemma_prime_is_probable_prime(n as nat);
        }
    }
    if n < 2 {
        return false;
    }
    if n == 2 {
        return true;
    }
    proof {
        lemma_low_bit(n);
    }
    if n & 1 == 0 {
        return false;
    }
    let mut d: u128 = n - 1;
    let mut r: u128 = 0;
    proof {
        lemma_low_bit(d);
    }
    while d & 1 == 0
        invariant
            d >= 1,
            r + d <= n - 1,
            r >= 1 || d % 2 == 0,
            odd_part(d as nat) == odd_part((n - 1) as nat),
            two_adicity(d as nat) + r == two_adicity((n - 1) as nat),
        decreases d,
    {
        proof {
            lemma_low_bit(d);
        }
        d = d >> 1;
        r = r + 1;
        proof {
            lemma_low_bit(d);
        }
    }
    proof {
        lemma_low_bit(d);
    }
    let mut i: usize = 0;
    while i < 12
        invariant
            n >= 3,
            d >= 1,
            r >= 1,
            d == odd_part((n - 1) as nat),
            r == two_adicity((n - 1) as nat),
            i <= 12,
            survives_bases(n as nat, i as nat) == survives_bases(n as nat, 0),
            is_prime_spec(n as nat) ==> is_probable_prime(n as nat),
        decreases 12 - i,
    {
        let a: u128 = MR_BASES[i];
        if a == n {
            return true;
        }
        if check_composite(n, a, d, r) {
            return false;
        }
        i = i + 1;
    }
    true
}

/// `d` is a factor of `x` that a sieve meets: at least 2, with its square
/// no larger than `x`.
pub open spec fn small_factor(d: nat, x: nat) -> bool {
    2 <= d && d * d <= x && x % d == 0
}

/// `x` has been crossed out by a factor below `bound`.
pub open spec fn crossed(x: nat, bound: nat) -> bool {
    exists|d: nat| d < bound && #[trigger] small_factor(d, x)
}

/// A number from 2 on is prime exactly if no factor with a square up to it
/// crosses it out.
pub proof fn lemma_prime_iff_uncrossed(x: nat, bound: nat)
    requires
        x >= 2,
        bound * bound > x,
    ensures
        is_prime_spec(x) <==> !crossed(x, bound),
{
    if crossed(x, bound) {
        let d = choose|d: nat| d < bound && #[trigger] small_factor(d, x);
        assert(1 < d < x) by (nonlinear_arith)
            requires
                2 <= d,
                d * d <= x,
        ;
        assert(divides(d, x));
    }
    if !is_prime_spec(x) {
        let d = choose|d: nat| 1 < d < x && divides(d, x);
        let e: nat = x / d;
        lemma_fundamental_div_mod(x as int, d as int);
        assert(x == d * e);
        assert(e >= 2) by (nonlinear_arith)
            requires
                x == d * e,
                1 < d < x,
        ;
        let m: nat = if d <= e {
            d
        } else {
            e
        };
        assert(m * m <= x) by (nonlinear_arith)
            requires
                x == d * e,
                m == d || m == e,
                m <= d,
                m <= e,
        ;
        assert(x % m == 0) by {
            if m == d {
            } else {
                lemma_mod_multiples_basic(d as int, e as int);
            }
        }
        assert(m < bound) by (nonlinear_arith)
            requires
                m * m <= x,
                x < bound * bound,
        ;
        assert(small_factor(m, x));
    }
}

/// Nothing crosses out 0 or 1.
pub proof fn lemma_units_uncrossed(x: nat, bound: nat)
    requires
        x < 2,
    ensures
        !crossed(x, bound),
{
    if crossed(x, bound) {
        let d = choose|d: nat| d < bound && #[trigger] small_factor(d, x);
        assert(d * d >= 4) by (nonlinear_arith)
            requires
                d >= 2,
        ;
    }
}

/// Between two multiples of `p` lies a gap of at least `p`.
proof fn lemma_multiples_gap(x: nat, i: nat, p: nat)
    requires
        p > 0,
        x % p == 0,
        i % p == 0,
        x > i,
    ensures
        x >= i + p,
{
    lemma_fundamental_div_mod(x as int, p as int);
    lemma_fundamental_div_mod(i as int, p as int);
    let a = x / p;
    let b = i / p;
    assert(x >= i + p) by (nonlinear_arith)
        requires
            x == p * a,
            i == p * b,
            x > i,
            p > 0,
    ;
}

/// Crosses out of the segment `low..=high` the multiples of `p` from `p * p`
/// on.
fn cross_out(marks: &mut Vec<bool>, low: u128, high: u128, p: u128)
    requires
        low <= high,
        old(marks).len() == high - low + 1,
        2 <= p,
        p * p <= high,
        forall|j: int|
            0 <= j < old(marks).len() ==> (old(marks)[j] <==> !crossed(
                (low + j) as nat,
                p as nat,
            )),
    ensures
        final(marks).len() == old(marks).len(),
        forall|j: int|
            0 <= j < final(marks).len() ==> (final(marks)[j] <==> !crossed(
                (low + j) as nat,
                (p + 1) as nat,
            )),
{
    let square: u128 = p * p;
    let rest: u128 = low % p;
    let first: Option<u128> = if rest == 0 {
        Some(low)
    } else {
        low.checked_add(p - rest)
    };
    let mut i: u128 = 0;
    let mut more: bool = false;
    if let Some(f) = first {
        i = if f < square {
            square
        } else {
            f
        };
        more = i <= high;
        proof {
            lemma_mod_multiples_basic(p as int, p as int);
            if rest != 0 {
                lemma_fundamental_div_mod(low as int, p as int);
                lemma_mod_multiples_basic(low as int / p as int + 1, p as int);
                assert((low as int / p as int + 1) * p == p * (low as int / p as int) + p)
                    by (nonlinear_arith);
            }
        }
    }
    proof {
        assert forall|j: int| 0 <= j < marks.len() implies (marks[j] <==> !crossed(
            (low + j) as nat,
            p as nat,
        ) && !(small_factor(p as nat, (low + j) as nat) && (more ==> low + j < i))) by {
            let x = (low + j) as nat;
            if small_factor(p as nat, x) {
                // A multiple of p from low on is no smaller than the first one.
                lemma_fundamental_div_mod(low as int, p as int);
                lemma_mod_multiples_basic(low as int / p as int, p as int);
                let base = (low - rest) as nat;
                assert(base == (low as int / p as int) * p) by (nonlinear_arith)
                    requires
                        low == p * (low as int / p as int) + rest,
                        base == low - rest,
                ;
                if rest != 0 {
                    lemma_multiples_gap(x, base, p as nat);
                }
            }
        }
    }
    while more
        invariant
            low <= high,
            marks.len() == high - low + 1,
            2 <= p,
            more ==> (low <= i <= high && i % p == 0 && i >= p * p),
            forall|j: int|
                0 <= j < marks.len() ==> (marks[j] <==> !crossed((low + j) as nat, p as nat) && !(
                small_factor(p as nat, (low + j) as nat) && (more ==> low + j < i))),
        decreases
                (if more {
                    high - i + 1
                } else {
                    0
                }),
    {
        let ghost before = marks@;
        let ghost at = i;
        marks.set((i - low) as usize, false);
        if high - i >= p {
            i = i + p;
            proof {
                vstd::arithmetic::div_mod::lemma_mod_adds(at as int, p as int, p as int);
                vstd::arithmetic::div_mod::lemma_mod_self_0(p as int);
            }
        } else {
            more = false;
        }
        proof {
            assert forall|j: int| 0 <= j < marks.len() implies (marks[j] <==> !crossed(
                (low + j) as nat,
                p as nat,
            ) && !(small_factor(p as nat, (low + j) as nat) && (more ==> low + j < i))) by {
                let x = (low + j) as nat;
                if x == at {
                    assert(small_factor(p as nat, x));
                } else {
                    assert(marks[j] == before[j]);
                    if small_factor(p as nat, x) && x > at {
                        lemma_multiples_gap(x, at as nat, p as nat);
                    }
                }
            }
        }
    }
    proof {
        assert forall|j: int| 0 <= j < marks.len() implies (marks[j] <==> !crossed(
            (low + j) as nat,
            (p + 1) as nat,
        )) by {
            let x = (low + j) as nat;
            if crossed(x, (p + 1) as nat) {
                let d = choose|d: nat| d < p + 1 && #[trigger] small_factor(d, x);
                if d < p {
                    assert(crossed(x, p as nat));
                }
            }
            if crossed(x, p as nat) {
                let d = choose|d: nat| d < p && #[trigger] small_factor(d, x);
                assert(d < p + 1 && small_factor(d, x));
            }
            if small_factor(p as nat, x) {
                assert(p < p + 1 && small_factor(p as nat, x));
            }
        }
    }
}

/// The sieve of Eratosthenes on the segment `low..=high`: the numbers of
/// the segment that no smaller factor crosses out, in ascending order.
/// These are the primes of the segment and, where it holds them, 0 and 1.
pub fn segmented_seive(low: u128, high: u128) -> (primes: Vec<u128>)
    requires
        low <= high,
        high - low < usize::MAX,
    ensures
        forall|i: int, j: int| 0 <= i < j < primes.len() ==> primes[i] < primes[j],
        forall|x: u128|
            primes@.contains(x) <==> (low <= x <= high && (x < 2 || is_prime_spec(x as nat))),
{
    let count: usize = (high - low + 1) as usize;
    let mut marks: Vec<bool> = Vec::new();
    let mut k: usize = 0;
    while k < count
        invariant
            k <= count,
            marks.len() == k,
            forall|j: int| 0 <= j < k ==> marks[j],
        decreases count - k,
    {
        marks.push(true);
        k = k + 1;
    }
    proof {
        assert forall|j: int| 0 <= j < marks.len() implies (marks[j] <==> !crossed(
            (low + j) as nat,
            2,
        )) by {
            if crossed((low + j) as nat, 2) {
                let d = choose|d: nat| d < 2 && #[trigger] small_factor(d, (low + j) as nat);
            }
        }
    }
    let mut p: u128 = 2;
    while p <= high / p
        invariant
            low <= high,
            2 <= p,
            count == high - low + 1,
            marks.len() == count,
            forall|j: int|
                0 <= j < marks.len() ==> (marks[j] <==> !crossed((low + j) as nat, p as nat)),
        decreases high - p,
    {
        proof {
            lemma_fundamental_div_mod(high as int, p as int);
            let q: int = high as int / p as int;
            let m: int = high as int % p as int;
            assert(p * p <= high) by (nonlinear_arith)
                requires
                    p <= q,
                    high == p * q + m,
                    m >= 0,
                    p >= 2,
            ;
            assert(p < high) by (nonlinear_arith)
                requires
                    p * p <= high,
                    p >= 2,
            ;
        }
        cross_out(&mut marks, low, high, p);
        p = p + 1;
    }
    proof {
        lemma_fundamental_div_mod(high as int, p as int);
        vstd::arithmetic::div_mod::lemma_mod_bound(high as int, p as int);
        let q: int = high as int / p as int;
        let m: int = high as int % p as int;
        assert(p * p > high) by (nonlinear_arith)
            requires
                p > q,
                high == p * q + m,
                m < p,
                p >= 2,
        ;
        assert forall|j: int| 0 <= j < marks.len() implies (marks[j] <==> (low + j < 2
            || is_prime_spec((low + j) as nat))) by {
            let x = (low + j) as nat;
            if x < 2 {
                lemma_units_uncrossed(x, p as nat);
            } else {
                assert(p * p > x);
                lemma_prime_iff_uncrossed(x, p as nat);
            }
        }
    }
    let mut primes: Vec<u128> = Vec::new();
    let mut j: usize = 0;
    while j < count
        invariant
            low <= high,
            count == high - low + 1,
            marks.len() == count,
            j <= count,
            forall|a: int, b: int| 0 <= a < b < primes.len() ==> primes[a] < primes[b],
            forall|a: int| 0 <= a < primes.len() ==> low <= #[trigger] primes[a] < low + j,
            forall|a: int| 0 <= a < primes.len() ==> marks[#[trigger] primes[a] - low],
            forall|x: u128| low <= x < low + j && marks[x - low] ==> primes@.contains(x),
        decreases count - j,
    {
        if marks[j] {
            let ghost before = primes@;
            let value: u128 = j as u128 + low;
            primes.push(value);
            proof {
                assert forall|x: u128| low <= x < low + j + 1 && marks[x - low] implies primes@.contains(
                    x,
                ) by {
                    if x == value {
                        assert(primes@[primes.len() - 1] == x);
                    } else {
                        assert(before.contains(x));
                        let a = choose|a: int| 0 <= a < before.len() && before[a] == x;
                        assert(primes@[a] == x);
                    }
                }
            }
        }
        j = j + 1;
    }
    proof {
        assert forall|x: u128| primes@.contains(x) implies (low <= x <= high && (x < 2
            || is_prime_spec(x as nat))) by {
            let a = choose|a: int| 0 <= a < primes.len() && primes[a] == x;
            assert(marks[primes[a] - low]);
        }
    }
    primes
}

/// The first `count` odd probable primes above `bound`, ascending; fewer
/// where the numbers up to `u128::MAX` hold no more.
pub open spec fn odd_primes_above(bound: nat, count: nat) -> Seq<u128>
    decreases u128::MAX - bound,
{
    if count == 0 || bound >= u128::MAX {
        Seq::empty()
    } else {
        let c = bound + 1;
        if c % 2 == 1 && is_probable_prime(c) {
            seq![c as u128] + odd_primes_above(c, (count - 1) as nat)
        } else {
            odd_primes_above(c, count)
        }
    }
}

/// The first `count` odd probable primes above `start`, ascending.  The
/// list is shorter only where the numbers up to `u128::MAX` hold no more.
pub fn take_primes(start: u128, count: usize) -> (primes: Vec<u128>)
    ensures
        primes@ == odd_primes_above(start as nat, count as nat),
        primes.len() <= count,
        forall|i: int, j: int| 0 <= i < j < primes.len() ==> primes[i] < primes[j],
        forall|i: int|
            0 <= i < primes.len() ==> start < #[trigger] primes[i] && primes[i] % 2 == 1
                && is_probable_prime(primes[i] as nat),
        forall|x: u128|
            start < x && x % 2 == 1 && is_probable_prime(x as nat) && (primes.len() < count || (
            primes.len() > 0 && x <= primes[primes.len() - 1])) ==> primes@.contains(x),
        forall|x: u128|
            start < x && x % 2 == 1 && is_prime_spec(x as nat) && (primes.len() < count || (
            primes.len() > 0 && x <= primes[primes.len() - 1])) ==> primes@.contains(x),
{
    proof {
        assert forall|x: u128| is_prime_spec(x as nat) implies is_probable_prime(x as nat) by {
            lemma_prime_is_probable_prime(x as nat);
        }
    }
    let mut primes: Vec<u128> = Vec::new();
    let mut candidate: u128 = start;
    while primes.len() < count && candidate < u128::MAX
        invariant
            primes.len() <= count,
            start <= candidate,
            primes@ + odd_primes_above(candidate as nat, (count - primes.len()) as nat)
                == odd_primes_above(start as nat, count as nat),
            forall|i: int, j: int| 0 <= i < j < primes.len() ==> primes[i] < primes[j],
            forall|i: int|
                0 <= i < primes.len() ==> start < #[trigger] primes[i] <= candidate && primes[i] % 2
                    == 1 && is_probable_prime(primes[i] as nat),
            forall|x: u128|
                start < x <= candidate && x % 2 == 1 && is_probable_prime(x as nat)
                    ==> primes@.contains(x),
        decreases u128::MAX - candidate,
    {
        let ghost before = primes@;
        let ghost left = (count - primes.len()) as nat;
        let ghost from = candidate as nat;
        candidate = candidate + 1;
        proof {
            lemma_low_bit(candidate);
        }
        if candidate & 1 == 1 && is_prime(candidate) {
            primes.push(candidate);
            proof {
                let tail = odd_primes_above(candidate as nat, (left - 1) as nat);
                assert(odd_primes_above(from, left) == seq![candidate] + tail);
                assert(primes@ + tail == before + (seq![candidate] + tail));
            }
        }
        proof {
            assert forall|x: u128|
                start < x <= candidate && x % 2 == 1 && is_probable_prime(
                    x as nat,
                ) implies primes@.contains(x) by {
                if x == candidate {
                    assert(primes@[primes.len() - 1] == x);
                } else {
                    assert(before.contains(x));
                    let a = choose|a: int| 0 <= a < before.len() && before[a] == x;
                    assert(primes@[a] == x);
                }
            }
        }
    }
    proof {
        assert(odd_primes_above(candidate as nat, (count - primes.len()) as nat) == Seq::<
            u128,
        >::empty());
        assert(primes@ + Seq::<u128>::empty() == primes@);
    }
    primes
}

} // verus!
