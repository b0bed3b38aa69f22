//! Arithmetic modulo a prime: Euclid's lemma, Fermat's little theorem, the
//! square roots of one, and the half of Euler's criterion that makes a
//! non-residue a witness against a square.
use vstd::prelude::*;
use vstd::arithmetic::div_mod::*;
use vstd::arithmetic::mul::*;
use vstd::arithmetic::power::*;
use vstd::arithmetic::power2::{lemma2_to64, lemma_pow2_adds, lemma_pow2_unfold, pow2};
use vstd::set_lib::{lemma_int_range, lemma_len_subset, set_int_range};
use crate::math::euclid::{
    bezout,
    divides,
    gcd_spec,
    lemma_bezout_identity,
    lemma_gcd_is_greatest,
};
use crate::math::legendre::{naive_legendre_spec, LegendreSymbol};
use crate::math::modular::{factorial, lemma_mul_congruent};
use crate::math::prime::is_prime_spec;

verus! {

/// Euclid's lemma: a prime that divides a product divides one of the
/// factors.
pub proof fn lemma_prime_divides_product(p: nat, x: nat, y: int)
    requires
        is_prime_spec(p),
        (x * y) % (p as int) == 0,
        x % p != 0,
    ensures
        y % (p as int) == 0,
{
    let g = gcd_spec(x, p);
    lemma_gcd_is_greatest(x, p);
    assert(g != 0);
    if g > p {
        lemma_small_mod(p, g);
    }
    assert(g == 1);
    lemma_bezout_identity(x, p);
    let (s, t) = bezout(x, p);
    let k = (x * y) / (p as int);
    lemma_fundamental_div_mod(x * y, p as int);
    assert(y == (s * k + t * y) * p) by (nonlinear_arith)
        requires
            s * x + t * p == 1,
            x * y == p * k,
    ;
    lemma_mod_multiples_basic(s * k + t * y, p as int);
}

/// A factor that a prime does not divide cancels from a congruence.
pub proof fn lemma_prime_cancel(p: nat, a: nat, x: int, y: int)
    requires
        is_prime_spec(p),
        a % p != 0,
        (a * x) % (p as int) == (a * y) % (p as int),
    ensures
        x % (p as int) == y % (p as int),
{
    lemma_mod_equivalence(a * x, a * y, p as int);
    assert(a * (x - y) == a * x - a * y) by (nonlinear_arith);
    lemma_prime_divides_product(p, a, x - y);
    lemma_mod_equivalence(x, y, p as int);
}

/// The product of the entries of a sequence.
pub open spec fn product(s: Seq<int>) -> int
    decreases s.len(),
{
    if s.len() == 0 {
        1
    } else {
        product(s.drop_last()) * s.last()
    }
}

proof fn lemma_product_remove(s: Seq<int>, j: int)
    requires
        0 <= j < s.len(),
    ensures
        product(s) == s[j] * product(s.remove(j)),
    decreases s.len(),
{
    let rest = s.remove(j);
    if j == s.len() - 1 {
        assert(rest =~= s.drop_last());
        assert(product(s.drop_last()) * s.last() == s.last() * product(s.drop_last()))
            by (nonlinear_arith);
    } else {
        let t = s.drop_last();
        lemma_product_remove(t, j);
        assert(rest.drop_last() =~= t.remove(j));
        assert(rest.last() == s.last());
        assert(product(rest) == product(t.remove(j)) * s.last());
        assert((s[j] * product(t.remove(j))) * s.last() == s[j] * (product(t.remove(j))
            * s.last())) by (nonlinear_arith);
    }
}

/// The product of the numbers 1 to `m` in any order is `m!`.
proof fn lemma_permutation_product(s: Seq<int>, m: nat)
    requires
        s.len() == m,
        s.no_duplicates(),
        forall|i: int| 0 <= i < m ==> 1 <= #[trigger] s[i] <= m,
    ensures
        product(s) == factorial(m),
    decreases m,
{
    if m > 0 {
        if !s.contains(m as int) {
            // Then m distinct entries lie among m - 1 numbers.
            s.unique_seq_to_set();
            lemma_int_range(1, m as int);
            assert forall|x: int| s.to_set().contains(x) implies set_int_range(1, m as int).contains(
                x,
            ) by {
                let i = choose|i: int| 0 <= i < s.len() && s[i] == x;
                assert(1 <= s[i] <= m);
            }
            lemma_len_subset(s.to_set(), set_int_range(1, m as int));
        }
        let j = choose|j: int| 0 <= j < s.len() && s[j] == m;
        let t = s.remove(j);
        assert(t.len() == m - 1);
        assert forall|i: int| 0 <= i < t.len() implies t[i] == s[if i < j {
            i
        } else {
            i + 1
        }] by {}
        assert(t.no_duplicates()) by {
            assert forall|a: int, b: int| 0 <= a < t.len() && 0 <= b < t.len() && a != b implies t[a]
                != t[b] by {
                let a2 = if a < j {
                    a
                } else {
                    a + 1
                };
                let b2 = if b < j {
                    b
                } else {
                    b + 1
                };
                assert(s[a2] != s[b2]);
            }
        }
        assert forall|i: int| 0 <= i < t.len() implies 1 <= #[trigger] t[i] <= m - 1 by {
            let i2 = if i < j {
                i
            } else {
                i + 1
            };
            assert(s[i2] != s[j]);
            assert(1 <= s[i2] <= m);
        }
        lemma_product_remove(s, j);
        lemma_permutation_product(t, (m - 1) as nat);
    } else {
        assert(s.len() == 0);
    }
}

/// The multiples `a`, `2a`, ..., `(p - 1) a` reduced modulo `p`.
pub open spec fn multiples(a: nat, p: nat) -> Seq<int> {
    Seq::new((p - 1) as nat, |i: int| (a * (i + 1)) % (p as int))
}

proof fn lemma_multiples_prefix(a: nat, p: nat, k: nat)
    requires
        p >= 2,
        k <= p - 1,
    ensures
        product(multiples(a, p).subrange(0, k as int)) % (p as int) == (pow(a as int, k)
            * factorial(k)) % (p as int),
    decreases k,
{
    let s = multiples(a, p);
    let pi = p as int;
    if k == 0 {
        assert(s.subrange(0, 0).len() == 0);
        lemma_pow0(a as int);
    } else {
        let j: nat = (k - 1) as nat;
        lemma_multiples_prefix(a, p, j);
        let head = s.subrange(0, k as int);
        assert(head.drop_last() =~= s.subrange(0, j as int));
        let ak: int = a as int * k as int;
        assert(head.last() == ak % pi);
        let before = product(s.subrange(0, j as int));
        let want = pow(a as int, j) * factorial(j);
        // before * ((a k) mod p) is congruent to want * (a k).
        lemma_mod_twice(ak, pi);
        lemma_mul_congruent(ak % pi, ak, before, pi);
        lemma_mul_congruent(before, want, ak, pi);
        lemma_pow1(a as int);
        lemma_pow_adds(a as int, j, 1);
        assert(want * ak == (pow(a as int, j) * pow(a as int, 1)) * (k * factorial(j)))
            by (nonlinear_arith)
            requires
                want == pow(a as int, j) * factorial(j),
                pow(a as int, 1) == a,
                ak == a * k,
        ;
    }
}

proof fn lemma_factorial_not_divisible(p: nat, k: nat)
    requires
        is_prime_spec(p),
        k < p,
    ensures
        factorial(k) % p != 0,
    decreases k,
{
    if k == 0 {
        lemma_small_mod(1, p);
    } else {
        lemma_factorial_not_divisible(p, (k - 1) as nat);
        lemma_small_mod(k, p);
        if factorial(k) % p == 0 {
            lemma_prime_divides_product(p, k, factorial((k - 1) as nat) as int);
        }
    }
}

/// Fermat's little theorem: a number that a prime `p` does not divide,
/// raised to the power `p - 1`, is congruent to 1 modulo `p`.
pub proof fn lemma_fermat(p: nat, a: nat)
    requires
        is_prime_spec(p),
        a % p != 0,
    ensures
        pow(a as int, (p - 1) as nat) % (p as int) == 1,
{
    let pi = p as int;
    let m: nat = (p - 1) as nat;
    let s = multiples(a, p);
    assert forall|i: int| 0 <= i < m implies 1 <= #[trigger] s[i] <= m by {
        lemma_mod_bound(a * (i + 1), pi);
        if s[i] == 0 {
            lemma_prime_divides_product(p, a, i + 1);
            lemma_small_mod((i + 1) as nat, p);
        }
    }
    assert(s.no_duplicates()) by {
        assert forall|i: int, j: int| 0 <= i < s.len() && 0 <= j < s.len() && i != j implies s[i]
            != s[j] by {
            if s[i] == s[j] {
                lemma_prime_cancel(p, a, i + 1, j + 1);
                lemma_small_mod((i + 1) as nat, p);
                lemma_small_mod((j + 1) as nat, p);
            }
        }
    }
    lemma_permutation_product(s, m);
    lemma_multiples_prefix(a, p, m);
    assert(s.subrange(0, m as int) =~= s);
    let f = factorial(m);
    let w = pow(a as int, m);
    assert((w * f) % pi == (f as int) % pi);
    lemma_factorial_not_divisible(p, m);
    assert(f * w == w * f && f * 1 == f) by (nonlinear_arith);
    lemma_prime_cancel(p, f, w, 1);
    lemma_small_mod(1, p);
}

/// Modulo a prime, one has no square roots but 1 and `-1`.
pub proof fn lemma_square_root_of_one(p: nat, x: nat)
    requires
        is_prime_spec(p),
        x < p,
        (x * x) % p == 1,
    ensures
        x == 1 || x == p - 1,
{
    let pi = p as int;
    assert((x + 1) * (x - 1) == x * x - 1) by (nonlinear_arith);
    lemma_small_mod(1, p);
    lemma_mod_equivalence((x * x) as int, 1, pi);
    if (x + 1) % p != 0 {
        lemma_prime_divides_product(p, x + 1, x - 1);
        lemma_mod_equivalence(x as int, 1, pi);
        lemma_small_mod(x, p);
    } else {
        if x + 1 < p {
            lemma_small_mod(x + 1, p);
        }
    }
}

/// The square of `m`.
pub open spec fn square(m: nat) -> nat {
    m * m
}

/// `v` is the square of a natural number.
pub open spec fn is_perfect_square(v: nat) -> bool {
    exists|m: nat| #[trigger] square(m) == v
}

/// A number whose symbol by Euler's criterion modulo an odd prime is
/// `Nonresidue` is no square: neither modulo the prime nor, so, among the
/// integers.
pub proof fn lemma_nonresidue_is_no_square(p: nat, v: nat, root: nat)
    requires
        is_prime_spec(p),
        p % 2 == 1,
        naive_legendre_spec(v, p) == LegendreSymbol::Nonresidue,
    ensures
        (root * root) % p != v % p,
        root * root != v,
{
    let pi = p as int;
    let e: nat = ((p - 1) / 2) as nat;
    assert(e >= 1);
    if (root * root) % p == v % p {
        // The power of v is the power of root * root.
        lemma_pow_mod_noop(v as int, e, pi);
        lemma_pow_mod_noop((root * root) as int, e, pi);
        assert(pow(v as int, e) % pi == pow((root * root) as int, e) % pi);
        lemma_square_is_pow2(root as int);
        lemma_pow_multiplies(root as int, 2, e);
        assert(2 * e == p - 1);
        if root % p == 0 {
            lemma_pow_mod_noop(root as int, (p - 1) as nat, pi);
            lemma0_pow((p - 1) as nat);
            lemma_small_mod(0, p);
        } else {
            lemma_fermat(p, root);
        }
    }
}

/// A witness against a square: a number whose symbol by Euler's criterion
/// modulo some odd prime is `Nonresidue` is no perfect square.
pub proof fn lemma_nonresidue_is_no_perfect_square(p: nat, v: nat)
    requires
        is_prime_spec(p),
        p % 2 == 1,
        naive_legendre_spec(v, p) == LegendreSymbol::Nonresidue,
    ensures
        !is_perfect_square(v),
{
    if is_perfect_square(v) {
        let m = choose|m: nat| #[trigger] square(m) == v;
        lemma_nonresidue_is_no_square(p, v, m);
    }
}

/// An odd prime divides no power of two.
pub proof fn lemma_pow2_not_divisible(p: nat, e: nat)
    requires
        is_prime_spec(p),
        p % 2 == 1,
    ensures
        pow2(e) % p != 0,
    decreases e,
{
    if e == 0 {
        lemma2_to64();
        lemma_small_mod(1, p);
    } else {
        lemma_pow2_unfold(e);
        lemma_pow2_not_divisible(p, (e - 1) as nat);
        lemma_small_mod(2, p);
        if pow2(e) % p == 0 {
            lemma_prime_divides_product(p, 2, pow2((e - 1) as nat) as int);
        }
    }
}

/// Modulo an odd prime every even power of two is a residue by Euler's
/// criterion: it is the square of a power of two.
pub proof fn lemma_even_pow2_is_residue(p: nat, e: nat)
    requires
        is_prime_spec(p),
        p % 2 == 1,
        e % 2 == 0,
    ensures
        naive_legendre_spec(pow2(e), p) == LegendreSymbol::Residue,
{
    let h: nat = e / 2;
    let half: nat = ((p - 1) / 2) as nat;
    let b = pow2(h);
    lemma_pow2_adds(h, h);
    lemma_pow2_not_divisible(p, h);
    lemma_fermat(p, b);
    lemma_square_is_pow2(b as int);
    lemma_pow_multiplies(b as int, 2, half);
    assert(pow2(e) == b * b);
    assert(2 * half == p - 1);
    assert(half >= 1);
}

} // verus!
