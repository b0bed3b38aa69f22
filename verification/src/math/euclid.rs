//! The Euclidean algorithm as mathematics: divisibility, the greatest common
//! divisor, Bezout coefficients, and the facts about them that the executable
//! routines rely on.
use vstd::prelude::*;
use vstd::arithmetic::div_mod::*;
use vstd::arithmetic::mul::*;

verus! {

/// `d` divides `x`.  Zero divides only zero.
pub open spec fn divides(d: nat, x: nat) -> bool {
    if d == 0 {
        x == 0
    } else {
        x % d == 0
    }
}

/// The greatest common divisor, by Euclid's recurrence.
pub open spec fn gcd_spec(a: nat, b: nat) -> nat
    decreases b,
{
    if b == 0 {
        a
    } else {
        gcd_spec(b, a % b)
    }
}

/// A multiple of `d` is divisible by `d`.
pub proof fn lemma_divides_multiple(d: nat, k: nat)
    ensures
        divides(d, k * d),
{
    if d > 0 {
        lemma_mod_multiples_basic(k as int, d as int);
    } else {
        assert(k * d == 0) by (nonlinear_arith)
            requires
                d == 0,
        ;
    }
}

/// Whatever `d` divides is one of its multiples.
pub proof fn lemma_divides_witness(d: nat, x: nat) -> (k: nat)
    requires
        divides(d, x),
    ensures
        x == k * d,
{
    if d == 0 {
        0
    } else {
        lemma_fundamental_div_mod(x as int, d as int);
        lemma_mul_is_commutative(d as int, (x / d) as int);
        x / d
    }
}

/// A divisor of `x` and of `y` divides `x + q * y` and, where it is not
/// negative, `x - q * y`.
pub proof fn lemma_divides_combination(d: nat, x: nat, y: nat, q: nat)
    requires
        divides(d, x),
        divides(d, y),
    ensures
        divides(d, x + q * y),
        x >= q * y ==> divides(d, (x - q * y) as nat),
{
    if d == 0 {
        assert(q * y == 0) by (nonlinear_arith)
            requires
                y == 0,
        ;
    } else {
        let di = d as int;
        lemma_mul_mod_noop_right(q as int, y as int, di);
        assert((q as int * (y as int % di)) % di == 0) by (nonlinear_arith)
            requires
                y as int % di == 0,
                di > 0,
        ;
        lemma_add_mod_noop(x as int, (q * y) as int, di);
        lemma_sub_mod_noop(x as int, (q * y) as int, di);
    }
}

/// `gcd_spec(a, b)` divides both arguments, and every common divisor
/// divides it: it is the greatest common divisor in the divisibility order.
pub proof fn lemma_gcd_is_greatest(a: nat, b: nat)
    ensures
        divides(gcd_spec(a, b), a),
        divides(gcd_spec(a, b), b),
        forall|d: nat| divides(d, a) && divides(d, b) ==> divides(d, gcd_spec(a, b)),
    decreases b,
{
    let g = gcd_spec(a, b);
    if b == 0 {
        if a > 0 {
            lemma_mod_self_0(a as int);
        }
    } else {
        let c = a % b;
        let q = a / b;
        lemma_gcd_is_greatest(b, c);
        lemma_fundamental_div_mod(a as int, b as int);
        lemma_mul_is_commutative(b as int, q as int);
        assert(a == c + q * b);
        lemma_divides_combination(g, c, b, q);
        assert forall|d: nat| divides(d, a) && divides(d, b) implies divides(d, g) by {
            lemma_divides_combination(d, a, b, q);
            assert(c == (a - q * b) as nat);
        }
    }
}

/// The greatest common divisor does not depend on the order of its arguments.
pub proof fn lemma_gcd_symmetric(a: nat, b: nat)
    ensures
        gcd_spec(a, b) == gcd_spec(b, a),
{
    let g = gcd_spec(a, b);
    let h = gcd_spec(b, a);
    lemma_gcd_is_greatest(a, b);
    lemma_gcd_is_greatest(b, a);
    assert(divides(g, h));
    assert(divides(h, g));
    let k = lemma_divides_witness(g, h);
    let l = lemma_divides_witness(h, g);
    assert(g == h) by (nonlinear_arith)
        requires
            h == k * g,
            g == l * h,
    ;
}

/// Bezout coefficients `(s, t)` of `a` and `b`, by the recurrence of the
/// extended Euclidean algorithm: `s * a + t * b == gcd(a, b)`.
pub open spec fn bezout(a: nat, b: nat) -> (int, int)
    decreases b,
{
    if b == 0 {
        (1, 0)
    } else {
        let (s, t) = bezout(b, a % b);
        (t, s - (a / b) * t)
    }
}

/// Bezout's identity.
pub proof fn lemma_bezout_identity(a: nat, b: nat)
    ensures
        bezout(a, b).0 * a + bezout(a, b).1 * b == gcd_spec(a, b),
    decreases b,
{
    if b > 0 {
        let c = a % b;
        let q = a / b;
        let (s, t) = bezout(b, c);
        lemma_bezout_identity(b, c);
        lemma_fundamental_div_mod(a as int, b as int);
        assert(t * a + (s - q * t) * b == s * b + t * c) by (nonlinear_arith)
            requires
                a == b * q + c,
        ;
        assert(bezout(a, b) == (t, s - q * t));
    } else {
        assert(bezout(a, b) == (1int, 0int));
        assert(1 * a + 0 * b == a) by (nonlinear_arith);
    }
}

/// The largest magnitude a Bezout coefficient can have beside an argument `x`.
pub open spec fn coefficient_bound(x: nat) -> int {
    if x >= 2 {
        (x / 2) as int
    } else {
        1
    }
}

proof fn lemma_bezout_bounds_ordered(a: nat, b: nat)
    requires
        a > b >= 1,
    ensures
        -((b / 2) as int) <= bezout(a, b).0 <= (b / 2) as int,
        -((a / 2) as int) <= bezout(a, b).1 <= (a / 2) as int,
    decreases b,
{
    let c = a % b;
    let q = a / b;
    lemma_fundamental_div_mod(a as int, b as int);
    if c == 0 {
        assert(bezout(b, 0) == (1int, 0int));
        assert(q * 0 == 0) by (nonlinear_arith);
        assert(bezout(a, b) == (0int, 1int));
        assert(q >= 2) by (nonlinear_arith)
            requires
                a == b * q,
                a > b,
                b >= 1,
        ;
        assert(a >= 2) by (nonlinear_arith)
            requires
                a == b * q,
                q >= 2,
                b >= 1,
        ;
    } else {
        let (s, t) = bezout(b, c);
        lemma_bezout_bounds_ordered(b, c);
        let hb = (b / 2) as int;
        let hc = (c / 2) as int;
        assert(-(hc + q * hb) <= s - q * t <= hc + q * hb) by (nonlinear_arith)
            requires
                -hc <= s <= hc,
                -hb <= t <= hb,
                q >= 0,
        ;
        assert(hc + q * hb <= (a / 2) as int) by (nonlinear_arith)
            requires
                a == b * q + c,
                hb == b / 2,
                hc == c / 2,
                q >= 0,
        ;
    }
}

/// Bezout coefficients are small: each is at most half the other argument
/// in magnitude (or 1, where that half is 0).
pub proof fn lemma_bezout_bounds(a: nat, b: nat)
    ensures
        -coefficient_bound(b) <= bezout(a, b).0 <= coefficient_bound(b),
        -coefficient_bound(a) <= bezout(a, b).1 <= coefficient_bound(a),
{
    if b == 0 {
    } else if a > b {
        lemma_bezout_bounds_ordered(a, b);
    } else {
        // Here a / b is 0 or 1 and the recurrence swaps the arguments once.
        let c = a % b;
        let q = a / b;
        lemma_fundamental_div_mod(a as int, b as int);
        if a == b {
            lemma_mod_self_0(b as int);
            assert(bezout(b, 0) == (1int, 0int));
            assert(q * 0 == 0) by (nonlinear_arith);
        } else {
            lemma_small_mod(a, b);
            lemma_basic_div(a as int, b as int);
            assert(q == 0 && c == a);
            if a == 0 {
                assert(bezout(b, 0) == (1int, 0int));
            } else {
                lemma_bezout_bounds_ordered(b, a);
                let (s, t) = bezout(b, a);
                assert(q * t == 0) by (nonlinear_arith)
                    requires
                        q == 0,
                ;
            }
        }
    }
}

/// One turn of the iterative extended Euclidean algorithm keeps the
/// coefficients it is heading for: with `(u, v)` the pair kept beside the
/// remainders `(x, y)`, the combination `u * bezout(x, y).0 + v * bezout(x, y).1`
/// is the same before and after the turn.
pub proof fn lemma_bezout_turn(x: nat, y: nat, u: int, v: int)
    requires
        y > 0,
    ensures
        v * bezout(y, x % y).0 + (u - (x / y) * v) * bezout(y, x % y).1 == u * bezout(x, y).0 + v
            * bezout(x, y).1,
{
    let (s, t) = bezout(y, x % y);
    let q = x / y;
    assert(v * s + (u - q * v) * t == u * t + v * (s - q * t)) by (nonlinear_arith);
}

/// The value of a `u128` read as a two's complement signed integer.
pub open spec fn as_signed(t: u128) -> int {
    if t < 0x8000_0000_0000_0000_0000_0000_0000_0000 {
        t as int
    } else {
        t - 0x1_0000_0000_0000_0000_0000_0000_0000_0000int
    }
}

/// The `u128` that stands for an integer in two's complement: its residue
/// modulo `2^128`.
pub open spec fn wrapped(x: int) -> u128 {
    (x % 0x1_0000_0000_0000_0000_0000_0000_0000_0000int) as u128
}

/// Wrapping `u128` arithmetic computes `x - q * y` on two's complement
/// operands.
pub proof fn lemma_wrapped_step(x: int, y: int, q: u128)
    ensures
        wrapped(x).wrapping_sub(q.wrapping_mul(wrapped(y))) == wrapped(x - q * y),
{
    let m: int = 0x1_0000_0000_0000_0000_0000_0000_0000_0000int;
    let p = q.wrapping_mul(wrapped(y));
    lemma_mul_mod_noop_right(q as int, y, m);
    assert(p == (q * y) % m);
    lemma_sub_mod_noop(x, q * y, m);
    let v = wrapped(x) - p;
    assert(wrapped(x).wrapping_sub(p) == v % m);
}

/// A small integer is recovered from its two's complement form.
pub proof fn lemma_as_signed_wrapped(x: int)
    requires
        -0x8000_0000_0000_0000_0000_0000_0000_0000 <= x < 0x8000_0000_0000_0000_0000_0000_0000_0000,
    ensures
        as_signed(wrapped(x)) == x,
{
}

} // verus!
