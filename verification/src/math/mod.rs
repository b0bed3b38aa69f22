//! Elementary number theory on `u128`: greatest common divisors, Bezout
//! coefficients, and modular multiplication, exponentiation and inversion.
use vstd::prelude::*;
use vstd::arithmetic::div_mod::{
    lemma_fundamental_div_mod,
    lemma_fundamental_div_mod_converse,
    lemma_small_mod,
};
use vstd::arithmetic::power::{lemma_pow0, pow};

pub mod euclid;
pub mod fermat;
pub mod legendre;
pub mod modular;
pub mod prime;

use crate::math::euclid::{
    as_signed,
    bezout,
    divides,
    gcd_spec,
    lemma_as_signed_wrapped,
    lemma_bezout_bounds,
    lemma_bezout_identity,
    lemma_bezout_turn,
    lemma_gcd_is_greatest,
    lemma_gcd_symmetric,
    lemma_wrapped_step,
    wrapped,
};
use crate::math::modular::{
    lemma_low_bit,
    lemma_mod_add_reduced,
    lemma_mod_exp_step,
    lemma_mod_mult_step,
    mod_exp_spec,
};

verus! {

/// Greatest common divisor of `a` and `b`, with `gcd(0, 0) == 0`.
pub fn gcd(a: u128, b: u128) -> (g: u128)
    ensures
        g == gcd_spec(a as nat, b as nat),
        divides(g as nat, a as nat),
        divides(g as nat, b as nat),
        forall|d: nat| divides(d, a as nat) && divides(d, b as nat) ==> divides(d, g as nat),
{
    let mut x: u128 = a;
    let mut y: u128 = b;
    while y != 0
        invariant
            gcd_spec(x as nat, y as nat) == gcd_spec(a as nat, b as nat),
        decreases y,
    {
        let rest: u128 = x % y;
        x = y;
        y = rest;
    }
    proof {
        lemma_gcd_is_greatest(a as nat, b as nat);
    }
    x
}

/// The inverse of `n` modulo `r` as the extended Euclidean algorithm finds
/// it, or `None` where `n` and `r` have a common factor.
///
/// The coefficient may be negative.  It is returned in two's complement:
/// read through [`as_signed`], `t` is the Bezout coefficient of `n`, so that
/// `t * n` is congruent to 1 modulo `r`.  Where `r` is a power of two the
/// low bits of `t` are the inverse itself.
pub fn mod_inverse(n: u128, r: u128) -> (res: Option<u128>)
    ensures
        res is Some <==> gcd_spec(n as nat, r as nat) <= 1,
        res matches Some(t) ==> {
            &&& as_signed(t) == bezout(r as nat, n as nat).1
            &&& r > 0 ==> (as_signed(t) * n) % (r as int) == 1int % (r as int)
        },
{
    let mut t: u128 = 0;
    let mut new_t: u128 = 1;
    let mut rem: u128 = r;
    let mut new_rem: u128 = n;
    let ghost goal: int = bezout(r as nat, n as nat).1;
    let ghost u: int = 0;
    let ghost v: int = 1;
    while new_rem != 0
        invariant
            t == wrapped(u),
            new_t == wrapped(v),
            goal == u * bezout(rem as nat, new_rem as nat).0 + v * bezout(
                rem as nat,
                new_rem as nat,
            ).1,
            gcd_spec(rem as nat, new_rem as nat) == gcd_spec(r as nat, n as nat),
        decreases new_rem,
    {
        let quotient: u128 = rem / new_rem;
        proof {
            lemma_bezout_turn(rem as nat, new_rem as nat, u, v);
            lemma_wrapped_step(u, v, quotient);
            lemma_fundamental_div_mod(rem as int, new_rem as int);
            assert(quotient * new_rem == new_rem * quotient) by (nonlinear_arith);
        }
        t = t.wrapping_sub(quotient.wrapping_mul(new_t));
        std::mem::swap(&mut t, &mut new_t);
        rem = rem.wrapping_sub(quotient.wrapping_mul(new_rem));
        std::mem::swap(&mut rem, &mut new_rem);
        proof {
            let w = u - quotient * v;
            u = v;
            v = w;
        }
    }
    proof {
        assert(v * 0 == 0) by (nonlinear_arith);
        assert(goal == u);
        lemma_gcd_symmetric(n as nat, r as nat);
        lemma_bezout_bounds(r as nat, n as nat);
        lemma_as_signed_wrapped(goal);
        if rem <= 1 && r > 0 {
            lemma_inverse_congruence(n as nat, r as nat);
        }
    }
    if rem > 1 {
        return None;
    }
    Some(t)
}

/// Where `n` and `r` are coprime, the Bezout coefficient of `n` inverts it
/// modulo `r`.
pub proof fn lemma_inverse_congruence(n: nat, r: nat)
    requires
        r > 0,
        gcd_spec(n, r) <= 1,
    ensures
        (bezout(r, n).1 * n) % (r as int) == 1int % (r as int),
{
    let (s, t) = bezout(r, n);
    lemma_bezout_identity(r, n);
    lemma_gcd_symmetric(n, r);
    lemma_gcd_is_greatest(r, n);
    assert(gcd_spec(r, n) == 1);
    assert(t * n == 1 + (-s) * r) by (nonlinear_arith)
        requires
            s * r + t * n == 1,
    ;
    vstd::arithmetic::div_mod::lemma_mod_multiples_vanish(-s, 1, r as int);
}

/// Bezout coefficients `(x, y)` of `a` and `b`, each in two's complement:
/// read through [`as_signed`], `x * a + y * b` is the greatest common
/// divisor of `a` and `b`.
pub fn extended_gcd(a: u128, b: u128) -> (res: (u128, u128))
    ensures
        as_signed(res.0) == bezout(a as nat, b as nat).0,
        as_signed(res.1) == bezout(a as nat, b as nat).1,
        as_signed(res.0) * a + as_signed(res.1) * b == gcd_spec(a as nat, b as nat),
{
    let mut s: u128 = 0;
    let mut t: u128 = 1;
    let mut r: u128 = b;
    let mut old_s: u128 = 1;
    let mut old_t: u128 = 0;
    let mut old_r: u128 = a;
    let ghost goal = bezout(a as nat, b as nat);
    let ghost us: int = 1;
    let ghost vs: int = 0;
    let ghost ut: int = 0;
    let ghost vt: int = 1;
    while r != 0
        invariant
            old_s == wrapped(us),
            s == wrapped(vs),
            old_t == wrapped(ut),
            t == wrapped(vt),
            goal.0 == us * bezout(old_r as nat, r as nat).0 + vs * bezout(
                old_r as nat,
                r as nat,
            ).1,
            goal.1 == ut * bezout(old_r as nat, r as nat).0 + vt * bezout(
                old_r as nat,
                r as nat,
            ).1,
        decreases r,
    {
        let quotient: u128 = old_r / r;
        proof {
            lemma_bezout_turn(old_r as nat, r as nat, us, vs);
            lemma_bezout_turn(old_r as nat, r as nat, ut, vt);
            lemma_wrapped_step(us, vs, quotient);
            lemma_wrapped_step(ut, vt, quotient);
            lemma_fundamental_div_mod(old_r as int, r as int);
            assert(quotient * r == r * quotient) by (nonlinear_arith);
        }
        let rest: u128 = old_r - quotient * r;
        old_r = r;
        r = rest;

        let next_s: u128 = old_s.wrapping_sub(quotient.wrapping_mul(s));
        old_s = s;
        s = next_s;

        let next_t: u128 = old_t.wrapping_sub(quotient.wrapping_mul(t));
        old_t = t;
        t = next_t;
        proof {
            let ws = us - quotient * vs;
            us = vs;
            vs = ws;
            let wt = ut - quotient * vt;
            ut = vt;
            vt = wt;
        }
    }
    proof {
        assert(vs * 0 == 0 && vt * 0 == 0) by (nonlinear_arith);
        assert(goal.0 == us && goal.1 == ut);
        lemma_bezout_bounds(a as nat, b as nat);
        lemma_as_signed_wrapped(goal.0);
        lemma_as_signed_wrapped(goal.1);
        lemma_bezout_identity(a as nat, b as nat);
    }
    (old_s, old_t)
}

/// The residue modulo `n` of `t` read as a two's complement signed integer.
pub fn signed_residue(t: u128, n: u128) -> (res: u128)
    requires
        n > 0,
    ensures
        res == as_signed(t) % (n as int),
{
    if t < 0x8000_0000_0000_0000_0000_0000_0000_0000 {
        t % n
    } else {
        let magnitude: u128 = (u128::MAX - t) + 1;
        let rest: u128 = magnitude % n;
        proof {
            lemma_fundamental_div_mod(magnitude as int, n as int);
            let q = magnitude as int / n as int;
            if rest == 0 {
                assert(as_signed(t) == n * (-q) + 0) by (nonlinear_arith)
                    requires
                        as_signed(t) == -magnitude,
                        magnitude == n * q + 0,
                ;
                lemma_fundamental_div_mod_converse(as_signed(t), n as int, -q, 0);
            } else {
                assert(as_signed(t) == n * (-q - 1) + (n - rest)) by (nonlinear_arith)
                    requires
                        as_signed(t) == -magnitude,
                        magnitude == n * q + rest,
                ;
                lemma_fundamental_div_mod_converse(as_signed(t), n as int, -q - 1, n - rest);
            }
        }
        if rest == 0 {
            0
        } else {
            n - rest
        }
    }
}

/// The sum of two residues modulo `n`, reduced.
fn mod_add(x: u128, y: u128, n: u128) -> (res: u128)
    requires
        x < n,
        y < n,
    ensures
        res == (x + y) % (n as int),
        res < n,
{
    proof {
        lemma_mod_add_reduced(x as int, y as int, n as int);
    }
    if x >= n - y {
        x - (n - y)
    } else {
        x + y
    }
}

/// The product `a * b` modulo `n`, by shift and add: no intermediate value
/// leaves the word, whatever the size of the modulus.
pub fn mod_mult(a: u128, b: u128, n: u128) -> (result: u128)
    requires
        n > 0,
    ensures
        result == (a as int * b as int) % (n as int),
{
    let mut result: u128 = 0;
    let mut x: u128 = a % n;
    let mut y: u128 = b % n;
    proof {
        vstd::arithmetic::div_mod::lemma_mul_mod_noop_general(a as int, b as int, n as int);
    }
    while y > 0
        invariant
            n > 0,
            x < n,
            result < n,
            (result + x * y) % (n as int) == (a as int * b as int) % (n as int),
        decreases y,
    {
        proof {
            lemma_low_bit(y);
            lemma_mod_mult_step(result as int, x as int, y as int, n as int);
        }
        if y & 1 == 1 {
            result = mod_add(result, x, n);
        }
        x = mod_add(x, x, n);
        y = y >> 1;
    }
    proof {
        assert(x * y == 0) by (nonlinear_arith)
            requires
                y == 0,
        ;
        lemma_small_mod(result as nat, n as nat);
    }
    result
}

/// The inverse of `a` modulo `n`: the Bezout coefficient of `a`, reduced
/// into `0..n`.  Its product with `a` is congruent to `gcd(a, n)`, which is
/// 1 exactly where an inverse exists.
pub fn mod_inv(a: u128, n: u128) -> (res: u128)
    requires
        n > 0,
    ensures
        res == bezout(a as nat, n as nat).0 % (n as int),
        res < n,
        (res * a) % (n as int) == (gcd_spec(a as nat, n as nat) as int) % (n as int),
{
    let (x, _) = extended_gcd(a, n);
    let res: u128 = signed_residue(x, n);
    proof {
        let (s, t) = bezout(a as nat, n as nat);
        let g = gcd_spec(a as nat, n as nat) as int;
        let m = n as int;
        vstd::arithmetic::div_mod::lemma_mod_bound(s, m);
        vstd::arithmetic::div_mod::lemma_mod_twice(s, m);
        crate::math::modular::lemma_mul_congruent(res as int, s, a as int, m);
        assert(s * a == g + (-t) * m) by (nonlinear_arith)
            requires
                s * a + t * m == g,
        ;
        vstd::arithmetic::div_mod::lemma_mod_multiples_vanish(-t, g, m);
    }
    res
}

/// `a` to the power `k` modulo `n`, by square and multiply.  With `k == 0`
/// the result is 1 whatever the modulus.
pub fn mod_exp(a: u128, k: u128, n: u128) -> (result: u128)
    requires
        n > 0 || k == 0,
    ensures
        result == mod_exp_spec(a as nat, k as nat, n as nat),
{
    let mut base: u128 = a;
    let mut e: u128 = k;
    let mut result: u128 = 1;
    while e > 0
        invariant
            n > 0 || k == 0,
            e <= k,
            k == 0 ==> result == 1,
            k > 0 ==> result < n || (result == 1 && e > 0),
            k > 0 ==> (result * pow(base as int, e as nat)) % (n as int) == pow(
                a as int,
                k as nat,
            ) % (n as int),
        decreases e,
    {
        proof {
            lemma_low_bit(e);
            lemma_mod_exp_step(result as int, base as int, e as nat, n as int);
        }
        if e & 1 == 1 {
            result = mod_mult(result, base, n);
        }
        base = mod_mult(base, base, n);
        e = e >> 1;
    }
    proof {
        if k > 0 {
            lemma_pow0(base as int);
            lemma_small_mod(result as nat, n as nat);
        }
    }
    result
}

} // verus!
