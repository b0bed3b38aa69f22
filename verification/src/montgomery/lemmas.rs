//! The number theory behind Montgomery reduction, stated over the integers.
use vstd::prelude::*;
use vstd::arithmetic::div_mod::*;
use vstd::arithmetic::mul::*;
use vstd::arithmetic::power2::*;
use crate::math::euclid::{divides, gcd_spec, lemma_divides_witness, lemma_gcd_is_greatest};
use crate::math::modular::{lemma_add_congruent, lemma_mul_congruent};

verus! {

proof fn lemma_shl_double(e: u128)
    by (bit_vector)
    requires
        e < 127,
    ensures
        (1u128 << ((e + 1) as u128)) == 2 * (1u128 << e),
{
}

/// A one shifted left by `e` places is `2^e`.
pub proof fn lemma_shl_is_pow2(e: nat)
    requires
        e < 128,
    ensures
        (1u128 << e) == pow2(e),
    decreases e,
{
    if e == 0 {
        assert(1u128 << 0u128 == 1) by (bit_vector);
        lemma2_to64();
    } else {
        lemma_shl_is_pow2((e - 1) as nat);
        lemma_shl_double((e - 1) as u128);
        lemma_pow2_unfold(e);
    }
}

/// The values of `2^127` and `2^128`.
pub proof fn lemma_pow2_word()
    ensures
        pow2(127) == 0x8000_0000_0000_0000_0000_0000_0000_0000,
        pow2(128) == 0x1_0000_0000_0000_0000_0000_0000_0000_0000int,
{
    lemma2_to64();
    lemma2_to64_rest();
    lemma_pow2_adds(64, 63);
    lemma_pow2_adds(64, 64);
}

proof fn lemma_mask_split(x: u128, f: u128)
    by (bit_vector)
    requires
        f < 127,
    ensures
        x & (((1u128 << ((f + 1) as u128)) - 1) as u128) == 2 * ((x >> 1) & (((1u128 << f) - 1) as u128))
            + (x & 1),
{
}

/// Masking with `2^e - 1` is reduction modulo `2^e`.
pub proof fn lemma_mask_is_mod(x: u128, e: nat)
    requires
        e < 128,
    ensures
        x & (((1u128 << e) - 1) as u128) == x as int % (pow2(e) as int),
    decreases e,
{
    lemma_shl_is_pow2(e);
    if e == 0 {
        lemma2_to64();
        assert(x & 0 == 0) by (bit_vector);
    } else {
        let f = (e - 1) as nat;
        lemma_shl_is_pow2(f);
        lemma_mask_is_mod(x >> 1, f);
        crate::math::modular::lemma_low_bit(x);
        lemma_mask_split(x, f as u128);
        lemma_pow2_unfold(e);
        lemma_pow2_pos(f);
        lemma_mod_breakdown(x as int, 2, pow2(f) as int);
    }
}

/// Reducing modulo `2^128` first does not change a residue modulo `2^e`.
pub proof fn lemma_word_residue(x: int, e: nat)
    requires
        e <= 128,
    ensures
        (x % 0x1_0000_0000_0000_0000_0000_0000_0000_0000int) % (pow2(e) as int) == x % (pow2(
            e,
        ) as int),
{
    lemma_pow2_word();
    lemma_pow2_adds(e, (128 - e) as nat);
    lemma_pow2_pos(e);
    lemma_pow2_pos((128 - e) as nat);
    lemma_mod_mod(x, pow2(e) as int, pow2((128 - e) as nat) as int);
}

/// An odd divisor of a power of two is 1.
pub proof fn lemma_odd_divisor_of_pow2(g: nat, e: nat)
    requires
        g % 2 == 1,
        divides(g, pow2(e)),
    ensures
        g == 1,
    decreases e,
{
    if e == 0 {
        lemma2_to64();
        if g > 1 {
            lemma_small_mod(1, g);
        }
    } else {
        lemma_pow2_unfold(e);
        let half = pow2((e - 1) as nat);
        let k = lemma_divides_witness(g, pow2(e));
        assert(k % 2 == 0) by (nonlinear_arith)
            requires
                2 * half == k * g,
                g % 2 == 1,
        {
            if k % 2 == 1 {
                let a = k / 2;
                let b = g / 2;
                assert(k == 2 * a + 1 && g == 2 * b + 1);
                assert(k * g == 2 * (2 * a * b + a + b) + 1);
            }
        }
        let j: nat = k / 2;
        assert(half == j * g) by (nonlinear_arith)
            requires
                2 * half == k * g,
                k == 2 * j,
        ;
        crate::math::euclid::lemma_divides_multiple(g, j);
        lemma_odd_divisor_of_pow2(g, (e - 1) as nat);
    }
}

/// An odd number is coprime to every power of two.
pub proof fn lemma_odd_coprime_to_pow2(n: nat, e: nat)
    requires
        n % 2 == 1,
    ensures
        gcd_spec(n, pow2(e)) == 1,
{
    let g = gcd_spec(n, pow2(e));
    lemma_gcd_is_greatest(n, pow2(e));
    let k = lemma_divides_witness(g, n);
    assert(g % 2 == 1) by (nonlinear_arith)
        requires
            n == k * g,
            n % 2 == 1,
    {
        if g % 2 == 0 {
            let b = g / 2;
            assert(g == 2 * b);
            assert(k * g == 2 * (k * b));
        }
    }
    lemma_odd_divisor_of_pow2(g, e);
}

/// Multiplying by `r` and by its inverse modulo `n` changes no residue.
pub proof fn lemma_cancel_inverse(x: int, r: int, ri: int, n: int)
    requires
        n > 1,
        (r * ri) % n == 1,
    ensures
        (x * r * ri) % n == x % n,
        (x * ri * r) % n == x % n,
{
    assert(x * r * ri == x * (r * ri)) by (nonlinear_arith);
    assert(x * ri * r == x * (r * ri)) by (nonlinear_arith);
    lemma_mul_mod_noop_right(x, r * ri, n);
    assert(x * 1 == x);
}

/// Montgomery reduction: with `n * np` congruent to `-1` modulo `r` and
/// `m = (a mod r) * np mod r`, the sum `a + m * n` is a multiple of `r`, its
/// quotient by `r` lies below `2 * n`, and after one conditional
/// subtraction it is `a * r^-1 mod n`.
pub proof fn lemma_redc(a: int, r: int, n: int, np: int, ri: int, m: int)
    requires
        r > 1,
        n > 1,
        0 <= a < r * n,
        (n * np) % r == r - 1,
        (r * ri) % n == 1,
        m == ((a % r) * np) % r,
    ensures
        0 <= m < r,
        0 <= m * n < r * n,
        (a + m * n) % r == 0,
        0 <= (a + m * n) / r < 2 * n,
        ({
            let c = (a + m * n) / r;
            let res = if c >= n {
                c - n
            } else {
                c
            };
            0 <= res < n && res == (a * ri) % n
        }),
{
    lemma_mod_bound((a % r) * np, r);
    lemma_mul_mod_noop_left(a, np, r);
    lemma_mod_twice(a * np, r);
    lemma_mul_congruent(m, a * np, n, r);
    assert(a * np * n == a * (n * np)) by (nonlinear_arith);
    lemma_mul_mod_noop_right(a, n * np, r);
    assert(a * (r - 1) == r * a + (-a)) by (nonlinear_arith);
    lemma_mod_multiples_vanish(a, -a, r);
    assert((m * n) % r == (-a) % r);
    lemma_add_congruent(m * n, -a, a, r);
    lemma_small_mod(0, r as nat);
    let s = a + m * n;
    assert(s % r == 0);
    assert(0 <= m * n < r * n) by (nonlinear_arith)
        requires
            0 <= m < r,
            n > 0,
    ;
    lemma_fundamental_div_mod(s, r);
    let c = s / r;
    assert(0 <= c < 2 * n) by (nonlinear_arith)
        requires
            s == r * c,
            0 <= s < 2 * (r * n),
            r > 0,
    ;
    let res = if c >= n {
        c - n
    } else {
        c
    };
    assert(res % n == c % n) by {
        if c >= n {
            lemma_mod_sub_multiples_vanish(c, n);
        }
    }
    assert(c * r == n * m + a) by (nonlinear_arith)
        requires
            s == r * c,
            s == a + m * n,
    ;
    lemma_mod_multiples_vanish(m, a, n);
    lemma_mul_congruent(res, c, r, n);
    lemma_mul_congruent(res * r, a, ri, n);
    lemma_cancel_inverse(res, r, ri, n);
    lemma_small_mod(res as nat, n as nat);
}

/// Entering: reducing `a * r^2 mod n` once gives `a * r mod n`, and that
/// stands for `a mod n`.
pub proof fn lemma_enter(a: int, r: int, ri: int, n: int)
    requires
        n > 1,
        (r * ri) % n == 1,
    ensures
        (((a * ((r * r) % n)) % n) * ri) % n == (a * r) % n,
        (((a * r) % n) * ri) % n == a % n,
{
    let t = (a * ((r * r) % n)) % n;
    lemma_mul_mod_noop_right(a, r * r, n);
    lemma_mod_twice(a * (r * r), n);
    lemma_mul_congruent(t, a * (r * r), ri, n);
    assert(a * (r * r) * ri == (a * r) * r * ri) by (nonlinear_arith);
    lemma_cancel_inverse(a * r, r, ri, n);
    lemma_mod_twice(a * r, n);
    lemma_mul_congruent((a * r) % n, a * r, ri, n);
    lemma_cancel_inverse(a, r, ri, n);
}

/// A representative below `n` is recovered from the value it stands for.
pub proof fn lemma_representative_unique(v: int, r: int, ri: int, n: int)
    requires
        n > 1,
        (r * ri) % n == 1,
        0 <= v < n,
    ensures
        (((v * ri) % n) * r) % n == v,
{
    lemma_mod_twice(v * ri, n);
    lemma_mul_congruent((v * ri) % n, v * ri, r, n);
    lemma_cancel_inverse(v, r, ri, n);
    lemma_small_mod(v as nat, n as nat);
}

/// The product of two representatives, reduced once, stands for the
/// product of the values.
pub proof fn lemma_plain_product(x: int, y: int, ri: int, n: int)
    requires
        n > 0,
    ensures
        ((((x * y) * ri) % n) * ri) % n == (((x * ri) % n) * ((y * ri) % n)) % n,
{
    lemma_mod_twice((x * y) * ri, n);
    lemma_mul_congruent(((x * y) * ri) % n, (x * y) * ri, ri, n);
    lemma_mul_mod_noop_general(x * ri, y * ri, n);
    assert(((x * y) * ri) * ri == (x * ri) * (y * ri)) by (nonlinear_arith);
}

/// The sum of two representatives stands for the sum of the values.
pub proof fn lemma_plain_sum(x: int, y: int, ri: int, n: int)
    requires
        n > 0,
    ensures
        (((x + y) % n) * ri) % n == (((x * ri) % n) + ((y * ri) % n)) % n,
{
    lemma_mod_twice(x + y, n);
    lemma_mul_congruent((x + y) % n, x + y, ri, n);
    lemma_add_mod_noop(x * ri, y * ri, n);
    assert((x + y) * ri == x * ri + y * ri) by (nonlinear_arith);
}

/// The difference of two representatives, formed as `x + (n - y)`, stands
/// for the difference of the values.
pub proof fn lemma_plain_difference(x: int, y: int, ri: int, n: int)
    requires
        n > 0,
    ensures
        (((x + (n - y)) % n) * ri) % n == (((x * ri) % n) - ((y * ri) % n)) % n,
{
    lemma_mod_twice(x + (n - y), n);
    lemma_mul_congruent((x + (n - y)) % n, x + (n - y), ri, n);
    lemma_sub_mod_noop(x * ri, y * ri, n);
    assert((x + (n - y)) * ri == n * ri + (x * ri - y * ri)) by (nonlinear_arith);
    lemma_mod_multiples_vanish(ri, x * ri - y * ri, n);
}

/// Where `t * (r - n)` is congruent to 1 modulo `r`, the residue of `t` is
/// the constant `n'` of Montgomery reduction: `n * n'` is congruent to `-1`.
pub proof fn lemma_negated_inverse(t: int, n: int, r: int)
    requires
        r > 1,
        (t * (r - n)) % r == 1,
    ensures
        (n * (t % r)) % r == r - 1,
{
    lemma_mul_mod_noop_right(n, t, r);
    assert(t * (r - n) == r * t + (-(n * t))) by (nonlinear_arith);
    lemma_mod_multiples_vanish(t, -(n * t), r);
    let x = n * t;
    assert((-x) % r == 1);
    lemma_add_mod_noop(x, -x, r);
    lemma_small_mod(0, r as nat);
    lemma_mod_bound(x, r);
    assert(((x % r) + 1) % r == 0);
    if x % r + 1 < r {
        lemma_small_mod((x % r + 1) as nat, r as nat);
    }
}

} // verus!
