//! Modular arithmetic as mathematics: what modular exponentiation means, and
//! the congruences behind the shift-and-add and square-and-multiply loops.
use vstd::prelude::*;
use vstd::arithmetic::div_mod::*;
use vstd::arithmetic::mul::*;
use vstd::arithmetic::power::*;

verus! {

/// `a` to the power `k`, reduced modulo `n`.  The empty product is `1`
/// whatever the modulus.
pub open spec fn mod_exp_spec(a: nat, k: nat, n: nat) -> nat {
    if k == 0 {
        1
    } else {
        (pow(a as int, k) % (n as int)) as nat
    }
}

/// The factorial `k!`.
pub open spec fn factorial(k: nat) -> nat
    decreases k,
{
    if k == 0 {
        1
    } else {
        k * factorial((k - 1) as nat)
    }
}

/// The lowest bit of a word is its parity, and a shift by one halves it.
pub proof fn lemma_low_bit(k: u128)
    by (bit_vector)
    ensures
        k & 1 == k % 2,
        k >> 1 == k / 2,
{
}

/// Congruent factors give congruent products.
pub proof fn lemma_mul_congruent(a: int, b: int, c: int, m: int)
    requires
        m > 0,
        a % m == b % m,
    ensures
        (a * c) % m == (b * c) % m,
        (c * a) % m == (c * b) % m,
{
    lemma_mul_mod_noop_left(a, c, m);
    lemma_mul_mod_noop_left(b, c, m);
    lemma_mul_mod_noop_right(c, a, m);
    lemma_mul_mod_noop_right(c, b, m);
}

/// Congruent terms give congruent sums.
pub proof fn lemma_add_congruent(a: int, b: int, c: int, m: int)
    requires
        m > 0,
        a % m == b % m,
    ensures
        (a + c) % m == (b + c) % m,
        (c + a) % m == (c + b) % m,
{
    lemma_add_mod_noop(a, c, m);
    lemma_add_mod_noop(b, c, m);
}

/// The sum of two residues, reduced, without forming a sum that could
/// leave the word.
pub proof fn lemma_mod_add_reduced(x: int, y: int, n: int)
    requires
        0 <= x < n,
        0 <= y < n,
    ensures
        (x + y) % n == if x + y >= n {
            x + y - n
        } else {
            x + y
        },
{
    if x + y >= n {
        lemma_mod_add_multiples_vanish(x + y - n, n);
        lemma_small_mod((x + y - n) as nat, n as nat);
    } else {
        lemma_small_mod((x + y) as nat, n as nat);
    }
}

/// One turn of shift-and-add multiplication keeps `acc + a * b` modulo `n`.
pub proof fn lemma_mod_mult_step(acc: int, a: int, b: int, n: int)
    requires
        n > 0,
        b >= 0,
    ensures
        ({
            let acc2 = if b % 2 == 1 {
                (acc + a) % n
            } else {
                acc
            };
            (acc2 + ((a + a) % n) * (b / 2)) % n == (acc + a * b) % n
        }),
{
    let h = b / 2;
    let a2 = (a + a) % n;
    let acc2 = if b % 2 == 1 {
        (acc + a) % n
    } else {
        acc
    };
    let full = if b % 2 == 1 {
        acc + a
    } else {
        acc
    };
    lemma_mod_twice(full, n);
    assert(acc2 % n == full % n);
    lemma_mod_twice(a + a, n);
    lemma_mul_congruent(a2, a + a, h, n);
    lemma_add_congruent(a2 * h, (a + a) * h, acc2, n);
    lemma_add_congruent(acc2, full, (a + a) * h, n);
    assert(full + (a + a) * h == acc + a * b) by (nonlinear_arith)
        requires
            b == 2 * h + b % 2,
            full == if b % 2 == 1 {
                acc + a
            } else {
                acc
            },
            0 <= b % 2 < 2,
    ;
}

/// One turn of square-and-multiply exponentiation keeps `acc * a^k`
/// modulo `n`.
pub proof fn lemma_mod_exp_step(acc: int, a: int, k: nat, n: int)
    requires
        n > 0,
        k > 0,
    ensures
        ({
            let acc2 = if k % 2 == 1 {
                (acc * a) % n
            } else {
                acc
            };
            (acc2 * pow((a * a) % n, k / 2)) % n == (acc * pow(a, k)) % n
        }),
{
    let h: nat = k / 2;
    let acc2 = if k % 2 == 1 {
        (acc * a) % n
    } else {
        acc
    };
    let full = if k % 2 == 1 {
        acc * a
    } else {
        acc
    };
    lemma_mod_twice(full, n);
    assert(acc2 % n == full % n);
    let sq = pow((a * a) % n, h);
    lemma_pow_mod_noop(a * a, h, n);
    lemma_square_is_pow2(a);
    lemma_pow_multiplies(a, 2, h);
    assert(pow(a * a, h) == pow(a, 2 * h));
    lemma_mod_twice(sq, n);
    lemma_mod_twice(pow(a, 2 * h), n);
    lemma_mul_congruent(sq, pow(a, 2 * h), acc2, n);
    lemma_mul_congruent(acc2, full, pow(a, 2 * h), n);
    assert((acc2 * sq) % n == (full * pow(a, 2 * h)) % n);
    if k % 2 == 1 {
        lemma_pow1(a);
        lemma_pow_adds(a, 1, 2 * h);
        assert(k == 1 + 2 * h);
        lemma_mul_is_associative(acc, a, pow(a, 2 * h));
    } else {
        assert(k == 2 * h);
    }
}

} // verus!
