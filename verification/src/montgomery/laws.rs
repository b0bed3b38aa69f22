//! What holds of the arithmetic of a space, whatever the numbers: the laws
//! that tie entering, the operations and leaving to plain arithmetic
//! modulo `n`.
use vstd::prelude::*;
use vstd::arithmetic::div_mod::{
    lemma_add_mod_noop,
    lemma_mod_bound,
    lemma_mul_mod_noop_general,
    lemma_small_mod,
    lemma_sub_mod_noop,
};
use vstd::arithmetic::power::lemma_pow_mod_noop;
use vstd::std_specs::ops::{AddSpec, MulSpec, SubSpec};
use crate::math::fermat::lemma_even_pow2_is_residue;
use crate::math::legendre::{naive_legendre_spec, LegendreSymbol};
use crate::math::prime::is_prime_spec;
use crate::montgomery::lemmas::{
    lemma_enter,
    lemma_plain_difference,
    lemma_plain_product,
    lemma_plain_sum,
};
use crate::montgomery::space::Space;

verus! {

/// Round trip: a number that enters a space and leaves it comes back as
/// its residue, and unchanged where it is below the modulus.
pub proof fn lemma_enter_exit(space: &Space, a: u128)
    requires
        space.wf(),
    ensures
        space.entered(a as nat).wf(),
        space.entered(a as nat).value() == a % space.n,
        a < space.n ==> space.entered(a as nat).value() == a,
{
    let n = space.n as int;
    lemma_enter(a as int, space.r(), space.r_inv as int, n);
    lemma_mod_bound(a * space.r(), n);
    if a < space.n {
        lemma_small_mod(a as nat, n as nat);
    }
}

/// Multiplication: the product of two entered numbers stands for the
/// product of the numbers modulo `n`.
pub proof fn lemma_product(space: &Space, a: u128, b: u128)
    requires
        space.wf(),
    ensures
        MulSpec::mul_spec(space.entered(a as nat), space.entered(b as nat)).value() == (a * b) % (
        space.n as int),
{
    let n = space.n as int;
    let x = space.entered(a as nat);
    let y = space.entered(b as nat);
    lemma_enter_exit(space, a);
    lemma_enter_exit(space, b);
    lemma_plain_product(x.val as int, y.val as int, space.r_inv as int, n);
    lemma_mod_bound((x.val * y.val) * space.r_inv, n);
    lemma_mul_mod_noop_general(a as int, b as int, n);
}

/// Addition: the sum of two entered numbers stands for the sum of the
/// numbers modulo `n`.
pub proof fn lemma_sum(space: &Space, a: u128, b: u128)
    requires
        space.wf(),
    ensures
        AddSpec::add_spec(space.entered(a as nat), space.entered(b as nat)).value() == (a + b) % (
        space.n as int),
{
    let n = space.n as int;
    let x = space.entered(a as nat);
    let y = space.entered(b as nat);
    lemma_enter_exit(space, a);
    lemma_enter_exit(space, b);
    lemma_plain_sum(x.val as int, y.val as int, space.r_inv as int, n);
    lemma_mod_bound(x.val + y.val, n);
    lemma_add_mod_noop(a as int, b as int, n);
}

/// Subtraction: the difference of two entered numbers stands for the
/// difference of the numbers modulo `n`, which is never negative: below
/// zero it wraps to `n - (b - a) mod n`.
pub proof fn lemma_difference(space: &Space, a: u128, b: u128)
    requires
        space.wf(),
    ensures
        SubSpec::sub_spec(space.entered(a as nat), space.entered(b as nat)).value() == (a - b) % (
        space.n as int),
        0 <= (a - b) % (space.n as int) < space.n,
{
    let n = space.n as int;
    let x = space.entered(a as nat);
    let y = space.entered(b as nat);
    lemma_enter_exit(space, a);
    lemma_enter_exit(space, b);
    lemma_plain_difference(x.val as int, y.val as int, space.r_inv as int, n);
    lemma_mod_bound(x.val + (n - y.val), n);
    lemma_sub_mod_noop(a as int, b as int, n);
    lemma_mod_bound(a - b, n);
}

/// The symbol by Euler's criterion depends on the residue alone.
pub proof fn lemma_naive_legendre_of_residue(a: nat, p: nat)
    requires
        p > 0,
    ensures
        naive_legendre_spec(a % p, p) == naive_legendre_spec(a, p),
{
    lemma_pow_mod_noop(a as int, ((p - 1) / 2) as nat, p as int);
}

/// Residue test: the symbol that a space gives an entered number is the
/// symbol by Euler's criterion, wherever the Montgomery constant is a
/// residue of the modulus or the number a divisor.
pub proof fn lemma_legendre_is_naive(space: &Space, a: u128)
    requires
        space.wf(),
        space.r_n_legendre == LegendreSymbol::Residue || naive_legendre_spec(
            a as nat,
            space.n as nat,
        ) == LegendreSymbol::Divisor,
    ensures
        space.legendre_spec(space.entered(a as nat).value()) == naive_legendre_spec(
            a as nat,
            space.n as nat,
        ),
{
    lemma_enter_exit(space, a);
    lemma_naive_legendre_of_residue(a as nat, space.n as nat);
}

/// Residue test on a prime: where the modulus is prime and the exponent of
/// the Montgomery constant even, the constant is a residue, and the symbol
/// that the space gives every entered number is the symbol by Euler's
/// criterion.
pub proof fn lemma_legendre_is_naive_on_primes(space: &Space, a: u128)
    requires
        space.wf(),
        is_prime_spec(space.n as nat),
        space.r_exp % 2 == 0,
    ensures
        space.r_n_legendre == LegendreSymbol::Residue,
        space.legendre_spec(space.entered(a as nat).value()) == naive_legendre_spec(
            a as nat,
            space.n as nat,
        ),
{
    lemma_even_pow2_is_residue(space.n as nat, space.r_exp as nat);
    lemma_legendre_is_naive(space, a);
}

/// Everywhere else the two symbols differ: the symbol of the Montgomery
/// constant, which the space multiplies in, turns a residue into a
/// non-residue and back.
pub proof fn lemma_legendre_is_turned(space: &Space, a: u128)
    requires
        space.wf(),
        space.r_n_legendre != LegendreSymbol::Residue,
        naive_legendre_spec(a as nat, space.n as nat) != LegendreSymbol::Divisor,
    ensures
        space.legendre_spec(space.entered(a as nat).value()) != naive_legendre_spec(
            a as nat,
            space.n as nat,
        ),
{
    lemma_enter_exit(space, a);
    lemma_naive_legendre_of_residue(a as nat, space.n as nat);
}

} // verus!
