//! Elements of a Montgomery space.
use vstd::prelude::*;
use vstd::arithmetic::div_mod::{
    lemma_add_mod_noop,
    lemma_mod_bound,
    lemma_mul_mod_noop_general,
    lemma_small_mod,
};
use vstd::arithmetic::power::{lemma_pow0, pow};
use vstd::std_specs::cmp::PartialEqSpecImpl;
use vstd::std_specs::ops::{AddSpec, AddSpecImpl, MulSpec, MulSpecImpl, SubSpecImpl};
use std::ops::{Add, AddAssign, Mul, MulAssign, Sub};
use crate::math::legendre::LegendreSymbol;
use crate::math::modular::{lemma_low_bit, lemma_mod_exp_step, mod_exp_spec};
use crate::montgomery::lemmas::{lemma_plain_difference, lemma_plain_product, lemma_plain_sum};
use crate::montgomery::space::Space;

verus! {

/// A residue in Montgomery form, with the space it belongs to.
#[derive(Debug, Clone, Copy)]
pub struct Elt<'a> {
    /// The representative `value * r mod n`.
    pub val: u128,
    /// The space of the element.
    pub space: &'a Space,
}

impl<'a> Elt<'a> {
    /// The element is well formed: its space is, and its representative is
    /// reduced.
    pub open spec fn wf(&self) -> bool {
        self.space.wf() && self.val < self.space.n
    }

    /// The residue that the element stands for.
    pub open spec fn value(&self) -> nat {
        self.space.plain(self.val as nat)
    }

    /// Leaves the space: the residue that the element stands for.
    pub fn exit(&self) -> (a: u128)
        requires
            self.wf(),
        ensures
            a == self.value(),
            a < self.space.n,
    {
        proof {
            assert(self.val < self.space.r() * self.space.n) by (nonlinear_arith)
                requires
                    self.val < self.space.n,
                    self.space.r() > self.space.n,
            ;
            lemma_small_mod(self.value(), self.space.n as nat);
        }
        self.space.redc(self.val) % self.space.n
    }

    /// The element raised to the power `e`, by square and multiply within
    /// the space.
    pub fn exp(&self, e: u128) -> (power: Elt<'a>)
        requires
            self.wf(),
        ensures
            power.wf(),
            power.space == self.space,
            power.value() == mod_exp_spec(self.value(), e as nat, self.space.n as nat),
    {
        let mut val: Elt<'a> = self.space.enter(1);
        let mut base: Elt<'a> = *self;
        let mut exp: u128 = e;
        let ghost n = self.space.n as int;
        proof {
            lemma_small_mod(1, n as nat);
            assert(1 * pow(self.value() as int, e as nat) == pow(self.value() as int, e as nat))
                by (nonlinear_arith);
        }
        while exp > 0
            invariant
                self.wf(),
                n == self.space.n,
                val.wf(),
                base.wf(),
                val.space == self.space,
                base.space == self.space,
                (val.value() * pow(base.value() as int, exp as nat)) % n == pow(
                    self.value() as int,
                    e as nat,
                ) % n,
            decreases exp,
        {
            proof {
                lemma_low_bit(exp);
                lemma_mod_exp_step(val.value() as int, base.value() as int, exp as nat, n);
            }
            if exp & 1 == 1 {
                val = val * base;
            }
            base = base * base;
            exp = exp >> 1;
        }
        proof {
            lemma_pow0(base.value() as int);
            lemma_mod_bound(val.value() as int, n);
            lemma_small_mod(val.value(), n as nat);
            if e == 0 {
                lemma_pow0(self.value() as int);
            }
        }
        val
    }

    /// The quadratic-residue symbol of the element in its space.
    pub fn legendre(&self) -> (sym: LegendreSymbol)
        requires
            self.wf(),
        ensures
            sym == self.space.legendre_spec(self.value()),
    {
        self.space.legendre(*self)
    }
}

impl<'a> PartialEqSpecImpl for Elt<'a> {
    open spec fn obeys_eq_spec() -> bool {
        true
    }

    open spec fn eq_spec(&self, other: &Elt<'a>) -> bool {
        self.val == other.val && self.space.n == other.space.n && self.space.r_exp
            == other.space.r_exp
    }
}

impl<'a> PartialEq for Elt<'a> {
    /// Two elements are equal where representative and space agree.
    fn eq(&self, other: &Elt<'a>) -> (same: bool) {
        self.val == other.val && self.space == other.space
    }
}

impl<'a> AddSpecImpl for Elt<'a> {
    open spec fn obeys_add_spec() -> bool {
        true
    }

    open spec fn add_req(self, rhs: Elt<'a>) -> bool {
        self.wf() && rhs.wf() && self.space == rhs.space
    }

    open spec fn add_spec(self, rhs: Elt<'a>) -> Elt<'a> {
        Elt { val: ((self.val + rhs.val) % (self.space.n as int)) as u128, space: self.space }
    }
}

impl<'a> Add for Elt<'a> {
    type Output = Elt<'a>;

    /// The sum of two elements of one space.
    fn add(self, other: Elt<'a>) -> (sum: Elt<'a>)
        ensures
            sum.wf(),
            sum.value() == (self.value() + other.value()) % (self.space.n as nat),
    {
        proof {
            crate::montgomery::lemmas::lemma_pow2_word();
            assert(self.space.n * self.space.r() >= self.space.n) by (nonlinear_arith)
                requires
                    self.space.r() >= 1,
                    self.space.n >= 0,
            ;
            lemma_plain_sum(
                self.val as int,
                other.val as int,
                self.space.r_inv as int,
                self.space.n as int,
            );
        }
        Elt { val: (self.val + other.val) % self.space.n, space: self.space }
    }
}

impl<'a> AddSpecImpl<u128> for Elt<'a> {
    open spec fn obeys_add_spec() -> bool {
        true
    }

    open spec fn add_req(self, rhs: u128) -> bool {
        self.wf()
    }

    open spec fn add_spec(self, rhs: u128) -> Elt<'a> {
        Elt {
            val: ((self.val + self.space.representative(rhs as nat)) % (self.space.n as int)) as u128,
            space: self.space,
        }
    }
}

impl<'a> Add<u128> for Elt<'a> {
    type Output = Elt<'a>;

    /// The sum of an element and a plain number, which enters first.
    fn add(self, other: u128) -> (sum: Elt<'a>)
        ensures
            sum.wf(),
            sum.value() == (self.value() + other) % (self.space.n as int),
    {
        proof {
            lemma_add_mod_noop(self.value() as int, other as int, self.space.n as int);
            lemma_small_mod(self.value(), self.space.n as nat);
            lemma_mod_bound(self.val * self.space.r_inv, self.space.n as int);
        }
        self + self.space.enter(other)
    }
}

impl<'a> SubSpecImpl for Elt<'a> {
    open spec fn obeys_sub_spec() -> bool {
        true
    }

    open spec fn sub_req(self, rhs: Elt<'a>) -> bool {
        self.wf() && rhs.wf() && self.space == rhs.space
    }

    open spec fn sub_spec(self, rhs: Elt<'a>) -> Elt<'a> {
        Elt {
            val: ((self.val + (self.space.n - rhs.val)) % (self.space.n as int)) as u128,
            space: self.space,
        }
    }
}

impl<'a> Sub for Elt<'a> {
    type Output = Elt<'a>;

    /// The difference of two elements of one space.
    fn sub(self, other: Elt<'a>) -> (difference: Elt<'a>)
        ensures
            difference.wf(),
            difference.value() == (self.value() - other.value()) % (self.space.n as int),
    {
        proof {
            crate::montgomery::lemmas::lemma_pow2_word();
            assert(self.space.n * self.space.r() >= self.space.n) by (nonlinear_arith)
                requires
                    self.space.r() >= 1,
                    self.space.n >= 0,
            ;
            lemma_plain_difference(
                self.val as int,
                other.val as int,
                self.space.r_inv as int,
                self.space.n as int,
            );
        }
        Elt { val: (self.val + (self.space.n - other.val)) % self.space.n, space: self.space }
    }
}

impl<'a> MulSpecImpl for Elt<'a> {
    open spec fn obeys_mul_spec() -> bool {
        true
    }

    open spec fn mul_req(self, rhs: Elt<'a>) -> bool {
        self.wf() && rhs.wf() && self.space == rhs.space
    }

    open spec fn mul_spec(self, rhs: Elt<'a>) -> Elt<'a> {
        Elt { val: self.space.plain((self.val * rhs.val) as nat) as u128, space: self.space }
    }
}

impl<'a> Mul for Elt<'a> {
    type Output = Elt<'a>;

    /// The product of two elements of one space: one Montgomery reduction
    /// of the product of the representatives.
    fn mul(self, other: Elt<'a>) -> (product: Elt<'a>)
        ensures
            product.wf(),
            product.value() == (self.value() * other.value()) % (self.space.n as nat),
    {
        proof {
            crate::montgomery::lemmas::lemma_pow2_word();
            let n = self.space.n as int;
            let r = self.space.r();
            assert(0 <= self.val * other.val < r * n && r * n == n * r) by (nonlinear_arith)
                requires
                    0 <= self.val < n,
                    0 <= other.val < n,
                    n < r,
            ;
            lemma_plain_product(self.val as int, other.val as int, self.space.r_inv as int, n);
        }
        Elt { val: self.space.redc(self.val * other.val), space: self.space }
    }
}

impl<'a> MulSpecImpl<u128> for Elt<'a> {
    open spec fn obeys_mul_spec() -> bool {
        true
    }

    open spec fn mul_req(self, rhs: u128) -> bool {
        self.wf()
    }

    open spec fn mul_spec(self, rhs: u128) -> Elt<'a> {
        Elt {
            val: self.space.plain((self.val * self.space.representative(rhs as nat)) as nat) as u128,
            space: self.space,
        }
    }
}

impl<'a> Mul<u128> for Elt<'a> {
    type Output = Elt<'a>;

    /// The product of an element and a plain number, which enters first.
    fn mul(self, other: u128) -> (product: Elt<'a>)
        ensures
            product.wf(),
            product.value() == (self.value() * other) % (self.space.n as int),
    {
        proof {
            lemma_mul_mod_noop_general(self.value() as int, other as int, self.space.n as int);
            lemma_small_mod(self.value(), self.space.n as nat);
            lemma_mod_bound(self.val * self.space.r_inv, self.space.n as int);
        }
        self * self.space.enter(other)
    }
}


impl<'a> AddAssign for Elt<'a> {
    /// Adds an element of the same space to this one.
    fn add_assign(&mut self, other: Elt<'a>)
        requires
            old(self).wf(),
            other.wf(),
            old(self).space == other.space,
        ensures
            *final(self) == AddSpec::add_spec(*old(self), other),
            final(self).wf(),
            final(self).value() == (old(self).value() + other.value()) % (other.space.n as nat),
    {
        let sum = *self + other;
        self.val = sum.val;
    }
}

impl<'a> MulAssign for Elt<'a> {
    /// Multiplies this element by one of the same space.
    fn mul_assign(&mut self, other: Elt<'a>)
        requires
            old(self).wf(),
            other.wf(),
            old(self).space == other.space,
        ensures
            *final(self) == MulSpec::mul_spec(*old(self), other),
            final(self).wf(),
            final(self).value() == (old(self).value() * other.value()) % (other.space.n as nat),
    {
        let product = *self * other;
        self.val = product.val;
    }
}

impl<'a> MulAssign<u128> for Elt<'a> {
    /// Multiplies this element by a plain number, which enters first.
    fn mul_assign(&mut self, other: u128)
        requires
            old(self).wf(),
        ensures
            *final(self) == MulSpec::mul_spec(*old(self), other),
            final(self).wf(),
            final(self).value() == (old(self).value() * other) % (old(self).space.n as int),
    {
        let product = *self * other;
        self.val = product.val;
    }
}

} // verus!
