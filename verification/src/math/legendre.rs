//! The three-valued quadratic-residue symbol and its direct computation
//! by Euler's criterion.
use vstd::prelude::*;
use vstd::std_specs::ops::MulSpecImpl;
use std::ops::Mul;
use crate::math::mod_exp;
use crate::math::modular::mod_exp_spec;

verus! {

/// How a value stands to a modulus `p`: congruent to zero, a square, or not
/// a square.
#[derive(Debug, Copy, Clone, PartialEq, Eq, Structural)]
pub enum LegendreSymbol {
    Divisor,
    Residue,
    Nonresidue,
}

/// The symbol read off a power `a^((p-1)/2) mod p`: 0 is a divisor, 1 a
/// residue, anything else a non-residue.
pub open spec fn symbol_of_power(x: nat) -> LegendreSymbol {
    if x == 0 {
        LegendreSymbol::Divisor
    } else if x == 1 {
        LegendreSymbol::Residue
    } else {
        LegendreSymbol::Nonresidue
    }
}

/// Euler's criterion: the symbol of `a` modulo `p` is read off
/// `a^((p-1)/2) mod p`.
pub open spec fn naive_legendre_spec(a: nat, p: nat) -> LegendreSymbol {
    symbol_of_power(mod_exp_spec(a, ((p - 1) / 2) as nat, p))
}

/// The product of two symbols: `Divisor` absorbs, and `Residue` and
/// `Nonresidue` multiply like the signs `+1` and `-1`.
pub open spec fn symbol_product(x: LegendreSymbol, y: LegendreSymbol) -> LegendreSymbol {
    match (x, y) {
        (LegendreSymbol::Divisor, _) => LegendreSymbol::Divisor,
        (_, LegendreSymbol::Divisor) => LegendreSymbol::Divisor,
        (LegendreSymbol::Residue, s) => s,
        (s, LegendreSymbol::Residue) => s,
        (LegendreSymbol::Nonresidue, LegendreSymbol::Nonresidue) => LegendreSymbol::Residue,
    }
}

impl LegendreSymbol {
    /// The symbol of `a` modulo `p` by direct modular exponentiation.
    pub fn naive_legendre(a: u128, p: u128) -> (sym: LegendreSymbol)
        requires
            p > 0,
        ensures
            sym == naive_legendre_spec(a as nat, p as nat),
    {
        let ret: u128 = mod_exp(a, (p - 1) / 2, p);
        if ret == 0 {
            LegendreSymbol::Divisor
        } else if ret == 1 {
            LegendreSymbol::Residue
        } else {
            LegendreSymbol::Nonresidue
        }
    }
}

impl MulSpecImpl for LegendreSymbol {
    open spec fn obeys_mul_spec() -> bool {
        true
    }

    open spec fn mul_req(self, rhs: LegendreSymbol) -> bool {
        true
    }

    open spec fn mul_spec(self, rhs: LegendreSymbol) -> LegendreSymbol {
        symbol_product(self, rhs)
    }
}

impl Mul for LegendreSymbol {
    type Output = LegendreSymbol;

    fn mul(self, rhs: LegendreSymbol) -> (product: LegendreSymbol) {
        match (self, rhs) {
            (LegendreSymbol::Divisor, _) => LegendreSymbol::Divisor,
            (_, LegendreSymbol::Divisor) => LegendreSymbol::Divisor,
            (LegendreSymbol::Residue, LegendreSymbol::Residue) => LegendreSymbol::Residue,
            (LegendreSymbol::Residue, LegendreSymbol::Nonresidue) => LegendreSymbol::Nonresidue,
            (LegendreSymbol::Nonresidue, LegendreSymbol::Residue) => LegendreSymbol::Nonresidue,
            (LegendreSymbol::Nonresidue, LegendreSymbol::Nonresidue) => LegendreSymbol::Residue,
        }
    }
}

/// The symbols form a commutative monoid under the product, with `Residue`
/// as its unit and `Divisor` absorbing.
pub proof fn lemma_symbol_product_laws(x: LegendreSymbol, y: LegendreSymbol, z: LegendreSymbol)
    ensures
        symbol_product(x, y) == symbol_product(y, x),
        symbol_product(symbol_product(x, y), z) == symbol_product(x, symbol_product(y, z)),
        symbol_product(x, LegendreSymbol::Residue) == x,
        symbol_product(x, LegendreSymbol::Divisor) == LegendreSymbol::Divisor,
{
}

} // verus!
