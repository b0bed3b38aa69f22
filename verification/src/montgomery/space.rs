//! The Montgomery space of one odd modulus.
use vstd::prelude::*;
use vstd::arithmetic::power2::{lemma_pow2_adds, lemma_pow2_pos, pow2};
use vstd::std_specs::cmp::PartialEqSpecImpl;
use crate::math::{mod_inverse, mod_mult, signed_residue};
use crate::math::euclid::{as_signed, lemma_gcd_symmetric};
use crate::math::legendre::{naive_legendre_spec, symbol_product, LegendreSymbol};
use crate::math::modular::{factorial, lemma_low_bit};
use crate::montgomery::elt::Elt;
use crate::montgomery::lemmas::{
    lemma_enter,
    lemma_mask_is_mod,
    lemma_negated_inverse,
    lemma_odd_coprime_to_pow2,
    lemma_pow2_word,
    lemma_redc,
    lemma_representative_unique,
    lemma_shl_is_pow2,
    lemma_word_residue,
};

verus! {

/// The moduli a space can be built on with the Montgomery constant
/// `r = 2^r_exp`: odd and above 2, below `r`, and small enough that the sum
/// formed during a reduction, which stays below `2 * r * n`, fits in 128
/// bits.
pub open spec fn valid_modulus(n: nat, r_exp: nat) -> bool {
    &&& n % 2 == 1
    &&& n >= 3
    &&& r_exp < 128
    &&& n < pow2(r_exp)
    &&& n * pow2(r_exp) <= pow2(127)
}

/// Why a space cannot be built on a modulus.
#[derive(Debug, PartialEq, Eq, Structural, Clone, Copy)]
pub enum ModulusError {
    /// The modulus is even: it shares the factor 2 with the Montgomery
    /// constant.
    Even,
    /// The modulus is 1.
    TooSmall,
    /// The modulus is not below the Montgomery constant, or the two are too
    /// large for a reduction in 128 bits.
    TooLarge,
}

/// The reason, if any, for which `n` is no valid modulus with the exponent
/// `r_exp`.
pub open spec fn modulus_error(n: nat, r_exp: nat) -> Option<ModulusError> {
    if n % 2 == 0 {
        Some(ModulusError::Even)
    } else if n < 3 {
        Some(ModulusError::TooSmall)
    } else if !valid_modulus(n, r_exp) {
        Some(ModulusError::TooLarge)
    } else {
        None
    }
}

/// A Montgomery space: a modulus `n`, the Montgomery constant `r = 2^r_exp`,
/// and the constants derived from the two.
///
/// A number `a` enters the space as `a * r mod n`.  The product of two such
/// representatives, reduced by [`Space::redc`], represents the product of the
/// numbers; the reduction takes a mask, a multiplication and a shift, and no
/// division.
#[derive(Debug)]
pub struct Space {
    /// The modulus.
    pub n: u128,
    /// The exponent of the Montgomery constant `r = 2^r_exp`.
    pub r_exp: usize,
    /// The inverse of `r` modulo `n`.
    pub r_inv: u128,
    /// `r * r mod n`, by which a number enters.
    pub r_squared: u128,
    /// The inverse of `n` modulo `r`.
    pub n_inv: u128,
    /// The negated inverse of `n` modulo `r`, used in the reduction.
    pub n_prime: u128,
    /// The symbol of `r` modulo `n`, by Euler's criterion.
    pub r_n_legendre: LegendreSymbol,
}

impl Clone for Space {
    /// A copy of the space, constant for constant.
    fn clone(&self) -> (copy: Self)
        ensures
            copy == *self,
    {
        Space {
            n: self.n,
            r_exp: self.r_exp,
            r_inv: self.r_inv,
            r_squared: self.r_squared,
            n_inv: self.n_inv,
            n_prime: self.n_prime,
            r_n_legendre: self.r_n_legendre,
        }
    }
}

impl PartialEqSpecImpl for Space {
    open spec fn obeys_eq_spec() -> bool {
        true
    }

    open spec fn eq_spec(&self, other: &Space) -> bool {
        self.n == other.n && self.r_exp == other.r_exp
    }
}

impl PartialEq for Space {
    /// Two spaces are equal where modulus and exponent agree.
    fn eq(&self, other: &Space) -> (same: bool) {
        self.n == other.n && self.r_exp == other.r_exp
    }
}

impl Space {
    /// The Montgomery constant `r = 2^r_exp`.
    pub open spec fn r(&self) -> int {
        pow2(self.r_exp as nat) as int
    }

    /// The space is well formed: its modulus is valid and each derived
    /// constant is what its name says.
    pub open spec fn wf(&self) -> bool {
        &&& valid_modulus(self.n as nat, self.r_exp as nat)
        &&& self.r_inv < self.n
        &&& (self.r() * self.r_inv) % (self.n as int) == 1
        &&& self.r_squared == (self.r() * self.r()) % (self.n as int)
        &&& self.n_inv < self.r()
        &&& (self.n * self.n_inv) % self.r() == 1
        &&& self.n_prime < self.r()
        &&& (self.n * self.n_prime) % self.r() == self.r() - 1
        &&& self.r_n_legendre == naive_legendre_spec(self.r() as nat, self.n as nat)
    }

    /// The number that the representative `v` stands for: `v * r^-1 mod n`.
    pub open spec fn plain(&self, v: nat) -> nat {
        ((v * self.r_inv) % (self.n as int)) as nat
    }

    /// The representative of the number `a`: `a * r mod n`.
    pub open spec fn representative(&self, a: nat) -> nat {
        ((a * self.r()) % (self.n as int)) as nat
    }

    /// The element that `a` enters as.
    pub open spec fn entered(&self, a: nat) -> Elt<'_> {
        Elt { val: self.representative(a) as u128, space: self }
    }

    /// The symbol that [`Space::legendre`] gives a value: the symbol by
    /// Euler's criterion, multiplied by the symbol of `r`.
    pub open spec fn legendre_spec(&self, value: nat) -> LegendreSymbol {
        symbol_product(naive_legendre_spec(value, self.n as nat), self.r_n_legendre)
    }

    /// Whether a space can be built on `n` with the exponent `r_exp`.
    pub fn is_valid_modulus(n: u128, r_exp: usize) -> (ok: bool)
        ensures
            ok == valid_modulus(n as nat, r_exp as nat),
    {
        if r_exp >= 128 || n < 3 || n % 2 == 0 {
            return false;
        }
        let r: u128 = 1u128 << r_exp;
        let room: u128 = 1u128 << (127 - r_exp);
        proof {
            lemma_shl_is_pow2(r_exp as nat);
            lemma_shl_is_pow2((127 - r_exp) as nat);
            lemma_pow2_adds(r_exp as nat, (127 - r_exp) as nat);
            lemma_pow2_pos(r_exp as nat);
            let rr = r as int;
            let ro = room as int;
            let nn = n as int;
            assert(nn * rr <= rr * ro <==> nn <= ro) by (nonlinear_arith)
                requires
                    rr > 0,
            ;
            assert(pow2(r_exp as nat) * pow2((127 - r_exp) as nat) == rr * ro) by (nonlinear_arith)
                requires
                    pow2(r_exp as nat) == rr,
                    pow2((127 - r_exp) as nat) == ro,
            ;
        }
        n < r && n <= room
    }

    /// The space of the modulus `n` with the Montgomery constant `2^r_exp`,
    /// or the reason for which there is none.
    pub fn try_new(n: u128, r_exp: usize) -> (made: Result<Space, ModulusError>)
        ensures
            match made {
                Ok(space) => {
                    &&& valid_modulus(n as nat, r_exp as nat)
                    &&& space.wf()
                    &&& space.n == n
                    &&& space.r_exp == r_exp
                },
                Err(e) => modulus_error(n as nat, r_exp as nat) == Some(e),
            },
    {
        if n % 2 == 0 {
            Err(ModulusError::Even)
        } else if n < 3 {
            Err(ModulusError::TooSmall)
        } else if !Space::is_valid_modulus(n, r_exp) {
            Err(ModulusError::TooLarge)
        } else {
            Ok(Space::new(n, r_exp))
        }
    }

    /// The space of the modulus `n` with the Montgomery constant `2^r_exp`.
    pub fn new(n: u128, r_exp: usize) -> (space: Space)
        requires
            valid_modulus(n as nat, r_exp as nat),
        ensures
            space.wf(),
            space.n == n,
            space.r_exp == r_exp,
    {
        let r: u128 = 1u128 << r_exp;
        proof {
            lemma_shl_is_pow2(r_exp as nat);
            lemma_pow2_word();
            vstd::arithmetic::power2::lemma2_to64();
            vstd::arithmetic::power2::lemma_pow2_unfold(r_exp as nat);
            vstd::arithmetic::div_mod::lemma_small_mod(1, r as nat);
            vstd::arithmetic::div_mod::lemma_small_mod(1, n as nat);
            lemma_odd_coprime_to_pow2(n as nat, r_exp as nat);
            lemma_odd_coprime_to_pow2((r - n) as nat, r_exp as nat);
            lemma_gcd_symmetric((r - n) as nat, r as nat);
            lemma_gcd_symmetric(n as nat, r as nat);
            assert(n * r >= 3 * r) by (nonlinear_arith)
                requires
                    n >= 3,
                    r >= 0,
            ;
        }
        let mask: u128 = r - 1;
        let r_inv: u128 = match mod_inverse(r, n) {
            Some(t) => {
                proof {
                    let ti = as_signed(t);
                    vstd::arithmetic::div_mod::lemma_mul_mod_noop_right(r as int, ti, n as int);
                    assert(ti * r == r * ti) by (nonlinear_arith);
                    vstd::arithmetic::div_mod::lemma_mod_bound(ti, n as int);
                }
                signed_residue(t, n)
            },
            None => 0,
        };
        let n_inv: u128 = match mod_inverse(n, r) {
            Some(t) => {
                proof {
                    let ti = as_signed(t);
                    lemma_mask_is_mod(t, r_exp as nat);
                    lemma_word_residue(ti, r_exp as nat);
                    vstd::arithmetic::div_mod::lemma_mul_mod_noop_right(n as int, ti, r as int);
                    assert(ti * n == n * ti) by (nonlinear_arith);
                    vstd::arithmetic::div_mod::lemma_mod_bound(ti, r as int);
                }
                t & mask
            },
            None => 0,
        };
        let r_squared: u128 = mod_mult(r, r, n);
        let n_prime: u128 = match mod_inverse(r - n, r) {
            Some(t) => {
                proof {
                    let ti = as_signed(t);
                    lemma_mask_is_mod(t, r_exp as nat);
                    lemma_word_residue(ti, r_exp as nat);
                    lemma_negated_inverse(ti, n as int, r as int);
                    vstd::arithmetic::div_mod::lemma_mod_bound(ti, r as int);
                }
                t & mask
            },
            None => 0,
        };
        let r_n_legendre = LegendreSymbol::naive_legendre(r, n);
        Space { n, r_exp, r_inv, r_squared, n_inv, n_prime, r_n_legendre }
    }

    /// Montgomery reduction: `a * r^-1 mod n`, for `a` below `r * n`.
    ///
    /// With `m = (a mod r) * n' mod r` the sum `a + m * n` is a multiple of
    /// `r`; its quotient by `r` is below `2 * n`, and one conditional
    /// subtraction brings it below `n`.
    pub fn redc(&self, a: u128) -> (res: u128)
        requires
            self.wf(),
            a < self.r() * self.n,
        ensures
            res == self.plain(a as nat),
            res < self.n,
    {
        proof {
            lemma_shl_is_pow2(self.r_exp as nat);
            lemma_pow2_word();
        }
        let r: u128 = 1u128 << self.r_exp;
        let mask: u128 = r - 1;
        let little_m: u128 = (a & mask).wrapping_mul(self.n_prime) & mask;
        proof {
            lemma_mask_is_mod(a, self.r_exp as nat);
            let low = a & mask;
            lemma_mask_is_mod(low.wrapping_mul(self.n_prime), self.r_exp as nat);
            lemma_word_residue(low * self.n_prime, self.r_exp as nat);
            let m = ((a as int % r as int) * self.n_prime) % (r as int);
            assert(little_m == m);
            lemma_redc(a as int, r as int, self.n as int, self.n_prime as int, self.r_inv as int, m);
            assert(r * self.n == self.n * r) by (nonlinear_arith);
            assert(little_m * self.n == m * self.n);
            vstd::bits::lemma_u128_shr_is_div((a + m * self.n) as u128, self.r_exp as u128);
        }
        let new_t: u128 = (a + little_m * self.n) >> self.r_exp;
        if new_t >= self.n {
            new_t - self.n
        } else {
            new_t
        }
    }

    /// Enters `a` into the space: the element that stands for `a mod n`.
    pub fn enter(&self, a: u128) -> (e: Elt<'_>)
        requires
            self.wf(),
        ensures
            e == self.entered(a as nat),
            e.wf(),
            e.value() == a % self.n,
    {
        proof {
            lemma_enter(a as int, self.r(), self.r_inv as int, self.n as int);
            vstd::arithmetic::div_mod::lemma_mod_bound(a * self.r_squared, self.n as int);
            assert((a * self.r_squared) % (self.n as int) < self.r() * self.n) by (nonlinear_arith)
                requires
                    (a * self.r_squared) % (self.n as int) < self.n,
                    self.r() >= 1,
                    self.n >= 0,
            ;
            lemma_pow2_pos(self.r_exp as nat);
        }
        let val: u128 = self.redc(mod_mult(a, self.r_squared, self.n));
        Elt { val, space: self }
    }

    /// The element that stands for `k! mod n`, by `k` multiplications.
    pub fn factorial(&self, k: u128) -> (product: Elt<'_>)
        requires
            self.wf(),
        ensures
            product.wf(),
            *product.space == *self,
            product.value() == factorial(k as nat) % (self.n as nat),
    {
        let mut result: Elt<'_> = self.enter(1);
        let mut i: u128 = 0;
        while i < k
            invariant
                self.wf(),
                i <= k,
                result.wf(),
                *result.space == *self,
                result.value() == factorial(i as nat) % (self.n as nat),
            decreases k - i,
        {
            i = i + 1;
            proof {
                vstd::arithmetic::div_mod::lemma_mul_mod_noop_general(
                    factorial((i - 1) as nat) as int,
                    i as int,
                    self.n as int,
                );
                assert(factorial(i as nat) == i * factorial((i - 1) as nat));
                assert(factorial((i - 1) as nat) * i == i * factorial((i - 1) as nat))
                    by (nonlinear_arith);
            }
            result = result * self.enter(i);
        }
        result
    }

    /// The quadratic-residue symbol of an element of this space.
    ///
    /// The element is raised to the power `(n - 1) / 2` within the space and
    /// the power is told apart without leaving it: zero is a divisor, the
    /// representative of 1 a residue, anything else a non-residue.  That
    /// symbol is multiplied by the symbol of `r`, kept since the space was
    /// made.
    pub fn legendre(&self, a: Elt<'_>) -> (sym: LegendreSymbol)
        requires
            self.wf(),
            a.wf(),
            *a.space == *self,
        ensures
            sym == self.legendre_spec(a.value()),
    {
        let exp: u128 = (self.n - 1) >> 1;
        proof {
            lemma_low_bit((self.n - 1) as u128);
        }
        let result = a.exp(exp);
        let one = result.space.enter(1);
        proof {
            let n = self.n as int;
            vstd::arithmetic::div_mod::lemma_small_mod(1, n as nat);
            vstd::arithmetic::div_mod::lemma_small_mod(0, n as nat);
            lemma_representative_unique(result.val as int, self.r(), self.r_inv as int, n);
            lemma_representative_unique(one.val as int, self.r(), self.r_inv as int, n);
            assert(0 * self.r_inv == 0) by (nonlinear_arith);
            assert(0 * self.r() == 0) by (nonlinear_arith);
            assert(result.val == 0 <==> result.value() == 0);
            assert(result.val == one.val <==> result.value() == 1);
        }
        let a_r_sym = if result.val == 0 {
            LegendreSymbol::Divisor
        } else if result == one {
            LegendreSymbol::Residue
        } else {
            LegendreSymbol::Nonresidue
        };
        a_r_sym * self.r_n_legendre
    }
}

} // verus!
