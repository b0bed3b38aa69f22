use brocard::math::legendre::LegendreSymbol;
use brocard::math::legendre::LegendreSymbol::{Divisor, Nonresidue, Residue};
use brocard::math::mod_mult;
use brocard::montgomery::space::ModulusError;
use brocard::montgomery::{Elt, Space};

const R_EXP: usize = 64;

/// The Mersenne prime `2^61 - 1`.
const MERSENNE_61: u128 = (1 << 61) - 1;

#[test]
fn mod_wikipedia_example() {
    let space = Space::new(17, R_EXP);
    let a = space.enter(7);
    let b = space.enter(15);

    let c = a * b;
    assert_eq!(c.exit(), 3);
}

#[test]
fn mod_legendre_showing_divisor() {
    let space = Space::new(7, R_EXP);
    let a = space.enter(21);

    assert_eq!(space.legendre(a), LegendreSymbol::naive_legendre(21, 7));
    assert_eq!(LegendreSymbol::naive_legendre(21, 7), LegendreSymbol::Divisor);
}

#[test]
fn mod_legendre_showing_non_residue() {
    let space = Space::new(11, R_EXP);
    let a = space.enter(21);

    assert_eq!(space.legendre(a), LegendreSymbol::naive_legendre(21, 11), "nonresidue");
    assert_eq!(LegendreSymbol::naive_legendre(21, 11), LegendreSymbol::Nonresidue);
}

#[test]
fn mod_legendre_showing_quadratic_residue() {
    let space = Space::new(5, R_EXP);
    let a = space.enter(21);

    assert_eq!(space.legendre(a), LegendreSymbol::naive_legendre(21, 5));
    assert_eq!(LegendreSymbol::naive_legendre(21, 5), LegendreSymbol::Residue);
}

#[test]
fn mult_wikipedia_example() {
    let space = Space::new(17, 8);
    let a = space.enter(7);
    let b = space.enter(15);
    let c = a * b;
    assert_eq!(c.exit(), (7 * 15) % 17);
}

#[test]
fn edge() {
    let a_in = 1;
    let b_in = 1;
    let n = 9;
    let r_exp = 8;

    let space = Space::new(n, r_exp);
    let a = space.enter(a_in);
    let b = space.enter(b_in);
    let c = a * b;

    assert_eq!(c.exit(), mod_mult(a_in, b_in, n));
}

#[test]
fn space_constants_are_exact() {
    let space = Space::new(7, 64);
    assert_eq!(space.n, 7);
    assert_eq!(space.r_exp, 64);
    assert_eq!(space.r_inv, 4);
    assert_eq!(space.r_squared, 4);
    assert_eq!(space.n_inv, 7905747460161236407);
    assert_eq!(space.n_prime, 10540996613548315209);
    assert_eq!(space.r_n_legendre, LegendreSymbol::Residue);

    let small = Space::new(17, 8);
    assert_eq!(small.r_inv, 1);
    assert_eq!(small.r_squared, 1);
    assert_eq!(small.n_inv, 241);
    assert_eq!(small.n_prime, 15);

    let composite = Space::new(9, 8);
    assert_eq!(composite.r_inv, 7);
    assert_eq!(composite.r_squared, 7);
    assert_eq!(composite.n_inv, 57);
    assert_eq!(composite.n_prime, 199);
    assert_eq!(composite.r_n_legendre, LegendreSymbol::Nonresidue);
}

#[test]
fn modulus_validity() {
    assert!(Space::is_valid_modulus(17, 64));
    assert!(Space::is_valid_modulus(3, 2));
    assert!(Space::is_valid_modulus(MERSENNE_61, 64));
    assert!(Space::is_valid_modulus((1 << 63) - 1, 64));
    // Even, too small, not below r, or too large for the reduction.
    assert!(!Space::is_valid_modulus(18, 64));
    assert!(!Space::is_valid_modulus(1, 64));
    assert!(!Space::is_valid_modulus(2, 64));
    assert!(!Space::is_valid_modulus(5, 2));
    assert!(!Space::is_valid_modulus((1 << 63) + 1, 64));
    assert!(!Space::is_valid_modulus(3, 126));
    assert!(!Space::is_valid_modulus(3, 128));
    assert!(Space::is_valid_modulus(3, 125));
}

#[test]
fn redc_multiplies_by_the_inverse_of_r() {
    let space = Space::new(17, 8);
    // r = 256 = 1 mod 17, so the reduction is the plain residue.
    for a in 0..(256 * 17) {
        assert_eq!(space.redc(a), a % 17);
    }
    let space = Space::new(7, 64);
    // r^-1 = 4 mod 7.
    for a in 0..1000u128 {
        assert_eq!(space.redc(a), (a * 4) % 7);
    }
}

#[test]
fn enter_then_exit_is_the_residue() {
    for (n, r_exp) in [(17u128, 8usize), (17, 64), (9, 8), (MERSENNE_61, 64), (3, 3)] {
        let space = Space::new(n, r_exp);
        for a in [0u128, 1, 2, n / 2, n - 1] {
            assert_eq!(space.enter(a).exit(), a);
        }
        // Larger numbers enter as their residue.
        assert_eq!(space.enter(n).exit(), 0);
        assert_eq!(space.enter(u128::MAX).exit(), u128::MAX % n);
    }
}

#[test]
fn enter_gives_the_representative() {
    let space = Space::new(7, 64);
    // r = 2^64 = 2 mod 7.
    for a in 0..20u128 {
        assert_eq!(space.enter(a).val, (a * 2) % 7);
    }
}

#[test]
fn multiplication_matches_plain_multiplication() {
    let n = MERSENNE_61;
    let space = Space::new(n, R_EXP);
    let samples = [0u128, 1, 2, 12345678901234567, n - 1, n - 2, 1 << 60];
    for a in samples {
        for b in samples {
            let x = space.enter(a);
            let y = space.enter(b);
            assert_eq!((x * y).exit(), mod_mult(a, b, n));
            assert_eq!((x * b).exit(), mod_mult(a, b, n));
            assert!((x * b) == (x * y));
        }
    }
}

#[test]
fn addition_and_subtraction_match_plain_arithmetic() {
    let n = MERSENNE_61;
    let space = Space::new(n, R_EXP);
    let samples = [0u128, 1, 2, 12345678901234567, n - 1, n - 2, 1 << 60];
    for a in samples {
        for b in samples {
            let x = space.enter(a);
            let y = space.enter(b);
            assert_eq!((x + y).exit(), (a + b) % n);
            assert_eq!((x + b).exit(), (a + b) % n);
            assert!((x + b) == (x + y));
            assert_eq!((x - y).exit(), (a + (n - (b % n))) % n);
        }
    }
    // A difference below zero wraps to the top of the residues.
    let x = space.enter(3);
    let y = space.enter(5);
    assert_eq!((x - y).exit(), n - 2);
}

#[test]
fn exponentiation_matches_plain_exponentiation() {
    let space = Space::new(17, R_EXP);
    let a = space.enter(3);
    // The powers of 3 modulo 17.
    let expected = [1u128, 3, 9, 10, 13, 5, 15, 11, 16, 14, 8, 7, 4, 12, 2, 6, 1];
    for (e, want) in expected.iter().enumerate() {
        assert_eq!(a.exp(e as u128).exit(), *want);
    }
    assert_eq!(space.enter(0).exp(0).exit(), 1);
    assert_eq!(space.enter(0).exp(5).exit(), 0);
}

#[test]
fn montgomery_legendre_is_naive_legendre() {
    let n = MERSENNE_61;
    let space = Space::new(n, R_EXP);
    assert_eq!(space.r_n_legendre, LegendreSymbol::Residue);
    let mut a: u128 = 0;
    for _ in 0..200 {
        let naive = LegendreSymbol::naive_legendre(a, n);
        let entered = space.enter(a);
        assert_eq!(space.legendre(entered), naive);
        assert_eq!(entered.legendre(), naive);
        a = a.wrapping_mul(6364136223846793005).wrapping_add(1442695040888963407);
    }
    for a in 0..40u128 {
        let small = Space::new(19, R_EXP);
        assert_eq!(small.legendre(small.enter(a)), LegendreSymbol::naive_legendre(a, 19));
    }
}

#[test]
fn legendre_carries_the_symbol_of_r() {
    // 2^3 is no square modulo 3, so the symbol of r turns the sign.
    let space = Space::new(3, 3);
    assert_eq!(space.r_n_legendre, LegendreSymbol::Nonresidue);
    assert_eq!(LegendreSymbol::naive_legendre(1, 3), LegendreSymbol::Residue);
    assert_eq!(space.legendre(space.enter(1)), LegendreSymbol::Nonresidue);
    assert_eq!(LegendreSymbol::naive_legendre(2, 3), LegendreSymbol::Nonresidue);
    assert_eq!(space.legendre(space.enter(2)), LegendreSymbol::Residue);
    // A divisor stays a divisor.
    assert_eq!(space.legendre(space.enter(3)), LegendreSymbol::Divisor);
}

#[test]
fn montgomery_factorial_is_naive_factorial() {
    for n in [3u128, 17, 101, 9, MERSENNE_61] {
        let space = Space::new(n, R_EXP);
        let mut naive: u128 = 1 % n;
        assert_eq!(space.factorial(0).exit(), naive);
        for k in 1..=40u128 {
            naive = mod_mult(naive, k, n);
            assert_eq!(space.factorial(k).exit(), naive);
        }
    }
    let space = Space::new(17, R_EXP);
    assert_eq!(space.factorial(5).exit(), 120 % 17);
    assert_eq!(space.factorial(17).exit(), 0);
}

#[test]
fn symbols_multiply_like_signs() {
    assert_eq!(Divisor * Divisor, Divisor);
    assert_eq!(Divisor * Residue, Divisor);
    assert_eq!(Divisor * Nonresidue, Divisor);
    assert_eq!(Residue * Divisor, Divisor);
    assert_eq!(Nonresidue * Divisor, Divisor);
    assert_eq!(Residue * Residue, Residue);
    assert_eq!(Residue * Nonresidue, Nonresidue);
    assert_eq!(Nonresidue * Residue, Nonresidue);
    assert_eq!(Nonresidue * Nonresidue, Residue);
}

#[test]
fn spaces_and_elements_compare_by_modulus_and_exponent() {
    let a = Space::new(17, 64);
    let b = Space::new(17, 64);
    let c = Space::new(17, 8);
    let d = Space::new(19, 64);
    assert!(a == b);
    assert!(a != c);
    assert!(a != d);
    let x: Elt = a.enter(5);
    let y: Elt = b.enter(5);
    assert!(x == y);
    assert!(x != a.enter(6));
}

#[test]
fn compound_assignment_matches_the_operators() {
    let space = Space::new(MERSENNE_61, R_EXP);
    let a = space.enter(123456789);
    let b = space.enter(987654321);
    let mut x = a;
    x *= b;
    assert!(x == a * b);
    assert_eq!(x.exit(), mod_mult(123456789, 987654321, MERSENNE_61));
    x += b;
    assert!(x == a * b + b);
    x *= 7;
    assert!(x == (a * b + b) * 7);
    assert_eq!(
        x.exit(),
        mod_mult(mod_mult(123456789, 987654321, MERSENNE_61) + 987654321, 7, MERSENNE_61)
    );
}

#[test]
fn a_space_is_cloned_constant_for_constant() {
    let space = Space::new(101, R_EXP);
    let copy = space.clone();
    assert_eq!(copy.n, space.n);
    assert_eq!(copy.r_exp, space.r_exp);
    assert_eq!(copy.r_inv, space.r_inv);
    assert_eq!(copy.r_squared, space.r_squared);
    assert_eq!(copy.n_inv, space.n_inv);
    assert_eq!(copy.n_prime, space.n_prime);
    assert_eq!(copy.r_n_legendre, space.r_n_legendre);
}

#[test]
fn a_space_is_refused_with_its_reason() {
    assert_eq!(Space::try_new(18, 64), Err(ModulusError::Even));
    assert_eq!(Space::try_new(0, 64), Err(ModulusError::Even));
    assert_eq!(Space::try_new(2, 64), Err(ModulusError::Even));
    assert_eq!(Space::try_new(1, 64), Err(ModulusError::TooSmall));
    assert_eq!(Space::try_new(5, 2), Err(ModulusError::TooLarge));
    assert_eq!(Space::try_new((1 << 63) + 1, 64), Err(ModulusError::TooLarge));
    assert_eq!(Space::try_new(3, 128), Err(ModulusError::TooLarge));
    assert_eq!(Space::try_new(3, usize::MAX), Err(ModulusError::TooLarge));
    let made = Space::try_new(17, 64);
    assert_eq!(made, Ok(Space::new(17, 64)));
    let space = made.unwrap();
    assert_eq!((space.enter(7) * space.enter(15)).exit(), 3);
}
