use brocard::math::{extended_gcd, gcd, mod_exp, mod_inv, mod_inverse, mod_mult, signed_residue};

#[test]
fn gcd_of_small_numbers() {
    assert_eq!(gcd(0, 0), 0);
    assert_eq!(gcd(0, 7), 7);
    assert_eq!(gcd(7, 0), 7);
    assert_eq!(gcd(12, 18), 6);
    assert_eq!(gcd(18, 12), 6);
    assert_eq!(gcd(17, 5), 1);
    assert_eq!(gcd(1 << 64, 96), 32);
    assert_eq!(gcd(u128::MAX, u128::MAX), u128::MAX);
}

#[test]
fn mod_inverse_returns_the_signed_coefficient() {
    // 3 * (-2) = -6 = 1 mod 7: the coefficient is -2, in two's complement.
    assert_eq!(mod_inverse(3, 7), Some(u128::MAX - 1));
    // 2^64 * (-3) = 1 mod 7.
    assert_eq!(mod_inverse(1 << 64, 7), Some(u128::MAX - 2));
    // Modulo a power of two the low bits are the inverse.
    assert_eq!(mod_inverse(7, 1 << 64), Some(7905747460161236407));
    assert_eq!((7u128 * 7905747460161236407) % (1 << 64), 1);
    assert_eq!(mod_inverse(1, 5), Some(1));
    assert_eq!(mod_inverse(0, 1), Some(0));
    assert_eq!(mod_inverse(0, 0), Some(0));
}

#[test]
fn mod_inverse_fails_on_a_common_factor() {
    assert_eq!(mod_inverse(4, 6), None);
    assert_eq!(mod_inverse(6, 4), None);
    assert_eq!(mod_inverse(0, 5), None);
    assert_eq!(mod_inverse(5, 0), None);
    assert_eq!(mod_inverse(1 << 64, 1 << 32), None);
}

#[test]
fn extended_gcd_gives_bezout_coefficients() {
    // -9 * 240 + 47 * 46 = 2.
    assert_eq!(extended_gcd(240, 46), (9u128.wrapping_neg(), 47));
    assert_eq!(extended_gcd(3, 7), (2u128.wrapping_neg(), 1));
    assert_eq!(extended_gcd(7, 3), (1, 2u128.wrapping_neg()));
    assert_eq!(extended_gcd(0, 5), (0, 1));
    assert_eq!(extended_gcd(5, 0), (1, 0));
    assert_eq!(extended_gcd(0, 0), (1, 0));
    // The identity holds in wrapping arithmetic for large arguments too.
    let a: u128 = (1 << 127) + 12345;
    let b: u128 = (1 << 100) + 77;
    let (x, y) = extended_gcd(a, b);
    assert_eq!(x.wrapping_mul(a).wrapping_add(y.wrapping_mul(b)), gcd(a, b));
}

#[test]
fn signed_residue_reads_two_complement() {
    assert_eq!(signed_residue(0, 7), 0);
    assert_eq!(signed_residue(10, 7), 3);
    // -2 mod 7 = 5, -7 mod 7 = 0, -1 mod 1 = 0.
    assert_eq!(signed_residue(u128::MAX - 1, 7), 5);
    assert_eq!(signed_residue(7u128.wrapping_neg(), 7), 0);
    assert_eq!(signed_residue(u128::MAX, 1), 0);
    // The least value: -2^127 mod 3 = 1, as 2^127 = 2 mod 3.
    assert_eq!(signed_residue(1 << 127, 3), 1);
}

#[test]
fn mod_inv_is_the_reduced_inverse() {
    assert_eq!(mod_inv(3, 7), 5);
    assert_eq!(mod_inv(7, 3), 1);
    assert_eq!(mod_inv(1 << 64, 7), 4);
    assert_eq!(mod_inv(1, 1), 0);
    for n in [5u128, 7, 11, 101, (1 << 61) - 1] {
        for a in 1..5u128 {
            assert_eq!(mod_mult(mod_inv(a, n), a, n), 1);
        }
    }
    // With a common factor the product is the greatest common divisor.
    assert_eq!(mod_mult(mod_inv(4, 6), 4, 6), 2);
}

#[test]
fn mod_mult_of_small_and_large_numbers() {
    assert_eq!(mod_mult(7, 15, 17), 3);
    assert_eq!(mod_mult(0, 15, 17), 0);
    assert_eq!(mod_mult(7, 15, 1), 0);
    assert_eq!(mod_mult(u128::MAX, u128::MAX, 1 << 64), 1);
    // A modulus above 2^127: (m - 1)^2 = 1 mod m.
    let m: u128 = u128::MAX - 158;
    assert_eq!(mod_mult(m - 1, m - 1, m), 1);
    assert_eq!(mod_mult(m - 1, 2, m), m - 2);
    assert_eq!(mod_mult(u128::MAX, 1, m), 158);
}

#[test]
fn mod_exp_of_small_and_large_numbers() {
    assert_eq!(mod_exp(3, 0, 17), 1);
    assert_eq!(mod_exp(3, 1, 17), 3);
    assert_eq!(mod_exp(3, 16, 17), 1);
    assert_eq!(mod_exp(3, 5, 17), 5);
    assert_eq!(mod_exp(21, 3, 7), 0);
    assert_eq!(mod_exp(2, 64, u128::MAX), 1 << 64);
    assert_eq!(mod_exp(2, 128, u128::MAX), 1);
    // The empty product is 1 whatever the modulus.
    assert_eq!(mod_exp(5, 0, 1), 1);
    assert_eq!(mod_exp(5, 0, 0), 1);
    assert_eq!(mod_exp(5, 3, 1), 0);
}
