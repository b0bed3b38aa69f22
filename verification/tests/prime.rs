use brocard::math::prime::{is_prime, segmented_seive, take_primes, MR_BASES};

const SMALL_PRIMES: [u128; 168] = [
    2, 3, 5, 7, 11, 13, 17, 19, 23, 29, 31, 37, 41, 43, 47, 53, 59, 61, 67, 71, 73, 79, 83, 89, 97,
    101, 103, 107, 109, 113, 127, 131, 137, 139, 149, 151, 157, 163, 167, 173, 179, 181, 191, 193,
    197, 199, 211, 223, 227, 229, 233, 239, 241, 251, 257, 263, 269, 271, 277, 281, 283, 293, 307,
    311, 313, 317, 331, 337, 347, 349, 353, 359, 367, 373, 379, 383, 389, 397, 401, 409, 419, 421,
    431, 433, 439, 443, 449, 457, 461, 463, 467, 479, 487, 491, 499, 503, 509, 521, 523, 541, 547,
    557, 563, 569, 571, 577, 587, 593, 599, 601, 607, 613, 617, 619, 631, 641, 643, 647, 653, 659,
    661, 673, 677, 683, 691, 701, 709, 719, 727, 733, 739, 743, 751, 757, 761, 769, 773, 787, 797,
    809, 811, 821, 823, 827, 829, 839, 853, 857, 859, 863, 877, 881, 883, 887, 907, 911, 919, 929,
    937, 941, 947, 953, 967, 971, 977, 983, 991, 997,
];

fn naive_is_prime(a: u128) -> bool {
    if a < 2 {
        return false;
    }
    for p in SMALL_PRIMES.iter() {
        if a == *p {
            return true;
        }
        if a % p == 0 {
            return false;
        }
    }
    true
}

#[test]
fn segmented_seive_finds_small_primes() {
    let primes = segmented_seive(0, 1000);
    for p in SMALL_PRIMES.iter() {
        assert!(primes.contains(p));
    }
}

#[test]
fn miller_rabin_small_primes() {
    for p in SMALL_PRIMES.iter() {
        assert!(is_prime(*p));
    }
}

#[test]
fn miller_rabin_correctness() {
    for a in 0..=u16::MAX {
        let a = a as u128;
        assert_eq!(naive_is_prime(a), is_prime(a));
    }
}

#[test]
fn miller_rabin_on_chosen_numbers() {
    assert!(!is_prime(0));
    assert!(!is_prime(1));
    assert!(is_prime(2));
    for base in MR_BASES {
        assert!(is_prime(base));
    }
    // Carmichael numbers, and a strong pseudoprime to the bases 2, 3, 5, 7.
    assert!(!is_prime(561));
    assert!(!is_prime(41041));
    assert!(!is_prime(3215031751));
    assert!(is_prime((1 << 61) - 1));
    assert!(!is_prime((1 << 61) + 1));
    assert!(is_prime((1 << 127) - 1));
    assert!(!is_prime(u128::MAX));
}

#[test]
fn segmented_seive_is_exact() {
    assert_eq!(segmented_seive(0, 30), vec![0, 1, 2, 3, 5, 7, 11, 13, 17, 19, 23, 29]);
    assert_eq!(segmented_seive(2, 2), vec![2]);
    assert_eq!(segmented_seive(24, 28), Vec::<u128>::new());
    assert_eq!(segmented_seive(90, 110), vec![97, 101, 103, 107, 109]);
    assert_eq!(
        segmented_seive(100_000_000, 100_000_100),
        vec![100000007, 100000037, 100000039, 100000049, 100000073, 100000081]
    );
    let primes = segmented_seive(2, 1000);
    assert_eq!(primes, SMALL_PRIMES.to_vec());
}

#[test]
fn take_primes_takes_the_next_odd_primes() {
    assert_eq!(take_primes(100, 5), vec![101, 103, 107, 109, 113]);
    assert_eq!(take_primes(0, 4), vec![3, 5, 7, 11]);
    assert_eq!(take_primes(2, 1), vec![3]);
    assert_eq!(take_primes(3, 1), vec![5]);
    assert_eq!(take_primes(100, 0), Vec::<u128>::new());
    assert_eq!(take_primes(100_000_000, 3), vec![100000007, 100000037, 100000039]);
}

#[test]
fn take_primes_stops_at_the_largest_number() {
    // Above 2^128 - 159, the largest prime below 2^128, nothing is left.
    assert_eq!(take_primes(u128::MAX - 200, 2), vec![u128::MAX - 172, u128::MAX - 158]);
    assert_eq!(take_primes(u128::MAX - 158, 3), Vec::<u128>::new());
    assert_eq!(take_primes(u128::MAX, 3), Vec::<u128>::new());
}
