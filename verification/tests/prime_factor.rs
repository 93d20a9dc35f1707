use exercises::factor::{factor, find_max_prime_factor};
use exercises::modular::{add_mod, gcd, mod_mul, mod_pow};
use exercises::primality::is_prime;
use exercises::rho::pollards_rho;

#[test]
fn test_known_primes_are_accepted() {
    for n in [2u128, 3, 5, 7, 97, 7919, 999_999_937, 999_999_999_989] {
        assert!(is_prime(n), "{} is prime", n);
    }
}

#[test]
fn test_known_composites_are_rejected() {
    for n in [0u128, 1, 4, 9, 25, 49, 100, 7919 * 7919, 999_999_999_989 * 7] {
        assert!(!is_prime(n), "{} is not prime", n);
    }
}

#[test]
fn test_strong_pseudoprimes_to_base_two_are_rejected() {
    for n in [2047u128, 3277, 4033, 3_215_031_751] {
        assert!(!is_prime(n), "{} is composite", n);
    }
}

#[test]
fn test_factor_round_trip() {
    for n in [2u128, 4, 30, 97, 360, 1001, 13195, 600_851_475_143, 999_999_937 * 2, 7919 * 7919] {
        let factors = factor(n);
        assert_eq!(factors.iter().product::<u128>(), n);
        for f in factors {
            assert!(is_prime(f), "{} is a factor of {} and prime", f, n);
        }
    }
}

#[test]
fn test_factor_lists_small_factors_first() {
    assert_eq!(factor(1), Vec::<u128>::new());
    assert_eq!(factor(360), vec![2, 2, 2, 3, 3, 5]);
    assert_eq!(factor(13195), vec![5, 29, 13, 7]);
    assert_eq!(factor(97), vec![97]);
}

#[test]
fn test_find_max_prime_factor_is_deterministic() {
    for n in [0u128, 1, 2, 91, 13195, 600_851_475_143] {
        assert_eq!(find_max_prime_factor(n), find_max_prime_factor(n));
    }
}

#[test]
fn test_find_max_prime_factor_boundaries() {
    assert_eq!(find_max_prime_factor(0), 0);
    assert_eq!(find_max_prime_factor(1), 0);
    assert_eq!(find_max_prime_factor(2), 2);
    assert_eq!(find_max_prime_factor(4), 2);
}

#[test]
fn test_find_max_prime_factor_scenarios() {
    assert_eq!(find_max_prime_factor(13195), 29);
    assert_eq!(find_max_prime_factor(600_851_475_143), 6857);
    assert_eq!(find_max_prime_factor(97), 97);
}

#[test]
fn test_find_max_prime_factor_of_large_semiprime() {
    assert_eq!(find_max_prime_factor(999_999_937 * 1_000_000_007), 1_000_000_007);
}

#[test]
fn test_mod_pow_scenario() {
    assert_eq!(mod_pow(4, 13, 497), 445);
}

#[test]
fn test_mod_pow_edges() {
    assert_eq!(mod_pow(7, 0, 13), 1);
    assert_eq!(mod_pow(7, 5, 1), 0);
    assert_eq!(mod_pow(0, 0, 5), 1);
    assert_eq!(mod_pow(2, 127, u128::MAX), 1 << 127);
    assert_eq!(mod_pow(2, 128, u128::MAX), 1);
}

#[test]
fn test_mod_mul_does_not_overflow() {
    assert_eq!(mod_mul(6, 7, 5), 2);
    assert_eq!(mod_mul(5, 9, 1), 0);
    assert_eq!(mod_mul(u128::MAX - 1, u128::MAX - 1, u128::MAX), 1);
    assert_eq!(mod_mul(u128::MAX, u128::MAX, u128::MAX - 2), 4);
}

#[test]
fn test_add_mod_wraps_once() {
    assert_eq!(add_mod(3, 4, 5), 2);
    assert_eq!(add_mod(u128::MAX - 1, u128::MAX - 1, u128::MAX), u128::MAX - 2);
}

#[test]
fn test_gcd_scenario() {
    assert_eq!(gcd(48, 18), 6);
}

#[test]
fn test_gcd_edges() {
    assert_eq!(gcd(17, 0), 17);
    assert_eq!(gcd(0, 17), 17);
    assert_eq!(gcd(0, 0), 0);
    assert_eq!(gcd(13, 7), 1);
}

#[test]
fn test_pollards_rho_fast_paths() {
    assert_eq!(pollards_rho(1), 1);
    assert_eq!(pollards_rho(0), 2);
    assert_eq!(pollards_rho(14), 2);
    assert_eq!(pollards_rho(21), 3);
    assert_eq!(pollards_rho(35), 5);
}

#[test]
fn test_pollards_rho_finds_a_proper_divisor() {
    for n in [8051u128, 10403, 7919 * 7919, 999_999_937 * 1_000_000_007] {
        let d = pollards_rho(n);
        assert!(1 < d && d < n, "{} has a proper divisor", n);
        assert_eq!(n % d, 0);
    }
}

#[test]
fn test_full_width_numbers() {
    // 2^127 - 1 is prime; 2^128 - 1 is the product of the Fermat numbers
    // F0 to F6, whose largest prime factor is 67280421310721.
    assert!(is_prime((1u128 << 127) - 1));
    assert!(!is_prime(u128::MAX));
    assert_eq!(find_max_prime_factor(u128::MAX), 67_280_421_310_721);
    let factors = factor(u128::MAX);
    assert_eq!(factors.iter().product::<u128>(), u128::MAX);
    assert_eq!(factors.len(), 9);
}

#[test]
fn test_largest_factor_bounds_every_prime_divisor() {
    for n in [2u128, 12, 91, 1001, 13195, 600_851_475_143] {
        let largest = find_max_prime_factor(n);
        assert_eq!(n % largest, 0);
        let mut p = 2u128;
        while p <= 10_000 && p <= n {
            if n % p == 0 && is_prime(p) {
                assert!(p <= largest);
            }
            p += 1;
        }
    }
}
