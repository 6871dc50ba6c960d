use rust_primes::method::SieveMethod;
use rust_primes::queries::{count_primes, is_prime, list_n_primes, list_primes, nth_prime};

const ALL: [SieveMethod; 4] = [
    SieveMethod::ATKIN,
    SieveMethod::ERATOSTHENES,
    SieveMethod::ERATOSTHENES_ATOMIC,
    SieveMethod::ERATOSTHENES_THREADED,
];

fn trial_division(n: u64) -> bool {
    n >= 2 && (2..n).take_while(|d| d * d <= n).all(|d| n % d != 0)
}

#[test]
fn count_primes_up_to_hundred_all_methods() {
    for m in ALL {
        assert_eq!(count_primes(m, 100), 25, "{:?}", m);
    }
}

#[test]
fn count_primes_up_to_million_all_methods() {
    for m in ALL {
        assert_eq!(count_primes(m, 1_000_000), 78_498, "{:?}", m);
    }
}

#[test]
fn count_primes_up_to_hundred_million() {
    assert_eq!(count_primes(SieveMethod::ERATOSTHENES_ATOMIC, 100_000_000), 5_761_455);
}

#[test]
fn counts_agree_across_methods() {
    for ubound in [0u64, 1, 2, 3, 4, 5, 24, 25, 26, 63, 64, 65, 120, 4224, 4225, 4226, 10_007] {
        let expected = count_primes(SieveMethod::ERATOSTHENES, ubound);
        for m in ALL {
            assert_eq!(count_primes(m, ubound), expected, "{:?} {}", m, ubound);
        }
    }
}

#[test]
fn list_primes_matches_trial_division() {
    for m in ALL {
        let listed = list_primes(m, 2000, None);
        let expected: Vec<u64> = (0..=2000).filter(|&n| trial_division(n)).collect();
        assert_eq!(listed, expected, "{:?}", m);
        assert!(listed.windows(2).all(|w| w[0] < w[1]));
    }
}

#[test]
fn list_primes_up_to_thirty() {
    assert_eq!(
        list_primes(SieveMethod::ERATOSTHENES, 30, None),
        vec![2, 3, 5, 7, 11, 13, 17, 19, 23, 29]
    );
}

#[test]
fn list_primes_with_limit() {
    assert_eq!(list_primes(SieveMethod::ERATOSTHENES, 30, Some(4)), vec![2, 3, 5, 7]);
    assert_eq!(list_primes(SieveMethod::ERATOSTHENES_THREADED, 30, Some(0)), Vec::<u64>::new());
    assert_eq!(list_primes(SieveMethod::ATKIN, 10, Some(100)), vec![2, 3, 5, 7]);
}

#[test]
fn list_primes_of_small_bounds_is_empty() {
    for m in ALL {
        assert!(list_primes(m, 0, None).is_empty());
        assert!(list_primes(m, 1, None).is_empty());
        assert_eq!(list_primes(m, 2, None), vec![2]);
        assert_eq!(list_primes(m, 3, None), vec![2, 3]);
    }
}

#[test]
fn is_prime_agrees_with_listing() {
    for m in ALL {
        for n in 0u64..300 {
            let listed = list_primes(m, n, None);
            assert_eq!(is_prime(m, n), listed.contains(&n), "{:?} {}", m, n);
        }
    }
}

#[test]
fn is_prime_of_smallest_numbers() {
    for m in ALL {
        assert!(!is_prime(m, 0));
        assert!(!is_prime(m, 1));
        assert!(is_prime(m, 2));
        assert!(is_prime(m, 3));
        assert!(!is_prime(m, 4));
    }
}

#[test]
fn is_prime_of_larger_numbers() {
    assert!(is_prime(SieveMethod::ERATOSTHENES_ATOMIC, 1_000_000_007));
    assert!(!is_prime(SieveMethod::ERATOSTHENES_ATOMIC, 1_000_000_007 * 3));
    assert!(!is_prime(SieveMethod::ERATOSTHENES, 999_983 * 999_983));
    assert!(is_prime(SieveMethod::ERATOSTHENES_THREADED, 999_999_999_989));
    assert!(is_prime(SieveMethod::ATKIN, 999_999_999_989));
}

#[test]
fn nth_prime_five_is_eleven() {
    for m in ALL {
        assert_eq!(nth_prime(m, 5, 11), Some(11));
        assert_eq!(list_n_primes(m, 5, 11), vec![2, 3, 5, 7, 11]);
    }
}

#[test]
fn nth_prime_zero_is_none() {
    for m in ALL {
        assert_eq!(nth_prime(m, 0, 100), None);
        assert!(list_n_primes(m, 0, 100).is_empty());
    }
}

#[test]
fn list_n_primes_length_and_last() {
    for n in 1u64..60 {
        let list = list_n_primes(SieveMethod::ERATOSTHENES, n, 300);
        assert_eq!(list.len() as u64, n);
        assert_eq!(nth_prime(SieveMethod::ERATOSTHENES, n, 300), list.last().copied());
    }
}

#[test]
fn nth_prime_with_short_bound_gives_last_in_range() {
    assert_eq!(nth_prime(SieveMethod::ERATOSTHENES, 10, 20), Some(19));
    assert_eq!(list_n_primes(SieveMethod::ERATOSTHENES, 10, 20).len(), 8);
    assert_eq!(nth_prime(SieveMethod::ERATOSTHENES, 3, 1), None);
}

#[test]
fn queries_are_deterministic() {
    for m in ALL {
        assert_eq!(list_primes(m, 5000, None), list_primes(m, 5000, None));
        assert_eq!(count_primes(m, 5000), count_primes(m, 5000));
    }
}

#[test]
fn default_method_is_atomic() {
    assert_eq!(SieveMethod::default(), SieveMethod::ERATOSTHENES_ATOMIC);
}
