use rust_primes::atkin::SieveOfAtkin;
use rust_primes::atomic::{AtomicSieve, IsAtomicSieve, IterAtomicSievePrimes, SieveOfEratosthenesAtomic};
use rust_primes::eratosthenes::SieveOfEratosthenes;
use rust_primes::method::{CanSieve, SieveMethod};
use rust_primes::storage::{CanBeTrue, SievedArray};
use rust_primes::threaded::SieveOfEratosthenesThreaded;

const BOUNDARIES: [u64; 14] = [0, 1, 2, 3, 4, 5, 63, 64, 65, 66, 4224, 4225, 4226, 20_000];

#[test]
fn eratosthenes_small_arrays() {
    let e = SieveOfEratosthenes::new();
    assert_eq!(e.sieve(0).to_vec(), vec![false]);
    assert_eq!(e.sieve(1).to_vec(), vec![false, false]);
    assert_eq!(e.sieve(3).to_vec(), vec![false, false, true, true]);
    assert_eq!(
        e.sieve(10).to_vec(),
        vec![false, false, true, true, false, true, false, true, false, false, false]
    );
    assert_eq!(e.sieve(10).len(), 11);
}

#[test]
fn threaded_matches_eratosthenes_at_boundaries() {
    let e = SieveOfEratosthenes::new();
    for workers in [1usize, 2, 3, 4, 7, 64] {
        let t = SieveOfEratosthenesThreaded::with_workers(workers);
        for ubound in BOUNDARIES {
            assert_eq!(t.sieve(ubound).to_vec(), e.sieve(ubound).to_vec(), "{} {}", workers, ubound);
        }
    }
    let t = SieveOfEratosthenesThreaded::from_pool_size(0);
    assert_eq!(t.sieve(5000).to_vec(), e.sieve(5000).to_vec());
    let t = SieveOfEratosthenesThreaded::new();
    assert_eq!(t.sieve(100_000).to_vec(), e.sieve(100_000).to_vec());
}

#[test]
fn atomic_matches_eratosthenes_at_boundaries() {
    let e = SieveOfEratosthenes::new();
    let a = SieveOfEratosthenesAtomic::new();
    for ubound in BOUNDARIES {
        assert_eq!(a.sieve(ubound).to_non_atomic().to_vec(), e.sieve(ubound).to_vec(), "{}", ubound);
    }
}

#[test]
fn atkin_matches_eratosthenes_at_boundaries() {
    let e = SieveOfEratosthenes::new();
    let k = SieveOfAtkin::new();
    for ubound in BOUNDARIES {
        assert_eq!(k.sieve(ubound).to_vec(), e.sieve(ubound).to_vec(), "{}", ubound);
    }
}

#[test]
fn method_dispatch_builds_the_same_array() {
    let expected = SieveOfEratosthenes::new().sieve(1000).to_vec();
    for m in [
        SieveMethod::ATKIN,
        SieveMethod::ERATOSTHENES,
        SieveMethod::ERATOSTHENES_ATOMIC,
        SieveMethod::ERATOSTHENES_THREADED,
    ] {
        assert_eq!(m.sieve(1000).to_vec(), expected, "{:?}", m);
    }
}

#[test]
fn atomic_sieve_starts_with_cells_above_one() {
    let s = AtomicSieve::new(5);
    assert_eq!(s.len(), 5);
    let cells: Vec<bool> = (0..5).map(|i| s.get(i)).collect();
    assert_eq!(cells, vec![false, false, true, true, true]);
    assert_eq!(AtomicSieve::new(0).len(), 0);
}

#[test]
fn atomic_clear_multiples_is_one_directional() {
    let mut s = AtomicSieve::new(13);
    s.clear_multiples(2);
    s.clear_multiples(2);
    s.clear_multiples(3);
    let cells: Vec<bool> = (0..13).map(|i| s.get(i)).collect();
    assert_eq!(
        cells,
        vec![false, false, true, true, false, true, false, true, false, false, false, true, false]
    );
    s.clear_multiples(7);
    assert!(s.get(7));
}

#[test]
fn cursor_hands_out_seeds_below_square_root() {
    // Length 25: seeds are the indices q with q * q < 25.
    let s = AtomicSieve::new(25);
    let mut cursor = s.iter_lowest_primes();
    assert_eq!(cursor.next(&s), Some(2));
    assert_eq!(cursor.next(&s), Some(3));
    assert_eq!(cursor.next(&s), Some(4));
    assert_eq!(cursor.next(&s), None);
    assert_eq!(cursor.next(&s), None);

    // Length 26: 5 * 5 < 26, so 5 is handed out too.
    let s = AtomicSieve::new(26);
    let mut cursor = IterAtomicSievePrimes::new();
    let seeds: Vec<usize> = std::iter::from_fn(|| cursor.next(&s)).collect();
    assert_eq!(seeds, vec![2, 3, 4, 5]);
}

#[test]
fn cursor_skips_cleared_cells() {
    let mut s = AtomicSieve::new(50);
    s.clear_multiples(2);
    let mut cursor = s.iter_lowest_primes();
    let seeds: Vec<usize> = std::iter::from_fn(|| cursor.next(&s)).collect();
    assert_eq!(seeds, vec![2, 3, 5, 7]);
}

#[test]
fn cursor_on_tiny_arrays_hands_out_nothing() {
    for len in 0..5usize {
        let s = AtomicSieve::new(len);
        let mut cursor = s.iter_lowest_primes();
        assert_eq!(cursor.next(&s), None, "{}", len);
    }
}

#[test]
fn sieved_array_reads() {
    let s = SieveOfEratosthenes::new().sieve(30);
    assert_eq!(s.count_primes(), 10);
    assert_eq!(s.collect_into_primes(Some(3)), vec![2, 3, 5]);
    assert_eq!(s.collect_into_primes(None).len(), 10);
    assert!(s.is_prime_index(29));
    assert!(!s.is_prime_index(27));
}

#[test]
fn bool_cells_can_be_true() {
    assert!(true.is_true());
    assert!(!false.is_true());
}
