//! The queries built on any strategy: membership, enumeration, counting and
//! the n-th prime.

use crate::atkin::lemma_small_not_candidate;
use crate::method::{CanSieve, SieveMethod};
use crate::primality::{
    as_ints, isqrt, lemma_small_prime_divisor, lemma_true_indices, lemma_true_indices_prefix, prime,
    prime_flags, root_of,
    primes_upto, true_indices,
};
use crate::storage::SievedArray;
use vstd::prelude::*;

verus! {

/// `t` cut after its first `n` items when a limit `n` is given.
pub open spec fn limited(t: Seq<int>, n_limit: Option<u64>) -> Seq<int> {
    match n_limit {
        None => t,
        Some(n) => t.take(vstd::math::min(n as int, t.len() as int)),
    }
}

/// No item of `t` divides `num`.
pub open spec fn no_divisor_among(num: int, t: Seq<int>) -> bool {
    forall|k: int| 0 <= k < t.len() ==> #[trigger] (num % t[k]) != 0
}

/// Every index that a method's array marks is at least 2.
pub proof fn lemma_marked_at_least_two(method: SieveMethod, ubound: nat)
    ensures
        forall|k: int|
            0 <= k < true_indices(method.flags_of(ubound)).len() ==> #[trigger] true_indices(
                method.flags_of(ubound),
            )[k] >= 2,
{
    let s = method.flags_of(ubound);
    lemma_true_indices(s);
    assert forall|k: int| 0 <= k < true_indices(s).len() implies #[trigger] true_indices(s)[k] >= 2 by {
        let i = true_indices(s)[k];
        assert(s[i]);
        if method == SieveMethod::ATKIN && i < 2 {
            lemma_small_not_candidate(ubound, i);
        }
    }
}

/// The indices that the method's array over `[0, ubound]` marks, ascending,
/// cut after the first `n_limit` of them when a limit is given: for every
/// method but `ATKIN`, the primes up to `ubound`.
pub fn list_primes(sieve: SieveMethod, ubound: u64, n_limit: Option<u64>) -> (r: Vec<u64>)
    requires
        ubound < isize::MAX,
    ensures
        as_ints(r@) == limited(true_indices(sieve.flags_of(ubound as nat)), n_limit),
        sieve != SieveMethod::ATKIN ==> as_ints(r@) == limited(primes_upto(ubound as nat), n_limit),
{
    let array = sieve.sieve(ubound);
    array.collect_into_primes(n_limit)
}

/// The number of indices that the method's array over `[0, ubound]` marks:
/// for every method but `ATKIN`, the number of primes up to `ubound`.
pub fn count_primes(sieve: SieveMethod, ubound: u64) -> (r: u64)
    requires
        ubound < isize::MAX,
    ensures
        r == true_indices(sieve.flags_of(ubound as nat)).len(),
        sieve != SieveMethod::ATKIN ==> r == primes_upto(ubound as nat).len(),
{
    let array = sieve.sieve(ubound);
    array.count_primes()
}

/// Whether `num` is prime: `false` below 2; otherwise trial division of `num`
/// by the primes up to its integer square root, as the strategy lists them,
/// `false` as soon as one divides it, else `true`.
pub fn is_prime(sieve: SieveMethod, num: u64) -> (r: bool)
    requires
        num < isize::MAX * isize::MAX,
    ensures
        r == (num >= 2 && no_divisor_among(
            num as int,
            true_indices(sieve.flags_of(root_of(num as nat) as nat)),
        )),
        sieve != SieveMethod::ATKIN ==> r == prime(num as nat),
{
    if num < 2 {
        return false;
    }
    let root = isqrt(num);
    assert(root < isize::MAX) by (nonlinear_arith)
        requires
            root * root <= num,
            num < isize::MAX * isize::MAX,
            isize::MAX > 0,
    ;
    let candidates = list_primes(sieve, root, None);
    let ghost t = as_ints(candidates@);
    proof {
        lemma_marked_at_least_two(sieve, root as nat);
    }
    let mut k: usize = 0;
    while k < candidates.len()
        invariant
            t == as_ints(candidates@),
            t == true_indices(sieve.flags_of(root as nat)),
            root * root <= num < (root + 1) * (root + 1),
            root == root_of(num as nat),
            sieve != SieveMethod::ATKIN ==> t == primes_upto(root as nat),
            forall|j: int| 0 <= j < t.len() ==> #[trigger] t[j] >= 2,
            k <= candidates.len(),
            forall|j: int| 0 <= j < k ==> #[trigger] (num as int % t[j]) != 0,
        decreases candidates.len() - k,
    {
        assert(t[k as int] == candidates@[k as int] as int);
        if num % candidates[k] == 0 {
            proof {
                assert((num as int % t[k as int]) == 0);
                assert(!no_divisor_among(num as int, t));
                if sieve != SieveMethod::ATKIN {
                    let p = t[k as int];
                    lemma_true_indices(prime_flags(root as nat + 1));
                    assert(prime_flags(root as nat + 1)[p]);
                    assert(prime(p as nat));
                    assert(p * p <= num) by (nonlinear_arith)
                        requires
                            p <= root,
                            root * root <= num,
                            p >= 0,
                    ;
                    assert(p < num) by (nonlinear_arith)
                        requires
                            p * p <= num,
                            p >= 2,
                    ;
                    assert((num as nat) % (p as nat) == 0);
                }
            }
            return false;
        }
        k = k + 1;
    }
    proof {
        if sieve != SieveMethod::ATKIN && num >= 2 && !prime(num as nat) {
            let p = lemma_small_prime_divisor(num as nat);
            assert(p <= root) by (nonlinear_arith)
                requires
                    p * p <= num,
                    num < (root + 1) * (root + 1),
            ;
            let flags = prime_flags(root as nat + 1);
            lemma_true_indices(flags);
            assert(flags[p as int]);
            let j = choose|j: int| 0 <= j < t.len() && t[j] == p as int;
            assert((num as int % t[j]) != 0);
        }
    }
    true
}

/// The first `n` indices that the method's array over `[0, ubound]` marks;
/// `ubound` is to be an upper bound of the n-th prime, such as
/// `upper_bound_of_nth_prime(n)` gives. Where fewer than `n` lie in range, all
/// of them.
pub fn list_n_primes(sieve: SieveMethod, n: u64, ubound: u64) -> (r: Vec<u64>)
    requires
        ubound < isize::MAX,
    ensures
        as_ints(r@) == limited(true_indices(sieve.flags_of(ubound as nat)), Some(n)),
        sieve != SieveMethod::ATKIN ==> as_ints(r@) == limited(primes_upto(ubound as nat), Some(n)),
{
    list_primes(sieve, ubound, Some(n))
}

/// The last of `list_n_primes(sieve, n, ubound)`: the n-th prime when `ubound`
/// is at least that prime; `None` when the list is empty, as for `n = 0`.
pub fn nth_prime(sieve: SieveMethod, n: u64, ubound: u64) -> (r: Option<u64>)
    requires
        ubound < isize::MAX,
    ensures
        ({
            let t = limited(true_indices(sieve.flags_of(ubound as nat)), Some(n));
            r == if t.len() == 0 {
                None::<u64>
            } else {
                Some(t.last() as u64)
            }
        }),
        n == 0 ==> r is None,
{
    let list = list_n_primes(sieve, n, ubound);
    let ghost t = as_ints(list@);
    if list.len() == 0 {
        None
    } else {
        let last = list[list.len() - 1];
        assert(t.last() == last as int);
        Some(last)
    }
}

/// Every method but `ATKIN` builds the same array for a given bound, the
/// primality indicator; so two runs of one such method agree, and the
/// threaded and shared-array strategies agree with the plain one.
pub proof fn lemma_arrays_agree(m1: SieveMethod, m2: SieveMethod, ubound: nat)
    requires
        m1 != SieveMethod::ATKIN,
        m2 != SieveMethod::ATKIN,
    ensures
        m1.flags_of(ubound) == m2.flags_of(ubound),
        m1.flags_of(ubound) == prime_flags(ubound + 1),
{
}

/// Every method but `ATKIN` counts the same number of primes up to a bound.
pub proof fn lemma_counts_agree(m1: SieveMethod, m2: SieveMethod, ubound: nat)
    requires
        m1 != SieveMethod::ATKIN,
        m2 != SieveMethod::ATKIN,
    ensures
        true_indices(m1.flags_of(ubound)).len() == true_indices(m2.flags_of(ubound)).len(),
        true_indices(m1.flags_of(ubound)).len() == primes_upto(ubound).len(),
{
}

/// The listing of the primes up to `ubound` is strictly ascending, free of
/// duplicates, and holds exactly the numbers in `[0, ubound]` that pass trial
/// division.
pub proof fn lemma_listing_is_exact(ubound: nat)
    ensures
        forall|j: int, k: int|
            0 <= j < k < primes_upto(ubound).len() ==> #[trigger] primes_upto(ubound)[j]
                < #[trigger] primes_upto(ubound)[k],
        primes_upto(ubound).no_duplicates(),
        forall|x: int|
            #[trigger] primes_upto(ubound).contains(x) <==> 0 <= x <= ubound && prime(x as nat),
{
    let t = primes_upto(ubound);
    let flags = prime_flags(ubound + 1);
    lemma_true_indices(flags);
    assert forall|x: int| #[trigger] t.contains(x) <==> 0 <= x <= ubound && prime(x as nat) by {
        if t.contains(x) {
            let k = choose|k: int| 0 <= k < t.len() && t[k] == x;
            assert(flags[x]);
        }
        if 0 <= x <= ubound && prime(x as nat) {
            assert(flags[x]);
        }
    }
    assert forall|j: int, k: int| 0 <= j < t.len() && 0 <= k < t.len() && j != k implies t[j]
        != t[k] by {
        if j < k {
            assert(t[j] < t[k]);
        } else {
            assert(t[k] < t[j]);
        }
    }
}

/// A number is prime exactly when the listing of the primes up to it holds it.
pub proof fn lemma_membership_matches_listing(n: nat)
    ensures
        prime(n) == primes_upto(n).contains(n as int),
{
    lemma_listing_is_exact(n);
}

/// With at least `n >= 1` primes up to `ubound`, the first `n` of them are
/// exactly `n` numbers, and the last is the n-th prime: a prime with exactly
/// `n` primes up to it.
pub proof fn lemma_first_n_primes(n: u64, ubound: nat)
    requires
        n >= 1,
        primes_upto(ubound).len() >= n,
    ensures
        limited(primes_upto(ubound), Some(n)).len() == n,
        prime(limited(primes_upto(ubound), Some(n)).last() as nat),
        limited(primes_upto(ubound), Some(n)).last() <= ubound,
        primes_upto(limited(primes_upto(ubound), Some(n)).last() as nat).len() == n,
{
    let flags = prime_flags(ubound + 1);
    let t = primes_upto(ubound);
    let first = limited(t, Some(n));
    lemma_true_indices(flags);
    assert(first.len() == n);
    let x = first.last();
    assert(x == t[n - 1]);
    assert(flags[x]);
    let prefix = flags.subrange(0, x + 1);
    assert(prefix == prime_flags(x as nat + 1));
    lemma_true_indices_prefix(flags, x + 1);
    lemma_true_indices(prefix);
    let u = true_indices(prefix);
    assert(u == t.take(u.len() as int));
    assert(prefix[x]);
    let k = choose|k: int| 0 <= k < u.len() && u[k] == x;
    assert(t[k] == x);
    if k < n - 1 {
        assert(t[k] < t[n - 1]);
    } else if k > n - 1 {
        assert(t[n - 1] < t[k]);
    }
    if u.len() > n {
        assert(u[n as int] == t[n as int]);
        assert(t[n - 1] < t[n as int]);
        assert(u[n as int] < x + 1);
    }
}

} // verus!
