//! A sieve that grows by repeated squaring of its coverage; each round hands
//! the known primes out to parallel workers, whose masks are merged by
//! conjunction.

use crate::eratosthenes::SieveOfEratosthenes;
use crate::primality::{
    as_ints, prime, isqrt, lemma_small_prime_divisor, lemma_true_indices, prime_flags,
    true_indices,
};
use crate::storage::{NonAtomicSieve, SievedArray};
use rayon::iter::{IntoParallelIterator, ParallelIterator};
use vstd::arithmetic::div_mod::{
    lemma_fundamental_div_mod, lemma_fundamental_div_mod_converse, lemma_mod_multiples_vanish,
};
use vstd::prelude::*;

verus! {

/// The smallest size of the serial base sieve.
pub const BASE_WHEEL_SIZE: u64 = 64;

/// The largest size of the serial base sieve.
pub const MAX_WHEEL_SIZE: u64 = 10_000_000;

/// The number of workers used when the pool size cannot be learnt.
pub const DEFAULT_WORKERS: usize = 4;

/// Some prime at a list position that falls to `worker` (positions `worker`,
/// `worker + workers`, ...) divides `i`.
pub open spec fn struck(primes: Seq<u64>, workers: nat, worker: nat, i: int) -> bool {
    exists|j: int|
        0 <= j < primes.len() && j % (workers as int) == worker && #[trigger] (i % (
        primes[j] as int)) == 0
}

/// The private mask of one worker: cells from `existing_len` on that a prime
/// of the worker divides are `false`, all others `true`.
pub open spec fn worker_mask_flags(
    primes: Seq<u64>,
    workers: nat,
    worker: nat,
    existing_len: nat,
    len: nat,
) -> Seq<bool> {
    Seq::new(len, |i: int| !(i >= existing_len && struck(primes, workers, worker, i)))
}

/// The inputs on which a worker's mask is defined.
pub open spec fn mask_inputs_ok(primes: Seq<u64>, workers: nat, existing_len: nat, len: nat) -> bool {
    &&& workers >= 1
    &&& 2 <= existing_len < len <= isize::MAX
    &&& forall|j: int| 0 <= j < primes.len() ==> 2 <= #[trigger] primes[j] < existing_len
}

/// Positions strictly between two consecutive positions of one worker belong
/// to other workers.
proof fn lemma_between_positions(j: int, k: int, w: int)
    requires
        w >= 1,
        j >= 0,
        j < k < j + w,
    ensures
        k % w != j % w,
{
    lemma_fundamental_div_mod(j, w);
    let q = j / w;
    let r = j % w;
    assert(q * w == w * q) by (nonlinear_arith);
    if r + (k - j) < w {
        lemma_fundamental_div_mod_converse(k, w, q, r + (k - j));
    } else {
        assert(k == (q + 1) * w + (r + (k - j) - w)) by (nonlinear_arith)
            requires
                j == w * q + r,
        ;
        lemma_fundamental_div_mod_converse(k, w, q + 1, r + (k - j) - w);
    }
}

/// Marking from `p * ceil(e / p)` with stride `p` hits exactly the multiples of
/// `p` from `e` on, when `p < e`.
proof fn lemma_first_multiple(p: int, e: int, c: int, i: int)
    requires
        1 <= p < e,
        c == (e + p - 1) / p,
        i >= 0,
    ensures
        c >= 2,
        p * c < e + p,
        (p * c <= i && (i - p * c) % p == 0) == (e <= i && i % p == 0),
{
    lemma_fundamental_div_mod(e + p - 1, p);
    let r = (e + p - 1) % p;
    assert(e + p - 1 == p * c + r);
    assert(p * c >= e);
    assert(c >= 2) by (nonlinear_arith)
        requires
            p * c >= e,
            p < e,
            p >= 1,
    ;
    assert(p * (c - 1) < e) by (nonlinear_arith)
        requires
            e + p - 1 == p * c + r,
            0 <= r,
    ;
    if p * c <= i {
        lemma_mod_multiples_vanish(c, i - p * c, p);
    }
    if e <= i && i % p == 0 {
        lemma_fundamental_div_mod(i, p);
        let q = i / p;
        assert(i == p * q);
        assert(q >= c) by (nonlinear_arith)
            requires
                i == p * q,
                p * (c - 1) < e,
                e <= i,
                p >= 1,
        ;
        assert(p * c <= i) by (nonlinear_arith)
            requires
                i == p * q,
                q >= c,
                p >= 1,
        ;
    }
}

/// One worker's mask: starts all `true` and, for each prime at the worker's
/// list positions, clears its multiples from the first one at or above
/// `existing_len`.
pub(crate) fn worker_mask(
    primes: &Vec<u64>,
    workers: usize,
    worker: usize,
    existing_len: usize,
    len: usize,
) -> (r: NonAtomicSieve)
    requires
        mask_inputs_ok(primes@, workers as nat, existing_len as nat, len as nat),
        worker < workers,
    ensures
        r@ == worker_mask_flags(primes@, workers as nat, worker as nat, existing_len as nat, len as nat),
{
    let e = existing_len;
    let mut mask = NonAtomicSieve::filled(len, true);
    let mut j: usize = worker;
    proof {
        vstd::arithmetic::div_mod::lemma_small_mod(worker as nat, workers as nat);
        assert forall|t: int| 0 <= t < worker implies #[trigger] (t % (workers as int)) != worker by {
            vstd::arithmetic::div_mod::lemma_small_mod(t as nat, workers as nat);
        }
    }
    while j < primes.len()
        invariant
            mask_inputs_ok(primes@, workers as nat, e as nat, len as nat),
            worker < workers,
            mask@.len() == len,
            j >= primes.len() || j % workers == worker,
            forall|i: int|
                0 <= i < len ==> #[trigger] mask@[i] == !(i >= e && exists|t: int|
                    0 <= t < j && t < primes.len() && t % (workers as int) == worker && #[trigger] (
                    i % (primes[t] as int)) == 0),
        decreases primes.len() - j,
    {
        let p = primes[j] as usize;
        let ghost before = mask@;
        if p * 2 < len {
            let c0 = (e + p - 1) / p;
            let c = if c0 < 2 {
                2
            } else {
                c0
            };
            proof {
                lemma_first_multiple(p as int, e as int, c0 as int, 0);
            }
            let lbound = p * c;
            if lbound < len {
                mask.fill_stride(lbound, p, false);
            }
            assert forall|i: int| 0 <= i < len implies (#[trigger] mask@[i] == (before[i] && !(e
                <= i && i % (p as int) == 0))) by {
                lemma_first_multiple(p as int, e as int, c0 as int, i);
            }
        } else {
            assert forall|i: int| 0 <= i < len implies (#[trigger] mask@[i] == (before[i] && !(e
                <= i && i % (p as int) == 0))) by {
                if e <= i && i % (p as int) == 0 {
                    crate::eratosthenes::lemma_multiple_above_is_double(i, p as int);
                }
            }
        }
        let next: usize = if workers < primes.len() - j {
            j + workers
        } else {
            primes.len()
        };
        assert forall|i: int| 0 <= i < len implies #[trigger] mask@[i] == !(i >= e && exists|t: int|
            0 <= t < next && t < primes.len() && t % (workers as int) == worker && #[trigger] (i % (
            primes[t] as int)) == 0) by {
            if i >= e {
                assert forall|t: int| j < t < next implies #[trigger] (t % (workers as int)) != worker by {
                    lemma_between_positions(j as int, t, workers as int);
                }
                if i % (p as int) == 0 {
                    assert(primes[j as int] as int == p);
                }
            }
        }
        if next < primes.len() {
            proof {
                lemma_mod_multiples_vanish(1, j as int, workers as int);
            }
        }
        j = next;
    }
    assert forall|i: int| 0 <= i < len implies #[trigger] mask@[i] == worker_mask_flags(
        primes@,
        workers as nat,
        worker as nat,
        e as nat,
        len as nat,
    )[i] by {}
    assert(mask@ == worker_mask_flags(primes@, workers as nat, worker as nat, e as nat, len as nat));
    mask
}

/// Relies on rayon's `IntoParallelIterator` for `Range<usize>`, then `map`
/// and `collect` into a `Vec`: the closure runs once for each worker, in
/// parallel, and the results stand in worker order.
#[verifier::external_body]
fn masks_in_parallel(primes: &Vec<u64>, workers: usize, existing_len: usize, len: usize) -> (r: Vec<
    NonAtomicSieve,
>)
    requires
        mask_inputs_ok(primes@, workers as nat, existing_len as nat, len as nat),
    ensures
        r@.len() == workers,
        forall|w: int|
            0 <= w < workers ==> (#[trigger] r@[w])@ == worker_mask_flags(
                primes@,
                workers as nat,
                w as nat,
                existing_len as nat,
                len as nat,
            ),
{
    (0..workers).into_par_iter().map(|w| worker_mask(primes, workers, w, existing_len, len)).collect()
}

/// Relies on `rayon::current_num_threads`: the number of threads of the pool
/// that runs the workers. Nothing is assumed of the value.
#[verifier::external_body]
fn pool_size() -> (r: usize) {
    rayon::current_num_threads()
}

/// Below `e * e` and from `e` on, a number is prime exactly when no prime
/// below `e` divides it.
proof fn lemma_prime_iff_no_listed_divisor(i: int, e: int, primes: Seq<u64>)
    requires
        2 <= e <= i < e * e,
        as_ints(primes) == true_indices(prime_flags(e as nat)),
    ensures
        prime(i as nat) == !exists|j: int|
            0 <= j < primes.len() && #[trigger] (i % (primes[j] as int)) == 0,
{
    let flags = prime_flags(e as nat);
    lemma_true_indices(flags);
    assert forall|j: int| 0 <= j < primes.len() implies 2 <= #[trigger] primes[j] < e && prime(
        primes[j] as nat,
    ) by {
        assert(as_ints(primes)[j] == primes[j] as int);
    }
    if prime(i as nat) {
        assert forall|j: int| 0 <= j < primes.len() implies #[trigger] (i % (primes[j] as int)) != 0 by {
            assert((i as nat) % (primes[j] as nat) != 0);
        }
    } else {
        let p = lemma_small_prime_divisor(i as nat);
        assert(p < e) by (nonlinear_arith)
            requires
                p * p <= i,
                i < e * e,
                e >= 2,
        ;
        assert(flags[p as int]);
        let k = choose|k: int| 0 <= k < as_ints(primes).len() && as_ints(primes)[k] == p as int;
        assert(i % (primes[k] as int) == 0);
    }
}

/// A sieve array with exactly the primes `< e` marked, listed by position.
proof fn lemma_listed_primes_bounds(e: int, primes: Seq<u64>)
    requires
        e >= 2,
        as_ints(primes) == true_indices(prime_flags(e as nat)),
    ensures
        forall|j: int| 0 <= j < primes.len() ==> 2 <= #[trigger] primes[j] < e,
{
    lemma_true_indices(prime_flags(e as nat));
    assert forall|j: int| 0 <= j < primes.len() implies 2 <= #[trigger] primes[j] < e by {
        assert(as_ints(primes)[j] == primes[j] as int);
    }
}

/// The threaded, segment-doubling sieve.
pub struct SieveOfEratosthenesThreaded {
    workers: usize,
}

impl SieveOfEratosthenesThreaded {
    /// Builds the strategy with one worker per thread of rayon's pool, or
    /// `DEFAULT_WORKERS` where that number is not available.
    pub fn new() -> (r: SieveOfEratosthenesThreaded)
        ensures
            r.workers() >= 1,
    {
        Self::from_pool_size(pool_size())
    }

    /// Builds the strategy for a pool of `n` threads: one worker per thread,
    /// or `DEFAULT_WORKERS` when the size is 0 (unknown).
    pub fn from_pool_size(n: usize) -> (r: SieveOfEratosthenesThreaded)
        ensures
            r.workers() == if n == 0 {
                DEFAULT_WORKERS
            } else {
                n
            },
            r.workers() >= 1,
    {
        SieveOfEratosthenesThreaded { workers: if n == 0 { DEFAULT_WORKERS } else { n } }
    }

    /// Builds the strategy with a chosen number of workers.
    pub fn with_workers(workers: usize) -> (r: SieveOfEratosthenesThreaded)
        requires
            workers >= 1,
        ensures
            r.workers() == workers,
    {
        SieveOfEratosthenesThreaded { workers }
    }

    /// The number of workers of each round.
    pub closed spec fn workers(&self) -> usize {
        self.workers
    }

    /// The sieve over `[0, ubound]`: a serial base sieve over about the square
    /// root of `ubound` (at least `BASE_WHEEL_SIZE`, at most `MAX_WHEEL_SIZE`),
    /// then rounds that each extend the coverage `L` to `min(ubound, L * L - 1)`.
    pub fn sieve(&self, ubound: u64) -> (r: NonAtomicSieve)
        requires
            ubound < isize::MAX,
        ensures
            r@ == prime_flags(ubound as nat + 1),
    {
        let workers = if self.workers == 0 {
            DEFAULT_WORKERS
        } else {
            self.workers
        };
        let root = isqrt(ubound);
        let wheel = if root < BASE_WHEEL_SIZE {
            BASE_WHEEL_SIZE
        } else if root > MAX_WHEEL_SIZE {
            MAX_WHEEL_SIZE
        } else {
            root
        };
        let first = if wheel < ubound {
            wheel
        } else {
            ubound
        };
        let len = (ubound + 1) as usize;
        let mut sieve = SieveOfEratosthenes::new().sieve(first);
        let mut cur = sieve.cell_count();
        while cur < len
            invariant
                len == ubound + 1,
                ubound < isize::MAX,
                workers >= 1,
                cur == sieve@.len(),
                sieve@ == prime_flags(cur as nat),
                1 <= cur <= len,
                cur >= 2 || cur == len,
            decreases len - cur,
        {
            let w = cur as u128;
            assert(w * w <= 0x4000_0000_0000_0000_0000_0000_0000_0000) by (nonlinear_arith)
                requires
                    w <= 0x8000_0000_0000_0000,
            ;
            assert(w * w >= 4) by (nonlinear_arith)
                requires
                    w >= 2,
            ;
            let square_less_one = w * w - 1;
            let next: u64 = if square_less_one < ubound as u128 {
                square_less_one as u64
            } else {
                ubound
            };
            assert(next >= cur) by (nonlinear_arith)
                requires
                    next == ubound || next == w * w - 1,
                    cur < len,
                    len == ubound + 1,
                    w == cur,
                    w >= 2,
            ;
            sieve = self.sieve_chunk(next, &sieve, workers);
            cur = sieve.cell_count();
        }
        sieve
    }

    /// Extends a finished sieve `existing` of length `L` to cover
    /// `[0, next_bound]`, where `next_bound < L * L`: the prefix is copied, and
    /// the primes below `L` are dealt round-robin to `workers` workers whose
    /// masks are merged into the new cells by conjunction.
    fn sieve_chunk(&self, next_bound: u64, existing: &NonAtomicSieve, workers: usize) -> (r:
        NonAtomicSieve)
        requires
            existing@ == prime_flags(existing@.len()),
            2 <= existing@.len() <= isize::MAX,
            next_bound < isize::MAX,
            next_bound < existing@.len() * existing@.len(),
            workers >= 1,
        ensures
            r@ == prime_flags(next_bound as nat + 1),
    {
        let len = (next_bound + 1) as usize;
        let mut sieve = NonAtomicSieve::filled(len, true);
        let e = existing.cell_count();
        let k = if e < len {
            e
        } else {
            len
        };
        sieve.assign_prefix(existing, k);
        if len > e {
            let primes = existing.collect_into_primes(None);
            proof {
                lemma_listed_primes_bounds(e as int, primes@);
            }
            let masks = masks_in_parallel(&primes, workers, e, len);
            let mut m: usize = 0;
            while m < masks.len()
                invariant
                    masks@.len() == workers,
                    forall|w: int|
                        0 <= w < workers ==> (#[trigger] masks@[w])@ == worker_mask_flags(
                            primes@,
                            workers as nat,
                            w as nat,
                            e as nat,
                            len as nat,
                        ),
                    sieve@.len() == len,
                    e == existing@.len(),
                    e < len,
                    m <= workers,
                    forall|i: int|
                        0 <= i < len ==> #[trigger] sieve@[i] == if i < e {
                            prime(i as nat)
                        } else {
                            forall|w: int|
                                0 <= w < m ==> !#[trigger] struck(primes@, workers as nat, w as nat, i)
                        },
                decreases workers - m,
            {
                sieve.and_assign(&masks[m]);
                m = m + 1;
            }
            assert forall|i: int| 0 <= i < len implies #[trigger] sieve@[i] == prime_flags(
                len as nat,
            )[i] by {
                if i >= e {
                    lemma_prime_iff_no_listed_divisor(i, e as int, primes@);
                    if exists|j: int|
                        0 <= j < primes@.len() && #[trigger] (i % (primes@[j] as int)) == 0 {
                        let j = choose|j: int|
                            0 <= j < primes@.len() && #[trigger] (i % (primes@[j] as int)) == 0;
                        let w = j % (workers as int);
                        assert(struck(primes@, workers as nat, w as nat, i));
                    }
                }
            }
        } else {
            assert forall|i: int| 0 <= i < len implies #[trigger] sieve@[i] == prime_flags(
                len as nat,
            )[i] by {}
        }
        assert(sieve@ == prime_flags(len as nat));
        sieve
    }
}

} // verus!
