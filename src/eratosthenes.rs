//! The sieve of Eratosthenes, seeded from a small wheel.

use crate::primality::{
    prime, lemma_divides_trans, lemma_no_factor_below_square, no_factor_below, prime_flags,
};
use crate::storage::NonAtomicSieve;
use vstd::arithmetic::div_mod::lemma_mod_multiples_vanish;
use vstd::prelude::*;

verus! {

/// Marking from `2p` with stride `p` hits exactly the multiples of `p` above `p`.
pub proof fn lemma_stride_from_double(i: int, p: int)
    requires
        p >= 1,
        i >= 0,
    ensures
        (2 * p <= i && (i - 2 * p) % p == 0) == (p < i && i % p == 0),
{
    if 2 * p <= i {
        lemma_mod_multiples_vanish(2, i - 2 * p, p);
        assert(p * 2 + (i - 2 * p) == i);
    }
    if p < i && i % p == 0 {
        lemma_multiple_above_is_double(i, p);
    }
}

/// A multiple of `p` that is larger than `p` is at least `2p`.
pub proof fn lemma_multiple_above_is_double(i: int, p: int)
    requires
        p >= 1,
        p < i,
        i % p == 0,
    ensures
        2 * p <= i,
{
    vstd::arithmetic::div_mod::lemma_fundamental_div_mod(i, p);
    let q = i / p;
    assert(i == p * q);
    assert(q >= 2) by (nonlinear_arith)
        requires
            i == p * q,
            p < i,
            p >= 1,
    ;
    assert(2 * p <= i) by (nonlinear_arith)
        requires
            i == p * q,
            q >= 2,
            p >= 1,
    ;
}

/// Whether `p * p < n`, computed without overflow.
pub(crate) fn square_below(p: usize, n: usize) -> (r: bool)
    ensures
        r == (p * p < n),
{
    let w = p as u128;
    assert(w * w <= 0xffff_ffff_ffff_ffff_ffff_ffff_ffff_ffff) by (nonlinear_arith)
        requires
            w <= 0xffff_ffff_ffff_ffff,
    ;
    w * w < n as u128
}

/// The classic sieve: eliminates the multiples of each prime in turn.
pub struct SieveOfEratosthenes;

impl SieveOfEratosthenes {
    /// Builds the strategy; it carries no state.
    pub fn new() -> (r: SieveOfEratosthenes) {
        SieveOfEratosthenes
    }

    /// The sieve over `[0, ubound]`, grown from the wheel `[false, false, true, true]`.
    pub fn sieve(&self, ubound: u64) -> (r: NonAtomicSieve)
        requires
            ubound < isize::MAX,
        ensures
            r@ == prime_flags(ubound as nat + 1),
    {
        let seed = NonAtomicSieve::from_cells(vec![false, false, true, true]);
        proof {
            assert(!prime(0) && !prime(1));
            assert(prime(2));
            assert(prime(3)) by {
                assert forall|d: nat| 2 <= d < 3 implies #[trigger] (3nat % d) != 0 by {
                    assert(d == 2);
                }
            }
            assert(seed@ == prime_flags(4));
        }
        self.sieve_with_existing(ubound, &seed)
    }

    /// The sieve over `[0, ubound]`, whose prefix is copied from `existing`,
    /// a finished sieve; the cells beyond it are sieved by every prime below
    /// the square root of the length.
    pub(crate) fn sieve_with_existing(&self, ubound: u64, existing: &NonAtomicSieve) -> (r:
        NonAtomicSieve)
        requires
            ubound < isize::MAX,
            existing@ == prime_flags(existing@.len()),
            2 <= existing@.len() <= isize::MAX,
        ensures
            r@ == prime_flags(ubound as nat + 1),
    {
        let len = (ubound + 1) as usize;
        let mut sieve = NonAtomicSieve::filled(len, true);
        let e = existing.cell_count();
        let k = if e < len {
            e
        } else {
            len
        };
        sieve.assign_prefix(existing, k);
        if len > e {
            let mut p: usize = 2;
            assert forall|i: int| 0 <= i < len implies #[trigger] sieve@[i] == if i < e {
                prime(i as nat)
            } else {
                no_factor_below(i as nat, 2)
            } by {
                if i < e {
                    assert(sieve@[i] == existing@[i]);
                }
            }
            while square_below(p, len)
                invariant
                    sieve@.len() == len,
                    len <= isize::MAX,
                    2 <= p,
                    2 <= e < len,
                    forall|i: int|
                        0 <= i < len ==> #[trigger] sieve@[i] == if i < e {
                            prime(i as nat)
                        } else {
                            no_factor_below(i as nat, p as nat)
                        },
                decreases len - p,
            {
                assert(p < len) by (nonlinear_arith)
                    requires
                        p * p < len,
                        p >= 2,
                ;
                let ghost before = sieve@;
                if sieve.cell(p) {
                    if p * 2 < len {
                        sieve.fill_stride(2 * p, p, false);
                        assert forall|i: int| 0 <= i < len implies #[trigger] sieve@[i] == if i
                            < e {
                            prime(i as nat)
                        } else {
                            no_factor_below(i as nat, (p + 1) as nat)
                        } by {
                            lemma_stride_from_double(i, p as int);
                            if i < e {
                                if p < i && i % (p as int) == 0 {
                                    assert((i as nat) % (p as nat) == 0);
                                }
                            } else {
                                if p < i && i % (p as int) == 0 {
                                    assert((i as nat) % (p as nat) == 0);
                                }
                            }
                        }
                    } else {
                        assert forall|i: int| 0 <= i < len implies #[trigger] sieve@[i] == if i
                            < e {
                            prime(i as nat)
                        } else {
                            no_factor_below(i as nat, (p + 1) as nat)
                        } by {
                            if i >= e && p < i && i % (p as int) == 0 {
                                lemma_multiple_above_is_double(i, p as int);
                            }
                        }
                    }
                } else {
                    let ghost d = choose|d: nat| 2 <= d < p && #[trigger] ((p as nat) % d) == 0;
                    assert forall|i: int| 0 <= i < len implies #[trigger] sieve@[i] == if i < e {
                        prime(i as nat)
                    } else {
                        no_factor_below(i as nat, (p + 1) as nat)
                    } by {
                        if i >= e && p < i && i % (p as int) == 0 {
                            lemma_divides_trans(d, p as nat, i as nat);
                            assert((i as nat) % d == 0);
                        }
                    }
                }
                p = p + 1;
            }
            assert forall|i: int| 0 <= i < len implies #[trigger] sieve@[i] == prime_flags(
                len as nat,
            )[i] by {
                if i >= e {
                    if no_factor_below(i as nat, p as nat) {
                        lemma_no_factor_below_square(i as nat, p as nat);
                    }
                }
            }
            assert(sieve@ == prime_flags(len as nat));
        } else {
            assert(sieve@ == prime_flags(len as nat));
        }
        sieve
    }
}

} // verus!
