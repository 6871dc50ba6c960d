//! The shared-state sieve: one array whose cells only ever go from `true` to
//! `false`, and a cursor that hands out each seed index once. Because clears
//! are one-directional and commute, the result does not depend on the order in
//! which the seeds are handled; here one worker handles them as the cursor
//! hands them out.

use crate::eratosthenes::{lemma_stride_from_double, square_below};
use crate::primality::{
    prime, lemma_divides_trans, no_factor_below, prime_flags,
};
use crate::storage::NonAtomicSieve;
use vstd::prelude::*;

verus! {

/// A sieve array whose cells are only ever cleared, never set: clears by
/// different seeds commute, so the order in which seeds are handled does not
/// change the result.
pub struct AtomicSieve {
    cells: NonAtomicSieve,
}

impl View for AtomicSieve {
    type V = Seq<bool>;

    closed spec fn view(&self) -> Seq<bool> {
        self.cells@
    }
}

impl AtomicSieve {
    /// `len` cells, cell `i` holding `i > 1`.
    pub fn new(len: usize) -> (r: AtomicSieve)
        requires
            len <= isize::MAX,
        ensures
            r@ == Seq::new(len as nat, |i: int| i > 1),
    {
        let mut cells = NonAtomicSieve::filled(len, true);
        if len > 0 {
            cells.set_cell(0, false);
        }
        if len > 1 {
            cells.set_cell(1, false);
        }
        let r = AtomicSieve { cells };
        assert(r@ == Seq::new(len as nat, |i: int| i > 1));
        r
    }

    /// The number of cells.
    pub fn len(&self) -> (r: usize)
        ensures
            r == self@.len(),
    {
        self.cells.cell_count()
    }

    /// The cell at `i`.
    pub fn get(&self, i: usize) -> (r: bool)
        requires
            i < self@.len(),
        ensures
            r == self@[i as int],
    {
        self.cells.cell(i)
    }

    /// Clears every multiple of `p` from `2p` on; no cell becomes `true`.
    pub fn clear_multiples(&mut self, p: usize)
        requires
            p >= 1,
            old(self)@.len() <= isize::MAX,
        ensures
            final(self)@.len() == old(self)@.len(),
            forall|i: int|
                0 <= i < old(self)@.len() ==> #[trigger] final(self)@[i] == (old(self)@[i] && !(p
                    < i && i % (p as int) == 0)),
    {
        let len = self.cells.cell_count();
        let ghost before = self@;
        if p <= len / 2 {
            self.cells.fill_stride(2 * p, p, false);
            assert forall|i: int| 0 <= i < len implies #[trigger] self@[i] == (before[i] && !(p < i
                && i % (p as int) == 0)) by {
                lemma_stride_from_double(i, p as int);
            }
        } else {
            assert forall|i: int| 0 <= i < len implies #[trigger] self@[i] == (before[i] && !(p < i
                && i % (p as int) == 0)) by {
                if p < i && i % (p as int) == 0 {
                    crate::eratosthenes::lemma_multiple_above_is_double(i, p as int);
                }
            }
        }
    }
}

/// Hands out seed indices of an `AtomicSieve`: each call returns the next index
/// at or past the cursor, below the square root of the length, whose cell is
/// still `true`, and moves the cursor past it. The cursor never moves back.
pub struct IterAtomicSievePrimes {
    counter: usize,
}

impl IterAtomicSievePrimes {
    /// A cursor at index 2.
    pub fn new() -> (r: IterAtomicSievePrimes)
        ensures
            r.position() == 2,
    {
        IterAtomicSievePrimes { counter: 2 }
    }

    /// The first index that the cursor has not passed yet.
    pub closed spec fn position(&self) -> nat {
        self.counter as nat
    }

    /// The next seed: the smallest `p` at or past the cursor with `p * p` below
    /// the length and cell `p` true; `None` when there is no such index.
    pub fn next(&mut self, sieve: &AtomicSieve) -> (r: Option<usize>)
        ensures
            match r {
                Some(p) => {
                    &&& old(self).position() <= p
                    &&& p * p < sieve@.len()
                    &&& sieve@[p as int]
                    &&& forall|q: int| old(self).position() <= q < p ==> !#[trigger] sieve@[q]
                    &&& final(self).position() == p + 1
                },
                None => {
                    &&& forall|q: int|
                        old(self).position() <= q && q * q < sieve@.len() ==> !#[trigger] sieve@[q]
                    &&& final(self).position() == old(self).position()
                },
            },
    {
        let len = sieve.len();
        let mut q = self.counter;
        while square_below(q, len)
            invariant
                len == sieve@.len(),
                self.counter == old(self).counter,
                old(self).counter <= q,
                forall|k: int| old(self).position() <= k < q ==> !#[trigger] sieve@[k],
            decreases len - q,
        {
            assert(q < len) by (nonlinear_arith)
                requires
                    q * q < len,
            ;
            if sieve.get(q) {
                self.counter = q + 1;
                return Some(q);
            }
            q = q + 1;
        }
        assert forall|k: int| old(self).position() <= k && k * k < sieve@.len() implies !#[trigger] sieve@[k] by {
            if k >= q {
                assert(k * k >= q * q) by (nonlinear_arith)
                    requires
                        k >= q,
                        q >= 0,
                ;
            }
        }
        None
    }
}

/// Access to the seed cursor and the finished array of an `AtomicSieve`.
pub trait IsAtomicSieve {
    /// The cells of the sieve.
    spec fn cells_view(&self) -> Seq<bool>;

    /// A fresh seed cursor, at index 2.
    fn iter_lowest_primes(&self) -> (r: IterAtomicSievePrimes)
        ensures
            r.position() == 2,
    ;

    /// A plain copy of the cells.
    fn to_non_atomic(&self) -> (r: NonAtomicSieve)
        ensures
            r@ == self.cells_view(),
    ;
}

impl IsAtomicSieve for AtomicSieve {
    open spec fn cells_view(&self) -> Seq<bool> {
        self@
    }

    fn iter_lowest_primes(&self) -> (r: IterAtomicSievePrimes) {
        IterAtomicSievePrimes::new()
    }

    fn to_non_atomic(&self) -> (r: NonAtomicSieve) {
        self.cells.copied()
    }
}

/// A cell that is not `true` after sieving by everything below `c` stands for
/// a number whose multiples are already gone.
proof fn lemma_passed_seed(i: int, c: int, d: int)
    requires
        2 <= d,
        0 <= i,
        2 <= c,
        !no_factor_below(d as nat, c as nat),
        no_factor_below(i as nat, c as nat),
    ensures
        d >= i || i % d != 0,
{
    let (ni, nc, nd) = (i as nat, c as nat, d as nat);
    assert(exists|e: nat| 2 <= e < nc && e < nd && #[trigger] (nd % e) == 0);
    let e = choose|e: nat| 2 <= e < nc && e < nd && #[trigger] (nd % e) == 0;
    if d < i && i % d == 0 {
        lemma_divides_trans(e, nd, ni);
        assert(ni % e == 0);
    }
}

/// A seed handed out by the cursor lies below the length.
proof fn lemma_seed_in_range(seed: Option<usize>, len: nat)
    requires
        seed matches Some(p) ==> p * p < len,
    ensures
        seed matches Some(p) ==> p < len,
{
    if let Some(p) = seed {
        assert(p < len) by (nonlinear_arith)
            requires
                p * p < len,
        ;
    }
}

/// The sieve of Eratosthenes on a shared array: seeds come from the cursor,
/// and each seed clears its multiples.
pub struct SieveOfEratosthenesAtomic;

impl SieveOfEratosthenesAtomic {
    /// Builds the strategy; it carries no state.
    pub fn new() -> (r: SieveOfEratosthenesAtomic) {
        SieveOfEratosthenesAtomic
    }

    /// The sieve over `[0, ubound]`.
    pub fn sieve(&self, ubound: u64) -> (r: AtomicSieve)
        requires
            ubound < isize::MAX,
        ensures
            r@ == prime_flags(ubound as nat + 1),
    {
        let len = (ubound + 1) as usize;
        let mut sieve = AtomicSieve::new(len);
        let mut cursor = sieve.iter_lowest_primes();
        let mut seed = cursor.next(&sieve);
        proof {
            lemma_seed_in_range(seed, len as nat);
            assert forall|i: int| 0 <= i < len implies #[trigger] sieve@[i] == no_factor_below(
                i as nat,
                2,
            ) by {}
            let b: int = match seed {
                Some(p) => p as int,
                None => 2,
            };
            assert forall|i: int| 0 <= i < len implies #[trigger] sieve@[i] == no_factor_below(
                i as nat,
                b as nat,
            ) by {
                if sieve@[i] {
                    assert forall|d: nat| 2 <= d < b && d < i implies #[trigger] ((i as nat) % d)
                        != 0 by {
                        assert(!sieve@[d as int]);
                        lemma_passed_seed(i, 2, d as int);
                    }
                }
            }
        }
        while seed.is_some()
            invariant
                sieve@.len() == len,
                len <= isize::MAX,
                cursor.position() >= 2,
                cursor.position() <= len + 2,
                match seed {
                    Some(p) => {
                        &&& cursor.position() == p + 1
                        &&& p * p < len
                        &&& p >= 2
                        &&& forall|i: int|
                            0 <= i < len ==> #[trigger] sieve@[i] == no_factor_below(
                                i as nat,
                                p as nat,
                            )
                    },
                    None => {
                        &&& forall|q: int|
                            cursor.position() <= q && q * q < len ==> !#[trigger] sieve@[q]
                        &&& forall|i: int|
                            0 <= i < len ==> #[trigger] sieve@[i] == no_factor_below(
                                i as nat,
                                cursor.position(),
                            )
                    },
                },
            decreases (len + 2 - cursor.position()) * 2 + if seed is Some {
                1int
            } else {
                0int
            },
        {
            let p = seed.unwrap();
            assert(p < len) by (nonlinear_arith)
                requires
                    p * p < len,
                    p >= 2,
            ;
            sieve.clear_multiples(p);
            assert forall|i: int| 0 <= i < len implies #[trigger] sieve@[i] == no_factor_below(
                i as nat,
                (p + 1) as nat,
            ) by {
                if p < i && i % (p as int) == 0 {
                    assert((i as nat) % (p as nat) == 0);
                }
            }
            let ghost c = cursor.position();
            seed = cursor.next(&sieve);
            proof {
                lemma_seed_in_range(seed, len as nat);
                let b: int = match seed {
                    Some(q) => q as int,
                    None => c as int,
                };
                assert forall|i: int| 0 <= i < len implies #[trigger] sieve@[i] == no_factor_below(
                    i as nat,
                    b as nat,
                ) by {
                    if sieve@[i] {
                        assert forall|d: nat| 2 <= d < b && d < i implies #[trigger] ((i as nat)
                            % d) != 0 by {
                            if d >= c {
                                assert(!sieve@[d as int]);
                                lemma_passed_seed(i, c as int, d as int);
                            }
                        }
                    }
                }
            }
        }
        proof {
            let c = cursor.position();
            assert forall|i: int| 0 <= i < len implies #[trigger] sieve@[i] == prime_flags(
                len as nat,
            )[i] by {
                if sieve@[i] && !prime(i as nat) {
                    let p = crate::primality::lemma_small_prime_divisor(i as nat);
                    assert(p < i) by (nonlinear_arith)
                        requires
                            p * p <= i,
                            p >= 2,
                    ;
                    assert(p * p < len);
                    if p >= c {
                        assert(!sieve@[p as int]);
                        lemma_passed_seed(i, c as int, p as int);
                    }
                    assert((i as nat) % p == 0);
                }
            }
            assert(sieve@ == prime_flags(len as nat));
        }
        sieve
    }
}

} // verus!
