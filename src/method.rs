//! The closed set of sieving strategies, and the one operation they share.

use crate::atkin::{atkin_flags, SieveOfAtkin};
use crate::atomic::{IsAtomicSieve, SieveOfEratosthenesAtomic};
use crate::eratosthenes::SieveOfEratosthenes;
use crate::primality::prime_flags;
use crate::storage::NonAtomicSieve;
use crate::threaded::SieveOfEratosthenesThreaded;
use vstd::prelude::*;

verus! {

/// The ways of sieving. `ERATOSTHENES_ATOMIC` is the default.
#[allow(non_camel_case_types)]
#[derive(Clone, Copy, Debug, PartialEq, Eq, Structural, Hash)]
pub enum SieveMethod {
    /// Quadratic-form marking, then removal of square multiples.
    ATKIN,
    /// Elimination of the multiples of each prime, seeded from a small wheel.
    ERATOSTHENES,
    /// Elimination on one shared array whose cells are only ever cleared,
    /// with seeds handed out by a cursor.
    ERATOSTHENES_ATOMIC,
    /// Repeated squaring of the coverage, each round split across workers
    /// whose masks are merged by conjunction.
    ERATOSTHENES_THREADED,
}

impl Default for SieveMethod {
    fn default() -> (r: SieveMethod)
        ensures
            r == SieveMethod::ERATOSTHENES_ATOMIC,
    {
        SieveMethod::ERATOSTHENES_ATOMIC
    }
}

/// A strategy that builds a sieve array over `[0, ubound]`.
pub trait CanSieve {
    /// What the array that `sieve` returns for `ubound` satisfies.
    spec fn sieve_ok(&self, ubound: nat, s: Seq<bool>) -> bool;

    /// The sieve array over `[0, ubound]`.
    fn sieve(&self, ubound: u64) -> (r: NonAtomicSieve)
        requires
            ubound < isize::MAX,
        ensures
            self.sieve_ok(ubound as nat, r@),
    ;
}

impl SieveMethod {
    /// The array of this method over `[0, ubound]`: the Eratosthenes family
    /// gives the primality indicator, the sieve of Atkin `atkin_flags`.
    pub open spec fn flags_of(&self, ubound: nat) -> Seq<bool> {
        match *self {
            SieveMethod::ATKIN => atkin_flags(ubound),
            _ => prime_flags(ubound + 1),
        }
    }
}

impl CanSieve for SieveMethod {
    open spec fn sieve_ok(&self, ubound: nat, s: Seq<bool>) -> bool {
        s == self.flags_of(ubound)
    }

    fn sieve(&self, ubound: u64) -> (r: NonAtomicSieve) {
        match *self {
            SieveMethod::ATKIN => SieveOfAtkin::new().sieve(ubound),
            SieveMethod::ERATOSTHENES => SieveOfEratosthenes::new().sieve(ubound),
            SieveMethod::ERATOSTHENES_ATOMIC => SieveOfEratosthenesAtomic::new().sieve(
                ubound,
            ).to_non_atomic(),
            SieveMethod::ERATOSTHENES_THREADED => SieveOfEratosthenesThreaded::new().sieve(ubound),
        }
    }
}

} // verus!
