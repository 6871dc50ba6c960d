//! The sieve array: one cell per index, `true` where the index is still taken
//! to be prime.

use ndarray::{Array1, Axis, Slice};
use crate::primality::{as_ints, lemma_true_indices, lemma_true_indices_prefix, true_indices};
use vstd::prelude::*;

verus! {

/// A one-dimensional boolean array, held in an `ndarray::Array1<bool>`.
#[verifier::external_body]
pub struct NonAtomicSieve {
    array: Array1<bool>,
}

/// The cells of a sieve array, in index order.
pub uninterp spec fn cells(a: NonAtomicSieve) -> Seq<bool>;

impl View for NonAtomicSieve {
    type V = Seq<bool>;

    open spec fn view(&self) -> Seq<bool> {
        cells(*self)
    }
}

impl NonAtomicSieve {
    /// Relies on `ndarray::Array1::from_elem`: `n` cells, each equal to `v`.
    #[verifier::external_body]
    pub(crate) fn filled(n: usize, v: bool) -> (r: NonAtomicSieve)
        requires
            n <= isize::MAX,
        ensures
            cells(r) == Seq::new(n as nat, |_i: int| v),
    {
        NonAtomicSieve { array: Array1::from_elem(n, v) }
    }

    /// Relies on `ndarray::Array1::from_vec`: the cells are the vector's items.
    #[verifier::external_body]
    pub(crate) fn from_cells(v: Vec<bool>) -> (r: NonAtomicSieve)
        ensures
            cells(r) == v@,
    {
        NonAtomicSieve { array: Array1::from_vec(v) }
    }

    /// Relies on `Clone` for `ndarray::Array1`: the copy holds the same cells.
    #[verifier::external_body]
    pub(crate) fn copied(&self) -> (r: NonAtomicSieve)
        ensures
            cells(r) == cells(*self),
    {
        NonAtomicSieve { array: self.array.clone() }
    }

    /// Relies on `ndarray::ArrayBase::len`: the number of cells.
    #[verifier::external_body]
    pub(crate) fn cell_count(&self) -> (r: usize)
        ensures
            r == cells(*self).len(),
    {
        self.array.len()
    }

    /// Relies on `ndarray`'s `Index<usize>`: the cell at `i`.
    #[verifier::external_body]
    pub(crate) fn cell(&self, i: usize) -> (r: bool)
        requires
            i < cells(*self).len(),
        ensures
            r == cells(*self)[i as int],
    {
        self.array[i]
    }

    /// Relies on `ndarray`'s `IndexMut<usize>`: the cell at `i` becomes `v`.
    #[verifier::external_body]
    pub(crate) fn set_cell(&mut self, i: usize, v: bool)
        requires
            i < cells(*old(self)).len(),
        ensures
            cells(*final(self)) == cells(*old(self)).update(i as int, v),
    {
        self.array[i] = v;
    }

    /// Relies on `ndarray::ArrayBase::slice_axis_mut` with a stepped `Slice`,
    /// then `fill`: the cells at `start`, `start + step`, ... become `v`.
    #[verifier::external_body]
    pub(crate) fn fill_stride(&mut self, start: usize, step: usize, v: bool)
        requires
            start <= cells(*old(self)).len() <= isize::MAX,
            1 <= step <= isize::MAX,
        ensures
            cells(*final(self)).len() == cells(*old(self)).len(),
            forall|i: int|
                0 <= i < cells(*old(self)).len() ==> #[trigger] cells(*final(self))[i] == if start
                    <= i && (i - start) % (step as int) == 0 {
                    v
                } else {
                    cells(*old(self))[i]
                },
    {
        self.array.slice_axis_mut(Axis(0), Slice::new(start as isize, None, step as isize)).fill(v);
    }

    /// Relies on `ndarray::ArrayBase::assign` between two slices of length `k`:
    /// the first `k` cells are copied from `src`.
    #[verifier::external_body]
    pub(crate) fn assign_prefix(&mut self, src: &NonAtomicSieve, k: usize)
        requires
            k <= cells(*old(self)).len() <= isize::MAX,
            k <= cells(*src).len() <= isize::MAX,
        ensures
            cells(*final(self)) == cells(*src).subrange(0, k as int) + cells(*old(self)).subrange(
                k as int,
                cells(*old(self)).len() as int,
            ),
    {
        let prefix = Slice::new(0, Some(k as isize), 1);
        self.array.slice_axis_mut(Axis(0), prefix).assign(&src.array.slice_axis(Axis(0), prefix));
    }

    /// Relies on `ndarray`'s `BitAndAssign` for arrays of one shape: each cell
    /// becomes the conjunction of itself and the cell of `other` at that index.
    #[verifier::external_body]
    pub(crate) fn and_assign(&mut self, other: &NonAtomicSieve)
        requires
            cells(*other).len() == cells(*old(self)).len(),
        ensures
            cells(*final(self)).len() == cells(*old(self)).len(),
            forall|i: int|
                0 <= i < cells(*old(self)).len() ==> #[trigger] cells(*final(self))[i] == (cells(
                    *old(self),
                )[i] && cells(*other)[i]),
    {
        self.array &= &other.array;
    }
}

impl NonAtomicSieve {
    /// The number of cells.
    pub fn len(&self) -> (r: usize)
        ensures
            r == self@.len(),
    {
        self.cell_count()
    }

    /// The cells, in index order.
    pub fn to_vec(&self) -> (r: Vec<bool>)
        ensures
            r@ == self@,
    {
        let len = self.cell_count();
        let mut out: Vec<bool> = Vec::new();
        let mut i: usize = 0;
        while i < len
            invariant
                len == self@.len(),
                i <= len,
                out@ == self@.subrange(0, i as int),
            decreases len - i,
        {
            out.push(self.cell(i));
            i = i + 1;
        }
        assert(self@.subrange(0, len as int) == self@);
        out
    }
}

/// A cell of a sieve array: something that can be read as `true` or `false`.
pub trait CanBeTrue {
    /// The truth value that the cell holds.
    spec fn truth(&self) -> bool;

    /// Reads the cell.
    fn is_true(&self) -> (r: bool)
        ensures
            r == self.truth(),
    ;
}

impl CanBeTrue for bool {
    open spec fn truth(&self) -> bool {
        *self
    }

    fn is_true(&self) -> (r: bool) {
        *self
    }
}

/// A finished sieve array, from which the primes are read off.
pub trait SievedArray {
    /// The cells of the array, in index order.
    spec fn flags(&self) -> Seq<bool>;

    /// Whether cell `i` marks a prime.
    fn is_prime_index(&self, i: usize) -> (r: bool)
        requires
            i < self.flags().len(),
        ensures
            r == self.flags()[i as int],
    ;

    /// The number of cells that mark a prime.
    fn count_primes(&self) -> (r: u64)
        ensures
            r == true_indices(self.flags()).len(),
    ;

    /// The indices of the cells that mark a prime, ascending, cut after the
    /// first `n_limit` of them when a limit is given.
    fn collect_into_primes(&self, n_limit: Option<u64>) -> (r: Vec<u64>)
        ensures
            as_ints(r@) == match n_limit {
                None => true_indices(self.flags()),
                Some(n) => true_indices(self.flags()).take(
                    vstd::math::min(n as int, true_indices(self.flags()).len() as int),
                ),
            },
    ;
}

impl SievedArray for NonAtomicSieve {
    open spec fn flags(&self) -> Seq<bool> {
        self@
    }

    fn is_prime_index(&self, i: usize) -> (r: bool) {
        self.cell(i).is_true()
    }

    fn count_primes(&self) -> (r: u64) {
        let len = self.cell_count();
        let mut count: usize = 0;
        let mut i: usize = 0;
        while i < len
            invariant
                len == self@.len(),
                i <= len,
                count == true_indices(self@.subrange(0, i as int)).len(),
                count <= i,
            decreases len - i,
        {
            proof {
                assert(self@.subrange(0, i + 1).drop_last() == self@.subrange(0, i as int));
            }
            if self.is_prime_index(i) {
                count = count + 1;
            }
            i = i + 1;
        }
        proof {
            assert(self@.subrange(0, len as int) == self@);
        }
        count as u64
    }

    fn collect_into_primes(&self, n_limit: Option<u64>) -> (r: Vec<u64>) {
        let len = self.cell_count();
        let cap: usize = match n_limit {
            Some(n) => if n < len as u64 {
                n as usize
            } else {
                len
            },
            None => len,
        };
        let mut out: Vec<u64> = Vec::new();
        let mut i: usize = 0;
        while i < len && out.len() < cap
            invariant
                len == self@.len(),
                cap <= len,
                i <= len,
                out.len() <= cap,
                as_ints(out@) == true_indices(self@.subrange(0, i as int)),
            decreases len - i,
        {
            proof {
                assert(self@.subrange(0, i + 1).drop_last() == self@.subrange(0, i as int));
            }
            if self.is_prime_index(i) {
                let ghost before = out@;
                out.push(i as u64);
                proof {
                    assert(as_ints(out@) == as_ints(before).push(i as int));
                }
            }
            i = i + 1;
        }
        proof {
            let ti = true_indices(self@);
            lemma_true_indices(self@);
            lemma_true_indices_prefix(self@, i as int);
            if i == len {
                assert(self@.subrange(0, len as int) == self@);
                assert(ti.take(ti.len() as int) == ti);
            }
        }
        out
    }
}

} // verus!
