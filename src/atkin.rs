//! The sieve of Atkin: candidates by quadratic-form marking, then removal of
//! the multiples of squares.

use crate::primality::{is_root, isqrt, lemma_divides_trans, lemma_root_unique, root_of};
use crate::storage::NonAtomicSieve;
use vstd::prelude::*;

verus! {

/// The residues modulo 12 that a prime above 3 can have.
pub open spec fn coprime_to_six(n: int) -> bool {
    n % 12 == 1 || n % 12 == 5 || n % 12 == 7 || n % 12 == 11
}

/// What the sieve of Atkin guarantees of its array over `[0, ubound]`: 2 and 3
/// are marked where in range; every other marked index is at least 5 and
/// coprime to 6; and no marked index is a multiple of the square of a marked
/// index from 5 on.
pub open spec fn atkin_ok(ubound: nat, s: Seq<bool>) -> bool {
    &&& s.len() == ubound + 1
    &&& ubound >= 2 ==> s[2]
    &&& ubound >= 3 ==> s[3]
    &&& forall|i: int| 0 <= i < s.len() && #[trigger] s[i] ==> i == 2 || i == 3 || (i >= 5
        && coprime_to_six(i))
    &&& forall|r: int, i: int|
        5 <= r < s.len() && 0 <= i < s.len() && #[trigger] s[r] && i % (r * r) == 0 ==> !#[trigger] s[i]
}

/// `(x, y)` represents `n` by the quadratic form that `n`'s residue modulo 12
/// selects: `4x² + y²` for 1 and 5, `3x² + y²` for 7, and `3x² - y²` with
/// `x > y` for 11.
pub open spec fn represents(n: int, x: int, y: int) -> bool {
    ||| (n % 12 == 1 || n % 12 == 5) && 4 * (x * x) + y * y == n
    ||| n % 12 == 7 && 3 * (x * x) + y * y == n
    ||| n % 12 == 11 && x > y && 3 * (x * x) - y * y == n
}

/// The number of `y` in `[1, ymax]` for which `(x, y)` represents `n`.
pub open spec fn row_count(n: int, x: int, ymax: int) -> nat
    decreases ymax,
{
    if ymax <= 0 {
        0
    } else {
        row_count(n, x, ymax - 1) + if represents(n, x, ymax) {
            1nat
        } else {
            0nat
        }
    }
}

/// The number of pairs in `[1, xmax] x [1, ymax]` that represent `n`.
pub open spec fn box_count(n: int, xmax: int, ymax: int) -> nat
    decreases xmax,
{
    if xmax <= 0 {
        0
    } else {
        box_count(n, xmax - 1, ymax) + row_count(n, xmax, ymax)
    }
}

/// `n` is a candidate after the marking phase over `[0, ubound]`: 2 and 3,
/// and the numbers with an odd count of representations by pairs whose
/// squares are at most `ubound`.
pub open spec fn atkin_candidate(ubound: nat, n: int) -> bool {
    (n == 2 || n == 3) != (box_count(n, root_of(ubound), root_of(ubound)) % 2 == 1)
}

/// `q * q` divides `n`.
pub open spec fn square_divides(q: int, n: int) -> bool {
    n % (q * q) == 0
}

/// The array of the sieve of Atkin over `[0, ubound]`: the candidates that are
/// not multiples of the square of a candidate `q >= 5` with `q² <= ubound`.
pub open spec fn atkin_flags(ubound: nat) -> Seq<bool> {
    Seq::new(
        ubound + 1,
        |n: int|
            atkin_candidate(ubound, n) && !exists|q: int|
                5 <= q && q * q <= ubound && #[trigger] square_divides(q, n) && atkin_candidate(
                    ubound,
                    q,
                ),
    )
}

/// The candidate property that the marking phase keeps.
spec fn marked_ok(ubound: nat, s: Seq<bool>) -> bool {
    &&& s.len() == ubound + 1
    &&& ubound >= 2 ==> s[2]
    &&& ubound >= 3 ==> s[3]
    &&& forall|i: int| 0 <= i < s.len() && #[trigger] s[i] ==> i == 2 || i == 3 || (i >= 5
        && coprime_to_six(i))
}

/// Whether `a * a <= b`, computed without overflow.
fn square_at_most(a: u64, b: u64) -> (r: bool)
    ensures
        r == (a * a <= b),
{
    let w = a as u128;
    assert(w * w <= 0xffff_ffff_ffff_ffff_ffff_ffff_ffff_ffff) by (nonlinear_arith)
        requires
            w <= 0xffff_ffff_ffff_ffff,
    ;
    w * w <= b as u128
}

/// The sieve of Atkin.
pub struct SieveOfAtkin;

impl SieveOfAtkin {
    /// Builds the strategy; it carries no state.
    pub fn new() -> (r: SieveOfAtkin) {
        SieveOfAtkin
    }

    /// Flips cell `n`, which must be a candidate residue.
    fn toggle(sieve: &mut NonAtomicSieve, n: usize, Ghost(ubound): Ghost<nat>)
        requires
            marked_ok(ubound, old(sieve)@),
            5 <= n < old(sieve)@.len(),
            coprime_to_six(n as int),
        ensures
            marked_ok(ubound, final(sieve)@),
            final(sieve)@ == old(sieve)@.update(n as int, !old(sieve)@[n as int]),
    {
        let v = sieve.cell(n);
        sieve.set_cell(n, !v);
    }

    /// The sieve over `[0, ubound]`: for all `x, y >= 1` with squares at most
    /// `ubound`, cell `4x² + y²` is flipped when it is 1 or 5 modulo 12, cell
    /// `3x² + y²` when it is 7 modulo 12, and, for `x > y`, cell `3x² - y²`
    /// when it is 11 modulo 12; then, for each `r >= 5` with `r² <= ubound`
    /// whose cell is marked, the multiples of `r²` are cleared.
    pub fn sieve(&self, ubound: u64) -> (r: NonAtomicSieve)
        requires
            ubound < isize::MAX,
        ensures
            r@ == atkin_flags(ubound as nat),
            atkin_ok(ubound as nat, r@),
    {
        let len = (ubound + 1) as usize;
        let mut sieve = NonAtomicSieve::filled(len, false);
        if ubound >= 2 {
            sieve.set_cell(2, true);
        }
        if ubound >= 3 {
            sieve.set_cell(3, true);
        }
        let ghost ub = ubound as nat;
        let root_exec = isqrt(ubound);
        let ghost root = root_exec as int;
        proof {
            lemma_root_unique(ub, root);
            assert(root <= ubound) by (nonlinear_arith)
                requires
                    0 <= root,
                    root * root <= ubound,
            ;
        }
        let mut x: u64 = 1;
        while square_at_most(x, ubound)
            invariant
                marked_ok(ub, sieve@),
                ub == ubound,
                len == ubound + 1,
                ubound < isize::MAX,
                root == root_of(ub),
                is_root(ub, root),
                root <= ubound,
                1 <= x <= root + 1,
                forall|n: int|
                    0 <= n < len ==> #[trigger] sieve@[n] == ((n == 2 || n == 3) != (box_count(
                        n,
                        x - 1,
                        root,
                    ) % 2 == 1)),
            decreases ubound + 1 - x,
        {
            let xx = x as u128 * x as u128;
            proof {
                lemma_at_most_root(x as int, root, ub);
            }
            let mut y: u64 = 1;
            while square_at_most(y, ubound)
                invariant
                    marked_ok(ub, sieve@),
                    ub == ubound,
                    len == ubound + 1,
                    ubound < isize::MAX,
                    is_root(ub, root),
                    xx == x * x,
                    xx <= ubound,
                    root <= ubound,
                    1 <= x <= root,
                    1 <= y <= root + 1,
                    forall|n: int|
                        0 <= n < len ==> #[trigger] sieve@[n] == ((n == 2 || n == 3) != ((box_count(
                            n,
                            x - 1,
                            root,
                        ) + row_count(n, x as int, y - 1)) % 2 == 1)),
                decreases ubound + 1 - y,
            {
                let yy = y as u128 * y as u128;
                proof {
                    lemma_at_most_root(y as int, root, ub);
                }
                let ghost s0 = sieve@;
                let n1 = 4 * xx + yy;
                let c1 = n1 <= ubound as u128 && (n1 % 12 == 1 || n1 % 12 == 5);
                if c1 {
                    assert(n1 >= 5) by (nonlinear_arith)
                        requires
                            n1 == 4 * xx + yy,
                            xx == x * x,
                            yy == y * y,
                            x >= 1,
                            y >= 1,
                    ;
                    Self::toggle(&mut sieve, n1 as usize, Ghost(ub));
                }
                let ghost s1 = sieve@;
                let n2 = 3 * xx + yy;
                let c2 = n2 <= ubound as u128 && n2 % 12 == 7;
                if c2 {
                    Self::toggle(&mut sieve, n2 as usize, Ghost(ub));
                }
                let ghost s2 = sieve@;
                let mut n3: u128 = 0;
                let mut c3 = false;
                if x > y {
                    assert(xx > yy) by (nonlinear_arith)
                        requires
                            xx == x * x,
                            yy == y * y,
                            x > y,
                            y >= 1,
                    ;
                    n3 = 3 * xx - yy;
                    c3 = n3 <= ubound as u128 && n3 % 12 == 11;
                    if c3 {
                        Self::toggle(&mut sieve, n3 as usize, Ghost(ub));
                    }
                }
                assert forall|n: int| 0 <= n < len implies #[trigger] sieve@[n] == (s0[n]
                    != represents(n, x as int, y as int)) by {
                    assert(represents(n, x as int, y as int) == ((c1 && n == n1) || (c2 && n == n2)
                        || (c3 && n == n3)));
                }
                y = y + 1;
            }
            proof {
                lemma_past_root(y as int, root, ub);
                assert forall|n: int| 0 <= n < len implies #[trigger] sieve@[n] == ((n == 2 || n
                    == 3) != (box_count(n, x as int, root) % 2 == 1)) by {
                    assert(box_count(n, x as int, root) == box_count(n, x - 1, root) + row_count(
                        n,
                        x as int,
                        root,
                    ));
                }
            }
            x = x + 1;
        }
        proof {
            lemma_past_root(x as int, root, ub);
        }
        let mut r: usize = 5;
        while square_at_most(r as u64, ubound)
            invariant
                marked_ok(ub, sieve@),
                ub == ubound,
                len == ubound + 1,
                ubound < isize::MAX,
                len <= isize::MAX,
                root == root_of(ub),
                5 <= r <= len + 5,
                r == 5 || (r - 1) * (r - 1) <= ubound,
                forall|n: int|
                    0 <= n < len ==> #[trigger] sieve@[n] == (atkin_candidate(ub, n) && !exists|q: int|
                        5 <= q < r && #[trigger] square_divides(q, n) && atkin_candidate(ub, q)),
                forall|q: int, i: int|
                    5 <= q < r && 0 <= i < len && #[trigger] sieve@[q] && i % (q * q) == 0
                        ==> !#[trigger] sieve@[i],
            decreases len + 5 - r,
        {
            let rr = r * r;
            assert(rr < len && r < len && rr >= 25 && r < rr) by (nonlinear_arith)
                requires
                    rr == r * r,
                    rr <= ubound,
                    len == ubound + 1,
                    r >= 5,
            ;
            let ghost before = sieve@;
            if sieve.cell(r) {
                sieve.fill_stride(rr, rr, false);
                assert forall|i: int| 0 <= i < len implies #[trigger] sieve@[i] == (before[i] && !(
                rr <= i && (i - rr) % (rr as int) == 0)) by {}
                assert forall|i: int| 0 <= i < len implies (#[trigger] sieve@[i] == (before[i] && !(
                i % (rr as int) == 0))) by {
                    if i >= rr {
                        vstd::arithmetic::div_mod::lemma_mod_sub_multiples_vanish(i, rr as int);
                    } else {
                        vstd::arithmetic::div_mod::lemma_small_mod(i as nat, rr as nat);
                        if i == 0 {
                            assert(!before[0]);
                        }
                    }
                }
                assert(sieve@[r as int]) by {
                    vstd::arithmetic::div_mod::lemma_small_mod(r as nat, rr as nat);
                }
                assert forall|n: int| 0 <= n < len implies #[trigger] sieve@[n] == (atkin_candidate(
                    ub,
                    n,
                ) && !exists|q: int|
                    5 <= q < r + 1 && #[trigger] square_divides(q, n) && atkin_candidate(ub, q)) by {
                    if square_divides(r as int, n) {
                        assert(atkin_candidate(ub, r as int));
                    }
                }
            } else {
                assert forall|n: int| 0 <= n < len implies #[trigger] sieve@[n] == (atkin_candidate(
                    ub,
                    n,
                ) && !exists|q: int|
                    5 <= q < r + 1 && #[trigger] square_divides(q, n) && atkin_candidate(ub, q)) by {
                    if square_divides(r as int, n) && atkin_candidate(ub, r as int) {
                        let q = choose|q: int|
                            5 <= q < r && #[trigger] square_divides(q, r as int) && atkin_candidate(
                                ub,
                                q,
                            );
                        lemma_square_divides_trans(q, r as int, n);
                    }
                }
            }
            r = r + 1;
        }
        assert forall|q: int, i: int|
            5 <= q < len && 0 <= i < len && #[trigger] sieve@[q] && i % (q * q) == 0 implies !#[trigger] sieve@[i] by {
            if q >= r {
                assert(i < q * q) by (nonlinear_arith)
                    requires
                        i < len,
                        len == ubound + 1,
                        r * r > ubound,
                        q >= r,
                        r >= 0,
                ;
                vstd::arithmetic::div_mod::lemma_small_mod(i as nat, (q * q) as nat);
            }
        }
        assert forall|n: int| 0 <= n < len implies #[trigger] sieve@[n] == atkin_flags(ub)[n] by {
            assert forall|q: int| 5 <= q && #[trigger] square_divides(q, n) implies (q < r <==> q * q
                <= ubound) by {
                if q < r {
                    assert(q * q <= (r - 1) * (r - 1)) by (nonlinear_arith)
                        requires
                            5 <= q < r,
                    ;
                } else {
                    assert(q * q >= r * r) by (nonlinear_arith)
                        requires
                            q >= r,
                            r >= 0,
                    ;
                }
            }
        }
        assert(sieve@ == atkin_flags(ub));
        sieve
    }
}

/// 0 and 1 have no representation, so they are never candidates.
pub proof fn lemma_small_not_candidate(ubound: nat, n: int)
    requires
        0 <= n <= 1,
    ensures
        !atkin_candidate(ubound, n),
{
    lemma_no_representations(n, root_of(ubound), root_of(ubound));
}

/// 0 and 1 are represented by no pair in a box.
proof fn lemma_no_representations(n: int, xmax: int, ymax: int)
    requires
        0 <= n <= 1,
    ensures
        box_count(n, xmax, ymax) == 0,
    decreases xmax,
{
    if xmax > 0 {
        lemma_no_representations(n, xmax - 1, ymax);
        lemma_no_row_representations(n, xmax, ymax);
    }
}

/// 0 and 1 are represented by no pair in a row.
proof fn lemma_no_row_representations(n: int, x: int, ymax: int)
    requires
        0 <= n <= 1,
        x >= 1,
    ensures
        row_count(n, x, ymax) == 0,
    decreases ymax,
{
    if ymax > 0 {
        lemma_no_row_representations(n, x, ymax - 1);
        assert(4 * (x * x) + ymax * ymax >= 5) by (nonlinear_arith)
            requires
                x >= 1,
                ymax >= 1,
        ;
    }
}

/// A value whose square is at most `n` is at most the integer square root.
proof fn lemma_at_most_root(v: int, root: int, n: nat)
    requires
        0 <= v,
        v * v <= n,
        is_root(n, root),
    ensures
        v <= root,
{
    if v > root {
        assert((root + 1) * (root + 1) <= v * v) by (nonlinear_arith)
            requires
                0 <= root < v,
        ;
    }
}

/// A value from 1 whose square exceeds `n`, and which is at most one past the
/// integer square root, is one past it.
proof fn lemma_past_root(v: int, root: int, n: nat)
    requires
        1 <= v <= root + 1,
        v * v > n,
        is_root(n, root),
    ensures
        v == root + 1,
{
    if v <= root {
        assert(v * v <= root * root) by (nonlinear_arith)
            requires
                1 <= v <= root,
        ;
    }
}

/// If `q²` divides `r` and `r²` divides `n`, then `q²` divides `n`.
proof fn lemma_square_divides_trans(q: int, r: int, n: int)
    requires
        5 <= q,
        5 <= r,
        0 <= n,
        square_divides(q, r),
        square_divides(r, n),
    ensures
        square_divides(q, n),
{
    assert(q * q > 0 && r * r > 0) by (nonlinear_arith)
        requires
            q >= 5,
            r >= 5,
    ;
    assert((r * r) % r == 0) by {
        vstd::arithmetic::div_mod::lemma_mod_multiples_basic(r, r);
    }
    lemma_divides_trans(r as nat, (r * r) as nat, n as nat);
    lemma_divides_trans((q * q) as nat, r as nat, n as nat);
}

} // verus!
