//! The mathematical model: primality by trial division, the indicator sequence
//! of a sieve, and the indices at which a sequence of cells is `true`.

use vstd::arithmetic::div_mod::{lemma_fundamental_div_mod, lemma_mod_multiples_basic};
use vstd::prelude::*;

verus! {

/// `n` is prime: it is at least 2 and no integer in `[2, n)` divides it.
pub open spec fn prime(n: nat) -> bool {
    n >= 2 && forall|d: nat| 2 <= d < n ==> #[trigger] (n % d) != 0
}

/// `n` is at least 2 and has no divisor in `[2, k)` other than itself.
pub open spec fn no_factor_below(n: nat, k: nat) -> bool {
    n >= 2 && forall|d: nat| 2 <= d < k && d < n ==> #[trigger] (n % d) != 0
}

/// The sieve over `[0, len)`: cell `i` is `true` exactly when `i` is prime.
pub open spec fn prime_flags(len: nat) -> Seq<bool> {
    Seq::new(len, |i: int| prime(i as nat))
}

/// The indices of the `true` cells of `s`, in ascending order.
pub open spec fn true_indices(s: Seq<bool>) -> Seq<int>
    decreases s.len(),
{
    if s.len() == 0 {
        Seq::empty()
    } else {
        let rest = true_indices(s.drop_last());
        if s.last() {
            rest.push(s.len() - 1)
        } else {
            rest
        }
    }
}

/// The primes in `[0, ubound]`, in ascending order.
pub open spec fn primes_upto(ubound: nat) -> Seq<int> {
    true_indices(prime_flags(ubound + 1))
}

/// A sequence of `u64` read as integers.
pub open spec fn as_ints(v: Seq<u64>) -> Seq<int> {
    v.map_values(|x: u64| x as int)
}

/// If `d` divides `p` and `p` divides `i`, then `d` divides `i`.
pub proof fn lemma_divides_trans(d: nat, p: nat, i: nat)
    requires
        d > 0,
        p > 0,
        p % d == 0,
        i % p == 0,
    ensures
        i % d == 0,
{
    lemma_fundamental_div_mod(p as int, d as int);
    lemma_fundamental_div_mod(i as int, p as int);
    let a = p as int / d as int;
    let b = i as int / p as int;
    assert(i as int == d as int * (a * b)) by (nonlinear_arith)
        requires
            p as int == d as int * a,
            i as int == p as int * b,
    ;
    lemma_mod_multiples_basic(a * b, d as int);
    assert((a * b) * (d as int) == d as int * (a * b)) by (nonlinear_arith);
}

/// A composite number below `k * k` has a divisor in `[2, k)`.
pub proof fn lemma_small_cofactor(n: nat, d: nat, k: nat)
    requires
        2 <= d < n,
        n % d == 0,
        n < k * k,
    ensures
        exists|e: nat| 2 <= e < k && e < n && #[trigger] (n % e) == 0,
{
    if d < k {
        assert(n % d == 0);
    } else {
        lemma_fundamental_div_mod(n as int, d as int);
        let e = (n as int / d as int);
        assert(n as int == d as int * e);
        assert(e >= 2) by (nonlinear_arith)
            requires
                n as int == d as int * e,
                d < n,
                d >= 2,
        ;
        assert(e < k) by (nonlinear_arith)
            requires
                n as int == d as int * e,
                d >= k,
                n < k * k,
                e >= 0,
        ;
        assert(e < n) by (nonlinear_arith)
            requires
                n as int == d as int * e,
                d >= 2,
                e >= 2,
        ;
        lemma_mod_multiples_basic(d as int, e);
        assert(d as int * e == e * d as int) by (nonlinear_arith);
        assert((n as nat) % (e as nat) == 0);
    }
}

/// Below `k * k`, having no divisor in `[2, k)` is being prime.
pub proof fn lemma_no_factor_below_square(n: nat, k: nat)
    requires
        no_factor_below(n, k),
        n < k * k,
    ensures
        prime(n),
{
    assert forall|d: nat| 2 <= d < n implies #[trigger] (n % d) != 0 by {
        if n % d == 0 {
            lemma_small_cofactor(n, d, k);
            let e = choose|e: nat| 2 <= e < k && e < n && #[trigger] (n % e) == 0;
            assert(n % e != 0);
        }
    }
}

/// Every `n >= 2` has a prime divisor no larger than itself.
pub proof fn lemma_prime_divisor(n: nat) -> (p: nat)
    requires
        n >= 2,
    ensures
        prime(p),
        p <= n,
        n % p == 0,
    decreases n,
{
    if prime(n) {
        assert(n % n == 0) by {
            lemma_mod_multiples_basic(1, n as int);
        }
        n
    } else {
        let d = choose|d: nat| 2 <= d < n && #[trigger] (n % d) == 0;
        let p = lemma_prime_divisor(d);
        lemma_divides_trans(p, d, n);
        p
    }
}

/// A composite `n` has a prime divisor `p` with `p * p <= n`.
pub proof fn lemma_small_prime_divisor(n: nat) -> (p: nat)
    requires
        n >= 2,
        !prime(n),
    ensures
        prime(p),
        p * p <= n,
        n % p == 0,
{
    let d = choose|d: nat| 2 <= d < n && #[trigger] (n % d) == 0;
    lemma_fundamental_div_mod(n as int, d as int);
    let e = (n as int / d as int) as nat;
    assert(n == d * e);
    assert(e >= 2 && e < n) by (nonlinear_arith)
        requires
            n == d * e,
            2 <= d < n,
    ;
    lemma_mod_multiples_basic(d as int, e as int);
    assert(d * e == e * d) by (nonlinear_arith);
    let s: nat = if d * d <= n { d } else { e };
    assert(s * s <= n && 2 <= s && n % s == 0) by (nonlinear_arith)
        requires
            n == d * e,
            (d * d <= n && s == d) || (d * d > n && s == e),
            n % d == 0,
            n % e == 0,
            d >= 2,
            e >= 2,
    ;
    let p = lemma_prime_divisor(s);
    lemma_divides_trans(p, s, n);
    assert(p * p <= s * s) by (nonlinear_arith)
        requires
            p <= s,
    ;
    p
}

/// The structure of `true_indices`: ascending, in range, and exactly the
/// `true` cells.
pub proof fn lemma_true_indices(s: Seq<bool>)
    ensures
        forall|k: int| 0 <= k < true_indices(s).len() ==> 0 <= #[trigger] true_indices(s)[k] < s.len()
            && s[true_indices(s)[k]],
        forall|j: int, k: int|
            0 <= j < k < true_indices(s).len() ==> #[trigger] true_indices(s)[j]
                < #[trigger] true_indices(s)[k],
        forall|i: int| 0 <= i < s.len() && #[trigger] s[i] ==> true_indices(s).contains(i),
        true_indices(s).len() <= s.len(),
    decreases s.len(),
{
    if s.len() > 0 {
        let t = s.drop_last();
        lemma_true_indices(t);
        let ti = true_indices(s);
        assert forall|i: int| 0 <= i < s.len() && #[trigger] s[i] implies ti.contains(i) by {
            if i < s.len() - 1 {
                assert(t[i] == s[i]);
                let k = choose|k: int| 0 <= k < true_indices(t).len() && true_indices(t)[k] == i;
                assert(ti[k] == i);
            } else {
                assert(ti[ti.len() - 1] == i);
            }
        }
    }
}

/// The indices of a prefix are a prefix of the indices.
pub proof fn lemma_true_indices_prefix(s: Seq<bool>, i: int)
    requires
        0 <= i <= s.len(),
    ensures
        true_indices(s.subrange(0, i)).len() <= true_indices(s).len(),
        true_indices(s.subrange(0, i)) == true_indices(s).take(
            true_indices(s.subrange(0, i)).len() as int,
        ),
    decreases s.len() - i,
{
    if i < s.len() {
        lemma_true_indices_prefix(s, i + 1);
        let p = s.subrange(0, i + 1);
        assert(p.drop_last() == s.subrange(0, i));
        let a = true_indices(s.subrange(0, i));
        let b = true_indices(p);
        assert(b.take(a.len() as int) == a);
    } else {
        assert(s.subrange(0, i) == s);
        assert(true_indices(s).take(true_indices(s).len() as int) == true_indices(s));
    }
}

/// `r` is the integer square root of `n`.
pub open spec fn is_root(n: nat, r: int) -> bool {
    0 <= r && r * r <= n < (r + 1) * (r + 1)
}

/// The integer square root of `n`.
pub open spec fn root_of(n: nat) -> int {
    choose|r: int| #[trigger] is_root(n, r)
}

/// The integer square root is the one `r` with `r² <= n < (r + 1)²`.
pub proof fn lemma_root_unique(n: nat, r: int)
    requires
        0 <= r,
        r * r <= n < (r + 1) * (r + 1),
    ensures
        root_of(n) == r,
{
    assert(is_root(n, r));
    let c = root_of(n);
    assert(is_root(n, c));
    if c < r {
        assert((c + 1) * (c + 1) <= r * r) by (nonlinear_arith)
            requires
                0 <= c < r,
        ;
    } else if c > r {
        assert((r + 1) * (r + 1) <= c * c) by (nonlinear_arith)
            requires
                0 <= r < c,
        ;
    }
}

/// The integer square root: the largest `r` with `r * r <= n`.
pub fn isqrt(n: u64) -> (r: u64)
    ensures
        r * r <= n < (r + 1) * (r + 1),
        r == root_of(n as nat),
{
    let mut lo: u64 = 0;
    let mut hi: u64 = 0x1_0000_0000;
    assert(hi * hi > n);
    while hi - lo > 1
        invariant
            lo < hi <= 0x1_0000_0000,
            lo * lo <= n < hi * hi,
        decreases hi - lo,
    {
        let mid = lo + (hi - lo) / 2;
        let w = mid as u128;
        assert(w * w <= 0x1_0000_0000_0000_0000) by (nonlinear_arith)
            requires
                w <= 0x1_0000_0000,
        ;
        if w * w <= n as u128 {
            lo = mid;
        } else {
            hi = mid;
        }
    }
    assert(hi == lo + 1);
    proof {
        lemma_root_unique(n as nat, lo as int);
    }
    lo
}

} // verus!
