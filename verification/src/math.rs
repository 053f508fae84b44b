//! Integer square root: the only piece of arithmetic the gradient estimator
//! needs beyond what the grids carry themselves.

use vstd::prelude::*;

verus! {

/// The square of an integer.
pub open spec fn sq(n: int) -> int {
    n * n
}

/// Floor of the square root, defined by counting upwards from zero.
pub open spec fn isqrt_spec(n: nat) -> nat
    decreases n,
{
    if n == 0 {
        0
    } else {
        let r = isqrt_spec((n - 1) as nat);
        if sq(r as int + 1) <= n {
            r + 1
        } else {
            r
        }
    }
}

/// `isqrt_spec(n)` is the unique `r` with `r * r <= n < (r + 1) * (r + 1)`.
pub proof fn lemma_isqrt_bounds(n: nat)
    ensures
        sq(isqrt_spec(n) as int) <= n,
        n < sq(isqrt_spec(n) as int + 1),
    decreases n,
{
    if n == 0 {
        assert(isqrt_spec(n) == 0);
        assert(sq(0) == 0);
        assert(sq(1) == 1);
    } else {
        lemma_isqrt_bounds((n - 1) as nat);
        let r = isqrt_spec((n - 1) as nat) as int;
        assert(sq(r) <= n - 1);
        assert(n - 1 < sq(r + 1));
        if sq(r + 1) <= n {
            assert(isqrt_spec(n) == r + 1);
            assert((r + 1) * (r + 1) < (r + 2) * (r + 2)) by (nonlinear_arith)
                requires
                    r >= 0,
            ;
            assert(n < sq(r + 2));
            assert(sq(isqrt_spec(n) as int) <= n);
            assert(n < sq(isqrt_spec(n) as int + 1));
        } else {
            assert(isqrt_spec(n) == r);
            assert(sq(r) <= n);
            assert(n < sq(r + 1));
            assert(sq(isqrt_spec(n) as int) <= n);
            assert(n < sq(isqrt_spec(n) as int + 1));
        }
    }
}

/// Any `r` within the floor-square-root bounds for `n` is `isqrt_spec(n)`.
pub proof fn lemma_isqrt_unique(n: nat, r: nat)
    requires
        sq(r as int) <= n,
        n < sq(r as int + 1),
    ensures
        r == isqrt_spec(n),
{
    lemma_isqrt_bounds(n);
    let s = isqrt_spec(n);
    if r < s {
        assert(sq(r as int + 1) <= sq(s as int)) by (nonlinear_arith)
            requires
                0 <= r as int + 1 <= s as int,
        ;
        assert(false);
    } else if s < r {
        assert(sq(s as int + 1) <= sq(r as int)) by (nonlinear_arith)
            requires
                0 <= s as int + 1 <= r as int,
        ;
        assert(false);
    }
}

/// Floor square root of a 32-bit value, by bisection.
pub fn isqrt(n: u32) -> (r: u32)
    ensures
        r == isqrt_spec(n as nat),
        sq(r as int) <= n as int,
        (n as int) < sq(r as int + 1),
{
    let mut lo: u32 = 0;
    let mut hi: u32 = 65536;
    assert((n as int) < sq(65536)) by (nonlinear_arith)
        requires
            n <= u32::MAX,
    ;
    while hi - lo > 1
        invariant
            lo < hi <= 65536,
            sq(lo as int) <= n as int,
            (n as int) < sq(hi as int),
        decreases hi - lo,
    {
        let mid = lo + (hi - lo) / 2;
        assert(lo < mid < hi);
        assert((mid as int) * (mid as int) <= 65536 * 65536) by (nonlinear_arith)
            requires
                0 <= mid <= 65536,
        ;
        if (mid as u64) * (mid as u64) <= n as u64 {
            lo = mid;
        } else {
            hi = mid;
        }
    }
    proof {
        lemma_isqrt_unique(n as nat, lo as nat);
    }
    lo
}

} // verus!
