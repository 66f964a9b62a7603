//! Exact integer roots: the floor and the rounded square root, and the
//! floor tenth root used by the gamma curve of the stylization pipeline.

use vstd::prelude::*;

verus! {

/// Largest `q >= r` with `q * q <= n`, searched upward from `r`.
pub open spec fn isqrt_from(n: int, r: int) -> int
    decreases n - r,
{
    if r < 0 || n < 0 {
        0
    } else if (r + 1) * (r + 1) <= n && r < n {
        isqrt_from(n, r + 1)
    } else {
        r
    }
}

/// `⌊√n⌋` for `n >= 0`.
pub open spec fn isqrt(n: int) -> int {
    isqrt_from(n, 0)
}

/// `√n` rounded to the nearest integer: one more than `⌊√n⌋` exactly when
/// the fractional part of `√n` is at least one half (an integer square
/// root is never exactly a half, so no tie-breaking rule is needed).
pub open spec fn rsqrt(n: int) -> int {
    let q = isqrt(n);
    if n - q * q > q {
        q + 1
    } else {
        q
    }
}

/// The square, named so tenth-power proofs can chain bounds through it.
pub open spec fn p2(t: int) -> int {
    t * t
}

/// `t^10`.
pub open spec fn p10(t: int) -> int {
    p2(t) * p2(t) * p2(t) * p2(t) * p2(t)
}

/// Largest `q >= r` with `p10(q) <= n`, searched upward from `r`.
pub open spec fn root10_from(n: int, r: int) -> int
    decreases n - r,
{
    if r < 0 || n < 0 {
        0
    } else if p10(r + 1) <= n && r < n {
        root10_from(n, r + 1)
    } else {
        r
    }
}

/// `⌊n^(1/10)⌋` for `n >= 0`.
pub open spec fn root10(n: int) -> int {
    root10_from(n, 0)
}

/// Products of ordered non-negative factors are ordered.
pub proof fn lemma_mul_le_mul(a: int, b: int, c: int, d: int)
    by (nonlinear_arith)
    requires
        0 <= a <= b,
        0 <= c <= d,
    ensures
        a * c <= b * d,
{
}

proof fn lemma_isqrt_from_char(n: int, r: int)
    requires
        0 <= r,
        r * r <= n,
    ensures
        r <= isqrt_from(n, r),
        isqrt_from(n, r) * isqrt_from(n, r) <= n,
        n < (isqrt_from(n, r) + 1) * (isqrt_from(n, r) + 1),
    decreases n - r,
{
    assert(r <= n) by (nonlinear_arith)
        requires
            0 <= r,
            r * r <= n,
    ;
    if (r + 1) * (r + 1) <= n && r < n {
        lemma_isqrt_from_char(n, r + 1);
    } else {
        assert(n < (r + 1) * (r + 1)) by (nonlinear_arith)
            requires
                0 <= r,
                r * r <= n,
                n <= r || n < (r + 1) * (r + 1),
        ;
    }
}

/// The floor square root is the unique bracket point of the squares.
pub proof fn lemma_isqrt_unique(n: int, a: int)
    requires
        0 <= a,
        a * a <= n,
        n < (a + 1) * (a + 1),
    ensures
        a == isqrt(n),
{
    lemma_isqrt_from_char(n, 0);
    let q = isqrt(n);
    if a < q {
        assert((a + 1) * (a + 1) <= q * q) by (nonlinear_arith)
            requires
                0 <= a,
                a < q,
        ;
    }
    if q < a {
        assert((q + 1) * (q + 1) <= a * a) by (nonlinear_arith)
            requires
                0 <= q,
                q < a,
        ;
    }
}

/// `isqrt` satisfies the bracket it is defined by.
pub proof fn lemma_isqrt_char(n: int)
    requires
        0 <= n,
    ensures
        0 <= isqrt(n),
        isqrt(n) * isqrt(n) <= n,
        n < (isqrt(n) + 1) * (isqrt(n) + 1),
{
    lemma_isqrt_from_char(n, 0);
}

/// A non-negative base is at most its own tenth power.
pub proof fn lemma_p10_ge_base(t: int)
    requires
        0 <= t,
    ensures
        t <= p10(t),
        0 <= p10(t),
{
    if t == 0 {
        assert(p10(0) == 0);
    } else {
        let s = p2(t);
        lemma_mul_le_mul(1, t, t, t);
        lemma_mul_le_mul(1, s, s, s);
        lemma_mul_le_mul(1, s * s, s * s, s * s);
        lemma_mul_le_mul(1, s, (s * s) * (s * s), (s * s) * (s * s));
        assert(s * s * s * s * s == (s * s) * (s * s) * s) by (nonlinear_arith);
    }
}

/// `t^10` is monotone on the non-negative integers.
pub proof fn lemma_p10_mono(a: int, b: int)
    requires
        0 <= a <= b,
    ensures
        p10(a) <= p10(b),
{
    let x = p2(a);
    let y = p2(b);
    assert(0 <= a * a) by (nonlinear_arith);
    lemma_mul_le_mul(a, b, a, b);
    lemma_mul_le_mul(x, y, x, y);
    lemma_mul_le_mul(x * x, y * y, x * x, y * y);
    lemma_mul_le_mul((x * x) * (x * x), (y * y) * (y * y), x, y);
    assert(x * x * x * x * x == (x * x) * (x * x) * x) by (nonlinear_arith);
    assert(y * y * y * y * y == (y * y) * (y * y) * y) by (nonlinear_arith);
}

proof fn lemma_root10_from_char(n: int, r: int)
    requires
        0 <= r,
        p10(r) <= n,
    ensures
        r <= root10_from(n, r),
        p10(root10_from(n, r)) <= n,
        n < p10(root10_from(n, r) + 1),
    decreases n - r,
{
    lemma_p10_ge_base(r);
    if p10(r + 1) <= n && r < n {
        lemma_root10_from_char(n, r + 1);
    } else {
        if !(n < p10(r + 1)) {
            // then r >= n, yet r < r + 1 <= p10(r + 1) <= n
            lemma_p10_ge_base(r + 1);
            assert(false);
        }
    }
}

/// The floor tenth root is the unique bracket point of the tenth powers.
pub proof fn lemma_root10_unique(n: int, a: int)
    requires
        0 <= a,
        p10(a) <= n,
        n < p10(a + 1),
    ensures
        a == root10(n),
{
    lemma_root10_from_char(n, 0);
    let q = root10(n);
    if a < q {
        lemma_p10_mono(a + 1, q);
    }
    if q < a {
        lemma_p10_mono(q + 1, a);
    }
}

/// `root10` satisfies the bracket it is defined by.
pub proof fn lemma_root10_char(n: int)
    requires
        0 <= n,
    ensures
        0 <= root10(n),
        p10(root10(n)) <= n,
        n < p10(root10(n) + 1),
{
    lemma_root10_from_char(n, 0);
}

/// Floor square root of a `u64`, by binary search over the bracket.
pub fn isqrt64(n: u64) -> (r: u64)
    ensures
        r as int == isqrt(n as int),
        (r as int) * (r as int) <= n as int,
{
    let mut lo: u64 = 0;
    let mut hi: u64 = 4294967295;
    proof {
        assert((n as int) < (4294967295 + 1) * (4294967295 + 1)) by (nonlinear_arith)
            requires
                n <= u64::MAX,
        ;
    }
    while lo < hi
        invariant
            lo <= hi <= 4294967295,
            (lo as int) * (lo as int) <= n as int,
            (n as int) < (hi as int + 1) * (hi as int + 1),
        decreases hi - lo,
    {
        let mid: u64 = lo + (hi - lo + 1) / 2;
        proof {
            assert((mid as int) * (mid as int) <= 4294967295 * 4294967295) by (nonlinear_arith)
                requires
                    mid <= 4294967295,
            ;
        }
        if mid * mid <= n {
            lo = mid;
        } else {
            hi = mid - 1;
        }
    }
    proof {
        lemma_isqrt_unique(n as int, lo as int);
    }
    lo
}

/// `t^10` of a small base, exactly, in 128-bit arithmetic.
fn pow10_exec(t: u64) -> (r: u128)
    requires
        t <= 4081,
    ensures
        r as int == p10(t as int),
{
    let t1: u128 = t as u128;
    proof {
        assert((t1 as int) * (t1 as int) <= 16654561) by (nonlinear_arith)
            requires
                t1 <= 4081,
        ;
    }
    let t2: u128 = t1 * t1;
    proof {
        assert((t2 as int) * (t2 as int) <= 16654561 * 16654561) by (nonlinear_arith)
            requires
                t2 <= 16654561,
        ;
    }
    let t4: u128 = t2 * t2;
    proof {
        assert((t4 as int) * (t4 as int) <= (16654561 * 16654561) * (16654561 * 16654561))
            by (nonlinear_arith)
            requires
                t4 <= 16654561 * 16654561,
        ;
    }
    let t8: u128 = t4 * t4;
    proof {
        assert((t8 as int) * (t2 as int) <= ((16654561 * 16654561) * (16654561 * 16654561))
            * 16654561) by (nonlinear_arith)
            requires
                t8 <= (16654561 * 16654561) * (16654561 * 16654561),
                t2 <= 16654561,
        ;
    }
    let r: u128 = t8 * t2;
    proof {
        assert(r as int == p10(t as int)) by (nonlinear_arith)
            requires
                t1 == t as int,
                t2 == (t1 as int) * (t1 as int),
                t4 == (t2 as int) * (t2 as int),
                t8 == (t4 as int) * (t4 as int),
                r == (t8 as int) * (t2 as int),
                p10(t as int) == p2(t as int) * p2(t as int) * p2(t as int) * p2(t as int) * p2(
                t as int),
                p2(t as int) == (t as int) * (t as int),
        ;
    }
    r
}

/// Floor tenth root of a bounded `u128`, by binary search over the bracket.
pub fn root10_exec(n: u128) -> (r: u64)
    requires
        n as int <= p10(4080),
    ensures
        r as int == root10(n as int),
        r <= 4080,
{
    proof {
        lemma_p10_mono(4080, 4081);
        lemma_p10_ge_base(4081);
        if !(p10(4080) < p10(4081)) {
            // the powers of two consecutive bases differ: 4081 divides the
            // larger one strictly more often than 4080 is large
            assert(p10(4081) == p2(4081) * p2(4081) * p2(4081) * p2(4081) * p2(4081));
            assert(p10(4080) < p10(4081)) by (nonlinear_arith)
                requires
                    p10(4080) <= p10(4081),
                    p10(4081) == p2(4081) * p2(4081) * p2(4081) * p2(4081) * p2(4081),
                    p2(4081) == 4081 * 4081,
                    p10(4080) == p2(4080) * p2(4080) * p2(4080) * p2(4080) * p2(4080),
                    p2(4080) == 4080 * 4080,
            ;
        }
        assert(p10(0) == 0);
    }
    let mut lo: u64 = 0;
    let mut hi: u64 = 4080;
    while lo < hi
        invariant
            lo <= hi <= 4080,
            p10(lo as int) <= n as int,
            (n as int) < p10(hi as int + 1),
        decreases hi - lo,
    {
        let mid: u64 = lo + (hi - lo + 1) / 2;
        let m10: u128 = pow10_exec(mid);
        if m10 <= n {
            lo = mid;
        } else {
            hi = mid - 1;
        }
    }
    proof {
        lemma_root10_unique(n as int, lo as int);
    }
    lo
}

} // verus!
