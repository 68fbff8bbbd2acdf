use vstd::prelude::*;
use vstd::arithmetic::div_mod::lemma_div_denominator;
use vstd::arithmetic::power2::{lemma2_to64, lemma_pow2_strictly_increases, lemma_pow2_unfold, pow2};

verus! {

/// The number one in fixed point: scores, weights and logarithms carry 16
/// fractional bits.
pub const UNIT: u32 = 65536;

/// The whole part of the binary logarithm of `n`; 0 for `n == 0`.
pub open spec fn floor_log2(n: int) -> int
    decreases n,
{
    if n <= 1 {
        0
    } else {
        1 + floor_log2(n / 2)
    }
}

/// The binary logarithm of `n` in fixed point: its whole part, and between
/// two powers of two a straight line. 0 for `n == 0`.
pub open spec fn log2_fixed(n: int) -> int {
    if n <= 0 {
        0
    } else {
        let e = floor_log2(n);
        e * 65536 + ((n - pow2(e as nat)) * 65536) / (pow2(e as nat) as int)
    }
}

/// The binary logarithm of `n` in fixed point, as a machine number: it
/// stays below 32 and so always fits.
pub open spec fn log2_of(n: u32) -> u32 {
    #[verifier::truncate]
    (log2_fixed(n as int) as u32)
}

/// Whether `r` is the square root of `x`, rounded down.
pub open spec fn is_int_sqrt(x: int, r: int) -> bool {
    0 <= r && r * r <= x < (r + 1) * (r + 1)
}

/// The square root of `x`, rounded down.
pub open spec fn int_sqrt(x: int) -> int {
    choose|r: int| is_int_sqrt(x, r)
}

/// At most one number is the rounded-down square root of `x`.
pub proof fn lemma_int_sqrt_unique(x: int, a: int, b: int)
    requires
        is_int_sqrt(x, a),
        is_int_sqrt(x, b),
    ensures
        a == b,
{
    if a < b {
        assert((a + 1) * (a + 1) <= b * b) by (nonlinear_arith)
            requires
                0 <= a,
                a + 1 <= b,
        ;
    } else if b < a {
        assert((b + 1) * (b + 1) <= a * a) by (nonlinear_arith)
            requires
                0 <= b,
                b + 1 <= a,
        ;
    }
}

/// `r` is the rounded-down square root of `x` as soon as `x` lies between
/// its square and the next one.
pub proof fn lemma_int_sqrt_is(x: int, r: int)
    requires
        is_int_sqrt(x, r),
    ensures
        int_sqrt(x) == r,
{
    let s = int_sqrt(x);
    lemma_int_sqrt_unique(x, s, r);
}

/// The rounded-down square root of a number below the square of `bound`
/// lies below `bound`.
pub proof fn lemma_int_sqrt_below(x: int, bound: int)
    requires
        0 <= x < bound * bound,
        0 <= bound,
    ensures
        0 <= int_sqrt(x) < bound,
        int_sqrt(x) * int_sqrt(x) <= x,
{
    lemma_int_sqrt_exists(x);
    let s = int_sqrt(x);
    if s >= bound {
        assert(bound * bound <= s * s) by (nonlinear_arith)
            requires
                0 <= bound <= s,
        ;
    }
}

/// Every number from 0 on has a rounded-down square root.
pub proof fn lemma_int_sqrt_exists(x: int)
    requires
        0 <= x,
    ensures
        is_int_sqrt(x, int_sqrt(x)),
    decreases x,
{
    if x == 0 {
        assert(is_int_sqrt(x, 0));
    } else {
        lemma_int_sqrt_exists(x - 1);
        let p = int_sqrt(x - 1);
        if x < (p + 1) * (p + 1) {
            assert(is_int_sqrt(x, p));
        } else {
            let q = p + 1;
            assert(q * q <= x < (q + 1) * (q + 1)) by (nonlinear_arith)
                requires
                    q == p + 1,
                    0 <= p,
                    x - 1 < (p + 1) * (p + 1),
                    x >= (p + 1) * (p + 1),
            ;
            assert(is_int_sqrt(x, q));
        }
    }
}

/// A number from 1 on lies between the power of two that the whole part of
/// its logarithm names and the next one. Its fixed-point logarithm lies
/// between that whole part and the next whole number, and is the whole
/// part at a power of two: it is less than one off the true logarithm.
pub proof fn lemma_log2_fixed_brackets(n: int)
    requires
        1 <= n,
    ensures
        0 <= floor_log2(n),
        pow2(floor_log2(n) as nat) <= n < 2 * pow2(floor_log2(n) as nat),
        floor_log2(n) * 65536 <= log2_fixed(n) < (floor_log2(n) + 1) * 65536,
        n == pow2(floor_log2(n) as nat) ==> log2_fixed(n) == floor_log2(n) * 65536,
    decreases n,
{
    if n == 1 {
        lemma2_to64();
    } else {
        lemma_log2_fixed_brackets(n / 2);
        lemma_pow2_unfold((floor_log2(n / 2) + 1) as nat);
    }
    let p = pow2(floor_log2(n) as nat) as int;
    let rest = n - p;
    assert(0 <= (rest * 65536) / p < 65536 && (rest == 0 ==> (rest * 65536) / p == 0))
        by (nonlinear_arith)
        requires
            0 <= rest < p,
    ;
}

/// The rounded-down square root of `x`.
pub fn isqrt(x: u64) -> (r: u64)
    ensures
        r == int_sqrt(x as int),
        r * r <= x < (r + 1) * (r + 1),
        r < 4294967296,
{
    let mut lo: u64 = 0;
    let mut hi: u64 = 4294967296;
    assert(lo * lo <= x < hi * hi) by (nonlinear_arith)
        requires
            lo == 0,
            hi == 4294967296,
            x <= 18446744073709551615,
    ;
    while hi - lo > 1
        invariant
            lo < hi <= 4294967296,
            lo * lo <= x < hi * hi,
        decreases hi - lo,
    {
        let mid: u64 = lo + (hi - lo) / 2;
        assert(mid * mid <= 18446744073709551615) by (nonlinear_arith)
            requires
                mid <= 4294967295,
        ;
        if mid * mid <= x {
            lo = mid;
        } else {
            hi = mid;
        }
    }
    proof {
        lemma_int_sqrt_is(x as int, lo as int);
    }
    lo
}

/// The binary logarithm of `n` in fixed point.
pub fn log2(n: u32) -> (r: u32)
    ensures
        r == log2_fixed(n as int),
        r == log2_of(n),
        r < 32 * 65536,
{
    if n == 0 {
        return 0;
    }
    let mut e: u32 = 0;
    let mut p: u32 = 1;
    proof {
        lemma2_to64();
    }
    while p <= n / 2
        invariant
            p == pow2(e as nat),
            1 <= p <= n,
            e <= 31,
            floor_log2(n as int) == e + floor_log2(n as int / p as int),
        decreases n - p,
    {
        proof {
            lemma_div_denominator(n as int, p as int, 2);
            lemma_pow2_unfold((e + 1) as nat);
            assert(n as int / p as int >= 2) by (nonlinear_arith)
                requires
                    2 * p <= n,
                    p >= 1,
            ;
            if e + 1 >= 32 {
                lemma2_to64();
                if e + 1 > 32 {
                    lemma_pow2_strictly_increases(32, (e + 1) as nat);
                }
                assert(false);
            }
        }
        p = p * 2;
        e = e + 1;
    }
    assert(n as int / p as int == 1) by (nonlinear_arith)
        requires
            p <= n < 2 * p,
            p >= 1,
    ;
    let frac: u64 = ((n - p) as u64 * 65536) / (p as u64);
    assert(frac < 65536) by (nonlinear_arith)
        requires
            frac == ((n - p) * 65536) / (p as int),
            0 <= n - p < p,
    ;
    e * 65536 + frac as u32
}

} // verus!
