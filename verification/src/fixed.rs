//! Fixed-point arithmetic for the engine's scores.
//!
//! A score is an `i64` counted in units of `1 / FP_ONE`, so `FP_ONE` stands
//! for one whole point of reward.  The UCT rule needs a natural logarithm
//! and a square root; both are computed here over the fixed-point integers,
//! with the logarithm taken as the binary logarithm linearly interpolated
//! between powers of two and rescaled by `ln 2`.  Additions saturate instead
//! of wrapping, so a long search degrades gracefully rather than corrupting
//! the statistics.

use vstd::arithmetic::div_mod::{
    lemma_div_is_ordered, lemma_div_nonincreasing, lemma_multiply_divide_lt,
};
use vstd::arithmetic::logarithm::{
    lemma_log0, lemma_log_is_ordered, lemma_log_nonnegative, lemma_log_s, log,
};
use vstd::arithmetic::power2::{
    lemma2_to64, lemma2_to64_rest, lemma_pow2_pos, lemma_pow2_strictly_increases,
    lemma_pow2_unfold, pow2,
};
use vstd::prelude::*;

verus! {

/// One whole point of reward, as a fixed-point integer.
pub const FP_ONE: i64 = 65536;

/// `ln 2` in fixed point: `0.69314718 * 65536`, rounded down.
pub const LN2_FP: u64 = 45426;

/// An upper bound on `ln_fp` over all of `u64`: `ln(2^64) * 65536` rounded
/// up generously.
pub const LN_FP_MAX: u64 = 2907263;

/// Saturation of an unbounded integer into the `i64` range.
pub open spec fn sat_i64(x: int) -> int {
    if x > i64::MAX as int {
        i64::MAX as int
    } else if x < i64::MIN as int {
        i64::MIN as int
    } else {
        x
    }
}

/// Saturation of a counter increment at the top of the `usize` range.
pub open spec fn sat_usize(x: int) -> int {
    if x > usize::MAX as int {
        usize::MAX as int
    } else {
        x
    }
}

/// Division rounding toward zero, the way hardware integer division rounds.
pub open spec fn div_trunc(a: int, b: int) -> int
    recommends
        b > 0,
{
    if a >= 0 {
        a / b
    } else {
        -((-a) / b)
    }
}

/// The floor of the square root.
pub open spec fn sqrt_floor(x: nat) -> nat
    decreases x,
{
    if x == 0 {
        0
    } else {
        let r = sqrt_floor((x - 1) as nat);
        if (r + 1) * (r + 1) <= x {
            r + 1
        } else {
            r
        }
    }
}

/// `sqrt_floor` is exactly the integer square root: it is the largest
/// integer whose square does not exceed the argument.
pub proof fn lemma_sqrt_floor_bracket(x: nat)
    ensures
        sqrt_floor(x) * sqrt_floor(x) <= x,
        x < (sqrt_floor(x) + 1) * (sqrt_floor(x) + 1),
    decreases x,
{
    let s = sqrt_floor(x);
    if x == 0 {
        assert(s == 0);
        assert(s * s <= x && x < (s + 1) * (s + 1)) by (nonlinear_arith)
            requires
                s == 0nat,
                x == 0nat,
        ;
    } else {
        lemma_sqrt_floor_bracket((x - 1) as nat);
        let r = sqrt_floor((x - 1) as nat);
        assert(r * r <= x - 1);
        assert(x - 1 < (r + 1) * (r + 1));
        if (r + 1) * (r + 1) <= x {
            assert(s == r + 1);
            assert(s * s <= x && x < (s + 1) * (s + 1)) by (nonlinear_arith)
                requires
                    s == r + 1,
                    (r + 1) * (r + 1) <= x,
                    x - 1 < (r + 1) * (r + 1),
            ;
        } else {
            assert(s == r);
            assert(s * s <= x && x < (s + 1) * (s + 1)) by (nonlinear_arith)
                requires
                    s == r,
                    r * r <= x - 1,
                    x < (r + 1) * (r + 1),
                    x >= 1,
            ;
        }
    }
}

/// Any integer bracketed the same way as `sqrt_floor(x)` is `sqrt_floor(x)`.
pub proof fn lemma_sqrt_floor_unique(x: nat, s: nat)
    requires
        s * s <= x,
        x < (s + 1) * (s + 1),
    ensures
        s == sqrt_floor(x),
{
    lemma_sqrt_floor_bracket(x);
    let r = sqrt_floor(x);
    if s < r {
        assert(r * r > x) by (nonlinear_arith)
            requires
                s < r,
                x < (s + 1) * (s + 1),
            ;
    }
    if r < s {
        assert(s * s > x) by (nonlinear_arith)
            requires
                r < s,
                x < (r + 1) * (r + 1),
            ;
    }
}

/// The fixed-point natural logarithm of `a >= 1`: the binary logarithm,
/// interpolated linearly between consecutive powers of two, times `ln 2`.
pub open spec fn ln_fp_spec(a: int) -> int
    recommends
        a >= 1,
{
    let k = log(2, a);
    ((k * 65536 + ((a - pow2(k as nat)) * 65536) / pow2(k as nat) as int) * LN2_FP as int)
        / 65536
}

/// For `a >= 1`, `a` lies between `2^log2(a)` inclusive and `2^(log2(a)+1)`
/// exclusive.
pub proof fn lemma_log2_bracket(a: int)
    requires
        a >= 1,
    ensures
        log(2, a) >= 0,
        pow2(log(2, a) as nat) <= a < pow2((log(2, a) + 1) as nat),
    decreases a,
{
    lemma_log_nonnegative(2, a);
    if a < 2 {
        lemma_log0(2, a);
        assert(pow2(0) == 1 && pow2(1) == 2) by {
            lemma2_to64();
        }
    } else {
        lemma_log_s(2, a);
        let h = a / 2;
        lemma_log2_bracket(h);
        let l = log(2, h);
        assert(log(2, a) == 1 + l);
        lemma_pow2_unfold((l + 1) as nat);
        lemma_pow2_unfold((l + 2) as nat);
        assert(a == 2 * h + (a % 2)) by {
            vstd::arithmetic::div_mod::lemma_fundamental_div_mod(a, 2);
        }
        assert(2 * pow2(l as nat) <= a);
        assert(h + 1 <= pow2((l + 1) as nat));
        assert(a <= 2 * h + 1);
        assert(a < 2 * pow2((l + 1) as nat));
    }
}

/// `log2` of a `u64` never exceeds 63.
pub proof fn lemma_log2_u64_max(a: int)
    requires
        1 <= a <= u64::MAX as int,
    ensures
        0 <= log(2, a) <= 63,
{
    lemma_log2_bracket(a);
    if log(2, a) > 63 {
        if log(2, a) > 64 {
            lemma_pow2_strictly_increases(64, log(2, a) as nat);
        }
        assert(pow2(64) == 0x10000000000000000) by {
            lemma2_to64_rest();
        }
    }
}

/// The square-root floor never decreases.
pub proof fn lemma_sqrt_floor_monotone(x1: nat, x2: nat)
    requires
        x1 <= x2,
    ensures
        sqrt_floor(x1) <= sqrt_floor(x2),
{
    lemma_sqrt_floor_bracket(x1);
    lemma_sqrt_floor_bracket(x2);
    let s1 = sqrt_floor(x1);
    let s2 = sqrt_floor(x2);
    if s1 > s2 {
        assert(s1 * s1 > x2) by (nonlinear_arith)
            requires
                s1 > s2,
                x2 < (s2 + 1) * (s2 + 1),
        ;
    }
}

/// `ln_fp_spec` is at least zero and never decreases on `a >= 1`.
pub proof fn lemma_ln_fp_monotone(a1: int, a2: int)
    requires
        1 <= a1 <= a2,
    ensures
        0 <= ln_fp_spec(a1) <= ln_fp_spec(a2),
{
    lemma_log2_bracket(a1);
    lemma_log2_bracket(a2);
    let k1 = log(2, a1);
    let k2 = log(2, a2);
    lemma_log_is_ordered(2, a1, a2);
    let p1 = pow2(k1 as nat) as int;
    let p2 = pow2(k2 as nat) as int;
    lemma_pow2_pos(k1 as nat);
    lemma_pow2_pos(k2 as nat);
    lemma_pow2_unfold((k1 + 1) as nat);
    lemma_pow2_unfold((k2 + 1) as nat);
    assert(a1 - p1 < p1);
    let f1 = ((a1 - p1) * 65536) / p1;
    let f2 = ((a2 - p2) * 65536) / p2;
    vstd::arithmetic::div_mod::lemma_div_pos_is_pos((a1 - p1) * 65536, p1);
    vstd::arithmetic::div_mod::lemma_div_pos_is_pos((a2 - p2) * 65536, p2);
    assert((a1 - p1) * 65536 < p1 * 65536) by (nonlinear_arith)
        requires
            a1 - p1 < p1,
        ;
    lemma_multiply_divide_lt((a1 - p1) * 65536, p1, 65536);
    let i1 = k1 * 65536 + f1;
    let i2 = k2 * 65536 + f2;
    assert(i1 <= i2) by {
        if k1 == k2 {
            lemma_div_is_ordered((a1 - p1) * 65536, (a2 - p2) * 65536, p1);
        } else {
            assert(i1 < (k1 + 1) * 65536);
            assert((k1 + 1) * 65536 <= k2 * 65536);
        }
    }
    lemma_div_is_ordered(i1 * LN2_FP as int, i2 * LN2_FP as int, 65536);
    lemma_div_is_ordered(0, i1 * LN2_FP as int, 65536);
}

/// Holding the score, the visit count and a non-negative exploration
/// constant fixed, the UCT score never decreases when the availability
/// count grows: a child offered more often receives at least as large an
/// exploration bonus.  Truncation makes this non-strict: distinct
/// availabilities can share one score.
pub proof fn lemma_uct_fp_monotone_in_avails(score: int, sims: int, a1: int, a2: int, c: int)
    requires
        sims >= 1,
        1 <= a1 <= a2,
        c >= 0,
    ensures
        uct_fp(score, sims, a1, c) <= uct_fp(score, sims, a2, c),
{
    lemma_ln_fp_monotone(a1, a2);
    let l1 = ln_fp_spec(a1);
    let l2 = ln_fp_spec(a2);
    let t1 = (l1 * 65536) / sims;
    let t2 = (l2 * 65536) / sims;
    lemma_div_is_ordered(l1 * 65536, l2 * 65536, sims);
    lemma_div_is_ordered(0, l1 * 65536, sims);
    lemma_sqrt_floor_monotone(t1 as nat, t2 as nat);
    let s1 = sqrt_floor(t1 as nat) as int;
    let s2 = sqrt_floor(t2 as nat) as int;
    assert(c * s1 <= c * s2) by (nonlinear_arith)
        requires
            c >= 0,
            s1 <= s2,
    ;
    assert(c * s1 >= 0) by (nonlinear_arith)
        requires
            c >= 0,
            s1 >= 0,
    ;
    lemma_div_is_ordered(c * s1, c * s2, 65536);
    lemma_div_is_ordered(0, c * s1, 65536);
}

/// The fixed-point natural logarithm; exact with respect to `ln_fp_spec`,
/// and never larger than `LN_FP_MAX`.
pub fn ln_fp(a: u64) -> (r: u64)
    requires
        a >= 1,
    ensures
        r == ln_fp_spec(a as int),
        r <= LN_FP_MAX,
{
    let mut k: u64 = 0;
    let mut x: u64 = a;
    while x >= 2
        invariant
            a >= 1,
            x >= 1,
            k <= 63,
            log(2, a as int) == k + log(2, x as int),
        decreases x,
    {
        proof {
            lemma_log_s(2, x as int);
            lemma_log_nonnegative(2, x as int / 2);
            lemma_log2_u64_max(a as int);
        }
        x = x / 2;
        k = k + 1;
    }
    proof {
        lemma_log0(2, x as int);
        assert(k == log(2, a as int));
        lemma_log2_bracket(a as int);
    }
    let ghost kk = k;
    let mut p: u64 = 1;
    let mut j: u64 = 0;
    proof {
        assert(pow2(0) == 1) by {
            lemma2_to64();
        }
        assert(pow2(63) == 0x8000000000000000) by {
            lemma2_to64_rest();
        }
    }
    while j < k
        invariant
            j <= k <= 63,
            k == kk,
            p == pow2(j as nat),
        decreases k - j,
    {
        proof {
            lemma_pow2_unfold((j + 1) as nat);
            if j + 1 < 63 {
                lemma_pow2_strictly_increases((j + 1) as nat, 63);
            }
            assert(pow2(63) == 0x8000000000000000) by {
                lemma2_to64_rest();
            }
        }
        p = 2 * p;
        j = j + 1;
    }
    proof {
        lemma_pow2_pos(k as nat);
        assert(p <= a < 2 * p) by {
            lemma_pow2_unfold((k + 1) as nat);
        }
    }
    let num: u128 = ((a - p) as u128) * 65536;
    let frac128: u128 = num / (p as u128);
    proof {
        assert(num < (p as u128) * 65536) by (nonlinear_arith)
            requires
                num == ((a - p) as u128) * 65536,
                ((a - p) as u128) < (p as u128),
        ;
        lemma_multiply_divide_lt(num as int, p as int, 65536);
    }
    let frac: u64 = frac128 as u64;
    let inner: u64 = k * 65536 + frac;
    let r: u64 = (inner * LN2_FP) / 65536;
    proof {
        assert(inner <= 4194303);
        assert(r == ln_fp_spec(a as int));
        lemma_div_is_ordered((inner * LN2_FP) as int, 4194303 * LN2_FP as int, 65536);
        assert(4194303int * 45426 / 65536 == 2907263);
    }
    r
}

/// The integer square root of a `u64`, by bisection.
pub fn isqrt(x: u64) -> (r: u64)
    ensures
        r == sqrt_floor(x as nat),
{
    let mut lo: u64 = 0;
    let mut hi: u64 = if x < 0xFFFFFFFF {
        x
    } else {
        0xFFFFFFFF
    };
    proof {
        assert((hi as int + 1) * (hi as int + 1) > x as int) by (nonlinear_arith)
            requires
                hi as int == if x < 0xFFFFFFFF {
                    x as int
                } else {
                    0xFFFFFFFF
                },
                x <= u64::MAX,
        ;
    }
    while lo < hi
        invariant
            lo <= hi <= 0xFFFFFFFF,
            (lo as int) * (lo as int) <= x as int,
            (hi as int + 1) * (hi as int + 1) > x as int,
        decreases hi - lo,
    {
        let mid: u64 = lo + (hi - lo + 1) / 2;
        assert(lo < mid <= hi);
        proof {
            assert((mid as u128) * (mid as u128) < 0x10000000000000000u128) by (nonlinear_arith)
                requires
                    mid <= 0xFFFFFFFFu64,
            ;
        }
        let sq: u128 = (mid as u128) * (mid as u128);
        if sq <= x as u128 {
            lo = mid;
        } else {
            hi = mid - 1;
        }
    }
    proof {
        assert(x < (lo as int + 1) * (lo as int + 1)) by (nonlinear_arith)
            requires
                lo == hi,
                (hi as int + 1) * (hi as int + 1) > x as int,
        ;
        lemma_sqrt_floor_unique(x as nat, lo as nat);
    }
    lo
}

/// Saturating addition on `i64`.
pub fn sat_add_i64(a: i64, b: i64) -> (r: i64)
    ensures
        r == sat_i64(a as int + b as int),
{
    let s: i128 = a as i128 + b as i128;
    if s > i64::MAX as i128 {
        i64::MAX
    } else if s < i64::MIN as i128 {
        i64::MIN
    } else {
        s as i64
    }
}

/// Division of a signed score by a positive count, rounding toward zero.
pub fn div_trunc_i64(a: i64, b: u64) -> (r: i64)
    requires
        b >= 1,
    ensures
        r == div_trunc(a as int, b as int),
{
    if a >= 0 {
        let q: u64 = (a as u64) / b;
        proof {
            lemma_div_nonincreasing(a as int, b as int);
        }
        q as i64
    } else {
        let m: u64 = (-(a as i128)) as u64;
        let q: u64 = m / b;
        proof {
            lemma_div_nonincreasing(m as int, b as int);
        }
        if q >= 0x8000000000000000 {
            proof {
                assert(q == 0x8000000000000000);
            }
            i64::MIN
        } else {
            -(q as i64)
        }
    }
}

/// `c * s / FP_ONE`, truncated toward zero and saturated into `i64`; the
/// product of an exploration constant and a fixed-point square root.
pub fn mul_div_fp(c: i64, s: u64) -> (r: i64)
    ensures
        r == sat_i64(div_trunc(c as int * s as int, 65536)),
{
    if c >= 0 {
        proof {
            assert((c as u128) * (s as u128) <= 0x7FFFFFFFFFFFFFFFu128 * 0xFFFFFFFFFFFFFFFFu128)
                by (nonlinear_arith)
                requires
                    (c as u128) <= 0x7FFFFFFFFFFFFFFFu128,
                    (s as u128) <= 0xFFFFFFFFFFFFFFFFu128,
            ;
        }
        let m: u128 = (c as u128) * (s as u128);
        let q: u128 = m / 65536;
        proof {
            lemma_div_nonincreasing(m as int, 65536);
        }
        if q > i64::MAX as u128 {
            i64::MAX
        } else {
            q as i64
        }
    } else {
        let neg: u128 = (-(c as i128)) as u128;
        proof {
            assert(neg * (s as u128) <= 0x8000000000000000u128 * 0xFFFFFFFFFFFFFFFFu128)
                by (nonlinear_arith)
                requires
                    neg <= 0x8000000000000000u128,
                    (s as u128) <= 0xFFFFFFFFFFFFFFFFu128,
            ;
        }
        let m: u128 = neg * (s as u128);
        let q: u128 = m / 65536;
        proof {
            assert(c as int * s as int == -(m as int)) by (nonlinear_arith)
                requires
                    c < 0,
                    m == (-(c as int)) * (s as int),
            ;
            lemma_div_nonincreasing(m as int, 65536);
        }
        if q >= 0x8000000000000000 {
            i64::MIN
        } else {
            -(q as i64)
        }
    }
}

/// The fixed-point UCT score: the average score plus the exploration term
/// `c * sqrt(ln(avails) / sims)`, everything truncated and saturated the way
/// the executable arithmetic rounds.  The quotient `ln(avails) / sims` is
/// held with 32 fractional bits, so its integer square root is directly the
/// fixed-point square root with 16.  An unvisited node scores `i64::MAX`,
/// so that it would always be preferred; the engine never actually selects
/// among unvisited children, because selection only descends fully expanded
/// nodes.
pub open spec fn uct_fp(score: int, sims: int, avails: int, c: int) -> int
    recommends
        sims >= 0,
        avails >= 1,
{
    if sims == 0 {
        i64::MAX as int
    } else {
        let lnv = ln_fp_spec(avails);
        let t = (lnv * 65536) / sims;
        let s = sqrt_floor(t as nat);
        sat_i64(div_trunc(score, sims) + sat_i64(div_trunc(c * s, 65536)))
    }
}

/// Computes `uct_fp` over machine integers.
pub fn uct_fp_exec(score: i64, sims: usize, avails: usize, c: i64) -> (r: i64)
    requires
        avails >= 1,
    ensures
        r == uct_fp(score as int, sims as int, avails as int, c as int),
{
    if sims == 0 {
        i64::MAX
    } else {
        let lnv: u64 = ln_fp(avails as u64);
        let t: u64 = (lnv * 65536) / (sims as u64);
        proof {
            lemma_div_nonincreasing((lnv * 65536) as int, sims as int);
        }
        let s: u64 = isqrt(t);
        let bonus: i64 = mul_div_fp(c, s);
        sat_add_i64(div_trunc_i64(score, sims as u64), bonus)
    }
}

} // verus!
