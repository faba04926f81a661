use vstd::prelude::*;
use crate::gradient::MAX_ENERGY;

verus! {

/// Whether `p·√x + q·√y ≤ r·√z`, for non-negative integers, decided without roots:
/// both sides are non-negative, so squaring keeps the order; what is left is
/// `2pq·√(xy) ≤ r²z − p²x − q²y`, and squaring once more leaves integers alone.
pub open spec fn roots_le(p: int, x: int, q: int, y: int, r: int, z: int) -> bool {
    let d = r * r * z - p * p * x - q * q * y;
    d >= 0 && 4 * p * p * q * q * x * y <= d * d
}

/// Whether `k · (√hi − √lo) ≤ m · (√v − √lo)`, that is, `k · √hi + (m − k) · √lo ≤ m · √v`.
pub open spec fn reaches(v: int, lo: int, hi: int, m: int, k: int) -> bool {
    roots_le(k, hi, m - k, lo, m, v)
}

/// The greatest `k` in `[0, top]` that reaches, or 0.
pub open spec fn greatest_reached(v: int, lo: int, hi: int, m: int, top: int) -> int
    decreases top,
{
    if top <= 0 {
        0
    } else if reaches(v, lo, hi, m, top) {
        top
    } else {
        greatest_reached(v, lo, hi, m, top - 1)
    }
}

/// `⌊m · (√v − √lo) / (√hi − √lo)⌋` for `lo ≤ v ≤ hi`, `lo < hi`: the greatest `k ≤ m`
/// with `k · (√hi − √lo) ≤ m · (√v − √lo)`.
pub open spec fn scaled(v: int, lo: int, hi: int, m: int) -> int {
    greatest_reached(v, lo, hi, m, m)
}

proof fn lemma_mul_bound(a: int, b: int, ba: int, bb: int)
    by (nonlinear_arith)
    requires
        0 <= a <= ba,
        0 <= b <= bb,
    ensures
        0 <= a * b <= ba * bb,
{
}

proof fn lemma_square_le(s: int, t: int)
    by (nonlinear_arith)
    requires
        0 <= s,
        0 <= t,
    ensures
        (s * s <= t * t) == (s <= t),
{
}

/// On perfect squares the test is the plain comparison of `p·a + q·b` with `r·c`.
pub proof fn lemma_roots_le_squares(p: int, a: int, q: int, b: int, r: int, c: int)
    requires
        p >= 0,
        a >= 0,
        q >= 0,
        b >= 0,
        r >= 0,
        c >= 0,
    ensures
        roots_le(p, a * a, q, b * b, r, c * c) == (p * a + q * b <= r * c),
{
    let t = 2 * p * q * a * b;
    let d = r * r * (c * c) - p * p * (a * a) - q * q * (b * b);
    let left = p * a + q * b;
    let right = r * c;
    assert(t >= 0) by (nonlinear_arith)
        requires
            p >= 0,
            a >= 0,
            q >= 0,
            b >= 0,
            t == 2 * p * q * a * b,
    ;
    assert(4 * p * p * q * q * (a * a) * (b * b) == t * t) by (nonlinear_arith)
        requires
            t == 2 * p * q * a * b,
    ;
    let u = p * a;
    let w = q * b;
    assert(right * right == r * r * (c * c)) by (nonlinear_arith)
        requires
            right == r * c,
    ;
    assert(u * u == p * p * (a * a)) by (nonlinear_arith)
        requires
            u == p * a,
    ;
    assert(w * w == q * q * (b * b)) by (nonlinear_arith)
        requires
            w == q * b,
    ;
    assert(2 * u * w == t) by (nonlinear_arith)
        requires
            u == p * a,
            w == q * b,
            t == 2 * p * q * a * b,
    ;
    assert(left * left == u * u + 2 * u * w + w * w) by (nonlinear_arith)
        requires
            left == u + w,
    ;
    assert(d - t == right * right - left * left);
    assert(left >= 0 && right >= 0) by (nonlinear_arith)
        requires
            p >= 0,
            a >= 0,
            q >= 0,
            b >= 0,
            r >= 0,
            c >= 0,
            left == p * a + q * b,
            right == r * c,
    ;
    lemma_square_le(left, right);
    if d >= 0 {
        lemma_square_le(t, d);
    }
}

/// Zero always reaches: `m · √lo ≤ m · √v` where `lo ≤ v`.
proof fn lemma_zero_reaches(v: int, lo: int, hi: int, m: int)
    requires
        0 <= lo <= v,
        m >= 0,
    ensures
        reaches(v, lo, hi, m, 0),
{
    let d = m * m * v - 0 * 0 * hi - (m - 0) * (m - 0) * lo;
    assert(d >= 0) by (nonlinear_arith)
        requires
            0 <= lo <= v,
            d == m * m * v - 0 * 0 * hi - (m - 0) * (m - 0) * lo,
    ;
    assert(4 * 0 * 0 * (m - 0) * (m - 0) * hi * lo == 0) by (nonlinear_arith);
    assert(d * d >= 0) by (nonlinear_arith);
}

/// The test `p·√x + q·√y ≤ r·√z` on small operands.
fn roots_le_small(p: u64, x: u64, q: u64, y: u64, r: u64, z: u64) -> (b: bool)
    requires
        p <= 255,
        q <= 255,
        r <= 255,
        x <= MAX_ENERGY,
        y <= MAX_ENERGY,
        z <= MAX_ENERGY,
    ensures
        b == roots_le(p as int, x as int, q as int, y as int, r as int, z as int),
{
    proof {
        lemma_mul_bound(p as int, p as int, 255, 255);
        lemma_mul_bound(q as int, q as int, 255, 255);
        lemma_mul_bound(r as int, r as int, 255, 255);
        lemma_mul_bound(p * p, x as int, 65025, 2550);
        lemma_mul_bound(q * q, y as int, 65025, 2550);
        lemma_mul_bound(r * r, z as int, 65025, 2550);
    }
    let rrz = r * r * z;
    let ppx = p * p * x;
    let qqy = q * q * y;
    let d: i64 = rrz as i64 - ppx as i64 - qqy as i64;
    if d < 0 {
        return false;
    }
    let t1 = 4 * p;
    proof {
        lemma_mul_bound(t1 as int, p as int, 1020, 255);
    }
    let t2 = t1 * p;
    proof {
        lemma_mul_bound(t2 as int, q as int, 260100, 255);
    }
    let t3 = t2 * q;
    proof {
        lemma_mul_bound(t3 as int, q as int, 66325500, 255);
    }
    let t4 = t3 * q;
    proof {
        lemma_mul_bound(t4 as int, x as int, 16913002500, 2550);
    }
    let t5 = t4 * x;
    proof {
        lemma_mul_bound(t5 as int, y as int, 43128156375000, 2550);
        lemma_mul_bound(d as int, d as int, 165813750, 165813750);
    }
    let lhs = t5 * y;
    let du = d as u64;
    lhs <= du * du
}

/// `⌊scaled_max · (√value − √min) / (√max − √min)⌋`: a magnitude, the square root
/// of a `sobel` value, mapped linearly from `[√min, √max]` onto `[0, scaled_max]`
/// and truncated, computed exactly.
pub fn scale(value: u64, min: u64, max: u64, scaled_max: u64) -> (r: u64)
    requires
        min <= value <= max <= MAX_ENERGY,
        min < max,
        scaled_max <= 255,
    ensures
        r == scaled(value as int, min as int, max as int, scaled_max as int),
        r <= scaled_max,
        reaches(value as int, min as int, max as int, scaled_max as int, r as int),
        forall|k: int|
            r < k <= scaled_max ==> !reaches(
                value as int,
                min as int,
                max as int,
                scaled_max as int,
                k,
            ),
{
    let ghost (v, lo, hi, m) = (value as int, min as int, max as int, scaled_max as int);
    let mut k: u64 = scaled_max;
    while k > 0 && !roots_le_small(k, max, scaled_max - k, min, scaled_max, value)
        invariant
            k <= scaled_max <= 255,
            min <= value <= max <= MAX_ENERGY,
            v == value,
            lo == min,
            hi == max,
            m == scaled_max,
            scaled(v, lo, hi, m) == greatest_reached(v, lo, hi, m, k as int),
            forall|j: int| k < j <= m ==> !reaches(v, lo, hi, m, j),
        decreases k,
    {
        k = k - 1;
    }
    proof {
        if k == 0 {
            lemma_zero_reaches(v, lo, hi, m);
        }
    }
    k
}

/// The scaled value lies in `[0, m]`.
pub proof fn lemma_scaled_bounds(v: int, lo: int, hi: int, m: int)
    requires
        m >= 0,
    ensures
        0 <= scaled(v, lo, hi, m) <= m,
{
    lemma_greatest_reached_bounds(v, lo, hi, m, m);
}

proof fn lemma_greatest_reached_bounds(v: int, lo: int, hi: int, m: int, top: int)
    requires
        top >= 0,
    ensures
        0 <= greatest_reached(v, lo, hi, m, top) <= top,
    decreases top,
{
    if top > 0 {
        lemma_greatest_reached_bounds(v, lo, hi, m, top - 1);
    }
}

} // verus!
