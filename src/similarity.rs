//! Cosine similarity between quantised embedding vectors.
use vstd::prelude::*;

verus! {

/// The score of two vectors that point in the same direction.
pub const SCORE_SCALE: i64 = 1000000;

/// The largest embedding dimension whose scores fit the machine integers used here.
pub const MAX_DIMENSION: usize = 4096;

/// Sum of `a[i] * b[i]` over the first `n` positions.
pub open spec fn dot_upto(a: Seq<i16>, b: Seq<i16>, n: int) -> int
    decreases n,
{
    if n <= 0 {
        0
    } else {
        dot_upto(a, b, n - 1) + a[n - 1] * b[n - 1]
    }
}

/// Dot product. Scoring only ever compares vectors of one dimension, where
/// this is the sum over every position.
pub open spec fn dot(a: Seq<i16>, b: Seq<i16>) -> int {
    dot_upto(a, b, if a.len() <= b.len() { a.len() as int } else { b.len() as int })
}

/// Squared Euclidean norm.
pub open spec fn norm_sq(a: Seq<i16>) -> int {
    dot_upto(a, a, a.len() as int)
}

/// The integer square root: the largest `r` with `r * r <= n`.
pub open spec fn floor_sqrt(n: nat) -> nat
    decreases n,
{
    if n == 0 {
        0
    } else {
        let r = floor_sqrt((n - 1) as nat);
        if (r + 1) * (r + 1) <= n {
            r + 1
        } else {
            r
        }
    }
}

/// Cosine similarity `dot(a, b) / (|a| * |b|)` scaled by `SCORE_SCALE` and
/// truncated toward zero, computed exactly as the integer square root of
/// `dot(a, b)^2 * SCORE_SCALE^2 / (norm_sq(a) * norm_sq(b))` with the sign of
/// the dot product. A zero-magnitude operand scores 0.
pub open spec fn cosine(a: Seq<i16>, b: Seq<i16>) -> int {
    let d = dot(a, b);
    let m = norm_sq(a) * norm_sq(b);
    if m <= 0 {
        0
    } else {
        let root = floor_sqrt(((d * d * SCORE_SCALE * SCORE_SCALE) / m) as nat) as int;
        if d >= 0 {
            root
        } else {
            -root
        }
    }
}

pub proof fn lemma_floor_sqrt(n: nat)
    ensures
        floor_sqrt(n) * floor_sqrt(n) <= n,
        n < (floor_sqrt(n) + 1) * (floor_sqrt(n) + 1),
    decreases n,
{
    if n == 0 {
        assert(floor_sqrt(n) == 0);
        assert((0nat + 1) * (0nat + 1) == 1nat) by (nonlinear_arith);
    } else {
        let m = (n - 1) as nat;
        lemma_floor_sqrt(m);
        let r = floor_sqrt(m);
        let s = floor_sqrt(n);
        assert(r * r <= m);
        assert(m < (r + 1) * (r + 1));
        if (r + 1) * (r + 1) <= n {
            assert(s == r + 1);
            assert(n < (r + 2) * (r + 2)) by (nonlinear_arith)
                requires
                    m < (r + 1) * (r + 1),
                    m + 1 == n,
            ;
            assert((s + 1) * (s + 1) == (r + 2) * (r + 2));
        } else {
            assert(s == r);
        }
    }
}

pub proof fn lemma_floor_sqrt_unique(n: nat, r: nat)
    requires
        r * r <= n < (r + 1) * (r + 1),
    ensures
        floor_sqrt(n) == r,
{
    lemma_floor_sqrt(n);
    let s = floor_sqrt(n);
    if s < r {
        assert((s + 1) * (s + 1) <= r * r) by (nonlinear_arith)
            requires
                s + 1 <= r,
        ;
    } else if r < s {
        assert((r + 1) * (r + 1) <= s * s) by (nonlinear_arith)
            requires
                r + 1 <= s,
        ;
    }
}

pub proof fn lemma_dot_upto_symmetric(a: Seq<i16>, b: Seq<i16>, n: int)
    ensures
        dot_upto(a, b, n) == dot_upto(b, a, n),
    decreases n,
{
    if n > 0 {
        lemma_dot_upto_symmetric(a, b, n - 1);
        assert(a[n - 1] * b[n - 1] == b[n - 1] * a[n - 1]) by (nonlinear_arith);
    }
}

pub proof fn lemma_norm_sq_nonneg(a: Seq<i16>, n: int)
    ensures
        dot_upto(a, a, n) >= 0,
    decreases n,
{
    if n > 0 {
        lemma_norm_sq_nonneg(a, n - 1);
        assert(a[n - 1] * a[n - 1] >= 0) by (nonlinear_arith);
    }
}

/// A vector with nonzero magnitude scores exactly `SCORE_SCALE` against itself.
pub proof fn lemma_cosine_self(a: Seq<i16>)
    requires
        norm_sq(a) != 0,
    ensures
        cosine(a, a) == SCORE_SCALE,
{
    lemma_norm_sq_nonneg(a, a.len() as int);
    let n = norm_sq(a);
    assert(n * n > 0) by (nonlinear_arith)
        requires
            n > 0,
    ;
    assert((n * n * SCORE_SCALE * SCORE_SCALE) / (n * n) == SCORE_SCALE * SCORE_SCALE) by (nonlinear_arith)
        requires
            n > 0,
    ;
    assert(SCORE_SCALE * SCORE_SCALE < (SCORE_SCALE + 1) * (SCORE_SCALE + 1)) by (nonlinear_arith);
    lemma_floor_sqrt_unique((SCORE_SCALE * SCORE_SCALE) as nat, SCORE_SCALE as nat);
}

/// Cosine similarity is symmetric.
pub proof fn lemma_cosine_symmetric(a: Seq<i16>, b: Seq<i16>)
    ensures
        cosine(a, b) == cosine(b, a),
{
    let n = if a.len() <= b.len() { a.len() as int } else { b.len() as int };
    lemma_dot_upto_symmetric(a, b, n);
    assert(norm_sq(a) * norm_sq(b) == norm_sq(b) * norm_sq(a)) by (nonlinear_arith);
}

/// Orthogonal vectors score 0.
pub proof fn lemma_cosine_orthogonal(a: Seq<i16>, b: Seq<i16>)
    requires
        dot(a, b) == 0,
    ensures
        cosine(a, b) == 0,
{
    let m = norm_sq(a) * norm_sq(b);
    if m > 0 {
        assert((0 * 0 * SCORE_SCALE * SCORE_SCALE) / m == 0) by (nonlinear_arith)
            requires
                m > 0,
        ;
        assert(floor_sqrt(0) == 0);
    }
}

/// A zero-magnitude operand scores 0, on either side.
pub proof fn lemma_cosine_zero_magnitude(a: Seq<i16>, b: Seq<i16>)
    requires
        norm_sq(a) == 0 || norm_sq(b) == 0,
    ensures
        cosine(a, b) == 0,
        cosine(b, a) == 0,
{
    assert(norm_sq(a) * norm_sq(b) == 0) by (nonlinear_arith)
        requires
            norm_sq(a) == 0 || norm_sq(b) == 0,
    ;
    assert(norm_sq(b) * norm_sq(a) == 0) by (nonlinear_arith)
        requires
            norm_sq(a) == 0 || norm_sq(b) == 0,
    ;
}

/// Integer square root by bisection.
fn isqrt(n: u128) -> (r: u64)
    requires
        n < 0x1000_0000_0000_0000_0000_0000_0000_0000,
    ensures
        r as nat == floor_sqrt(n as nat),
{
    let mut lo: u128 = 0;
    let mut hi: u128 = 0x4000_0000_0000_0000;
    assert(hi * hi == 0x1000_0000_0000_0000_0000_0000_0000_0000) by (nonlinear_arith)
        requires
            hi == 0x4000_0000_0000_0000,
    ;
    while hi - lo > 1
        invariant
            lo < hi <= 0x4000_0000_0000_0000,
            lo * lo <= n,
            n < hi * hi,
        decreases hi - lo,
    {
        let mid = lo + (hi - lo) / 2;
        assert(mid * mid < 0x1000_0000_0000_0000_0000_0000_0000_0000) by (nonlinear_arith)
            requires
                mid < 0x4000_0000_0000_0000,
        ;
        if mid * mid <= n {
            lo = mid;
        } else {
            hi = mid;
        }
    }
    proof {
        lemma_floor_sqrt_unique(n as nat, lo as nat);
    }
    lo as u64
}

/// Dot product of the first `n` positions.
fn dot_prefix(a: &[i16], b: &[i16], n: usize) -> (r: i64)
    requires
        n <= a@.len(),
        n <= b@.len(),
        n <= MAX_DIMENSION,
    ensures
        r == dot_upto(a@, b@, n as int),
        -0x400_0000_0000 <= r <= 0x400_0000_0000,
{
    let mut d: i64 = 0;
    let mut i: usize = 0;
    while i < n
        invariant
            i <= n <= MAX_DIMENSION,
            n <= a@.len(),
            n <= b@.len(),
            d == dot_upto(a@, b@, i as int),
            -(i * 0x4000_0000) <= d <= i * 0x4000_0000,
        decreases n - i,
    {
        let x = a[i];
        let y = b[i];
        assert(-0x4000_0000 <= x * y <= 0x4000_0000) by (nonlinear_arith)
            requires
                -0x8000 <= x < 0x8000,
                -0x8000 <= y < 0x8000,
        ;
        let t = x as i64 * y as i64;
        d = d + t;
        i = i + 1;
    }
    assert(i * 0x4000_0000 <= 0x400_0000_0000) by (nonlinear_arith)
        requires
            i <= 4096,
    ;
    d
}

/// Cosine similarity of two quantised embeddings of one dimension, scaled so that equal
/// directions score `SCORE_SCALE`; a zero-magnitude operand scores 0.
pub fn cosine_similarity(a: &[i16], b: &[i16]) -> (r: i64)
    requires
        a@.len() == b@.len(),
        a@.len() <= MAX_DIMENSION,
    ensures
        r == cosine(a@, b@),
{
    let d = dot_prefix(a, b, a.len());
    let na = dot_prefix(a, a, a.len());
    let nb = dot_prefix(b, b, b.len());
    proof {
        lemma_norm_sq_nonneg(a@, a@.len() as int);
        lemma_norm_sq_nonneg(b@, b@.len() as int);
    }
    assert(na * nb <= 0x400_0000_0000 * 0x400_0000_0000) by (nonlinear_arith)
        requires
            0 <= na <= 0x400_0000_0000,
            0 <= nb <= 0x400_0000_0000,
    ;
    let m: u128 = na as u128 * nb as u128;
    if m == 0 {
        return 0;
    }
    let mag: u128 = if d >= 0 {
        d as u128
    } else {
        (-d) as u128
    };
    let scale = SCORE_SCALE as u128;
    assert(mag * mag * scale * scale < 0x1000_0000_0000_0000_0000_0000_0000_0000) by (nonlinear_arith)
        requires
            mag <= 0x400_0000_0000,
            scale == 1000000,
    ;
    let ratio: u128 = (mag * mag * scale * scale) / m;
    assert(ratio <= mag * mag * scale * scale) by (nonlinear_arith)
        requires
            ratio == (mag * mag * scale * scale) / (m as int),
            m >= 1,
    ;
    assert(mag * mag == d * d) by (nonlinear_arith)
        requires
            mag == d || mag == -d,
    ;
    let root = isqrt(ratio);
    proof {
        lemma_floor_sqrt(ratio as nat);
    }
    assert(root < 0x4000_0000_0000_0000) by (nonlinear_arith)
        requires
            root * root <= ratio,
            ratio < 0x1000_0000_0000_0000_0000_0000_0000_0000,
    {
        if root >= 0x4000_0000_0000_0000 {
            assert(root * root >= 0x4000_0000_0000_0000 * 0x4000_0000_0000_0000);
        }
    }
    if d >= 0 {
        root as i64
    } else {
        -(root as i64)
    }
}

} // verus!
