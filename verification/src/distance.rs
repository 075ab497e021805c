//! Squared Euclidean distance between quantized vectors.
use vstd::prelude::*;

use crate::ReferenceVector;

verus! {

/// The square of the difference of two coordinates.
pub open spec fn sq_delta(a: i16, b: i16) -> int {
    (a - b) * (a - b)
}

/// The sum of squared differences over the first `n` dimensions.
pub open spec fn partial_sq(a: Seq<i16>, b: Seq<i16>, n: int) -> int
    decreases n,
{
    if n <= 0 {
        0
    } else {
        partial_sq(a, b, n - 1) + sq_delta(a[n - 1], b[n - 1])
    }
}

/// The squared Euclidean distance over all 16 dimensions.
pub open spec fn squared_distance(a: Seq<i16>, b: Seq<i16>) -> int {
    partial_sq(a, b, 16)
}

/// What `distance2_limited` returns: the distance over the first 8 dimensions when
/// that already reaches `limit`, otherwise the full distance.
pub open spec fn spec_distance2_limited(a: Seq<i16>, b: Seq<i16>, limit: int) -> int {
    if partial_sq(a, b, 8) >= limit {
        partial_sq(a, b, 8)
    } else {
        squared_distance(a, b)
    }
}

pub proof fn lemma_sq_delta_bounds(a: i16, b: i16)
    ensures
        0 <= sq_delta(a, b) <= 4294836225,
{
    assert(0 <= (a - b) * (a - b) <= 4294836225) by (nonlinear_arith)
        requires -65535 <= a - b <= 65535;
}

pub proof fn lemma_partial_sq_bounds(a: Seq<i16>, b: Seq<i16>, n: int)
    requires
        0 <= n,
    ensures
        0 <= partial_sq(a, b, n) <= n * 4294836225,
    decreases n,
{
    if n > 0 {
        lemma_partial_sq_bounds(a, b, n - 1);
        lemma_sq_delta_bounds(a[n - 1], b[n - 1]);
    }
}

/// The first `n` dimensions never weigh more than all of them.
pub proof fn lemma_partial_sq_monotone(a: Seq<i16>, b: Seq<i16>, m: int, n: int)
    requires
        0 <= m <= n,
    ensures
        partial_sq(a, b, m) <= partial_sq(a, b, n),
    decreases n - m,
{
    if m < n {
        lemma_partial_sq_monotone(a, b, m, n - 1);
        lemma_sq_delta_bounds(a[n - 1], b[n - 1]);
    }
}

/// Adds the squared differences of dimensions `from..to` to `acc`.
pub fn add_squares(a: &ReferenceVector, b: &ReferenceVector, acc: u64, from: usize, to: usize) -> (r: u64)
    requires
        from <= to <= 16,
        acc == partial_sq(a@, b@, from as int),
    ensures
        r == partial_sq(a@, b@, to as int),
{
    let mut sum = acc;
    let mut i = from;
    while i < to
        invariant
            from <= i <= to <= 16,
            sum == partial_sq(a@, b@, i as int),
        decreases to - i,
    {
        proof {
            lemma_partial_sq_bounds(a@, b@, i as int);
            lemma_sq_delta_bounds(a[i as int], b[i as int]);
        }
        let delta: i64 = a[i] as i64 - b[i] as i64;
        let square = (delta * delta) as u64;
        sum = sum + square;
        i = i + 1;
    }
    sum
}

/// Squared distance, stopping after the first 8 dimensions once they reach `limit`.
pub fn distance2_limited(a: &ReferenceVector, b: &ReferenceVector, limit: u64) -> (r: u64)
    ensures
        r == spec_distance2_limited(a@, b@, limit as int),
        r <= squared_distance(a@, b@),
        r < limit ==> r == squared_distance(a@, b@),
{
    proof {
        lemma_partial_sq_monotone(a@, b@, 8, 16);
    }
    let distance = add_squares(a, b, 0, 0, 8);
    if distance >= limit {
        return distance;
    }
    add_squares(a, b, distance, 8, 16)
}

} // verus!
