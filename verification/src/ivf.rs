//! Building an inverted-file index with product quantization: k-means over
//! sampled references, the nearest centroids of each reference, the
//! candidate lists per centroid, and the residual codebooks.
use vstd::prelude::*;

use crate::ReferenceVector;
use crate::bytes::{blocks, le_bytes, push_u32_le, push_u64_le};
use crate::http::push_bytes;
use crate::morton::{push_vector, vector_bytes};
use crate::reference::bit_at;
use crate::distance::{lemma_partial_sq_bounds, lemma_partial_sq_monotone, partial_sq, squared_distance};

verus! {

/// Subquantizers a vector is cut into.
pub const PQ_SUBQUANTIZERS: usize = 4;
/// Dimensions of each subquantizer.
pub const PQ_DIMENSIONS_PER_SUBQUANTIZER: usize = 4;
/// Codewords of each subquantizer's codebook.
pub const PQ_CODEWORDS: usize = 256;

/// One subquantizer's part of a vector.
pub type PqSubVector = [i16; 4];

/// The squared distance, dimension by dimension, stopping at the first
/// prefix that reaches `limit`.
pub open spec fn spec_ivf_distance2_limited(a: Seq<i16>, b: Seq<i16>, limit: int, n: int) -> int
    decreases n,
{
    if n <= 0 {
        0
    } else {
        let before = spec_ivf_distance2_limited(a, b, limit, n - 1);
        if before >= limit && partial_sq(a, b, n - 1) >= limit { before } else { partial_sq(a, b, n) }
    }
}

/// Squared distance over the first `n` dimensions, returning as soon as the
/// running sum reaches `limit`; below `limit` it is exact.
pub fn distance2_prefix_limited(a: &[i16], b: &[i16], n: usize, limit: u64) -> (r: u64)
    requires
        n <= 16,
        n <= a@.len(),
        n <= b@.len(),
    ensures
        r <= partial_sq(a@, b@, n as int),
        r < limit ==> r == partial_sq(a@, b@, n as int),
        r >= limit <==> partial_sq(a@, b@, n as int) >= limit,
{
    let mut distance: u64 = 0;
    let mut i: usize = 0;
    while i < n
        invariant
            i <= n <= 16,
            n <= a@.len(),
            n <= b@.len(),
            distance == partial_sq(a@, b@, i as int),
            i > 0 ==> distance < limit,
        decreases n - i,
    {
        proof {
            lemma_partial_sq_bounds(a@, b@, i as int);
            crate::distance::lemma_sq_delta_bounds(a@[i as int], b@[i as int]);
        }
        let delta: i64 = a[i] as i64 - b[i] as i64;
        distance = distance + (delta * delta) as u64;
        if distance >= limit {
            proof {
                lemma_partial_sq_monotone(a@, b@, i + 1, n as int);
            }
            return distance;
        }
        i = i + 1;
    }
    distance
}

/// `r` is the first of the centroids nearest to `v`.
pub open spec fn first_nearest(centroids: Seq<ReferenceVector>, v: Seq<i16>, r: int) -> bool {
    &&& 0 <= r < centroids.len()
    &&& forall|j: int| 0 <= j < centroids.len() ==> squared_distance(v, centroids[r]@) <= squared_distance(v, #[trigger] centroids[j]@)
    &&& forall|j: int| 0 <= j < r ==> squared_distance(v, centroids[r]@) < squared_distance(v, #[trigger] centroids[j]@)
}

/// The index of the nearest centroid, the first among equals; 0 when there is none.
pub fn nearest_centroid(centroids: &[ReferenceVector], vector: &ReferenceVector) -> (r: usize)
    ensures
        centroids@.len() == 0 ==> r == 0,
        centroids@.len() > 0 ==> first_nearest(centroids@, vector@, r as int),
{
    let mut nearest: usize = 0;
    let mut nearest_distance: u64 = u64::MAX;
    let mut index: usize = 0;
    while index < centroids.len()
        invariant
            index <= centroids@.len(),
            index == 0 ==> nearest == 0 && nearest_distance == u64::MAX,
            index > 0 ==> nearest < index && nearest_distance == squared_distance(vector@, centroids@[nearest as int]@),
            forall|j: int| 0 <= j < index ==> nearest_distance <= squared_distance(vector@, #[trigger] centroids@[j]@),
            forall|j: int| 0 <= j < nearest ==> nearest_distance < squared_distance(vector@, #[trigger] centroids@[j]@),
        decreases centroids@.len() - index,
    {
        let centroid = centroids[index];
        proof {
            lemma_partial_sq_bounds(vector@, centroid@, 16);
        }
        let distance = distance2_prefix_limited(vector, &centroid, 16, nearest_distance);
        if distance < nearest_distance {
            nearest = index;
            nearest_distance = distance;
        }
        index = index + 1;
    }
    nearest
}

/// The first slot holding the largest distance; 0 for an empty list.
pub fn farthest_slot_in(distances: &[u64]) -> (r: usize)
    ensures
        distances@.len() == 0 ==> r == 0,
        distances@.len() > 0 ==> r < distances@.len(),
        forall|j: int| 0 <= j < distances@.len() ==> #[trigger] distances@[j] <= distances@[r as int],
        forall|j: int| 0 <= j < r ==> #[trigger] distances@[j] < distances@[r as int],
{
    let mut farthest: usize = 0;
    if distances.len() == 0 {
        return 0;
    }
    let mut slot: usize = 1;
    while slot < distances.len()
        invariant
            1 <= slot <= distances@.len(),
            farthest < slot,
            forall|j: int| 0 <= j < slot ==> #[trigger] distances@[j] <= distances@[farthest as int],
            forall|j: int| 0 <= j < farthest ==> #[trigger] distances@[j] < distances@[farthest as int],
        decreases distances@.len() - slot,
    {
        if distances[slot] > distances[farthest] {
            farthest = slot;
        }
        slot = slot + 1;
    }
    farthest
}

/// `offsets[k]` is the sum of the first `k` counts.
pub open spec fn counts_before(counts: Seq<u32>, k: int) -> int
    decreases k,
{
    if k <= 0 { 0 } else { counts_before(counts, k - 1) + counts[k - 1] }
}

proof fn lemma_counts_nonneg(counts: Seq<u32>, k: int)
    ensures
        0 <= counts_before(counts, k),
    decreases k,
{
    if k > 0 {
        lemma_counts_nonneg(counts, k - 1);
    }
}

proof fn lemma_counts_monotone(counts: Seq<u32>, m: int, n: int)
    requires
        0 <= m <= n,
    ensures
        0 <= counts_before(counts, m) <= counts_before(counts, n),
    decreases n - m,
{
    if m < n {
        lemma_counts_monotone(counts, m, n - 1);
    } else {
        lemma_counts_nonneg(counts, m);
    }
}

/// Where each centroid's candidate list starts, and one past the last.
pub fn candidate_list_offsets(centroid_counts: &[u32]) -> (r: Vec<u32>)
    requires
        counts_before(centroid_counts@, centroid_counts@.len() as int) <= u32::MAX,
    ensures
        r@.len() == centroid_counts@.len() + 1,
        forall|k: int| 0 <= k <= centroid_counts@.len() ==> #[trigger] r@[k] == counts_before(centroid_counts@, k),
{
    let mut offsets: Vec<u32> = Vec::new();
    offsets.push(0);
    let mut k: usize = 0;
    while k < centroid_counts.len()
        invariant
            k <= centroid_counts@.len(),
            counts_before(centroid_counts@, centroid_counts@.len() as int) <= u32::MAX,
            offsets@.len() == k + 1,
            forall|j: int| 0 <= j <= k ==> #[trigger] offsets@[j] == counts_before(centroid_counts@, j),
        decreases centroid_counts@.len() - k,
    {
        proof {
            lemma_counts_monotone(centroid_counts@, k + 1, centroid_counts@.len() as int);
        }
        let next = offsets[k] + centroid_counts[k];
        offsets.push(next);
        k = k + 1;
    }
    offsets
}

/// The positions sampled from `len` items: `count` of them, evenly spread,
/// `count` being the smaller of `requested` and `len`.
pub fn sample_positions(len: usize, requested: usize) -> (r: Vec<usize>)
    ensures
        r@.len() == if requested < len { requested as int } else { len as int },
        forall|s: int| 0 <= s < r@.len() ==> #[trigger] r@[s] == s * (len as int) / (r@.len() as int) && r@[s] < len,
{
    let count = if requested < len { requested } else { len };
    let mut positions: Vec<usize> = Vec::new();
    let mut s: usize = 0;
    while s < count
        invariant
            count <= len,
            count == if requested < len { requested as int } else { len as int },
            s <= count,
            positions@.len() == s,
            forall|t: int| 0 <= t < s ==> #[trigger] positions@[t] == t * (len as int) / (count as int) && positions@[t] < len,
        decreases count - s,
    {
        proof {
            assert((s as int) * (len as int) <= 0xffff_ffff_ffff_ffff_ffff_ffff_ffff_ffff) by (nonlinear_arith)
                requires s <= 0xffff_ffff_ffff_ffff, len <= 0xffff_ffff_ffff_ffff;
        }
        let product: u128 = s as u128 * len as u128;
        let position = (product / count as u128) as usize;
        proof {
            assert((s as int) * (len as int) / (count as int) < len as int) by (nonlinear_arith)
                requires s < count, count <= len, 0 < count;
            assert(product == (s as int) * (len as int)) by (nonlinear_arith)
                requires product == s as u128 * len as u128;
        }
        positions.push(position);
        s = s + 1;
    }
    positions
}

/// The starting centroids: `count` samples spread evenly over `samples`.
pub fn initial_centroids(samples: &[ReferenceVector], centroid_count: usize) -> (r: Vec<ReferenceVector>)
    requires
        centroid_count > 0 ==> samples@.len() > 0,
    ensures
        r@.len() == centroid_count,
        forall|c: int| 0 <= c < centroid_count ==> #[trigger] r@[c] == samples@[c * (samples@.len() as int) / (centroid_count as int)],
{
    let mut centroids: Vec<ReferenceVector> = Vec::new();
    let len = samples.len();
    let mut c: usize = 0;
    while c < centroid_count
        invariant
            len == samples@.len(),
            centroid_count > 0 ==> len > 0,
            c <= centroid_count,
            centroids@.len() == c,
            forall|t: int| 0 <= t < c ==> #[trigger] centroids@[t] == samples@[t * (len as int) / (centroid_count as int)],
        decreases centroid_count - c,
    {
        proof {
            assert((c as int) * (len as int) <= 0xffff_ffff_ffff_ffff_ffff_ffff_ffff_ffff) by (nonlinear_arith)
                requires c <= 0xffff_ffff_ffff_ffff, len <= 0xffff_ffff_ffff_ffff;
        }
        let product: u128 = c as u128 * len as u128;
        let index = (product / centroid_count as u128) as usize;
        proof {
            assert((c as int) * (len as int) / (centroid_count as int) < len as int) by (nonlinear_arith)
                requires c < centroid_count, 0 < len;
            assert(product == (c as int) * (len as int)) by (nonlinear_arith)
                requires product == c as u128 * len as u128;
        }
        centroids.push(samples[index]);
        c = c + 1;
    }
    centroids
}

/// `a - b` clamped to the range of `i16`.
pub open spec fn saturating_sub(a: i16, b: i16) -> i16 {
    let d = a - b;
    if d > 32767 { 32767i16 } else if d < -32768 { -32768i16 } else { d as i16 }
}

/// The difference of a vector and its centroid, each dimension saturating.
pub fn residual_vector(vector: &ReferenceVector, centroid: &ReferenceVector) -> (r: ReferenceVector)
    ensures
        forall|d: int| 0 <= d < 16 ==> #[trigger] r@[d] == saturating_sub(vector@[d], centroid@[d]),
{
    let mut residual: ReferenceVector = [0; 16];
    let mut d: usize = 0;
    while d < 16
        invariant
            d <= 16,
            forall|e: int| 0 <= e < d ==> #[trigger] residual@[e] == saturating_sub(vector@[e], centroid@[e]),
        decreases 16 - d,
    {
        let difference: i32 = vector[d] as i32 - centroid[d] as i32;
        residual[d] = if difference > 32767 {
            32767
        } else if difference < -32768 {
            -32768
        } else {
            difference as i16
        };
        d = d + 1;
    }
    residual
}

/// Subquantizer `sq`'s part of a vector: dimensions `4 * sq .. 4 * sq + 4`.
pub fn subvector(vector: &ReferenceVector, subquantizer: usize) -> (r: PqSubVector)
    requires
        subquantizer < 4,
    ensures
        forall|d: int| 0 <= d < 4 ==> #[trigger] r@[d] == vector@[4 * subquantizer + d],
{
    let start = subquantizer * 4;
    [vector[start], vector[start + 1], vector[start + 2], vector[start + 3]]
}

/// `r` is the first of the codewords nearest to `value`.
pub open spec fn first_nearest_codeword(codebook: Seq<PqSubVector>, value: Seq<i16>, r: int) -> bool {
    &&& 0 <= r < codebook.len()
    &&& forall|j: int| 0 <= j < codebook.len() ==> partial_sq(value, codebook[r]@, 4) <= partial_sq(value, #[trigger] codebook[j]@, 4)
    &&& forall|j: int| 0 <= j < r ==> partial_sq(value, codebook[r]@, 4) < partial_sq(value, #[trigger] codebook[j]@, 4)
}

/// The index of the nearest codeword, the first among equals; 0 when there is none.
pub fn nearest_codeword(codebook: &[PqSubVector], value: &PqSubVector) -> (r: usize)
    ensures
        codebook@.len() == 0 ==> r == 0,
        codebook@.len() > 0 ==> first_nearest_codeword(codebook@, value@, r as int),
{
    let mut nearest: usize = 0;
    let mut nearest_distance: u64 = u64::MAX;
    let mut index: usize = 0;
    while index < codebook.len()
        invariant
            index <= codebook@.len(),
            index == 0 ==> nearest == 0 && nearest_distance == u64::MAX,
            index > 0 ==> nearest < index && nearest_distance == partial_sq(value@, codebook@[nearest as int]@, 4),
            forall|j: int| 0 <= j < index ==> nearest_distance <= partial_sq(value@, #[trigger] codebook@[j]@, 4),
            forall|j: int| 0 <= j < nearest ==> nearest_distance < partial_sq(value@, #[trigger] codebook@[j]@, 4),
        decreases codebook@.len() - index,
    {
        let codeword = codebook[index];
        proof {
            lemma_partial_sq_bounds(value@, codeword@, 4);
        }
        let distance = distance2_prefix_limited(value, &codeword, 4, nearest_distance);
        if distance < nearest_distance {
            nearest = index;
            nearest_distance = distance;
        }
        index = index + 1;
    }
    nearest
}

/// Division rounding toward zero, as Rust's integer `/`.
pub open spec fn trunc_div(a: int, b: int) -> int {
    if a >= 0 { a / b } else { -((-a) / b) }
}

/// Two first nearest centroids are the same.
proof fn lemma_first_nearest_unique(centroids: Seq<ReferenceVector>, v: Seq<i16>, r1: int, r2: int)
    requires
        first_nearest(centroids, v, r1),
        first_nearest(centroids, v, r2),
    ensures
        r1 == r2,
{
    if r1 < r2 {
        assert(squared_distance(v, centroids[r2]@) < squared_distance(v, centroids[r1]@));
    } else if r2 < r1 {
        assert(squared_distance(v, centroids[r1]@) < squared_distance(v, centroids[r2]@));
    }
}

/// The centroid a vector is assigned to: the first nearest.
pub open spec fn assignment(centroids: Seq<ReferenceVector>, v: Seq<i16>) -> int {
    choose|r: int| first_nearest(centroids, v, r)
}

/// How many of `samples[lo..hi]` are assigned to centroid `k`.
pub open spec fn cluster_count(samples: Seq<ReferenceVector>, centroids: Seq<ReferenceVector>, lo: int, hi: int, k: int) -> int
    decreases hi - lo,
{
    if hi <= lo {
        0
    } else {
        cluster_count(samples, centroids, lo, hi - 1, k) + if assignment(centroids, samples[hi - 1]@) == k {
            1int
        } else {
            0int
        }
    }
}

/// The sum of coordinate `d` over `samples[lo..hi]` assigned to centroid `k`.
pub open spec fn cluster_sum(
    samples: Seq<ReferenceVector>,
    centroids: Seq<ReferenceVector>,
    lo: int,
    hi: int,
    k: int,
    d: int,
) -> int
    decreases hi - lo,
{
    if hi <= lo {
        0
    } else {
        cluster_sum(samples, centroids, lo, hi - 1, k, d) + if assignment(centroids, samples[hi - 1]@) == k {
            samples[hi - 1]@[d] as int
        } else {
            0int
        }
    }
}

/// The counts and sums over two consecutive ranges add up to those over both:
/// the chunks of a k-means step may be summed apart and merged.
pub proof fn lemma_cluster_split(
    samples: Seq<ReferenceVector>,
    centroids: Seq<ReferenceVector>,
    lo: int,
    mid: int,
    hi: int,
    k: int,
    d: int,
)
    requires
        lo <= mid <= hi,
    ensures
        cluster_count(samples, centroids, lo, mid, k) + cluster_count(samples, centroids, mid, hi, k)
            == cluster_count(samples, centroids, lo, hi, k),
        cluster_sum(samples, centroids, lo, mid, k, d) + cluster_sum(samples, centroids, mid, hi, k, d)
            == cluster_sum(samples, centroids, lo, hi, k, d),
    decreases hi - mid,
{
    if hi > mid {
        lemma_cluster_split(samples, centroids, lo, mid, hi - 1, k, d);
    }
}

/// A cluster's sum lies between its count times the least and the greatest `i16`.
proof fn lemma_cluster_bounds(samples: Seq<ReferenceVector>, centroids: Seq<ReferenceVector>, lo: int, hi: int, k: int, d: int)
    requires
        lo <= hi,
    ensures
        0 <= cluster_count(samples, centroids, lo, hi, k) <= hi - lo,
        -32768 * cluster_count(samples, centroids, lo, hi, k) <= cluster_sum(samples, centroids, lo, hi, k, d)
            <= 32767 * cluster_count(samples, centroids, lo, hi, k),
    decreases hi - lo,
{
    if hi > lo {
        lemma_cluster_bounds(samples, centroids, lo, hi - 1, k, d);
    }
}

/// The counts and coordinate sums of each centroid's cluster in `samples`.
pub fn accumulate(samples: &[ReferenceVector], centroids: &[ReferenceVector]) -> (r: (Vec<[i64; 16]>, Vec<u32>))
    requires
        centroids@.len() > 0,
        samples@.len() <= u32::MAX,
    ensures
        r.0@.len() == centroids@.len(),
        r.1@.len() == centroids@.len(),
        forall|k: int| 0 <= k < centroids@.len() ==> #[trigger] r.1@[k] == cluster_count(samples@, centroids@, 0, samples@.len() as int, k),
        forall|k: int, d: int|
            0 <= k < centroids@.len() && 0 <= d < 16 ==> #[trigger] r.0@[k]@[d] == cluster_sum(
                samples@,
                centroids@,
                0,
                samples@.len() as int,
                k,
                d,
            ),
{
    let mut sums: Vec<[i64; 16]> = Vec::new();
    let mut counts: Vec<u32> = Vec::new();
    let mut k: usize = 0;
    while k < centroids.len()
        invariant
            k <= centroids@.len(),
            sums@.len() == k,
            counts@.len() == k,
            forall|j: int| 0 <= j < k ==> #[trigger] counts@[j] == 0,
            forall|j: int, d: int| 0 <= j < k && 0 <= d < 16 ==> #[trigger] sums@[j]@[d] == 0,
        decreases centroids@.len() - k,
    {
        sums.push([0; 16]);
        counts.push(0);
        k = k + 1;
    }
    let mut s: usize = 0;
    while s < samples.len()
        invariant
            centroids@.len() > 0,
            samples@.len() <= u32::MAX,
            s <= samples@.len(),
            sums@.len() == centroids@.len(),
            counts@.len() == centroids@.len(),
            forall|j: int| 0 <= j < centroids@.len() ==> #[trigger] counts@[j] == cluster_count(samples@, centroids@, 0, s as int, j),
            forall|j: int, d: int|
                0 <= j < centroids@.len() && 0 <= d < 16 ==> #[trigger] sums@[j]@[d] == cluster_sum(
                    samples@,
                    centroids@,
                    0,
                    s as int,
                    j,
                    d,
                ),
        decreases samples@.len() - s,
    {
        let sample = samples[s];
        let c = nearest_centroid(centroids, &sample);
        proof {
            let a = assignment(centroids@, samples@[s as int]@);
            assert(first_nearest(centroids@, sample@, c as int));
            lemma_first_nearest_unique(centroids@, sample@, c as int, a);
            lemma_cluster_bounds(samples@, centroids@, 0, s as int, c as int, 0);
        }
        let count = counts[c];
        counts.set(c, count + 1);
        let mut row = sums[c];
        let ghost before = row@;
        proof {
            assert forall|e: int| 0 <= e < 16 implies -32768 * (s as int) <= #[trigger] before[e] <= 32767 * (s as int) by {
                assert(before[e] == cluster_sum(samples@, centroids@, 0, s as int, c as int, e));
                lemma_cluster_bounds(samples@, centroids@, 0, s as int, c as int, e);
                let n = cluster_count(samples@, centroids@, 0, s as int, c as int);
                assert(n <= s);
                assert(-32768 * n >= -32768 * (s as int)) by (nonlinear_arith)
                    requires n <= s;
                assert(32767 * n <= 32767 * (s as int)) by (nonlinear_arith)
                    requires n <= s;
            }
        }
        let mut d: usize = 0;
        while d < 16
            invariant
                d <= 16,
                s < samples@.len() <= u32::MAX,
                forall|e: int| 0 <= e < d ==> #[trigger] row@[e] == before[e] + sample@[e],
                forall|e: int| d <= e < 16 ==> #[trigger] row@[e] == before[e],
                forall|e: int| 0 <= e < 16 ==> -32768 * (s as int) <= #[trigger] before[e] <= 32767 * (s as int),
            decreases 16 - d,
        {
            row[d] = row[d] + sample[d] as i64;
            d = d + 1;
        }
        sums.set(c, row);
        s = s + 1;
    }
    (sums, counts)
}

/// Adds a chunk's counts and sums into the totals.
pub fn merge_partials(
    sums: &mut Vec<[i64; 16]>,
    counts: &mut Vec<u32>,
    partial_sums: &Vec<[i64; 16]>,
    partial_counts: &Vec<u32>,
)
    requires
        old(sums)@.len() == old(counts)@.len(),
        partial_sums@.len() == old(sums)@.len(),
        partial_counts@.len() == old(counts)@.len(),
        forall|k: int| 0 <= k < old(counts)@.len() ==> old(counts)@[k] + partial_counts@[k] <= u32::MAX,
        forall|k: int, d: int|
            0 <= k < old(sums)@.len() && 0 <= d < 16 ==> i64::MIN <= #[trigger] old(sums)@[k]@[d]
                + partial_sums@[k]@[d] <= i64::MAX,
    ensures
        final(sums)@.len() == old(sums)@.len(),
        final(counts)@.len() == old(counts)@.len(),
        forall|k: int| 0 <= k < old(counts)@.len() ==> #[trigger] final(counts)@[k] == old(counts)@[k] + partial_counts@[k],
        forall|k: int, d: int|
            0 <= k < old(sums)@.len() && 0 <= d < 16 ==> #[trigger] final(sums)@[k]@[d] == old(sums)@[k]@[d]
                + partial_sums@[k]@[d],
{
    let mut k: usize = 0;
    while k < counts.len()
        invariant
            sums@.len() == old(sums)@.len() == counts@.len() == old(counts)@.len(),
            partial_sums@.len() == sums@.len(),
            partial_counts@.len() == counts@.len(),
            k <= counts@.len(),
            forall|j: int| 0 <= j < old(counts)@.len() ==> old(counts)@[j] + partial_counts@[j] <= u32::MAX,
            forall|j: int, d: int|
                0 <= j < old(sums)@.len() && 0 <= d < 16 ==> i64::MIN <= #[trigger] old(sums)@[j]@[d]
                    + partial_sums@[j]@[d] <= i64::MAX,
            forall|j: int| 0 <= j < k ==> #[trigger] counts@[j] == old(counts)@[j] + partial_counts@[j],
            forall|j: int| k <= j < counts@.len() ==> #[trigger] counts@[j] == old(counts)@[j],
            forall|j: int, d: int| 0 <= j < k && 0 <= d < 16 ==> #[trigger] sums@[j]@[d] == old(sums)@[j]@[d] + partial_sums@[j]@[d],
            forall|j: int| k <= j < sums@.len() ==> #[trigger] sums@[j] == old(sums)@[j],
        decreases counts@.len() - k,
    {
        let count = counts[k] + partial_counts[k];
        counts.set(k, count);
        let mut row = sums[k];
        let other = partial_sums[k];
        let ghost before = row@;
        let mut d: usize = 0;
        while d < 16
            invariant
                d <= 16,
                before == old(sums)@[k as int]@,
                other == partial_sums@[k as int],
                forall|e: int| 0 <= e < 16 ==> i64::MIN <= #[trigger] before[e] + other@[e] <= i64::MAX,
                forall|e: int| 0 <= e < d ==> #[trigger] row@[e] == before[e] + other@[e],
                forall|e: int| d <= e < 16 ==> #[trigger] row@[e] == before[e],
            decreases 16 - d,
        {
            row[d] = row[d] + other[d];
            d = d + 1;
        }
        sums.set(k, row);
        k = k + 1;
    }
}

/// The k-means update of one centroid coordinate: the cluster's mean,
/// rounded toward zero, or the old value for an empty cluster.
pub open spec fn updated_coordinate(old: i16, sum: int, count: int) -> int {
    if count == 0 { old as int } else { trunc_div(sum, count) }
}

/// Moves each centroid with a non-empty cluster to its cluster's mean.
pub fn update_centroids(centroids: &mut Vec<ReferenceVector>, sums: &Vec<[i64; 16]>, counts: &Vec<u32>)
    requires
        sums@.len() == old(centroids)@.len(),
        counts@.len() == old(centroids)@.len(),
        forall|k: int, d: int|
            0 <= k < counts@.len() && 0 <= d < 16 ==> -32768 * counts@[k] <= #[trigger] sums@[k]@[d] <= 32767
                * counts@[k],
    ensures
        final(centroids)@.len() == old(centroids)@.len(),
        forall|k: int, d: int|
            0 <= k < old(centroids)@.len() && 0 <= d < 16 ==> #[trigger] final(centroids)@[k]@[d]
                == updated_coordinate(old(centroids)@[k]@[d], sums@[k]@[d] as int, counts@[k] as int),
{
    let mut k: usize = 0;
    while k < centroids.len()
        invariant
            centroids@.len() == old(centroids)@.len() == sums@.len() == counts@.len(),
            k <= centroids@.len(),
            forall|j: int, d: int|
                0 <= j < counts@.len() && 0 <= d < 16 ==> -32768 * counts@[j] <= #[trigger] sums@[j]@[d] <= 32767
                    * counts@[j],
            forall|j: int, d: int|
                0 <= j < k && 0 <= d < 16 ==> #[trigger] centroids@[j]@[d] == updated_coordinate(
                    old(centroids)@[j]@[d],
                    sums@[j]@[d] as int,
                    counts@[j] as int,
                ),
            forall|j: int| k <= j < centroids@.len() ==> #[trigger] centroids@[j] == old(centroids)@[j],
        decreases centroids@.len() - k,
    {
        let count = counts[k];
        if count != 0 {
            let mut centroid = centroids[k];
            let row = sums[k];
            let mut d: usize = 0;
            while d < 16
                invariant
                    d <= 16,
                    count > 0,
                    count == counts@[k as int],
                    row == sums@[k as int],
                    forall|e: int| 0 <= e < 16 ==> -32768 * count <= #[trigger] row@[e] <= 32767 * count,
                    forall|e: int| 0 <= e < d ==> #[trigger] centroid@[e] == trunc_div(row@[e] as int, count as int),
                    forall|e: int| d <= e < 16 ==> #[trigger] centroid@[e] == old(centroids)@[k as int]@[e],
                decreases 16 - d,
            {
                let total = row[d];
                let mean = total / count as i64;
                proof {
                    let t = total as int;
                    let c = count as int;
                    if t >= 0 {
                        assert(t / c <= 32767) by (nonlinear_arith)
                            requires 0 <= t <= 32767 * c, c > 0;
                    } else {
                        assert((-t) / c <= 32768) by (nonlinear_arith)
                            requires 0 < -t <= 32768 * c, c > 0;
                    }
                }
                centroid[d] = mean as i16;
                d = d + 1;
            }
            centroids.set(k, centroid);
        }
        k = k + 1;
    }
}

/// One k-means step: every centroid with samples moves to their mean.
pub open spec fn kmeans_step_ok(
    samples: Seq<ReferenceVector>,
    before: Seq<ReferenceVector>,
    after: Seq<ReferenceVector>,
) -> bool {
    &&& after.len() == before.len()
    &&& forall|k: int, d: int|
        0 <= k < before.len() && 0 <= d < 16 ==> #[trigger] after[k]@[d] == updated_coordinate(
            before[k]@[d],
            cluster_sum(samples, before, 0, samples.len() as int, k, d),
            cluster_count(samples, before, 0, samples.len() as int, k),
        )
}

/// One k-means step over `samples`.
pub fn kmeans_step(samples: &[ReferenceVector], centroids: &mut Vec<ReferenceVector>)
    requires
        old(centroids)@.len() > 0,
        samples@.len() <= u32::MAX,
    ensures
        kmeans_step_ok(samples@, old(centroids)@, final(centroids)@),
{
    let (sums, counts) = accumulate(samples, centroids.as_slice());
    proof {
        assert forall|k: int, d: int| 0 <= k < counts@.len() && 0 <= d < 16 implies -32768 * counts@[k]
            <= #[trigger] sums@[k]@[d] <= 32767 * counts@[k] by {
            lemma_cluster_bounds(samples@, old(centroids)@, 0, samples@.len() as int, k, d);
        }
    }
    update_centroids(centroids, &sums, &counts);
}

/// `trace` starts from centroids spread evenly over `samples`, and each of its
/// states is one k-means step from the one before.
pub open spec fn kmeans_trace(samples: Seq<ReferenceVector>, centroid_count: int, trace: Seq<Seq<ReferenceVector>>) -> bool {
    &&& trace.len() >= 1
    &&& trace[0].len() == centroid_count
    &&& forall|c: int|
        0 <= c < centroid_count ==> #[trigger] trace[0][c] == samples[c * (samples.len() as int) / centroid_count]
    &&& forall|i: int| 0 <= i < trace.len() - 1 ==> #[trigger] kmeans_step_ok(samples, trace[i], trace[i + 1])
}

/// Centroids trained on `samples`: spread evenly over them, then moved by
/// `iterations` k-means steps.
pub fn train_centroids(samples: &[ReferenceVector], centroid_count: usize, iterations: usize) -> (r: Vec<ReferenceVector>)
    requires
        centroid_count > 0,
        samples@.len() > 0,
        samples@.len() <= u32::MAX,
    ensures
        r@.len() == centroid_count,
        exists|trace: Seq<Seq<ReferenceVector>>|
            #[trigger] kmeans_trace(samples@, centroid_count as int, trace) && trace.len() == iterations + 1
                && trace.last() == r@,
{
    let mut centroids = initial_centroids(samples, centroid_count);
    let ghost mut trace: Seq<Seq<ReferenceVector>> = seq![centroids@];
    let mut iteration: usize = 0;
    while iteration < iterations
        invariant
            centroid_count > 0,
            samples@.len() <= u32::MAX,
            centroids@.len() == centroid_count,
            iteration <= iterations,
            kmeans_trace(samples@, centroid_count as int, trace),
            trace.len() == iteration + 1,
            trace.last() == centroids@,
        decreases iterations - iteration,
    {
        let ghost before = trace;
        kmeans_step(samples, &mut centroids);
        proof {
            trace = trace.push(centroids@);
            assert forall|i: int| 0 <= i < trace.len() - 1 implies #[trigger] kmeans_step_ok(samples@, trace[i], trace[i + 1]) by {
                if i < trace.len() - 2 {
                    assert(trace[i] == before[i] && trace[i + 1] == before[i + 1]);
                }
            }
        }
        iteration = iteration + 1;
    }
    centroids
}

/// `r` holds `count` distinct centroids, and no centroid left out is nearer
/// to `v` than one kept.
pub open spec fn nearest_set(centroids: Seq<ReferenceVector>, v: Seq<i16>, count: int, r: Seq<usize>) -> bool {
    &&& r.len() == count
    &&& forall|i: int| 0 <= i < count ==> #[trigger] r[i] < centroids.len()
    &&& forall|i: int, j: int| 0 <= i < j < count ==> r[i] != r[j]
    &&& forall|j: int, i: int|
        0 <= j < centroids.len() && 0 <= i < count && !r.contains(j as usize) ==> squared_distance(
            v,
            centroids[r[i] as int]@,
        ) <= squared_distance(v, #[trigger] centroids[j]@) && #[trigger] r[i] < centroids.len()
}

/// Slot `r` holds the largest distance, and no earlier slot does.
pub open spec fn is_first_max(d: Seq<u64>, r: int) -> bool {
    &&& 0 <= r < d.len()
    &&& forall|j: int| 0 <= j < d.len() ==> #[trigger] d[j] <= d[r]
    &&& forall|j: int| 0 <= j < r ==> #[trigger] d[j] < d[r]
}

/// The first slot holding the largest distance.
pub open spec fn first_max_slot(d: Seq<u64>) -> int {
    choose|r: int| #[trigger] is_first_max(d, r)
}

proof fn lemma_first_max_slot(d: Seq<u64>, r: int)
    requires
        is_first_max(d, r),
    ensures
        first_max_slot(d) == r,
{
    let f = first_max_slot(d);
    assert(is_first_max(d, f));
    assert(d[f] <= d[r] && d[r] <= d[f]);
    if f < r {
        assert(d[f] < d[r]);
    } else if r < f {
        assert(d[r] < d[f]);
    }
}

/// The `count` slots of centroid indices and distances, how many are filled
/// and the farthest slot, after offering the first `k` centroids: the first
/// `count` fill the slots in order; after that a centroid nearer than the
/// farthest kept one takes its slot, and the farthest slot is found again.
pub open spec fn kept_after(centroids: Seq<ReferenceVector>, v: Seq<i16>, count: int, k: int) -> (
    Seq<usize>,
    Seq<u64>,
    int,
    int,
)
    decreases k,
{
    if k <= 0 {
        (Seq::new(count as nat, |i: int| 0usize), Seq::new(count as nat, |i: int| u64::MAX), 0, 0)
    } else {
        let (nearest, distances, filled, farthest) = kept_after(centroids, v, count, k - 1);
        let index = (k - 1) as usize;
        let distance = squared_distance(v, centroids[k - 1]@) as u64;
        if filled < count {
            let d = distances.update(filled, distance);
            (nearest.update(filled, index), d, filled + 1, if distance > d[farthest] { filled } else { farthest })
        } else if distance < distances[farthest] {
            let d = distances.update(farthest, distance);
            (nearest.update(farthest, index), d, filled, first_max_slot(d))
        } else {
            (nearest, distances, filled, farthest)
        }
    }
}

/// The centroid slots `nearest_centroids` gives.
pub open spec fn spec_nearest_centroids(centroids: Seq<ReferenceVector>, v: Seq<i16>, count: int) -> Seq<usize> {
    kept_after(centroids, v, count, centroids.len() as int).0
}

/// The `count` centroids nearest to `vector`, each in the slot it took when
/// it was kept (see `kept_after`). With fewer centroids than `count`, all of
/// them in order, then zeros.
pub fn nearest_centroids(centroids: &[ReferenceVector], vector: &ReferenceVector, count: usize) -> (r: Vec<usize>)
    requires
        count > 0,
    ensures
        centroids@.len() >= count ==> nearest_set(centroids@, vector@, count as int, r@),
        centroids@.len() < count ==> r@.len() == count && (forall|i: int|
            0 <= i < count ==> #[trigger] r@[i] == if i < centroids@.len() { i as usize } else { 0usize }),
        r@ == spec_nearest_centroids(centroids@, vector@, count as int),
{
    let mut nearest: Vec<usize> = Vec::new();
    let mut distances: Vec<u64> = Vec::new();
    let mut k: usize = 0;
    while k < count
        invariant
            k <= count,
            nearest@.len() == k,
            distances@.len() == k,
            forall|i: int| 0 <= i < k ==> #[trigger] nearest@[i] == 0 && distances@[i] == u64::MAX,
        decreases count - k,
    {
        nearest.push(0);
        distances.push(u64::MAX);
        k = k + 1;
    }
    let mut filled: usize = 0;
    let mut farthest: usize = 0;
    let mut index: usize = 0;
    assert(nearest@ =~= kept_after(centroids@, vector@, count as int, 0).0);
    assert forall|i: int| 0 <= i < count implies #[trigger] distances@[i] == u64::MAX by {
        assert(nearest@[i] == 0);
    }
    assert(distances@ =~= kept_after(centroids@, vector@, count as int, 0).1);
    while index < centroids.len()
        invariant
            (nearest@, distances@, filled as int, farthest as int) == kept_after(
                centroids@,
                vector@,
                count as int,
                index as int,
            ),
            count > 0,
            nearest@.len() == count,
            distances@.len() == count,
            index <= centroids@.len(),
            filled == if index < count { index as int } else { count as int },
            farthest < count,
            filled > 0 ==> farthest < filled,
            filled == 0 ==> farthest == 0,
            forall|i: int| 0 <= i < filled ==> #[trigger] nearest@[i] < index,
            forall|i: int| 0 <= i < filled ==> #[trigger] distances@[i] == squared_distance(vector@, centroids@[nearest@[i] as int]@),
            forall|i: int| filled <= i < count ==> #[trigger] nearest@[i] == 0 && distances@[i] == u64::MAX,
            forall|i: int| 0 <= i < filled ==> #[trigger] distances@[i] <= distances@[farthest as int],
            forall|i: int, j: int| 0 <= i < j < filled ==> nearest@[i] != nearest@[j],
            filled < count ==> forall|i: int| 0 <= i < filled ==> #[trigger] nearest@[i] == i,
            forall|j: int|
                0 <= j < index && !nearest@.subrange(0, filled as int).contains(j as usize) ==> distances@[farthest as int]
                    <= squared_distance(vector@, #[trigger] centroids@[j]@),
        decreases centroids@.len() - index,
    {
        let centroid = centroids[index];
        proof {
            lemma_partial_sq_bounds(vector@, centroid@, 16);
        }
        let limit = if filled < count { u64::MAX } else { distances[farthest] };
        let distance = distance2_prefix_limited(vector, &centroid, 16, limit);
        let ghost old_nearest = nearest@;
        let ghost old_distances = distances@;
        let ghost old_far = farthest;
        let ghost old_filled = filled;
        assert(forall|i: int| old_filled <= i < count ==> #[trigger] old_nearest[i] == 0 && old_distances[i] == u64::MAX);
        if filled < count {
            nearest.set(filled, index);
            distances.set(filled, distance);
            if distance > distances[farthest] {
                farthest = filled;
            }
            filled = filled + 1;
            proof {
                assert forall|i: int| filled <= i < count implies #[trigger] nearest@[i] == 0 && distances@[i] == u64::MAX by {
                    assert(old_filled <= i);
                    assert(old_nearest[i] == 0);
                    assert(nearest@[i] == old_nearest[i]);
                }
                assert forall|j: int|
                    0 <= j < index + 1 && !nearest@.subrange(0, filled as int).contains(j as usize) implies distances@[farthest as int]
                    <= squared_distance(vector@, #[trigger] centroids@[j]@) by {
                    if j < index {
                        assert(nearest@.subrange(0, filled as int)[j] == j as usize);
                    } else {
                        assert(nearest@.subrange(0, filled as int)[index as int] == index);
                    }
                }
            }
        } else if distance < distances[farthest] {
            nearest.set(farthest, index);
            distances.set(farthest, distance);
            farthest = farthest_slot_in(distances.as_slice());
            proof {
                lemma_first_max_slot(distances@, farthest as int);
            }
            proof {
                assert forall|j: int|
                    0 <= j < index + 1 && !nearest@.subrange(0, filled as int).contains(j as usize) implies distances@[farthest as int]
                    <= squared_distance(vector@, #[trigger] centroids@[j]@) by {
                    assert(distances@[farthest as int] <= old_distances[old_far as int]);
                    if j == old_nearest[old_far as int] {
                    } else if j < index {
                        if old_nearest.subrange(0, filled as int).contains(j as usize) {
                            let t = choose|t: int| 0 <= t < filled && old_nearest.subrange(0, filled as int)[t] == j as usize;
                            assert(t != old_far);
                            assert(nearest@.subrange(0, filled as int)[t] == j as usize);
                        }
                    } else {
                        assert(nearest@.subrange(0, filled as int)[old_far as int] == index);
                    }
                }
            }
        } else {
            proof {
                assert forall|j: int|
                    0 <= j < index + 1 && !nearest@.subrange(0, filled as int).contains(j as usize) implies distances@[farthest as int]
                    <= squared_distance(vector@, #[trigger] centroids@[j]@) by {
                }
            }
        }
        index = index + 1;
    }
    proof {
        if centroids@.len() >= count {
            assert forall|j: int, i: int|
                0 <= j < centroids@.len() && 0 <= i < count && !nearest@.contains(j as usize) implies squared_distance(
                vector@,
                centroids@[nearest@[i] as int]@,
            ) <= squared_distance(vector@, #[trigger] centroids@[j]@) && #[trigger] nearest@[i] < centroids@.len() by {
                assert(nearest@.subrange(0, count as int) =~= nearest@);
                assert(distances@[i] <= distances@[farthest as int]);
            }
        } else {
            assert forall|i: int| 0 <= i < count implies #[trigger] nearest@[i] == if i < centroids@.len() {
                i as usize
            } else {
                0usize
            } by {}
        }
    }
    nearest
}

/// How many of `b[0..p]` are `c`.
pub open spec fn count_upto(b: Seq<u32>, p: int, c: int) -> int
    decreases p,
{
    if p <= 0 { 0 } else { count_upto(b, p - 1, c) + if b[p - 1] == c { 1int } else { 0int } }
}

/// How many of `b[0..p]` are below `c`.
pub open spec fn below_upto(b: Seq<u32>, p: int, c: int) -> int
    decreases c,
{
    if c <= 0 { 0 } else { below_upto(b, p, c - 1) + count_upto(b, p, c - 1) }
}

proof fn lemma_count_upto_nonneg(b: Seq<u32>, p: int, c: int)
    ensures
        0 <= count_upto(b, p, c),
    decreases p,
{
    if p > 0 {
        lemma_count_upto_nonneg(b, p - 1, c);
    }
}

proof fn lemma_count_upto_bounds(b: Seq<u32>, p: int, q: int, c: int)
    requires
        0 <= p <= q <= b.len(),
    ensures
        0 <= count_upto(b, p, c) <= count_upto(b, q, c),
        p < q && b[p] == c ==> count_upto(b, p, c) < count_upto(b, q, c),
    decreases q - p,
{
    lemma_count_upto_nonneg(b, p, c);
    if p < q {
        lemma_count_upto_bounds(b, p, q - 1, c);
        if b[p] == c {
            lemma_count_upto_bounds(b, p + 1, q, c);
        }
    }
}

proof fn lemma_below_step(b: Seq<u32>, p: int, c: int)
    requires
        0 <= p < b.len(),
        0 <= c,
    ensures
        below_upto(b, p + 1, c) == below_upto(b, p, c) + if b[p] < c { 1int } else { 0int },
    decreases c,
{
    if c > 0 {
        lemma_below_step(b, p, c - 1);
    }
}

proof fn lemma_below_all(b: Seq<u32>, p: int, centroid_count: int)
    requires
        0 <= p <= b.len(),
        0 <= centroid_count,
        forall|q: int| 0 <= q < b.len() ==> #[trigger] b[q] < centroid_count,
    ensures
        below_upto(b, p, centroid_count) == p,
    decreases p,
{
    if p > 0 {
        lemma_below_all(b, p - 1, centroid_count);
        lemma_below_step(b, p - 1, centroid_count);
    } else {
        lemma_below_zero(b, centroid_count);
    }
}

proof fn lemma_below_zero(b: Seq<u32>, c: int)
    ensures
        below_upto(b, 0, c) == 0,
    decreases c,
{
    if c > 0 {
        lemma_below_zero(b, c - 1);
    }
}

proof fn lemma_below_monotone(b: Seq<u32>, p: int, c: int, d: int)
    requires
        0 <= p <= b.len(),
        0 <= c <= d,
    ensures
        below_upto(b, p, c) + (if c < d { count_upto(b, p, c) } else { 0int }) <= below_upto(b, p, d),
    decreases d - c,
{
    if c < d {
        lemma_count_upto_bounds(b, 0, p, d - 1);
        if c < d - 1 {
            lemma_below_monotone(b, p, c, d - 1);
            lemma_count_upto_bounds(b, 0, p, c);
        }
    }
}

/// The slot of position `p` in the candidate lists: its centroid's list
/// start, plus how many earlier positions share that centroid.
pub open spec fn candidate_slot(offsets: Seq<u32>, b: Seq<u32>, p: int) -> int {
    offsets[b[p] as int] + count_upto(b, p, b[p] as int)
}

proof fn lemma_slot_range(offsets: Seq<u32>, b: Seq<u32>, centroid_count: int, q: int)
    requires
        0 <= q < b.len(),
        offsets.len() == centroid_count + 1,
        forall|p: int| 0 <= p < b.len() ==> #[trigger] b[p] < centroid_count,
        forall|c: int| 0 <= c <= centroid_count ==> #[trigger] offsets[c] == below_upto(b, b.len() as int, c),
    ensures
        offsets[b[q] as int] <= candidate_slot(offsets, b, q) < offsets[b[q] + 1] <= b.len(),
{
    let n = b.len() as int;
    let d = b[q] as int;
    lemma_below_all(b, n, centroid_count);
    lemma_count_upto_bounds(b, q, n, d);
    lemma_count_upto_nonneg(b, n, d + 1);
    lemma_below_monotone(b, n, d, d + 1);
    lemma_below_monotone(b, n, d + 1, centroid_count);
    assert(offsets[d] == below_upto(b, n, d));
    assert(offsets[d + 1] == below_upto(b, n, d + 1));
}

/// The candidate lists: positions grouped by their centroid, in order.
pub fn candidate_indices(offsets: &[u32], by_position: &[u32], centroid_count: usize) -> (r: Vec<u32>)
    requires
        by_position@.len() <= u32::MAX,
        offsets@.len() == centroid_count + 1,
        forall|p: int| 0 <= p < by_position@.len() ==> #[trigger] by_position@[p] < centroid_count,
        forall|c: int| 0 <= c <= centroid_count ==> #[trigger] offsets@[c] == below_upto(by_position@, by_position@.len() as int, c),
    ensures
        r@.len() == by_position@.len(),
        forall|p: int| 0 <= p < by_position@.len() ==> #[trigger] r@[candidate_slot(offsets@, by_position@, p)] == p,
        forall|s: int| 0 <= s < by_position@.len() ==> #[trigger] r@[s] < by_position@.len(),
{
    let n = by_position.len();
    let ghost b = by_position@;
    let mut cursors: Vec<u32> = Vec::new();
    let mut c: usize = 0;
    while c < centroid_count
        invariant
            c <= centroid_count,
            offsets@.len() == centroid_count + 1,
            cursors@.len() == c,
            forall|j: int| 0 <= j < c ==> #[trigger] cursors@[j] == offsets@[j],
        decreases centroid_count - c,
    {
        cursors.push(offsets[c]);
        c = c + 1;
    }
    let mut indices: Vec<u32> = Vec::new();
    let mut k: usize = 0;
    while k < n
        invariant
            k <= n,
            indices@.len() == k,
            forall|t: int| 0 <= t < k ==> #[trigger] indices@[t] == 0,
        decreases n - k,
    {
        indices.push(0);
        k = k + 1;
    }
    proof {
        lemma_below_all(b, n as int, centroid_count as int);
    }
    let mut p: usize = 0;
    while p < n
        invariant
            n == b.len(),
            b == by_position@,
            n <= u32::MAX,
            p <= n,
            indices@.len() == n,
            cursors@.len() == centroid_count,
            offsets@.len() == centroid_count + 1,
            forall|q: int| 0 <= q < n ==> #[trigger] b[q] < centroid_count,
            forall|c: int| 0 <= c <= centroid_count ==> #[trigger] offsets@[c] == below_upto(b, n as int, c),
            below_upto(b, n as int, centroid_count as int) == n,
            forall|c: int| 0 <= c < centroid_count ==> #[trigger] cursors@[c] == offsets@[c] + count_upto(b, p as int, c),
            forall|q: int| 0 <= q < p ==> #[trigger] indices@[candidate_slot(offsets@, b, q)] == q,
            forall|t: int| 0 <= t < n ==> #[trigger] indices@[t] < n,
        decreases n - p,
    {
        let c = by_position[p] as usize;
        let slot = cursors[c];
        proof {
            lemma_count_upto_bounds(b, p as int, n as int, c as int);
            lemma_below_monotone(b, n as int, c as int, c + 1);
            lemma_below_monotone(b, n as int, c + 1, centroid_count as int);
            lemma_count_upto_nonneg(b, n as int, c + 1);
            assert(cursors@[c as int] == offsets@[c as int] + count_upto(b, p as int, c as int));
            assert(slot == candidate_slot(offsets@, b, p as int));
            assert(offsets@[c as int] == below_upto(b, n as int, c as int));
            assert(offsets@[c + 1] == below_upto(b, n as int, c + 1));
            assert(slot < offsets@[c + 1]);
            assert(offsets@[c + 1] <= n);
            assert forall|q: int| 0 <= q < p implies candidate_slot(offsets@, b, q) != slot by {
                let d = b[q] as int;
                assert(offsets@[d] == below_upto(b, n as int, d));
                assert(offsets@[d + 1] == below_upto(b, n as int, d + 1));
                lemma_count_upto_bounds(b, q, p as int, d);
                lemma_count_upto_bounds(b, q + 1, n as int, d);
                lemma_count_upto_nonneg(b, n as int, d + 1);
                lemma_count_upto_nonneg(b, q, d);
                if d < c {
                    lemma_below_monotone(b, n as int, d, d + 1);
                    lemma_below_monotone(b, n as int, d + 1, c as int);
                    lemma_count_upto_bounds(b, q, n as int, d);
                } else if d > c {
                    lemma_below_monotone(b, n as int, c + 1, d);
                    lemma_count_upto_bounds(b, 0, q, d);
                }
            }
        }
        let ghost before = indices@;
        indices.set(slot as usize, p as u32);
        cursors.set(c, slot + 1);
        proof {
            assert forall|q: int| 0 <= q < p + 1 implies #[trigger] indices@[candidate_slot(offsets@, b, q)] == q by {
                if q < p {
                    lemma_slot_range(offsets@, b, centroid_count as int, q);
                    assert(candidate_slot(offsets@, b, q) != slot);
                    assert(before[candidate_slot(offsets@, b, q)] == q);
                    assert(indices@[candidate_slot(offsets@, b, q)] == before[candidate_slot(offsets@, b, q)]);
                } else {
                    assert(candidate_slot(offsets@, b, q) == slot);
                    assert(indices@[slot as int] == p as u32);
                }
            }
        }
        p = p + 1;
    }
    indices
}

/// Each reference's nearest centroid, and where each centroid's candidate
/// list starts in the lists grouped by centroid.
pub struct Assignments {
    pub offsets: Vec<u32>,
    pub by_position: Vec<u32>,
}

proof fn lemma_offsets_are_below(counts: Seq<u32>, b: Seq<u32>, c: int)
    requires
        0 <= c <= counts.len(),
        forall|j: int| 0 <= j < counts.len() ==> #[trigger] counts[j] == count_upto(b, b.len() as int, j),
    ensures
        counts_before(counts, c) == below_upto(b, b.len() as int, c),
    decreases c,
{
    if c > 0 {
        lemma_offsets_are_below(counts, b, c - 1);
    }
}

/// Assigns every reference to its nearest centroid, and lays out the
/// candidate lists.
pub fn assign_references(vectors: &[ReferenceVector], centroids: &[ReferenceVector]) -> (r: Assignments)
    requires
        centroids@.len() > 0,
        centroids@.len() < u32::MAX,
        vectors@.len() <= u32::MAX,
    ensures
        r.by_position@.len() == vectors@.len(),
        forall|p: int| 0 <= p < vectors@.len() ==> first_nearest(centroids@, vectors@[p]@, #[trigger] r.by_position@[p] as int),
        r.offsets@.len() == centroids@.len() + 1,
        forall|c: int|
            0 <= c <= centroids@.len() ==> #[trigger] r.offsets@[c] == below_upto(
                r.by_position@,
                vectors@.len() as int,
                c,
            ),
{
    let mut by_position: Vec<u32> = Vec::new();
    let mut counts: Vec<u32> = Vec::new();
    let mut c: usize = 0;
    while c < centroids.len()
        invariant
            c <= centroids@.len(),
            counts@.len() == c,
            forall|j: int| 0 <= j < c ==> #[trigger] counts@[j] == 0,
        decreases centroids@.len() - c,
    {
        counts.push(0);
        c = c + 1;
    }
    let mut p: usize = 0;
    while p < vectors.len()
        invariant
            centroids@.len() > 0,
            centroids@.len() < u32::MAX,
            vectors@.len() <= u32::MAX,
            p <= vectors@.len(),
            by_position@.len() == p,
            counts@.len() == centroids@.len(),
            forall|q: int| 0 <= q < p ==> first_nearest(centroids@, vectors@[q]@, #[trigger] by_position@[q] as int),
            forall|j: int| 0 <= j < centroids@.len() ==> #[trigger] counts@[j] == count_upto(by_position@, p as int, j),
        decreases vectors@.len() - p,
    {
        let vector = vectors[p];
        let nearest = nearest_centroid(centroids, &vector);
        proof {
            lemma_count_upto_at_most(by_position@, p as int, nearest as int);
            assert(counts@[nearest as int] <= p);
        }
        let ghost before = by_position@;
        by_position.push(nearest as u32);
        let count = counts[nearest];
        counts.set(nearest, count + 1);
        proof {
            assert forall|j: int| 0 <= j < centroids@.len() implies #[trigger] counts@[j] == count_upto(
                by_position@,
                p + 1,
                j,
            ) by {
                assert(by_position@.subrange(0, p as int) =~= before);
                lemma_count_prefix(by_position@, before, p as int, j);
            }
        }
        p = p + 1;
    }
    proof {
        lemma_count_sum_bound(by_position@, vectors@.len() as int, centroids@.len() as int);
        assert forall|j: int| 0 <= j < counts@.len() implies #[trigger] counts@[j] == count_upto(
            by_position@,
            by_position@.len() as int,
            j,
        ) by {}
        lemma_offsets_are_below(counts@, by_position@, counts@.len() as int);
    }
    let offsets = candidate_list_offsets(counts.as_slice());
    proof {
        assert forall|c: int| 0 <= c <= centroids@.len() implies #[trigger] offsets@[c] == below_upto(
            by_position@,
            vectors@.len() as int,
            c,
        ) by {
            lemma_offsets_are_below(counts@, by_position@, c);
        }
    }
    Assignments { offsets, by_position }
}

proof fn lemma_count_upto_at_most(b: Seq<u32>, p: int, c: int)
    requires
        0 <= p,
    ensures
        count_upto(b, p, c) <= p,
    decreases p,
{
    if p > 0 {
        lemma_count_upto_at_most(b, p - 1, c);
    }
}

/// Counting in a sequence only looks at its first `p` items.
proof fn lemma_count_prefix(b: Seq<u32>, prefix: Seq<u32>, p: int, c: int)
    requires
        0 <= p <= b.len(),
        prefix == b.subrange(0, p),
    ensures
        count_upto(b, p, c) == count_upto(prefix, p, c),
    decreases p,
{
    if p > 0 {
        lemma_count_prefix(b, b.subrange(0, p - 1), p - 1, c);
        lemma_count_prefix(prefix, prefix.subrange(0, p - 1), p - 1, c);
        assert(b.subrange(0, p - 1) =~= prefix.subrange(0, p - 1));
    }
}

/// All items counted by centroid add up to the items.
proof fn lemma_count_sum_bound(b: Seq<u32>, n: int, centroid_count: int)
    requires
        0 <= n <= b.len(),
        0 <= centroid_count,
        forall|q: int| 0 <= q < n ==> #[trigger] b[q] < centroid_count,
    ensures
        below_upto(b, n, centroid_count) == n,
{
    assert forall|q: int| 0 <= q < b.subrange(0, n).len() implies #[trigger] b.subrange(0, n)[q] < centroid_count by {
        assert(b.subrange(0, n)[q] == b[q]);
    }
    lemma_below_all(b.subrange(0, n), n, centroid_count);
    lemma_below_prefix(b, n, centroid_count);
}

proof fn lemma_below_prefix(b: Seq<u32>, n: int, c: int)
    requires
        0 <= n <= b.len(),
        0 <= c,
    ensures
        below_upto(b, n, c) == below_upto(b.subrange(0, n), n, c),
    decreases c,
{
    if c > 0 {
        lemma_below_prefix(b, n, c - 1);
        lemma_count_prefix(b, b.subrange(0, n), n, c - 1);
    }
}

/// The codeword a subvector is assigned to: the first nearest.
pub open spec fn code_assignment(codebook: Seq<PqSubVector>, v: Seq<i16>) -> int {
    choose|r: int| first_nearest_codeword(codebook, v, r)
}

proof fn lemma_first_nearest_codeword_unique(codebook: Seq<PqSubVector>, v: Seq<i16>, r1: int, r2: int)
    requires
        first_nearest_codeword(codebook, v, r1),
        first_nearest_codeword(codebook, v, r2),
    ensures
        r1 == r2,
{
    if r1 < r2 {
        assert(partial_sq(v, codebook[r2]@, 4) < partial_sq(v, codebook[r1]@, 4));
    } else if r2 < r1 {
        assert(partial_sq(v, codebook[r1]@, 4) < partial_sq(v, codebook[r2]@, 4));
    }
}

/// Subquantizer `sq`'s part of a vector, as a sequence.
pub open spec fn sub_of(v: Seq<i16>, sq: int) -> Seq<i16> {
    Seq::new(4, |d: int| v[4 * sq + d])
}

/// How many of `samples[0..n]` have their subvector `sq` assigned to codeword `k`.
pub open spec fn code_count(samples: Seq<ReferenceVector>, sq: int, codebook: Seq<PqSubVector>, n: int, k: int) -> int
    decreases n,
{
    if n <= 0 {
        0
    } else {
        code_count(samples, sq, codebook, n - 1, k) + if code_assignment(codebook, sub_of(samples[n - 1]@, sq)) == k {
            1int
        } else {
            0int
        }
    }
}

/// The sum of coordinate `d` of the subvectors `sq` of `samples[0..n]` assigned to codeword `k`.
pub open spec fn code_sum(samples: Seq<ReferenceVector>, sq: int, codebook: Seq<PqSubVector>, n: int, k: int, d: int) -> int
    decreases n,
{
    if n <= 0 {
        0
    } else {
        code_sum(samples, sq, codebook, n - 1, k, d) + if code_assignment(codebook, sub_of(samples[n - 1]@, sq)) == k {
            samples[n - 1]@[4 * sq + d] as int
        } else {
            0int
        }
    }
}

proof fn lemma_code_bounds(samples: Seq<ReferenceVector>, sq: int, codebook: Seq<PqSubVector>, n: int, k: int, d: int)
    requires
        0 <= n,
    ensures
        0 <= code_count(samples, sq, codebook, n, k) <= n,
        -32768 * code_count(samples, sq, codebook, n, k) <= code_sum(samples, sq, codebook, n, k, d) <= 32767
            * code_count(samples, sq, codebook, n, k),
    decreases n,
{
    if n > 0 {
        lemma_code_bounds(samples, sq, codebook, n - 1, k, d);
    }
}

/// One k-means step on the subvectors `sq` of `samples`: every codeword with
/// subvectors assigned moves to their mean, rounded toward zero.
pub open spec fn code_step_ok(
    samples: Seq<ReferenceVector>,
    sq: int,
    before: Seq<PqSubVector>,
    after: Seq<PqSubVector>,
) -> bool {
    &&& after.len() == before.len()
    &&& forall|k: int, d: int|
        0 <= k < before.len() && 0 <= d < 4 ==> #[trigger] after[k]@[d] == updated_coordinate(
            before[k]@[d],
            code_sum(samples, sq, before, samples.len() as int, k, d),
            code_count(samples, sq, before, samples.len() as int, k),
        )
}

/// One k-means step of a subquantizer's codebook.
pub fn refine_pq_codebook(samples: &[ReferenceVector], subquantizer: usize, codebook: &mut Vec<PqSubVector>)
    requires
        subquantizer < 4,
        old(codebook)@.len() > 0,
        samples@.len() <= u32::MAX,
    ensures
        code_step_ok(samples@, subquantizer as int, old(codebook)@, final(codebook)@),
{
    let ghost book = codebook@;
    let mut sums: Vec<[i64; 4]> = Vec::new();
    let mut counts: Vec<u32> = Vec::new();
    let mut k: usize = 0;
    while k < codebook.len()
        invariant
            k <= codebook@.len(),
            sums@.len() == k,
            counts@.len() == k,
            forall|j: int| 0 <= j < k ==> #[trigger] counts@[j] == 0,
            forall|j: int, d: int| 0 <= j < k && 0 <= d < 4 ==> #[trigger] sums@[j]@[d] == 0,
        decreases codebook@.len() - k,
    {
        sums.push([0; 4]);
        counts.push(0);
        k = k + 1;
    }
    let mut s: usize = 0;
    while s < samples.len()
        invariant
            subquantizer < 4,
            book == codebook@,
            book.len() > 0,
            samples@.len() <= u32::MAX,
            s <= samples@.len(),
            sums@.len() == book.len(),
            counts@.len() == book.len(),
            forall|j: int| 0 <= j < book.len() ==> #[trigger] counts@[j] == code_count(samples@, subquantizer as int, book, s as int, j),
            forall|j: int, d: int|
                0 <= j < book.len() && 0 <= d < 4 ==> #[trigger] sums@[j]@[d] == code_sum(
                    samples@,
                    subquantizer as int,
                    book,
                    s as int,
                    j,
                    d,
                ),
        decreases samples@.len() - s,
    {
        let sample = samples[s];
        let value = subvector(&sample, subquantizer);
        let c = nearest_codeword(codebook.as_slice(), &value);
        proof {
            assert(value@ =~= sub_of(samples@[s as int]@, subquantizer as int));
            let a = code_assignment(book, sub_of(samples@[s as int]@, subquantizer as int));
            lemma_first_nearest_codeword_unique(book, value@, c as int, a);
            lemma_code_bounds(samples@, subquantizer as int, book, s as int, c as int, 0);
        }
        let count = counts[c];
        counts.set(c, count + 1);
        let mut row = sums[c];
        let ghost before = row@;
        proof {
            assert forall|e: int| 0 <= e < 4 implies -32768 * (s as int) <= #[trigger] before[e] <= 32767 * (s as int) by {
                lemma_code_bounds(samples@, subquantizer as int, book, s as int, c as int, e);
                let n = code_count(samples@, subquantizer as int, book, s as int, c as int);
                assert(-32768 * n >= -32768 * (s as int)) by (nonlinear_arith)
                    requires n <= s;
                assert(32767 * n <= 32767 * (s as int)) by (nonlinear_arith)
                    requires n <= s;
            }
        }
        let mut d: usize = 0;
        while d < 4
            invariant
                d <= 4,
                s < samples@.len() <= u32::MAX,
                forall|e: int| 0 <= e < d ==> #[trigger] row@[e] == before[e] + value@[e],
                forall|e: int| d <= e < 4 ==> #[trigger] row@[e] == before[e],
                forall|e: int| 0 <= e < 4 ==> -32768 * (s as int) <= #[trigger] before[e] <= 32767 * (s as int),
            decreases 4 - d,
        {
            row[d] = row[d] + value[d] as i64;
            d = d + 1;
        }
        sums.set(c, row);
        s = s + 1;
    }
    let mut k: usize = 0;
    while k < codebook.len()
        invariant
            subquantizer < 4,
            codebook@.len() == book.len() == sums@.len() == counts@.len(),
            k <= codebook@.len(),
            forall|j: int| 0 <= j < book.len() ==> #[trigger] counts@[j] == code_count(samples@, subquantizer as int, book, samples@.len() as int, j),
            forall|j: int, d: int|
                0 <= j < book.len() && 0 <= d < 4 ==> #[trigger] sums@[j]@[d] == code_sum(
                    samples@,
                    subquantizer as int,
                    book,
                    samples@.len() as int,
                    j,
                    d,
                ),
            forall|j: int, d: int|
                0 <= j < k && 0 <= d < 4 ==> #[trigger] codebook@[j]@[d] == updated_coordinate(
                    book[j]@[d],
                    code_sum(samples@, subquantizer as int, book, samples@.len() as int, j, d),
                    code_count(samples@, subquantizer as int, book, samples@.len() as int, j),
                ),
            forall|j: int| k <= j < codebook@.len() ==> #[trigger] codebook@[j] == book[j],
        decreases codebook@.len() - k,
    {
        let count = counts[k];
        if count != 0 {
            let mut codeword = codebook[k];
            let row = sums[k];
            proof {
                assert forall|e: int| 0 <= e < 4 implies -32768 * count <= #[trigger] row@[e] <= 32767 * count by {
                    lemma_code_bounds(samples@, subquantizer as int, book, samples@.len() as int, k as int, e);
                }
            }
            let mut d: usize = 0;
            while d < 4
                invariant
                    d <= 4,
                    count > 0,
                    count == counts@[k as int],
                    row == sums@[k as int],
                    forall|e: int| 0 <= e < 4 ==> -32768 * count <= #[trigger] row@[e] <= 32767 * count,
                    forall|e: int| 0 <= e < d ==> #[trigger] codeword@[e] == trunc_div(row@[e] as int, count as int),
                    forall|e: int| d <= e < 4 ==> #[trigger] codeword@[e] == book[k as int]@[e],
                decreases 4 - d,
            {
                let total = row[d];
                let mean = total / count as i64;
                proof {
                    let t = total as int;
                    let c = count as int;
                    if t >= 0 {
                        assert(t / c <= 32767) by (nonlinear_arith)
                            requires 0 <= t <= 32767 * c, c > 0;
                    } else {
                        assert((-t) / c <= 32768) by (nonlinear_arith)
                            requires 0 < -t <= 32768 * c, c > 0;
                    }
                }
                codeword[d] = mean as i16;
                d = d + 1;
            }
            codebook.set(k, codeword);
        }
        k = k + 1;
    }
}

/// The starting codebook of a subquantizer: the subvectors of 256 samples
/// spread evenly over `samples`.
pub fn initial_pq_codebook(samples: &[ReferenceVector], subquantizer: usize) -> (r: Vec<PqSubVector>)
    requires
        samples@.len() > 0,
        subquantizer < 4,
    ensures
        r@.len() == 256,
        forall|c: int| 0 <= c < 256 ==> #[trigger] r@[c]@ == sub_of(samples@[c * (samples@.len() as int) / 256]@, subquantizer as int),
{
    let mut codebook: Vec<PqSubVector> = Vec::new();
    let len = samples.len();
    let mut c: usize = 0;
    while c < 256
        invariant
            len == samples@.len(),
            len > 0,
            subquantizer < 4,
            c <= 256,
            codebook@.len() == c,
            forall|t: int| 0 <= t < c ==> #[trigger] codebook@[t]@ == sub_of(samples@[t * (len as int) / 256]@, subquantizer as int),
        decreases 256 - c,
    {
        proof {
            assert((c as int) * (len as int) <= 0xffff_ffff_ffff_ffff_ffff_ffff_ffff_ffff) by (nonlinear_arith)
                requires c <= 256, len <= 0xffff_ffff_ffff_ffff;
            assert((c as int) * (len as int) / 256 < len as int) by (nonlinear_arith)
                requires c < 256, 0 < len;
        }
        let product: u128 = c as u128 * len as u128;
        let index = (product / 256) as usize;
        let value = subvector(&samples[index], subquantizer);
        proof {
            assert(value@ =~= sub_of(samples@[index as int]@, subquantizer as int));
        }
        codebook.push(value);
        c = c + 1;
    }
    codebook
}

/// `trace` starts from a subquantizer's starting codebook, and each of its
/// states is one k-means step from the one before.
pub open spec fn code_trace(samples: Seq<ReferenceVector>, sq: int, trace: Seq<Seq<PqSubVector>>) -> bool {
    &&& trace.len() >= 1
    &&& trace[0].len() == 256
    &&& forall|c: int| 0 <= c < 256 ==> #[trigger] trace[0][c]@ == sub_of(samples[c * (samples.len() as int) / 256]@, sq)
    &&& forall|i: int| 0 <= i < trace.len() - 1 ==> #[trigger] code_step_ok(samples, sq, trace[i], trace[i + 1])
}

/// Subquantizer `sq`'s codebook in `books` is its starting codebook moved by
/// `iterations` k-means steps.
pub open spec fn codebook_trained(samples: Seq<ReferenceVector>, books: Seq<PqSubVector>, sq: int, iterations: int) -> bool {
    exists|trace: Seq<Seq<PqSubVector>>|
        #[trigger] code_trace(samples, sq, trace) && trace.len() == iterations + 1 && trace.last() == books.subrange(
            256 * sq,
            256 * sq + 256,
        )
}

/// The codebooks of the four subquantizers, one after the other: each its
/// starting codebook moved by `iterations` k-means steps.
pub fn train_pq_codebooks(samples: &[ReferenceVector], iterations: usize) -> (r: Vec<PqSubVector>)
    requires
        samples@.len() > 0,
        samples@.len() <= u32::MAX,
    ensures
        r@.len() == 1024,
        forall|sq: int| 0 <= sq < 4 ==> #[trigger] codebook_trained(samples@, r@, sq, iterations as int),
{
    let mut codebooks: Vec<PqSubVector> = Vec::new();
    let mut subquantizer: usize = 0;
    while subquantizer < 4
        invariant
            samples@.len() > 0,
            samples@.len() <= u32::MAX,
            subquantizer <= 4,
            codebooks@.len() == 256 * subquantizer,
            forall|sq: int| 0 <= sq < subquantizer ==> #[trigger] codebook_trained(samples@, codebooks@, sq, iterations as int),
        decreases 4 - subquantizer,
    {
        let mut codebook = initial_pq_codebook(samples, subquantizer);
        let ghost mut trace: Seq<Seq<PqSubVector>> = seq![codebook@];
        let mut iteration: usize = 0;
        while iteration < iterations
            invariant
                samples@.len() <= u32::MAX,
                subquantizer < 4,
                codebook@.len() == 256,
                iteration <= iterations,
                code_trace(samples@, subquantizer as int, trace),
                trace.len() == iteration + 1,
                trace.last() == codebook@,
            decreases iterations - iteration,
        {
            let ghost before = trace;
            refine_pq_codebook(samples, subquantizer, &mut codebook);
            proof {
                trace = trace.push(codebook@);
                assert forall|i: int| 0 <= i < trace.len() - 1 implies #[trigger] code_step_ok(
                    samples@,
                    subquantizer as int,
                    trace[i],
                    trace[i + 1],
                ) by {
                    if i < trace.len() - 2 {
                        assert(trace[i] == before[i] && trace[i + 1] == before[i + 1]);
                    }
                }
            }
            iteration = iteration + 1;
        }
        let ghost old_books = codebooks@;
        let mut c: usize = 0;
        while c < 256
            invariant
                c <= 256,
                codebook@.len() == 256,
                codebooks@.len() == old_books.len() + c,
                codebooks@.subrange(0, old_books.len() as int) == old_books,
                forall|t: int| 0 <= t < c ==> #[trigger] codebooks@[old_books.len() + t] == codebook@[t],
            decreases 256 - c,
        {
            codebooks.push(codebook[c]);
            proof {
                assert(codebooks@.subrange(0, old_books.len() as int) =~= old_books);
            }
            c = c + 1;
        }
        proof {
            assert(old_books.len() == 256 * subquantizer);
            assert forall|t: int| 0 <= t < 256 implies codebooks@.subrange(256 * subquantizer, 256 * subquantizer + 256)[t]
                == codebook@[t] by {
                assert(codebooks@[old_books.len() + t] == codebook@[t]);
            }
            assert(codebooks@.subrange(256 * subquantizer, 256 * subquantizer + 256) =~= codebook@);
            assert forall|sq: int| 0 <= sq < subquantizer + 1 implies #[trigger] codebook_trained(
                samples@,
                codebooks@,
                sq,
                iterations as int,
            ) by {
                if sq < subquantizer {
                    assert(codebook_trained(samples@, old_books, sq, iterations as int));
                    assert(codebooks@.subrange(256 * sq, 256 * sq + 256) =~= old_books.subrange(256 * sq, 256 * sq + 256));
                    let t = choose|t: Seq<Seq<PqSubVector>>| #[trigger] code_trace(samples@, sq, t) && t.len() == iterations + 1
                        && t.last() == old_books.subrange(256 * sq, 256 * sq + 256);
                    assert(code_trace(samples@, sq, t));
                } else {
                    assert(code_trace(samples@, sq, trace));
                }
            }
        }
        subquantizer = subquantizer + 1;
    }
    codebooks
}

/// Subquantizer `sq`'s part of the residual of `vector` from `centroid`.
pub open spec fn residual_sub(vector: Seq<i16>, centroid: Seq<i16>, sq: int) -> Seq<i16> {
    Seq::new(4, |d: int| saturating_sub(vector[4 * sq + d], centroid[4 * sq + d]))
}

/// The codes of a vector's residual from its centroid: for each subquantizer,
/// the first nearest codeword of its codebook.
pub fn encode_residual(vector: &ReferenceVector, centroid: &ReferenceVector, codebooks: &[PqSubVector]) -> (r: [u8; 4])
    requires
        codebooks@.len() == 1024,
    ensures
        forall|sq: int| 0 <= sq < 4 ==> #[trigger] first_nearest_codeword(
            codebooks@.subrange(256 * sq, 256 * sq + 256),
            residual_sub(vector@, centroid@, sq as int),
            r@[sq] as int,
        ),
{
    let residual = residual_vector(vector, centroid);
    let mut codes: [u8; 4] = [0; 4];
    let mut sq: usize = 0;
    while sq < 4
        invariant
            sq <= 4,
            codebooks@.len() == 1024,
            forall|d: int| 0 <= d < 16 ==> #[trigger] residual@[d] == saturating_sub(vector@[d], centroid@[d]),
            forall|t: int| 0 <= t < sq ==> #[trigger] first_nearest_codeword(
                codebooks@.subrange(256 * t, 256 * t + 256),
                residual_sub(vector@, centroid@, t),
                codes@[t] as int,
            ),
        decreases 4 - sq,
    {
        let value = subvector(&residual, sq);
        let start = sq * 256;
        let book = vstd::slice::slice_subrange(codebooks, start, start + 256);
        let code = nearest_codeword(book, &value);
        proof {
            assert(value@ =~= residual_sub(vector@, centroid@, sq as int));
        }
        codes[sq] = code as u8;
        sq = sq + 1;
    }
    codes
}

/// The `per` nearest centroids of reference `p` sit at `flat[p * per .. p * per + per]`.
pub open spec fn assignment_block(flat: Seq<u32>, per: int, p: int) -> Seq<usize> {
    Seq::new(per as nat, |j: int| flat[p * per + j] as usize)
}

/// Each reference's `per` nearest centroids, one block of `per` after
/// another, and where each centroid's candidate list starts.
pub fn assign_references_multi(vectors: &[ReferenceVector], centroids: &[ReferenceVector], per: usize) -> (r: Assignments)
    requires
        per > 0,
        centroids@.len() >= per,
        centroids@.len() < u32::MAX,
        vectors@.len() * per <= u32::MAX,
    ensures
        r.by_position@.len() == vectors@.len() * per,
        forall|e: int| 0 <= e < r.by_position@.len() ==> #[trigger] r.by_position@[e] < centroids@.len(),
        forall|p: int| 0 <= p < vectors@.len() ==> nearest_set(centroids@, vectors@[p]@, per as int, #[trigger] assignment_block(r.by_position@, per as int, p)),
        forall|p: int|
            0 <= p < vectors@.len() ==> #[trigger] assignment_block(r.by_position@, per as int, p)
                == spec_nearest_centroids(centroids@, vectors@[p]@, per as int),
        r.offsets@.len() == centroids@.len() + 1,
        forall|c: int|
            0 <= c <= centroids@.len() ==> #[trigger] r.offsets@[c] == below_upto(
                r.by_position@,
                vectors@.len() * per,
                c,
            ),
{
    let mut flat: Vec<u32> = Vec::new();
    let mut counts: Vec<u32> = Vec::new();
    let mut c: usize = 0;
    while c < centroids.len()
        invariant
            c <= centroids@.len(),
            counts@.len() == c,
            forall|j: int| 0 <= j < c ==> #[trigger] counts@[j] == 0,
        decreases centroids@.len() - c,
    {
        counts.push(0);
        c = c + 1;
    }
    let mut p: usize = 0;
    while p < vectors.len()
        invariant
            per > 0,
            centroids@.len() >= per,
            centroids@.len() < u32::MAX,
            vectors@.len() * per <= u32::MAX,
            p <= vectors@.len(),
            flat@.len() == p * per,
            counts@.len() == centroids@.len(),
            forall|e: int| 0 <= e < flat@.len() ==> #[trigger] flat@[e] < centroids@.len(),
            forall|q: int| 0 <= q < p ==> nearest_set(centroids@, vectors@[q]@, per as int, #[trigger] assignment_block(flat@, per as int, q)),
            forall|q: int|
                0 <= q < p ==> #[trigger] assignment_block(flat@, per as int, q) == spec_nearest_centroids(
                    centroids@,
                    vectors@[q]@,
                    per as int,
                ),
            forall|j: int| 0 <= j < centroids@.len() ==> #[trigger] counts@[j] == count_upto(flat@, flat@.len() as int, j),
        decreases vectors@.len() - p,
    {
        let vector = vectors[p];
        let nearest = nearest_centroids(centroids, &vector, per);
        let ghost start = flat@;
        proof {
            assert(p * per + per <= vectors@.len() * per) by (nonlinear_arith)
                requires p < vectors@.len();
        }
        let mut j: usize = 0;
        while j < per
            invariant
                per > 0,
                j <= per,
                start.len() == p * per,
                p * per + per <= u32::MAX,
                flat@.len() == start.len() + j,
                flat@.subrange(0, start.len() as int) == start,
                nearest@.len() == per,
                forall|t: int| 0 <= t < per ==> #[trigger] nearest@[t] < centroids@.len(),
                centroids@.len() < u32::MAX,
                forall|t: int| 0 <= t < j ==> #[trigger] flat@[start.len() + t] == nearest@[t] as u32,
                counts@.len() == centroids@.len(),
                forall|e: int| 0 <= e < flat@.len() ==> #[trigger] flat@[e] < centroids@.len(),
                forall|k: int| 0 <= k < centroids@.len() ==> #[trigger] counts@[k] == count_upto(flat@, flat@.len() as int, k),
            decreases per - j,
        {
            let centroid = nearest[j];
            proof {
                lemma_count_upto_at_most(flat@, flat@.len() as int, centroid as int);
            }
            let ghost before = flat@;
            flat.push(centroid as u32);
            let count = counts[centroid];
            counts.set(centroid, count + 1);
            proof {
                assert(flat@.subrange(0, start.len() as int) =~= start);
                assert forall|k: int| 0 <= k < centroids@.len() implies #[trigger] counts@[k] == count_upto(
                    flat@,
                    flat@.len() as int,
                    k,
                ) by {
                    assert(flat@.subrange(0, before.len() as int) =~= before);
                    lemma_count_prefix(flat@, before, before.len() as int, k);
                }
            }
            j = j + 1;
        }
        proof {
            assert(assignment_block(flat@, per as int, p as int) =~= nearest@);
            assert forall|q: int| 0 <= q < p + 1 implies nearest_set(
                centroids@,
                vectors@[q]@,
                per as int,
                #[trigger] assignment_block(flat@, per as int, q),
            ) && assignment_block(flat@, per as int, q) == spec_nearest_centroids(
                centroids@,
                vectors@[q]@,
                per as int,
            ) by {
                if q < p {
                    assert(q * per + per <= p * per) by (nonlinear_arith)
                        requires q < p;
                    assert(assignment_block(flat@, per as int, q) =~= assignment_block(start, per as int, q));
                }
            }
            assert((p + 1) * per == p * per + per) by (nonlinear_arith);
        }
        p = p + 1;
    }
    proof {
        assert(flat@.len() == vectors@.len() * per);
        lemma_count_sum_bound(flat@, flat@.len() as int, centroids@.len() as int);
        lemma_offsets_are_below(counts@, flat@, counts@.len() as int);
    }
    let offsets = candidate_list_offsets(counts.as_slice());
    proof {
        assert forall|c: int| 0 <= c <= centroids@.len() implies #[trigger] offsets@[c] == below_upto(
            flat@,
            vectors@.len() * per,
            c,
        ) by {
            lemma_offsets_are_below(counts@, flat@, c);
        }
    }
    Assignments { offsets, by_position: flat }
}

/// The candidate lists of a multi-assignment: for each slot, the reference
/// it holds and the codes of that reference's residual from the slot's centroid.
pub fn candidate_indices_and_codes(
    vectors: &[ReferenceVector],
    reference_indices: &[u32],
    centroids: &[ReferenceVector],
    codebooks: &[PqSubVector],
    offsets: &[u32],
    flat: &[u32],
    per: usize,
) -> (r: (Vec<u32>, Vec<u8>))
    requires
        per > 0,
        codebooks@.len() == 1024,
        reference_indices@.len() == vectors@.len(),
        flat@.len() == vectors@.len() * per,
        flat@.len() <= u32::MAX,
        offsets@.len() == centroids@.len() + 1,
        forall|e: int| 0 <= e < flat@.len() ==> #[trigger] flat@[e] < centroids@.len(),
        forall|c: int| 0 <= c <= centroids@.len() ==> #[trigger] offsets@[c] == below_upto(flat@, flat@.len() as int, c),
    ensures
        r.0@.len() == flat@.len(),
        r.1@.len() == 4 * flat@.len(),
        forall|e: int|
            0 <= e < flat@.len() ==> #[trigger] r.0@[candidate_slot(offsets@, flat@, e)] == reference_indices@[e / (per as int)],
        forall|e: int, sq: int|
            0 <= e < flat@.len() && 0 <= sq < 4 ==> first_nearest_codeword(
                codebooks@.subrange(256 * sq, 256 * sq + 256),
                residual_sub(vectors@[e / (per as int)]@, centroids@[flat@[e] as int]@, sq),
                #[trigger] r.1@[4 * candidate_slot(offsets@, flat@, e) + sq] as int,
            ),
{
    let entries = candidate_indices(offsets, flat, centroids.len());
    let total = flat.len();
    let mut indices: Vec<u32> = Vec::new();
    let mut codes: Vec<u8> = Vec::new();
    let mut s: usize = 0;
    while s < total
        invariant
            per > 0,
            total == flat@.len(),
            codebooks@.len() == 1024,
            reference_indices@.len() == vectors@.len(),
            flat@.len() == vectors@.len() * per,
            entries@.len() == total,
            forall|t: int| 0 <= t < total ==> #[trigger] entries@[t] < total,
            forall|e: int| 0 <= e < flat@.len() ==> #[trigger] flat@[e] < centroids@.len(),
            s <= total,
            indices@.len() == s,
            codes@.len() == 4 * s,
            forall|t: int| 0 <= t < s ==> #[trigger] indices@[t] == reference_indices@[(entries@[t] as int) / (per as int)],
            forall|t: int, sq: int|
                0 <= t < s && 0 <= sq < 4 ==> first_nearest_codeword(
                    codebooks@.subrange(256 * sq, 256 * sq + 256),
                    residual_sub(vectors@[(entries@[t] as int) / (per as int)]@, centroids@[flat@[entries@[t] as int] as int]@, sq),
                    #[trigger] codes@[4 * t + sq] as int,
                ),
        decreases total - s,
    {
        let entry = entries[s] as usize;
        let position = entry / per;
        proof {
            assert(position < vectors@.len()) by (nonlinear_arith)
                requires entry < vectors@.len() * per, per > 0, position == entry / per;
        }
        indices.push(reference_indices[position]);
        let centroid = centroids[flat[entry] as usize];
        let code = encode_residual(&vectors[position], &centroid, codebooks);
        let ghost before = codes@;
        codes.push(code[0]);
        codes.push(code[1]);
        codes.push(code[2]);
        codes.push(code[3]);
        proof {
            assert forall|t: int, sq: int| 0 <= t < s + 1 && 0 <= sq < 4 implies first_nearest_codeword(
                codebooks@.subrange(256 * sq, 256 * sq + 256),
                residual_sub(vectors@[(entries@[t] as int) / (per as int)]@, centroids@[flat@[entries@[t] as int] as int]@, sq),
                #[trigger] codes@[4 * t + sq] as int,
            ) by {
                if t < s {
                    assert(codes@[4 * t + sq] == before[4 * t + sq]);
                } else {
                    assert(codes@[4 * t + sq] == code@[sq]);
                }
            }
        }
        s = s + 1;
    }
    proof {
        assert forall|e: int| 0 <= e < flat@.len() implies #[trigger] indices@[candidate_slot(offsets@, flat@, e)]
            == reference_indices@[e / (per as int)] by {
            lemma_slot_range(offsets@, flat@, centroids@.len() as int, e);
        }
        assert forall|e: int, sq: int| 0 <= e < flat@.len() && 0 <= sq < 4 implies first_nearest_codeword(
            codebooks@.subrange(256 * sq, 256 * sq + 256),
            residual_sub(vectors@[e / (per as int)]@, centroids@[flat@[e] as int]@, sq),
            #[trigger] codes@[4 * candidate_slot(offsets@, flat@, e) + sq] as int,
        ) by {
            lemma_slot_range(offsets@, flat@, centroids@.len() as int, e);
            let t = candidate_slot(offsets@, flat@, e);
            assert(entries@[t] == e);
        }
    }
    (indices, codes)
}

/// The residuals sampled from the entries of a multi-assignment: `count`
/// entries spread evenly, `count` being the smaller of `requested` and the
/// number of entries; each entry's vector minus its centroid.
pub fn sample_residuals(
    vectors: &[ReferenceVector],
    centroids: &[ReferenceVector],
    flat: &[u32],
    per: usize,
    requested: usize,
) -> (r: Vec<ReferenceVector>)
    requires
        per > 0,
        flat@.len() == vectors@.len() * per,
        forall|e: int| 0 <= e < flat@.len() ==> #[trigger] flat@[e] < centroids@.len(),
    ensures
        r@.len() == if requested < flat@.len() { requested as int } else { flat@.len() as int },
        forall|s: int, d: int|
            0 <= s < r@.len() && 0 <= d < 16 ==> #[trigger] r@[s]@[d] == saturating_sub(
                vectors@[(s * (flat@.len() as int) / (r@.len() as int)) / (per as int)]@[d],
                centroids@[flat@[s * (flat@.len() as int) / (r@.len() as int)] as int]@[d],
            ),
{
    let positions = sample_positions(flat.len(), requested);
    let mut samples: Vec<ReferenceVector> = Vec::new();
    let mut s: usize = 0;
    while s < positions.len()
        invariant
            per > 0,
            flat@.len() == vectors@.len() * per,
            forall|e: int| 0 <= e < flat@.len() ==> #[trigger] flat@[e] < centroids@.len(),
            positions@.len() == if requested < flat@.len() { requested as int } else { flat@.len() as int },
            forall|t: int| 0 <= t < positions@.len() ==> #[trigger] positions@[t] == t * (flat@.len() as int) / (positions@.len() as int) && positions@[t] < flat@.len(),
            s <= positions@.len(),
            samples@.len() == s,
            forall|t: int, d: int|
                0 <= t < s && 0 <= d < 16 ==> #[trigger] samples@[t]@[d] == saturating_sub(
                    vectors@[(t * (flat@.len() as int) / (positions@.len() as int)) / (per as int)]@[d],
                    centroids@[flat@[t * (flat@.len() as int) / (positions@.len() as int)] as int]@[d],
                ),
        decreases positions@.len() - s,
    {
        let entry = positions[s];
        let position = entry / per;
        proof {
            assert(position < vectors@.len()) by (nonlinear_arith)
                requires entry < vectors@.len() * per, per > 0, position == entry / per;
        }
        let residual = residual_vector(&vectors[position], &centroids[flat[entry] as usize]);
        samples.push(residual);
        s = s + 1;
    }
    samples
}

/// The positions of the references with the given label, in order.
pub fn label_positions(fraud_bits: &[u8], count: usize, is_fraud: bool) -> (r: Vec<u32>)
    requires
        count <= 8 * fraud_bits@.len(),
        count <= u32::MAX,
    ensures
        forall|t: int| 0 <= t < r@.len() ==> #[trigger] r@[t] < count && bit_at(fraud_bits@, r@[t] as int) == is_fraud,
        forall|t: int, u: int| 0 <= t < u < r@.len() ==> r@[t] < r@[u],
        forall|i: int| 0 <= i < count && bit_at(fraud_bits@, i) == is_fraud ==> #[trigger] r@.contains(i as u32),
{
    let mut positions: Vec<u32> = Vec::new();
    let mut i: usize = 0;
    while i < count
        invariant
            count <= 8 * fraud_bits@.len(),
            count <= u32::MAX,
            i <= count,
            forall|t: int| 0 <= t < positions@.len() ==> #[trigger] positions@[t] < i && bit_at(fraud_bits@, positions@[t] as int) == is_fraud,
            forall|t: int, u: int| 0 <= t < u < positions@.len() ==> positions@[t] < positions@[u],
            forall|j: int| 0 <= j < i && bit_at(fraud_bits@, j) == is_fraud ==> #[trigger] positions@.contains(j as u32),
        decreases count - i,
    {
        let byte = fraud_bits[i / 8];
        let k = (i % 8) as u32;
        proof {
            crate::reference::lemma_shift_bit(byte, k);
        }
        let bit = (byte >> k) & 1 == 1;
        assert(bit == bit_at(fraud_bits@, i as int));
        if bit == is_fraud {
            let ghost before = positions@;
            positions.push(i as u32);
            proof {
                assert forall|j: int| 0 <= j < i + 1 && bit_at(fraud_bits@, j) == is_fraud implies #[trigger] positions@.contains(j as u32) by {
                    if j < i {
                        assert(before.contains(j as u32));
                        let t = choose|t: int| 0 <= t < before.len() && before[t] == j as u32;
                        assert(positions@[t] == j as u32);
                    } else {
                        assert(positions@[before.len() as int] == j as u32);
                    }
                }
            }
        } else {
            proof {
                assert forall|j: int| 0 <= j < i + 1 && bit_at(fraud_bits@, j) == is_fraud implies #[trigger] positions@.contains(j as u32) by {
                }
            }
        }
        i = i + 1;
    }
    positions
}

/// Why an index could not be built.
#[derive(Debug, Clone, Copy, PartialEq, Eq, Structural)]
pub enum IvfError {
    /// A setting that must not be zero is.
    ZeroSetting,
    /// More assignments per reference than centroids.
    TooManyAssignments,
    /// More centroids than references.
    TooManyCentroids,
    /// More candidates than fit the index's 32-bit offsets.
    TooManyCandidates,
    /// No probes, or more probes than centroids.
    ProbeCount,
}

/// Checks the settings the indexes share.
pub fn validate_shared_config(centroids: usize, aux_centroids: usize, per: usize) -> (r: Result<(), IvfError>)
    ensures
        (centroids == 0 || aux_centroids == 0 || per == 0) ==> r == Err::<(), IvfError>(IvfError::ZeroSetting),
        !(centroids == 0 || aux_centroids == 0 || per == 0) && (per > centroids || per > aux_centroids) ==> r
            == Err::<(), IvfError>(IvfError::TooManyAssignments),
        !(centroids == 0 || aux_centroids == 0 || per == 0) && !(per > centroids || per > aux_centroids) ==> r is Ok,
{
    if centroids == 0 || aux_centroids == 0 || per == 0 {
        return Err(IvfError::ZeroSetting);
    }
    if per > centroids || per > aux_centroids {
        return Err(IvfError::TooManyAssignments);
    }
    Ok(())
}

/// Checks that there are at least as many references as centroids.
pub fn validate_centroid_count(reference_count: usize, centroid_count: usize) -> (r: Result<(), IvfError>)
    ensures
        r is Ok <==> centroid_count <= reference_count,
        r is Err ==> r == Err::<(), IvfError>(IvfError::TooManyCentroids),
{
    if centroid_count > reference_count {
        return Err(IvfError::TooManyCentroids);
    }
    Ok(())
}

/// `R26IFL04`.
pub open spec fn ivf_magic_spec() -> Seq<u8> {
    seq![82u8, 50, 54, 73, 70, 76, 48, 52]
}

pub open spec fn centroid_block(centroids: Seq<ReferenceVector>) -> spec_fn(int) -> Seq<u8> {
    |k: int| vector_bytes(centroids[k]@, 16)
}

pub open spec fn codeword_block(codebooks: Seq<PqSubVector>) -> spec_fn(int) -> Seq<u8> {
    |k: int| vector_bytes(codebooks[k]@, 4)
}

pub open spec fn u32_block(values: Seq<u32>) -> spec_fn(int) -> Seq<u8> {
    |k: int| le_bytes(values[k] as nat, 4)
}

/// An IVF-PQ index file: the header, the centroids, the codebooks, the list
/// offsets, the candidate references and their codes.
pub open spec fn spec_ivf_pq_file(
    reference_count: nat,
    centroids: Seq<ReferenceVector>,
    codebooks: Seq<PqSubVector>,
    offsets: Seq<u32>,
    indices: Seq<u32>,
    codes: Seq<u8>,
) -> Seq<u8> {
    ivf_magic_spec() + le_bytes(reference_count, 8) + le_bytes(centroids.len() % 0x1_0000_0000, 4) + le_bytes(
        indices.len(),
        8,
    ) + le_bytes(4, 4) + le_bytes(256, 4) + le_bytes(4, 4) + blocks(centroid_block(centroids), centroids.len() as int)
        + blocks(codeword_block(codebooks), codebooks.len() as int) + blocks(u32_block(offsets), offsets.len() as int)
        + blocks(u32_block(indices), indices.len() as int) + codes
}

fn push_magic(out: &mut Vec<u8>)
    ensures
        final(out)@ == old(out)@ + ivf_magic_spec(),
{
    let magic: [u8; 8] = [82, 50, 54, 73, 70, 76, 48, 52];
    assert(magic@ =~= ivf_magic_spec());
    push_bytes(out, &magic);
}

fn push_vectors(out: &mut Vec<u8>, vectors: &[ReferenceVector])
    ensures
        final(out)@ == old(out)@ + blocks(centroid_block(vectors@), vectors@.len() as int),
{
    let mut k: usize = 0;
    while k < vectors.len()
        invariant
            k <= vectors@.len(),
            out@ == old(out)@ + blocks(centroid_block(vectors@), k as int),
        decreases vectors@.len() - k,
    {
        let vector = vectors[k];
        push_vector(out, &vector);
        proof {
            assert(out@ =~= old(out)@ + blocks(centroid_block(vectors@), k + 1));
        }
        k = k + 1;
    }
}

fn push_u32s(out: &mut Vec<u8>, values: &[u32])
    ensures
        final(out)@ == old(out)@ + blocks(u32_block(values@), values@.len() as int),
{
    let mut k: usize = 0;
    while k < values.len()
        invariant
            k <= values@.len(),
            out@ == old(out)@ + blocks(u32_block(values@), k as int),
        decreases values@.len() - k,
    {
        push_u32_le(out, values[k]);
        proof {
            assert(out@ =~= old(out)@ + blocks(u32_block(values@), k + 1));
        }
        k = k + 1;
    }
}

/// Writes an IVF-PQ index file.
pub fn encode_ivf_pq_file(
    reference_count: usize,
    centroids: &[ReferenceVector],
    codebooks: &[PqSubVector],
    offsets: &[u32],
    indices: &[u32],
    codes: &[u8],
) -> (r: Vec<u8>)
    ensures
        r@ == spec_ivf_pq_file(reference_count as nat, centroids@, codebooks@, offsets@, indices@, codes@),
{
    let mut out: Vec<u8> = Vec::new();
    push_magic(&mut out);
    push_u64_le(&mut out, reference_count as u64);
    let centroid_len: u64 = centroids.len() as u64;
    let centroid_count = centroid_len as u32;
    assert(centroid_count == centroid_len % 0x1_0000_0000) by (bit_vector)
        requires centroid_count == centroid_len as u32;
    push_u32_le(&mut out, centroid_count);
    push_u64_le(&mut out, indices.len() as u64);
    push_u32_le(&mut out, 4);
    push_u32_le(&mut out, 256);
    push_u32_le(&mut out, 4);
    push_vectors(&mut out, centroids);
    let ghost with_centroids = out@;
    let mut k: usize = 0;
    while k < codebooks.len()
        invariant
            k <= codebooks@.len(),
            out@ == with_centroids + blocks(codeword_block(codebooks@), k as int),
        decreases codebooks@.len() - k,
    {
        let codeword = codebooks[k];
        let mut d: usize = 0;
        let ghost before = out@;
        while d < 4
            invariant
                d <= 4,
                out@ == before + vector_bytes(codeword@, d as int),
            decreases 4 - d,
        {
            crate::bytes::push_i16_le(&mut out, codeword[d]);
            proof {
                assert(out@ =~= before + vector_bytes(codeword@, d + 1));
            }
            d = d + 1;
        }
        proof {
            assert(out@ =~= with_centroids + blocks(codeword_block(codebooks@), k + 1));
        }
        k = k + 1;
    }
    push_u32s(&mut out, offsets);
    push_u32s(&mut out, indices);
    push_bytes(&mut out, codes);
    assert(out@ =~= spec_ivf_pq_file(reference_count as nat, centroids@, codebooks@, offsets@, indices@, codes@));
    out
}

/// An IVF index file without quantization: the header, the centroids, the
/// list offsets, the candidate references, every reference vector and the
/// fraud bits.
pub open spec fn spec_ivf_flat_file(
    vectors: Seq<ReferenceVector>,
    fraud_bits: Seq<u8>,
    centroids: Seq<ReferenceVector>,
    offsets: Seq<u32>,
    indices: Seq<u32>,
) -> Seq<u8> {
    ivf_magic_spec() + le_bytes(vectors.len(), 8) + le_bytes(centroids.len() % 0x1_0000_0000, 4) + le_bytes(
        indices.len(),
        8,
    ) + blocks(centroid_block(centroids), centroids.len() as int) + blocks(u32_block(offsets), offsets.len() as int)
        + blocks(u32_block(indices), indices.len() as int) + blocks(centroid_block(vectors), vectors.len() as int)
        + fraud_bits
}

/// Writes an IVF index file without quantization.
pub fn encode_ivf_flat_file(
    vectors: &[ReferenceVector],
    fraud_bits: &[u8],
    centroids: &[ReferenceVector],
    offsets: &[u32],
    indices: &[u32],
) -> (r: Vec<u8>)
    ensures
        r@ == spec_ivf_flat_file(vectors@, fraud_bits@, centroids@, offsets@, indices@),
{
    let mut out: Vec<u8> = Vec::new();
    push_magic(&mut out);
    push_u64_le(&mut out, vectors.len() as u64);
    let centroid_len: u64 = centroids.len() as u64;
    let centroid_count = centroid_len as u32;
    assert(centroid_count == centroid_len % 0x1_0000_0000) by (bit_vector)
        requires centroid_count == centroid_len as u32;
    push_u32_le(&mut out, centroid_count);
    push_u64_le(&mut out, indices.len() as u64);
    push_vectors(&mut out, centroids);
    push_u32s(&mut out, offsets);
    push_u32s(&mut out, indices);
    push_vectors(&mut out, vectors);
    push_bytes(&mut out, fraud_bits);
    assert(out@ =~= spec_ivf_flat_file(vectors@, fraud_bits@, centroids@, offsets@, indices@));
    out
}

} // verus!
