//! The IVF index builds: the flat index over every reference, and the
//! product-quantized indexes over every reference or over the references of
//! one label. Each returns the bytes of the index file.
use vstd::prelude::*;

use crate::ReferenceVector;
use crate::ivf::{
    IvfError, PqSubVector, assign_references, assign_references_multi, assignment_block, below_upto,
    candidate_indices, candidate_indices_and_codes, candidate_slot, codebook_trained, encode_ivf_flat_file,
    encode_ivf_pq_file, first_nearest, first_nearest_codeword, kmeans_trace, label_positions, nearest_set,
    residual_sub, sample_positions, sample_residuals, saturating_sub, spec_nearest_centroids,
    spec_ivf_flat_file, spec_ivf_pq_file, train_centroids, train_pq_codebooks, validate_centroid_count,
};
use crate::reference::{ReferenceDataset, bit_at};

verus! {

/// Samples drawn per centroid when training the quantized indexes.
pub const SAMPLE_MULTIPLIER: usize = 64;
/// Residual samples drawn to train the codebooks.
pub const PQ_SAMPLE_COUNT: usize = 16384;

/// The smaller of `a` and `b`.
pub open spec fn smaller(a: int, b: int) -> int {
    if a < b { a } else { b }
}

/// `count` of `vectors`, evenly spread: sample `s` is vector `s * len / count`.
pub open spec fn even_sample(vectors: Seq<ReferenceVector>, count: int) -> Seq<ReferenceVector> {
    Seq::new(count as nat, |s: int| vectors[s * (vectors.len() as int) / count])
}

/// `centroids` are the centroids spread evenly over `samples`, moved by
/// `iterations` k-means steps.
pub open spec fn trained_on(
    samples: Seq<ReferenceVector>,
    centroid_count: int,
    iterations: int,
    centroids: Seq<ReferenceVector>,
) -> bool {
    exists|trace: Seq<Seq<ReferenceVector>>|
        #[trigger] kmeans_trace(samples, centroid_count, trace) && trace.len() == iterations + 1 && trace.last()
            == centroids
}

/// The references sampled for k-means: the smaller of `requested` and their
/// number, evenly spread.
pub fn sample_references(vectors: &[ReferenceVector], requested: usize) -> (r: Vec<ReferenceVector>)
    ensures
        r@ == even_sample(vectors@, smaller(requested as int, vectors@.len() as int)),
{
    let positions = sample_positions(vectors.len(), requested);
    let ghost count = positions@.len() as int;
    let mut samples: Vec<ReferenceVector> = Vec::new();
    let mut s: usize = 0;
    while s < positions.len()
        invariant
            count == positions@.len(),
            count == smaller(requested as int, vectors@.len() as int),
            forall|t: int|
                0 <= t < count ==> #[trigger] positions@[t] == t * (vectors@.len() as int) / count && positions@[t]
                    < vectors@.len(),
            s <= count,
            samples@.len() == s,
            forall|t: int| 0 <= t < s ==> #[trigger] samples@[t] == vectors@[t * (vectors@.len() as int) / count],
        decreases count - s,
    {
        samples.push(vectors[positions[s]]);
        s = s + 1;
    }
    assert(samples@ =~= even_sample(vectors@, count));
    samples
}

/// The parts of a flat index over `vectors`: centroids trained on an even
/// sample, each reference's nearest centroid, the list offsets, and the
/// candidate lists.
pub open spec fn flat_parts(
    vectors: Seq<ReferenceVector>,
    centroid_count: int,
    sample_count: int,
    iterations: int,
    centroids: Seq<ReferenceVector>,
    offsets: Seq<u32>,
    by_position: Seq<u32>,
    indices: Seq<u32>,
) -> bool {
    let n = vectors.len() as int;
    let requested = if sample_count < centroid_count { centroid_count } else { sample_count };
    &&& centroids.len() == centroid_count
    &&& trained_on(even_sample(vectors, smaller(requested, n)), centroid_count, iterations, centroids)
    &&& by_position.len() == n
    &&& forall|p: int| 0 <= p < n ==> first_nearest(centroids, vectors[p]@, #[trigger] by_position[p] as int)
    &&& offsets.len() == centroid_count + 1
    &&& forall|c: int| 0 <= c <= centroid_count ==> #[trigger] offsets[c] == below_upto(by_position, n, c)
    &&& indices.len() == n
    &&& forall|p: int| 0 <= p < n ==> #[trigger] indices[candidate_slot(offsets, by_position, p)] == p
}

/// Why settings for a flat index over `n` references are refused, in the
/// order they are checked.
pub open spec fn flat_error(n: int, centroid_count: int, probes: int) -> IvfError {
    if centroid_count > n {
        IvfError::TooManyCentroids
    } else if probes == 0 || probes > centroid_count {
        IvfError::ProbeCount
    } else {
        IvfError::TooManyCandidates
    }
}

/// Whether a flat index over `n` references can be built with these settings.
pub open spec fn flat_settings_ok(n: int, centroid_count: int, probes: int) -> bool {
    centroid_count <= n && 0 < probes <= centroid_count && n < u32::MAX
}

/// What building a flat index gives: the index file, or why the settings
/// were refused.
pub open spec fn flat_build_result(
    vectors: Seq<ReferenceVector>,
    fraud_bits: Seq<u8>,
    centroid_count: int,
    sample_count: int,
    iterations: int,
    probes: int,
    r: Result<Vec<u8>, IvfError>,
) -> bool {
    let n = vectors.len() as int;
    match r {
        Ok(bytes) => flat_settings_ok(n, centroid_count, probes) && exists|
            centroids: Seq<ReferenceVector>,
            offsets: Seq<u32>,
            by_position: Seq<u32>,
            indices: Seq<u32>,
        |
            #[trigger] flat_parts(
                vectors,
                centroid_count,
                sample_count,
                iterations,
                centroids,
                offsets,
                by_position,
                indices,
            ) && bytes@ == spec_ivf_flat_file(vectors, fraud_bits, centroids, offsets, indices),
        Err(e) => !flat_settings_ok(n, centroid_count, probes) && e == flat_error(n, centroid_count, probes),
    }
}

/// The flat inverted-file index over every reference.
pub struct IndexIvf;

impl IndexIvf {
    /// Checks the centroid and probe counts against the references.
    pub fn validate_config(reference_count: usize, centroid_count: usize, probes: usize) -> (r: Result<(), IvfError>)
        ensures
            r is Ok <==> (centroid_count <= reference_count && 0 < probes <= centroid_count),
            r is Err ==> r == Err::<(), IvfError>(flat_error(reference_count as int, centroid_count as int, probes as int)),
    {
        if centroid_count > reference_count {
            return Err(IvfError::TooManyCentroids);
        }
        if probes == 0 || probes > centroid_count {
            return Err(IvfError::ProbeCount);
        }
        Ok(())
    }

    /// The flat index over `dataset` with the settings this crate ships.
    pub fn build(dataset: &ReferenceDataset) -> (r: Result<Vec<u8>, IvfError>)
        ensures
            flat_build_result(
                dataset.vectors@,
                dataset.fraud_bits@,
                crate::IVF_FINE_CENTROIDS as int,
                crate::IVF_FINE_SAMPLES as int,
                crate::IVF_FINE_ITERATIONS as int,
                crate::IVF_MAX_PROBES as int,
                r,
            ),
    {
        Self::build_with(
            dataset,
            crate::IVF_FINE_CENTROIDS,
            crate::IVF_FINE_SAMPLES,
            crate::IVF_FINE_ITERATIONS,
            crate::IVF_MAX_PROBES,
        )
    }

    /// The flat index over `dataset`: centroids trained on an even sample of
    /// `sample_count` references (at least one per centroid), each reference
    /// listed under its nearest centroid, then every vector and fraud bit.
    pub fn build_with(
        dataset: &ReferenceDataset,
        centroid_count: usize,
        sample_count: usize,
        iterations: usize,
        probes: usize,
    ) -> (r: Result<Vec<u8>, IvfError>)
        ensures
            flat_build_result(
                dataset.vectors@,
                dataset.fraud_bits@,
                centroid_count as int,
                sample_count as int,
                iterations as int,
                probes as int,
                r,
            ),
    {
        let vectors = dataset.vectors.as_slice();
        let n = vectors.len();
        match Self::validate_config(n, centroid_count, probes) {
            Ok(()) => {},
            Err(e) => {
                return Err(e);
            },
        }
        if n >= 0xffff_ffff {
            return Err(IvfError::TooManyCandidates);
        }
        let requested = if sample_count < centroid_count { centroid_count } else { sample_count };
        let samples = sample_references(vectors, requested);
        let centroids = train_centroids(&samples, centroid_count, iterations);
        let assignments = assign_references(vectors, &centroids);
        let indices = candidate_indices(&assignments.offsets, &assignments.by_position, centroid_count);
        let bytes = encode_ivf_flat_file(
            vectors,
            dataset.fraud_bits.as_slice(),
            &centroids,
            &assignments.offsets,
            &indices,
        );
        proof {
            assert(trained_on(samples@, centroid_count as int, iterations as int, centroids@));
            assert(flat_parts(
                vectors@,
                centroid_count as int,
                sample_count as int,
                iterations as int,
                centroids@,
                assignments.offsets@,
                assignments.by_position@,
                indices@,
            ));
        }
        Ok(bytes)
    }
}

/// The residuals the codebooks are trained on: `PQ_SAMPLE_COUNT` entries of
/// the assignment (or all of them, if fewer), evenly spread, each its
/// vector minus its centroid.
pub open spec fn residual_samples(
    vectors: Seq<ReferenceVector>,
    centroids: Seq<ReferenceVector>,
    flat: Seq<u32>,
    per: int,
    samples: Seq<ReferenceVector>,
) -> bool {
    let entries = flat.len() as int;
    &&& samples.len() == smaller(PQ_SAMPLE_COUNT as int, entries)
    &&& forall|s: int, d: int|
        0 <= s < samples.len() && 0 <= d < 16 ==> #[trigger] samples[s]@[d] == saturating_sub(
            vectors[(s * entries / (samples.len() as int)) / per]@[d],
            centroids[flat[s * entries / (samples.len() as int)] as int]@[d],
        )
}

/// The parts of a product-quantized index over `vectors`: centroids trained
/// on an even sample, the `per` nearest centroids of each reference, the list
/// offsets, codebooks trained on sampled residuals, and for each list slot
/// the reference it holds (by `reference_indices`) and the codes of its
/// residual.
pub open spec fn pq_parts(
    vectors: Seq<ReferenceVector>,
    reference_indices: Seq<u32>,
    centroid_count: int,
    per: int,
    iterations: int,
    centroids: Seq<ReferenceVector>,
    codebooks: Seq<PqSubVector>,
    offsets: Seq<u32>,
    flat: Seq<u32>,
    indices: Seq<u32>,
    codes: Seq<u8>,
) -> bool {
    let n = vectors.len() as int;
    let requested = SAMPLE_MULTIPLIER * centroid_count;
    &&& centroids.len() == centroid_count
    &&& trained_on(even_sample(vectors, smaller(requested, n)), centroid_count, iterations, centroids)
    &&& flat.len() == n * per
    &&& forall|p: int| 0 <= p < n ==> nearest_set(centroids, vectors[p]@, per, #[trigger] assignment_block(flat, per, p))
    &&& forall|p: int|
        0 <= p < n ==> #[trigger] assignment_block(flat, per, p) == spec_nearest_centroids(centroids, vectors[p]@, per)
    &&& offsets.len() == centroid_count + 1
    &&& forall|c: int| 0 <= c <= centroid_count ==> #[trigger] offsets[c] == below_upto(flat, n * per, c)
    &&& codebooks.len() == 1024
    &&& exists|samples: Seq<ReferenceVector>|
        #[trigger] residual_samples(vectors, centroids, flat, per, samples) && forall|sq: int|
            0 <= sq < 4 ==> #[trigger] codebook_trained(samples, codebooks, sq, iterations)
    &&& indices.len() == flat.len()
    &&& codes.len() == 4 * flat.len()
    &&& forall|e: int|
        0 <= e < flat.len() ==> #[trigger] indices[candidate_slot(offsets, flat, e)] == reference_indices[e / per]
    &&& forall|e: int, sq: int|
        0 <= e < flat.len() && 0 <= sq < 4 ==> first_nearest_codeword(
            codebooks.subrange(256 * sq, 256 * sq + 256),
            residual_sub(vectors[e / per]@, centroids[flat[e] as int]@, sq),
            #[trigger] codes[4 * candidate_slot(offsets, flat, e) + sq] as int,
        )
}

/// Whether a product-quantized index over `n` references with `per`
/// assignments each can be built.
pub open spec fn pq_settings_ok(n: int, centroid_count: int, per: int) -> bool {
    centroid_count <= n && n * per < u32::MAX
}

/// What building a product-quantized index gives: the index file, or why
/// the settings were refused.
pub open spec fn pq_build_result(
    vectors: Seq<ReferenceVector>,
    reference_indices: Seq<u32>,
    total_reference_count: int,
    centroid_count: int,
    per: int,
    iterations: int,
    r: Result<Vec<u8>, IvfError>,
) -> bool {
    let n = vectors.len() as int;
    match r {
        Ok(bytes) => pq_settings_ok(n, centroid_count, per) && exists|
            centroids: Seq<ReferenceVector>,
            codebooks: Seq<PqSubVector>,
            offsets: Seq<u32>,
            flat: Seq<u32>,
            indices: Seq<u32>,
            codes: Seq<u8>,
        |
            #[trigger] pq_parts(
                vectors,
                reference_indices,
                centroid_count,
                per,
                iterations,
                centroids,
                codebooks,
                offsets,
                flat,
                indices,
                codes,
            ) && bytes@ == spec_ivf_pq_file(total_reference_count as nat, centroids, codebooks, offsets, indices, codes),
        Err(e) => !pq_settings_ok(n, centroid_count, per) && e == if centroid_count > n {
            IvfError::TooManyCentroids
        } else {
            IvfError::TooManyCandidates
        },
    }
}

/// A product-quantized index over `vectors`, the reference at position `p`
/// being reference `reference_indices[p]` of the `total_reference_count` the
/// file speaks of.
pub fn build_index(
    vectors: &[ReferenceVector],
    reference_indices: &[u32],
    total_reference_count: usize,
    centroid_count: usize,
    per: usize,
    iterations: usize,
) -> (r: Result<Vec<u8>, IvfError>)
    requires
        0 < per <= centroid_count,
        reference_indices@.len() == vectors@.len(),
    ensures
        pq_build_result(
            vectors@,
            reference_indices@,
            total_reference_count as int,
            centroid_count as int,
            per as int,
            iterations as int,
            r,
        ),
{
    let n = vectors.len();
    match validate_centroid_count(n, centroid_count) {
        Ok(()) => {},
        Err(e) => {
            return Err(e);
        },
    }
    let entries = match n.checked_mul(per) {
        Some(entries) => entries,
        None => {
            return Err(IvfError::TooManyCandidates);
        },
    };
    if entries >= 0xffff_ffff {
        return Err(IvfError::TooManyCandidates);
    }
    assert(n <= entries && entries > 0) by (nonlinear_arith)
        requires entries == n * per, per > 0, n >= per;
    let requested = match centroid_count.checked_mul(SAMPLE_MULTIPLIER) {
        Some(requested) => requested,
        None => usize::MAX,
    };
    let samples = sample_references(vectors, requested);
    assert(samples@ == even_sample(vectors@, smaller(SAMPLE_MULTIPLIER * centroid_count, n as int)));
    let centroids = train_centroids(&samples, centroid_count, iterations);
    let assignments = assign_references_multi(vectors, &centroids, per);
    let pq_samples = sample_residuals(vectors, &centroids, &assignments.by_position, per, PQ_SAMPLE_COUNT);
    let codebooks = train_pq_codebooks(&pq_samples, iterations);
    let (indices, codes) = candidate_indices_and_codes(
        vectors,
        reference_indices,
        &centroids,
        &codebooks,
        &assignments.offsets,
        &assignments.by_position,
        per,
    );
    let bytes = encode_ivf_pq_file(
        total_reference_count,
        &centroids,
        &codebooks,
        &assignments.offsets,
        &indices,
        &codes,
    );
    proof {
        assert(trained_on(samples@, centroid_count as int, iterations as int, centroids@));
        assert(residual_samples(vectors@, centroids@, assignments.by_position@, per as int, pq_samples@));
        assert(pq_parts(
            vectors@,
            reference_indices@,
            centroid_count as int,
            per as int,
            iterations as int,
            centroids@,
            codebooks@,
            assignments.offsets@,
            assignments.by_position@,
            indices@,
            codes@,
        ));
    }
    Ok(bytes)
}

/// Positions `0..n` as reference numbers.
pub fn all_positions(n: usize) -> (r: Vec<u32>)
    requires
        n <= u32::MAX,
    ensures
        r@.len() == n,
        forall|p: int| 0 <= p < n ==> #[trigger] r@[p] == p,
{
    let mut positions: Vec<u32> = Vec::new();
    let mut p: usize = 0;
    while p < n
        invariant
            n <= u32::MAX,
            p <= n,
            positions@.len() == p,
            forall|q: int| 0 <= q < p ==> #[trigger] positions@[q] == q,
        decreases n - p,
    {
        positions.push(p as u32);
        p = p + 1;
    }
    positions
}

/// The product-quantized index over every reference of `dataset`.
pub fn build_primary_index(
    dataset: &ReferenceDataset,
    centroid_count: usize,
    per: usize,
    iterations: usize,
) -> (r: Result<Vec<u8>, IvfError>)
    requires
        0 < per <= centroid_count,
    ensures
        dataset.vectors@.len() >= u32::MAX ==> r == Err::<Vec<u8>, IvfError>(
            if centroid_count > dataset.vectors@.len() {
                IvfError::TooManyCentroids
            } else {
                IvfError::TooManyCandidates
            },
        ),
        dataset.vectors@.len() < u32::MAX ==> pq_build_result(
            dataset.vectors@,
            Seq::new(dataset.vectors@.len(), |p: int| p as u32),
            dataset.vectors@.len() as int,
            centroid_count as int,
            per as int,
            iterations as int,
            r,
        ),
{
    let vectors = dataset.vectors.as_slice();
    let n = vectors.len();
    if n >= 0xffff_ffff {
        if centroid_count > n {
            return Err(IvfError::TooManyCentroids);
        }
        return Err(IvfError::TooManyCandidates);
    }
    let positions = all_positions(n);
    assert(positions@ =~= Seq::new(n as nat, |p: int| p as u32));
    build_index(vectors, &positions, n, centroid_count, per, iterations)
}

/// The vectors of the references at `positions`, in order.
pub fn gather_vectors(vectors: &[ReferenceVector], positions: &[u32]) -> (r: Vec<ReferenceVector>)
    requires
        forall|t: int| 0 <= t < positions@.len() ==> #[trigger] positions@[t] < vectors@.len(),
    ensures
        r@.len() == positions@.len(),
        forall|t: int| 0 <= t < positions@.len() ==> #[trigger] r@[t] == vectors@[positions@[t] as int],
{
    let mut gathered: Vec<ReferenceVector> = Vec::new();
    let mut t: usize = 0;
    while t < positions.len()
        invariant
            forall|u: int| 0 <= u < positions@.len() ==> #[trigger] positions@[u] < vectors@.len(),
            t <= positions@.len(),
            gathered@.len() == t,
            forall|u: int| 0 <= u < t ==> #[trigger] gathered@[u] == vectors@[positions@[u] as int],
        decreases positions@.len() - t,
    {
        gathered.push(vectors[positions[t] as usize]);
        t = t + 1;
    }
    gathered
}

/// `positions` lists, in increasing order, exactly the references among the
/// first `n` whose fraud bit is `is_fraud`.
pub open spec fn label_list(fraud_bits: Seq<u8>, n: int, is_fraud: bool, positions: Seq<u32>) -> bool {
    &&& forall|t: int|
        0 <= t < positions.len() ==> #[trigger] positions[t] < n && bit_at(fraud_bits, positions[t] as int) == is_fraud
    &&& forall|t: int, u: int| 0 <= t < u < positions.len() ==> positions[t] < positions[u]
    &&& forall|i: int| 0 <= i < n && bit_at(fraud_bits, i) == is_fraud ==> #[trigger] positions.contains(i as u32)
}

/// The product-quantized index over the references of `dataset` whose fraud
/// bit is `is_fraud`; its candidate lists name references by their number in
/// the whole dataset.
pub fn build_label_index(
    dataset: &ReferenceDataset,
    is_fraud: bool,
    centroid_count: usize,
    per: usize,
    iterations: usize,
) -> (r: Result<Vec<u8>, IvfError>)
    requires
        dataset.wf(),
        dataset.vectors@.len() <= u32::MAX,
        0 < per <= centroid_count,
    ensures
        exists|positions: Seq<u32>|
            #[trigger] label_list(dataset.fraud_bits@, dataset.vectors@.len() as int, is_fraud, positions)
                && pq_build_result(
                Seq::new(positions.len(), |t: int| dataset.vectors@[positions[t] as int]),
                positions,
                dataset.vectors@.len() as int,
                centroid_count as int,
                per as int,
                iterations as int,
                r,
            ),
{
    let vectors = dataset.vectors.as_slice();
    let positions = label_positions(dataset.fraud_bits.as_slice(), vectors.len(), is_fraud);
    let labelled = gather_vectors(vectors, &positions);
    assert(labelled@ =~= Seq::new(positions@.len(), |t: int| vectors@[positions@[t] as int]));
    assert(label_list(dataset.fraud_bits@, vectors@.len() as int, is_fraud, positions@));
    build_index(&labelled, &positions, vectors.len(), centroid_count, per, iterations)
}

} // verus!
