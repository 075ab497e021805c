use rinha::hnsw::{EMPTY_NEIGHBOR, HnswIndex, HnswLayout};
use rinha::hnsw_build::{
    HNSW_LEVEL_SEED, HnswBuildError, HnswBuildGraph, IndexHnsw, next_random, random_level, select_neighbors,
};
use rinha::ivf::{
    IvfError, PqSubVector, candidate_indices, candidate_list_offsets, encode_residual, label_positions,
    nearest_centroid, nearest_centroids, nearest_codeword, residual_vector, sample_positions,
    validate_centroid_count, validate_shared_config,
};
use rinha::ivf_build::{IndexIvf, build_index, build_label_index, build_primary_index, sample_references};
use rinha::nearest::NearestCandidate;
use rinha::reference::{JsonLabel, ReferenceDataset};
use rinha::reference_file::{ReferenceFile, ReferenceFileError, encode_reference_file};
use rinha::{IVF_HEADER_LEN, ReferenceVector, VECTOR_DIMENSIONS};

fn vector_with(first: i16, second: i16) -> ReferenceVector {
    let mut vector = [0_i16; VECTOR_DIMENSIONS];
    vector[0] = first;
    vector[1] = second;
    vector
}

fn two_clusters() -> Vec<ReferenceVector> {
    vec![
        vector_with(0, 0),
        vector_with(1, 0),
        vector_with(2, 0),
        vector_with(3, 0),
        vector_with(100, 0),
        vector_with(101, 0),
        vector_with(102, 0),
        vector_with(103, 0),
    ]
}

fn labelled(vectors: Vec<ReferenceVector>, fraud: &[bool]) -> ReferenceDataset {
    let labels: Vec<JsonLabel> = fraud
        .iter()
        .map(|&is_fraud| if is_fraud { JsonLabel::Fraud } else { JsonLabel::Legit })
        .collect();
    ReferenceDataset::from_labelled(vectors, &labels)
}

fn u32_at(bytes: &[u8], offset: usize) -> u32 {
    u32::from_le_bytes(bytes[offset..offset + 4].try_into().unwrap())
}

fn u64_at(bytes: &[u8], offset: usize) -> u64 {
    u64::from_le_bytes(bytes[offset..offset + 8].try_into().unwrap())
}

fn i16_at(bytes: &[u8], offset: usize) -> i16 {
    i16::from_le_bytes(bytes[offset..offset + 2].try_into().unwrap())
}

#[test]
fn xorshift_step_from_the_seed() {
    let mut rng = HNSW_LEVEL_SEED;
    let value = next_random(&mut rng);
    assert_eq!(value, 0xdc1b_77ae_0bf3_4dad);
    assert_eq!(rng, value);
}

#[test]
fn drawn_levels_follow_the_stream() {
    let mut rng = HNSW_LEVEL_SEED;
    let levels: Vec<u8> = (0..80).map(|_| random_level(&mut rng)).collect();
    let raised: Vec<usize> = (0..80).filter(|&k| levels[k] > 0).collect();
    assert_eq!(raised, vec![39, 53, 72, 76]);
    assert!(levels.iter().all(|&level| level <= 1));
}

#[test]
fn random_level_is_capped() {
    let mut rng = 0_u64;
    assert_eq!(random_level(&mut rng), 255);
    assert_eq!(rng, 0);
}

#[test]
fn select_neighbors_skips_candidates_nearer_to_a_kept_one() {
    let vectors = vec![
        vector_with(0, 0),
        vector_with(1, 0),
        vector_with(2, 0),
        vector_with(10, 0),
        vector_with(0, 3),
    ];
    let candidates = [
        NearestCandidate { index: 3, distance: 100 },
        NearestCandidate { index: 2, distance: 4 },
        NearestCandidate { index: 1, distance: 1 },
    ];
    assert_eq!(select_neighbors(&vectors, &candidates, 1), vec![1]);
    assert_eq!(select_neighbors(&vectors, &candidates, 2), vec![1, 2]);
    assert_eq!(select_neighbors(&vectors, &candidates, 3), vec![1, 2, 3]);

    let spread = [NearestCandidate { index: 4, distance: 9 }, NearestCandidate { index: 2, distance: 4 }];
    assert_eq!(select_neighbors(&vectors, &spread, 2), vec![2, 4]);
    assert!(select_neighbors(&vectors, &[], 4).is_empty());
}

#[test]
fn backlink_replaces_the_farthest_only_when_nearer() {
    let vectors = vec![
        vector_with(0, 0),
        vector_with(1, 0),
        vector_with(2, 0),
        vector_with(10, 0),
        vector_with(1, 1),
    ];
    let graph = HnswBuildGraph::new(vectors.len());

    let mut selected = vec![1, 2];
    graph.keep_competitive_backlink(&vectors, 0, 3, &mut selected, 2);
    assert_eq!(selected, vec![1, 2]);

    let mut selected = vec![1, 2];
    graph.keep_competitive_backlink(&vectors, 0, 4, &mut selected, 2);
    assert_eq!(selected, vec![1, 4]);

    let mut selected = vec![1, 2];
    graph.keep_competitive_backlink(&vectors, 0, 3, &mut selected, 3);
    assert_eq!(selected, vec![1, 2, 3]);

    let mut selected = vec![1, 2];
    graph.keep_competitive_backlink(&vectors, 0, 2, &mut selected, 2);
    assert_eq!(selected, vec![1, 2]);
}

fn grid(count: usize) -> Vec<ReferenceVector> {
    (0..count)
        .map(|k| vector_with((k % 10) as i16 * 7, (k / 10) as i16 * 5))
        .collect()
}

#[test]
fn built_graph_links_only_inserted_nodes_of_each_level() {
    let vectors = grid(80);
    let graph = HnswBuildGraph::build(&vectors);
    assert_eq!(graph.levels.len(), 80);
    assert_eq!(graph.levels[39], 1);
    assert_eq!(graph.levels[0], 0);
    assert_eq!(graph.max_level, 1);
    assert_eq!(graph.entrypoint, 39);
    for (index, slots) in graph.level0.iter().enumerate() {
        let linked: Vec<u32> = slots.iter().copied().filter(|&s| s != EMPTY_NEIGHBOR).collect();
        assert!(!linked.is_empty(), "node {index} has no neighbours");
        if index > 0 {
            assert_ne!(slots[0], EMPTY_NEIGHBOR);
        }
        assert!(linked.iter().all(|&s| (s as usize) < 80));
    }
    for (index, slots) in graph.upper.iter().enumerate() {
        assert_eq!(slots.len(), graph.levels[index] as usize * 8);
        for &slot in slots {
            if slot != EMPTY_NEIGHBOR {
                assert!(graph.levels[slot as usize] >= 1);
            }
        }
    }
}

#[test]
fn hnsw_index_file_reads_back_and_finds_each_reference() {
    let vectors = grid(60);
    let fraud: Vec<bool> = (0..60).map(|k| k % 3 == 0).collect();
    let dataset = labelled(vectors.clone(), &fraud);
    let bytes = IndexHnsw::build(&dataset).unwrap();
    let layout = HnswLayout::read(&bytes).unwrap();
    assert_eq!(layout.reference_count, 60);
    assert_eq!(layout.entrypoint, 39);
    assert_eq!(layout.max_level, 1);

    let index = HnswIndex::from_bytes(&bytes).unwrap();
    for (k, vector) in vectors.iter().enumerate() {
        let found = index.search_top(vector, 1);
        assert_eq!(found, vec![NearestCandidate { index: k, distance: 0 }]);
        assert_eq!(index.is_fraud(k), k % 3 == 0);
    }
}

#[test]
fn hnsw_index_of_nothing_is_refused() {
    let dataset = labelled(Vec::new(), &[]);
    assert_eq!(IndexHnsw::build(&dataset), Err(HnswBuildError::Empty));
}

#[test]
fn nearest_centroid_prefers_the_first_of_equals() {
    let centroids = [vector_with(0, 0), vector_with(10, 0), vector_with(-10, 0)];
    assert_eq!(nearest_centroid(&centroids, &vector_with(4, 0)), 0);
    assert_eq!(nearest_centroid(&centroids, &vector_with(6, 0)), 1);
    assert_eq!(nearest_centroid(&centroids, &vector_with(-5, 0)), 0);
    assert_eq!(nearest_centroid(&centroids, &vector_with(-6, 0)), 2);
    assert_eq!(nearest_centroid(&[], &vector_with(1, 1)), 0);
}

#[test]
fn nearest_centroids_are_the_closest_set() {
    let centroids = [vector_with(0, 0), vector_with(10, 0), vector_with(-10, 0), vector_with(3, 0)];
    assert_eq!(nearest_centroids(&centroids, &vector_with(2, 0), 2), vec![0, 3]);
    let replaced = [vector_with(10, 0), vector_with(0, 0), vector_with(3, 0)];
    assert_eq!(nearest_centroids(&replaced, &vector_with(2, 0), 2), vec![2, 1]);
    assert_eq!(nearest_centroids(&replaced, &vector_with(2, 0), 5), vec![0, 1, 2, 0, 0]);
}

#[test]
fn candidate_lists_group_positions_by_centroid() {
    let offsets = candidate_list_offsets(&[2, 0, 3]);
    assert_eq!(offsets, vec![0, 2, 2, 5]);
    let by_position = [2, 0, 2, 0, 2];
    assert_eq!(candidate_indices(&offsets, &by_position, 3), vec![1, 3, 0, 2, 4]);
}

#[test]
fn sampling_spreads_evenly() {
    assert_eq!(sample_positions(10, 4), vec![0, 2, 5, 7]);
    assert_eq!(sample_positions(3, 5), vec![0, 1, 2]);
    let vectors = two_clusters();
    let samples = sample_references(&vectors, 3);
    assert_eq!(samples, vec![vectors[0], vectors[2], vectors[5]]);
}

#[test]
fn residuals_saturate_and_codewords_are_nearest() {
    let mut vector = vector_with(-30000, 30000);
    vector[2] = 7;
    let mut centroid = vector_with(10000, -10000);
    centroid[2] = 2;
    let residual = residual_vector(&vector, &centroid);
    assert_eq!(residual[0], i16::MIN);
    assert_eq!(residual[1], i16::MAX);
    assert_eq!(residual[2], 5);

    let codebook: [PqSubVector; 3] = [[0, 0, 0, 0], [5, 5, 0, 0], [9, 0, 0, 0]];
    assert_eq!(nearest_codeword(&codebook, &[4, 4, 0, 0]), 1);
    assert_eq!(nearest_codeword(&codebook, &[8, 1, 0, 0]), 2);

    let mut codebooks: Vec<PqSubVector> = vec![[0, 0, 0, 0]; 1024];
    codebooks[3] = [5, 0, 0, 0];
    codebooks[256 + 7] = [0, 0, 0, 0];
    let code = encode_residual(&vector_with(6, 0), &vector_with(1, 0), &codebooks);
    assert_eq!(code, [3, 0, 0, 0]);
}

#[test]
fn label_positions_lists_each_label() {
    assert_eq!(label_positions(&[0b0000_0101], 8, true), vec![0, 2]);
    assert_eq!(label_positions(&[0b0000_0101], 8, false), vec![1, 3, 4, 5, 6, 7]);
    assert_eq!(label_positions(&[0xff, 0x01], 10, true), vec![0, 1, 2, 3, 4, 5, 6, 7, 8]);
}

#[test]
fn ivf_settings_are_checked() {
    assert_eq!(validate_shared_config(4, 2, 1), Ok(()));
    assert_eq!(validate_shared_config(0, 2, 1), Err(IvfError::ZeroSetting));
    assert_eq!(validate_shared_config(4, 2, 3), Err(IvfError::TooManyAssignments));
    assert_eq!(validate_centroid_count(5, 5), Ok(()));
    assert_eq!(validate_centroid_count(4, 5), Err(IvfError::TooManyCentroids));
    assert_eq!(IndexIvf::validate_config(10, 4, 2), Ok(()));
    assert_eq!(IndexIvf::validate_config(3, 4, 2), Err(IvfError::TooManyCentroids));
    assert_eq!(IndexIvf::validate_config(10, 4, 0), Err(IvfError::ProbeCount));
    assert_eq!(IndexIvf::validate_config(10, 4, 5), Err(IvfError::ProbeCount));
}

#[test]
fn flat_index_of_two_clusters() {
    let dataset = labelled(two_clusters(), &[false, false, true, false, true, true, false, true]);
    let bytes = IndexIvf::build_with(&dataset, 2, 8, 3, 1).unwrap();
    assert_eq!(bytes.len(), IVF_HEADER_LEN + 2 * 32 + 3 * 4 + 8 * 4 + 8 * 32 + 1);
    assert_eq!(&bytes[..8], b"R26IFL04");
    assert_eq!(u64_at(&bytes, 8), 8);
    assert_eq!(u32_at(&bytes, 16), 2);
    assert_eq!(u64_at(&bytes, 20), 8);
    let centroids = IVF_HEADER_LEN;
    assert_eq!(i16_at(&bytes, centroids), 1);
    assert_eq!(i16_at(&bytes, centroids + 32), 101);
    let offsets = centroids + 64;
    assert_eq!([u32_at(&bytes, offsets), u32_at(&bytes, offsets + 4), u32_at(&bytes, offsets + 8)], [0, 4, 8]);
    let indices = offsets + 12;
    let listed: Vec<u32> = (0..8).map(|k| u32_at(&bytes, indices + 4 * k)).collect();
    assert_eq!(listed, vec![0, 1, 2, 3, 4, 5, 6, 7]);
    let vectors = indices + 32;
    assert_eq!(i16_at(&bytes, vectors + 5 * 32), 101);
    assert_eq!(bytes[bytes.len() - 1], 0b1011_0100);
}

#[test]
fn flat_index_refuses_more_centroids_than_references() {
    let dataset = labelled(two_clusters(), &[false; 8]);
    assert_eq!(IndexIvf::build(&dataset), Err(IvfError::TooManyCentroids));
    assert_eq!(IndexIvf::build_with(&dataset, 2, 8, 3, 3), Err(IvfError::ProbeCount));
}

#[test]
fn quantized_index_layout() {
    let vectors = two_clusters();
    let indices: Vec<u32> = (0..8).collect();
    let bytes = build_index(&vectors, &indices, 8, 2, 1, 2).unwrap();
    assert_eq!(bytes.len(), 40 + 2 * 32 + 1024 * 8 + 3 * 4 + 8 * 4 + 8 * 4);
    assert_eq!(&bytes[..8], b"R26IFL04");
    assert_eq!(u64_at(&bytes, 8), 8);
    assert_eq!(u32_at(&bytes, 16), 2);
    assert_eq!(u64_at(&bytes, 20), 8);
    assert_eq!([u32_at(&bytes, 28), u32_at(&bytes, 32), u32_at(&bytes, 36)], [4, 256, 4]);
    assert_eq!(i16_at(&bytes, 40), 1);
    assert_eq!(i16_at(&bytes, 72), 101);
    let offsets = 40 + 64 + 1024 * 8;
    assert_eq!([u32_at(&bytes, offsets), u32_at(&bytes, offsets + 4), u32_at(&bytes, offsets + 8)], [0, 4, 8]);

    assert_eq!(build_index(&vectors, &indices, 8, 9, 1, 2), Err(IvfError::TooManyCentroids));
}

#[test]
fn quantized_indexes_over_all_and_over_one_label() {
    let dataset = labelled(two_clusters(), &[true, false, true, false, true, false, true, false]);
    let all = build_primary_index(&dataset, 2, 2, 1).unwrap();
    assert_eq!(u64_at(&all, 20), 16);

    let fraud = build_label_index(&dataset, true, 2, 1, 1).unwrap();
    assert_eq!(u64_at(&fraud, 8), 8);
    assert_eq!(u64_at(&fraud, 20), 4);
    let indices = 40 + 64 + 1024 * 8 + 12;
    let mut listed: Vec<u32> = (0..4).map(|k| u32_at(&fraud, indices + 4 * k)).collect();
    listed.sort();
    assert_eq!(listed, vec![0, 2, 4, 6]);

    assert_eq!(build_label_index(&dataset, false, 5, 1, 1), Err(IvfError::TooManyCentroids));
}

#[test]
fn references_file_reads_back() {
    let dataset = labelled(two_clusters(), &[false, true, false, false, true, false, false, true]);
    let bytes = encode_reference_file(&dataset.vectors, &dataset.fraud_bits);
    assert_eq!(bytes.len(), 16 + 8 * 32 + 1);
    assert_eq!(&bytes[..8], b"R26REF01");
    let file = ReferenceFile::from_bytes(&bytes).unwrap();
    assert_eq!(file.len(), 8);
    for index in 0..8 {
        assert_eq!(file.vector_at(index), dataset.vectors[index]);
        assert_eq!(file.is_fraud(index), matches!(index, 1 | 4 | 7));
    }
    let read = file.to_dataset();
    assert_eq!(read.vectors, dataset.vectors);
    assert_eq!(read.fraud_bits, dataset.fraud_bits);
}

#[test]
fn references_file_errors() {
    let dataset = labelled(two_clusters(), &[false; 8]);
    let bytes = encode_reference_file(&dataset.vectors, &dataset.fraud_bits);
    assert_eq!(ReferenceFile::from_bytes(&bytes[..15]).err(), Some(ReferenceFileError::TooShort));
    let mut bad = bytes.clone();
    bad[0] = b'X';
    assert_eq!(ReferenceFile::from_bytes(&bad).err(), Some(ReferenceFileError::BadMagic));
    assert_eq!(
        ReferenceFile::from_bytes(&bytes[..bytes.len() - 1]).err(),
        Some(ReferenceFileError::LengthMismatch { expected: 273, actual: 272 })
    );
}
