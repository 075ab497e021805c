use rinha::distance::distance2_limited;
use rinha::hnsw::{EMPTY_NEIGHBOR, HnswIndex, HnswLayout, HNSW_M};
use rinha::hnsw_file::encode_hnsw_file;
use rinha::memory::{IndexedReferences, ReferenceSource};
use rinha::VECTOR_DIMENSIONS;

fn sample_hnsw_bytes(
    vectors: &[[i16; VECTOR_DIMENSIONS]],
    fraud_bits: &[u8],
    levels: &[u8],
    level0: &[[u32; HNSW_M]],
    upper: &[Vec<u32>],
    entrypoint: u32,
    max_level: u8,
) -> Vec<u8> {
    encode_hnsw_file(vectors, fraud_bits, levels, level0, upper, entrypoint, max_level)
}

#[test]
fn parser_accepts_hnsw_magic() {
    let vectors = [[0_i16; VECTOR_DIMENSIONS]];
    let levels = [0_u8];
    let level0 = [[EMPTY_NEIGHBOR; HNSW_M]];
    let upper = [Vec::new()];
    let bytes = sample_hnsw_bytes(&vectors, &[0], &levels, &level0, &upper, 0, 0);

    let layout = HnswLayout::read(&bytes).unwrap();

    assert_eq!(layout.reference_count, 1);
    assert_eq!(layout.entrypoint, 0);
}

#[test]
fn parser_rejects_old_magic() {
    let vectors = [[0_i16; VECTOR_DIMENSIONS]];
    let levels = [0_u8];
    let level0 = [[EMPTY_NEIGHBOR; HNSW_M]];
    let upper = [Vec::new()];
    let mut bytes = sample_hnsw_bytes(&vectors, &[0], &levels, &level0, &upper, 0, 0);
    let old_magic = [b"R26".as_slice(), b"IFL04".as_slice()].concat();
    bytes[..8].copy_from_slice(&old_magic);

    let error = HnswLayout::read(&bytes).unwrap_err().message().to_string();

    assert!(error.contains("bad magic"));
}

#[test]
fn distance_uses_first8_plus_tail6() {
    let mut a = [0_i16; VECTOR_DIMENSIONS];
    let mut b = [0_i16; VECTOR_DIMENSIONS];
    a[0] = 1_000;
    b[0] = 4_000;
    a[8] = 2_000;
    b[8] = 6_000;
    a[13] = -1_000;
    b[13] = 1_000;

    assert_eq!(distance2_limited(&a, &b, u64::MAX), 29_000_000);
}

#[test]
fn early_discard_skips_tail6() {
    let mut a = [0_i16; VECTOR_DIMENSIONS];
    let b = [0_i16; VECTOR_DIMENSIONS];
    a[0] = 10_000;

    let distance = distance2_limited(&a, &b, 1);

    assert_eq!(distance, 100_000_000);
    // The tail is not evaluated: a difference there does not show.
    let mut c = a;
    c[13] = 5;
    assert_eq!(distance2_limited(&c, &b, 1), 100_000_000);
}

#[test]
fn search_hnsw_returns_expected_top_on_manual_graph() {
    let mut vectors = [[0_i16; VECTOR_DIMENSIONS]; 6];
    for (index, vector) in vectors.iter_mut().enumerate() {
        vector[0] = (index as i16) * 100;
    }
    let levels = [0_u8; 6];
    let mut level0 = [[EMPTY_NEIGHBOR; HNSW_M]; 6];
    level0[0][..2].copy_from_slice(&[1, 2]);
    level0[1][..3].copy_from_slice(&[0, 2, 3]);
    level0[2][..4].copy_from_slice(&[0, 1, 3, 4]);
    level0[3][..4].copy_from_slice(&[1, 2, 4, 5]);
    level0[4][..3].copy_from_slice(&[2, 3, 5]);
    level0[5][..2].copy_from_slice(&[3, 4]);
    let upper: Vec<Vec<u32>> = (0..6).map(|_| Vec::new()).collect();
    let bytes = sample_hnsw_bytes(&vectors, &[0], &levels, &level0, &upper, 0, 0);
    let index = HnswIndex::from_bytes(&bytes).unwrap();
    let mut query = [0_i16; VECTOR_DIMENSIONS];
    query[0] = 250;

    let found = index.search_top(&query, 5);

    assert_eq!(
        found
            .iter()
            .map(|candidate| candidate.index)
            .collect::<Vec<_>>(),
        vec![2, 3, 1, 4, 0]
    );
}

#[test]
fn empty_neighbor_slots_are_ignored() {
    let vectors = [[0_i16; VECTOR_DIMENSIONS], [100_i16; VECTOR_DIMENSIONS]];
    let levels = [0_u8; 2];
    let level0 = [[EMPTY_NEIGHBOR; HNSW_M], [EMPTY_NEIGHBOR; HNSW_M]];
    let upper = [Vec::new(), Vec::new()];
    let bytes = sample_hnsw_bytes(&vectors, &[0], &levels, &level0, &upper, 0, 0);
    let index = HnswIndex::from_bytes(&bytes).unwrap();

    let found = index.search_top(&[0; VECTOR_DIMENSIONS], 5);

    assert_eq!(found.len(), 1);
    assert_eq!(found[0].index, 0);
}

#[test]
fn hnsw_file_reads_back_what_was_written() {
    let mut vectors = [[0_i16; VECTOR_DIMENSIONS]; 3];
    vectors[1][3] = -7;
    vectors[2][15] = 300;
    let level0 = [[EMPTY_NEIGHBOR; HNSW_M]; 3];
    let upper = vec![vec![1_u32, 2], Vec::new(), vec![0_u32]];
    let bytes = sample_hnsw_bytes(&vectors, &[0b101], &[1, 0, 1], &level0, &upper, 2, 1);

    let layout = HnswLayout::read(&bytes).unwrap();
    assert_eq!(layout.reference_count, 3);
    assert_eq!(layout.entrypoint, 2);
    assert_eq!(layout.max_level, 1);
    assert_eq!(layout.upper_edge_count, 3);
    let index = HnswIndex::from_bytes(&bytes).unwrap();
    assert_eq!(index.reference_vector(1), vectors[1]);
    assert_eq!(index.reference_vector(2), vectors[2]);
    assert!(index.is_fraud(0));
    assert!(!index.is_fraud(1));
    assert!(index.is_fraud(2));
}

#[test]
fn hnsw_file_with_wrong_length_is_refused() {
    let vectors = [[0_i16; VECTOR_DIMENSIONS]];
    let level0 = [[EMPTY_NEIGHBOR; HNSW_M]];
    let upper = [Vec::new()];
    let mut bytes = sample_hnsw_bytes(&vectors, &[0], &[0], &level0, &upper, 0, 0);
    bytes.push(0);
    assert!(HnswLayout::read(&bytes).is_err());
    assert!(HnswLayout::read(&bytes[..20]).is_err());
}

#[test]
fn indexed_references_search_and_label() {
    let mut vectors = [[0_i16; VECTOR_DIMENSIONS]; 2];
    vectors[1][0] = 50;
    let level0 = [[1, EMPTY_NEIGHBOR, EMPTY_NEIGHBOR, EMPTY_NEIGHBOR, EMPTY_NEIGHBOR, EMPTY_NEIGHBOR, EMPTY_NEIGHBOR, EMPTY_NEIGHBOR, EMPTY_NEIGHBOR, EMPTY_NEIGHBOR, EMPTY_NEIGHBOR, EMPTY_NEIGHBOR, EMPTY_NEIGHBOR, EMPTY_NEIGHBOR, EMPTY_NEIGHBOR, EMPTY_NEIGHBOR], [EMPTY_NEIGHBOR; HNSW_M]];
    let upper = [Vec::new(), Vec::new()];
    let bytes = sample_hnsw_bytes(&vectors, &[0b10], &[0, 0], &level0, &upper, 0, 0);
    let references = IndexedReferences::from_bytes(&bytes).unwrap();
    assert!(!references.is_fraud(0));
    assert!(references.is_fraud(1));
    let mut query = [0_i16; VECTOR_DIMENSIONS];
    query[0] = 40;
    let found = references.search_top(&query, 2);
    assert_eq!(found.iter().map(|c| c.index).collect::<Vec<_>>(), vec![1, 0]);
    assert_eq!(found[0].distance, 100);
    assert_eq!(references.hnsw_info().reference_count, 2);
}
