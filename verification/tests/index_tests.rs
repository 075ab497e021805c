use rinha::kdtree::{KdNode, KdTree, KdTreeBuilder, NO_CHILD, lower_bound_l2};
use rinha::morton::{DEFAULT_MORTON_WINDOW, Morton, encode_morton, entry, l1_distance, morton_entries, morton_key, quantize_to_byte};
use rinha::reference::{JsonLabel, ReferenceDataset};
use rinha::nearest::{NearestCandidate, ReferenceRecord, TopNearest, search_records};
use rinha::VECTOR_DIMENSIONS;

#[test]
fn quantizes_normal_dimensions_to_full_byte_range() {
    assert_eq!(quantize_to_byte(0, -10_000), 0);
    assert_eq!(quantize_to_byte(0, 0), 0);
    assert_eq!(quantize_to_byte(0, 5_000), 128);
    assert_eq!(quantize_to_byte(0, 10_000), 255);
}

#[test]
fn quantizes_optional_dimensions_with_missing_sentinel() {
    assert_eq!(quantize_to_byte(5, -10_000), 0);
    assert_eq!(quantize_to_byte(5, 0), 128);
    assert_eq!(quantize_to_byte(5, 5_000), 191);
    assert_eq!(quantize_to_byte(5, 10_000), 255);
    assert_eq!(quantize_to_byte(6, -10_000), 0);
}

#[test]
fn l1_distance_uses_full_vector() {
    let left = [0; VECTOR_DIMENSIONS];
    let mut right = [0; VECTOR_DIMENSIONS];
    right[0] = 10;
    right[15] = -20;

    assert_eq!(l1_distance(&left, &right), 30);
}

fn lower_bound_l2_scalar(vector: &[i16; VECTOR_DIMENSIONS], node: &KdNode) -> u64 {
    let mut distance = 0_u64;

    for (dimension, value) in vector.iter().enumerate() {
        let difference = if *value < node.min[dimension] {
            node.min[dimension] as i32 - *value as i32
        } else if *value > node.max[dimension] {
            *value as i32 - node.max[dimension] as i32
        } else {
            0
        } as u64;

        distance += difference * difference;
    }

    distance
}

#[test]
fn lower_bound_l2_matches_scalar_formula() {
    let vector = [
        -10_000, -8_000, -2_000, -1, 0, 1, 999, 2_000, 3_000, 4_000, 5_000, 6_000, 7_000, 8_000,
        9_000, 10_000,
    ];
    let node = KdNode {
        min: [
            -9_000, -7_000, -3_000, -2, -1, 0, 1_000, 2_000, 2_500, 4_100, 5_000, 6_001, 7_100,
            7_000, 9_000, 9_500,
        ],
        max: [
            -8_500, -6_500, -1_000, 0, 1, 2, 2_000, 3_000, 3_500, 4_200, 5_100, 6_100, 7_200,
            7_500, 9_100, 9_700,
        ],
        left: NO_CHILD,
        right: NO_CHILD,
        start: 0,
        len: 0,
    };

    assert_eq!(lower_bound_l2(&vector, &node), lower_bound_l2_scalar(&vector, &node));
}

fn sample_entries(count: usize) -> Vec<rinha::morton::MortonEntry> {
    let mut entries = Vec::new();
    for i in 0..count {
        let mut vector = [0_i16; VECTOR_DIMENSIONS];
        vector[0] = (i as i16 * 37) % 1000;
        vector[1] = (i as i16 * 11) % 500;
        vector[7] = -(i as i16 % 13);
        entries.push(entry(vector, (i % 3 == 0) as u8));
    }
    entries.sort_unstable_by_key(|e| e.key);
    entries
}

#[test]
fn morton_file_reads_back_what_was_written() {
    let entries = sample_entries(40);
    let bytes = encode_morton(&entries);
    let morton = Morton::from_bytes(&bytes, DEFAULT_MORTON_WINDOW).unwrap();
    assert_eq!(morton.len(), 40);
    for (i, e) in entries.iter().enumerate() {
        let read = morton.entry_at(i);
        assert_eq!(read.key, e.key);
        assert_eq!(read.vector, e.vector);
        assert_eq!(read.label, e.label);
    }
    assert_eq!(bytes.len(), 20 + 49 * 40);
}

#[test]
fn morton_file_with_bad_magic_or_length_is_refused() {
    let entries = sample_entries(3);
    let mut bytes = encode_morton(&entries);
    bytes.push(1);
    assert!(Morton::from_bytes(&bytes, 4).is_err());
    bytes.pop();
    bytes[0] = b'X';
    assert!(Morton::from_bytes(&bytes, 4).is_err());
}

#[test]
fn morton_key_of_entry_matches() {
    let mut vector = [0_i16; VECTOR_DIMENSIONS];
    vector[0] = 10_000;
    let e = entry(vector, 1);
    assert_eq!(e.key, morton_key(&vector));
    assert_eq!(e.label, 1);
    assert_ne!(morton_key(&vector), morton_key(&[0; VECTOR_DIMENSIONS]));
}

#[test]
fn morton_score_is_none_far_from_the_data() {
    let entries = sample_entries(20);
    let bytes = encode_morton(&entries);
    let morton = Morton::from_bytes(&bytes, 8).unwrap();
    let far = [10_000_i16; VECTOR_DIMENSIONS];
    assert_eq!(morton.score(&far), None);
    let empty = encode_morton(&[]);
    let morton = Morton::from_bytes(&empty, 8).unwrap();
    assert_eq!(morton.score(&far), None);
}

#[test]
fn morton_score_is_fraud_when_all_neighbours_are() {
    let mut entries = Vec::new();
    for i in 0..11 {
        let mut vector = [0_i16; VECTOR_DIMENSIONS];
        vector[0] = i as i16;
        entries.push(entry(vector, 1));
    }
    entries.sort_unstable_by_key(|e| e.key);
    let bytes = encode_morton(&entries);
    let morton = Morton::from_bytes(&bytes, 512).unwrap();
    assert_eq!(morton.score(&[0; VECTOR_DIMENSIONS]), Some(5));
}

#[test]
fn kd_tree_build_and_file_roundtrip() {
    let entries = sample_entries(300);
    let tree = KdTreeBuilder::build(&entries).unwrap();
    assert_eq!(tree.records_len(), 300);
    assert!(tree.nodes_len() >= 3);
    assert_eq!(tree.nodes[0].start, 0);
    assert_eq!(tree.nodes[0].len, 300);
    let bytes = tree.encode();
    let read = KdTree::from_bytes(&bytes).unwrap();
    assert_eq!(read.nodes, tree.nodes_len());
    assert_eq!(read.records, 300);
    for k in 0..tree.nodes_len() {
        let node = read.node_at(k);
        assert_eq!(node.min, tree.nodes[k].min);
        assert_eq!(node.max, tree.nodes[k].max);
        assert_eq!(node.left, tree.nodes[k].left);
        assert_eq!(node.right, tree.nodes[k].right);
    }
    for i in 0..300 {
        assert_eq!(read.vector_at(i), tree.records[i].vector);
        assert_eq!(read.label_at(i), tree.records[i].label);
    }
}

#[test]
fn kd_tree_boxes_hold_their_records() {
    let entries = sample_entries(200);
    let tree = KdTreeBuilder::build(&entries).unwrap();
    for node in &tree.nodes {
        for i in node.start as usize..(node.start + node.len) as usize {
            let v = tree.records[i].vector;
            for d in 0..VECTOR_DIMENSIONS {
                assert!(node.min[d] <= v[d] && v[d] <= node.max[d]);
            }
        }
        if node.len as usize <= 64 {
            assert_eq!(node.left, NO_CHILD);
        } else {
            let left = tree.nodes[node.left as usize];
            let right = tree.nodes[node.right as usize];
            assert_eq!(left.len, node.len / 2);
            assert_eq!(right.start, node.start + node.len / 2);
        }
    }
    let mut seen: Vec<u32> = tree.indices.clone();
    seen.sort_unstable();
    assert_eq!(seen, (0..200).collect::<Vec<u32>>());
}

#[test]
fn kd_tree_score_counts_fraud_neighbours() {
    let mut entries = Vec::new();
    for i in 0..10 {
        let mut vector = [0_i16; VECTOR_DIMENSIONS];
        vector[0] = i as i16 * 10;
        entries.push(entry(vector, (i < 5) as u8));
    }
    let tree = KdTreeBuilder::build(&entries).unwrap();
    let bytes = tree.encode();
    let read = KdTree::from_bytes(&bytes).unwrap();
    assert_eq!(read.score(&[0; VECTOR_DIMENSIONS]), 5);
    let mut far = [0_i16; VECTOR_DIMENSIONS];
    far[0] = 90;
    assert_eq!(read.score(&far), 0);
}

#[test]
fn kd_tree_of_nothing_is_empty() {
    let tree = KdTreeBuilder::build(&[]).unwrap();
    assert_eq!(tree.nodes_len(), 0);
    assert_eq!(tree.records_len(), 0);
}

#[test]
fn top_nearest_keeps_the_closest() {
    let mut top = TopNearest::new(2);
    assert!(!top.is_full());
    assert_eq!(top.current_worst_distance(), u64::MAX);
    top.add(NearestCandidate { index: 4, distance: 40 });
    top.add(NearestCandidate { index: 1, distance: 10 });
    top.add(NearestCandidate { index: 1, distance: 10 });
    assert!(top.is_full());
    assert_eq!(top.current_worst_distance(), 40);
    top.add(NearestCandidate { index: 2, distance: 20 });
    assert!(top.contains(2));
    assert!(!top.contains(4));
    let sorted = top.into_sorted();
    assert_eq!(sorted.iter().map(|c| c.index).collect::<Vec<_>>(), vec![1, 2]);
}

#[test]
fn search_records_is_exact() {
    let mut records = Vec::new();
    for i in 0..10 {
        let mut vector = [0_i16; VECTOR_DIMENSIONS];
        vector[0] = (i * 7 % 10) as i16;
        records.push(ReferenceRecord { vector, is_fraud: i % 2 == 0 });
    }
    let found = search_records(&records, &[0; VECTOR_DIMENSIONS], 3);
    assert_eq!(found.len(), 3);
    assert_eq!(found.iter().map(|c| c.distance).collect::<Vec<_>>(), vec![0, 1, 4]);
}

#[test]
fn kd_tree_search_finds_the_five_nearest() {
    let entries = sample_entries(500);
    let tree = KdTreeBuilder::build(&entries).unwrap();
    let bytes = tree.encode();
    let read = KdTree::from_bytes(&bytes).unwrap();
    for q in 0..40_i32 {
        let mut query = [0_i16; VECTOR_DIMENSIONS];
        for (d, value) in query.iter_mut().enumerate() {
            *value = ((q * 97 + d as i32 * 31) % 2000 - 1000) as i16;
        }
        let mut all: Vec<(u64, u32)> = (0..read.records)
            .map(|i| {
                let v = read.vector_at(i);
                let distance: u64 = (0..VECTOR_DIMENSIONS)
                    .map(|d| {
                        let delta = query[d] as i64 - v[d] as i64;
                        (delta * delta) as u64
                    })
                    .sum();
                (distance, i as u32)
            })
            .collect();
        all.sort_unstable();
        let top = read.top5(&query);
        let found: Vec<(u64, u32)> = top.iter().map(|n| (n.distance, n.index)).collect();
        assert_eq!(found, all[..5].to_vec());
    }
}

#[test]
fn morton_entries_are_the_references_sorted_by_key() {
    let mut vectors = Vec::new();
    let mut labels = Vec::new();
    for i in 0..30_i16 {
        let mut vector = [0_i16; VECTOR_DIMENSIONS];
        vector[0] = (i * 331) % 10_000;
        vector[3] = 10_000 - (i * 97) % 10_000;
        vectors.push(vector);
        labels.push(if i % 4 == 1 { JsonLabel::Fraud } else { JsonLabel::Legit });
    }
    let dataset = ReferenceDataset::from_labelled(vectors.clone(), &labels);
    let entries = morton_entries(&dataset);
    assert_eq!(entries.len(), 30);
    for pair in entries.windows(2) {
        assert!(pair[0].key <= pair[1].key);
    }
    for (i, vector) in vectors.iter().enumerate() {
        let found = entries.iter().find(|e| e.vector == *vector).unwrap();
        assert_eq!(found.key, morton_key(vector));
        assert_eq!(found.label, (i % 4 == 1) as u8);
    }
}

#[test]
fn kd_tree_halves_split_along_the_widest_dimension() {
    let entries = sample_entries(300);
    let tree = KdTreeBuilder::build(&entries).unwrap();
    for node in &tree.nodes {
        if node.len as usize <= 64 {
            continue;
        }
        let mut widest = 0;
        for d in 0..VECTOR_DIMENSIONS {
            let width = node.max[d] as i32 - node.min[d] as i32;
            if width > node.max[widest] as i32 - node.min[widest] as i32 {
                widest = d;
            }
        }
        let start = node.start as usize;
        let half = start + node.len as usize / 2;
        let end = start + node.len as usize;
        let left_max = (start..half).map(|i| tree.records[i].vector[widest]).max().unwrap();
        let right_min = (half..end).map(|i| tree.records[i].vector[widest]).min().unwrap();
        assert!(left_max <= right_min);
    }
}

#[test]
fn kd_top_five_names_distinct_records() {
    let entries = sample_entries(150);
    let tree = KdTreeBuilder::build(&entries).unwrap();
    let bytes = tree.encode();
    let read = KdTree::from_bytes(&bytes).unwrap();
    let query = [3_i16; VECTOR_DIMENSIONS];
    let top = read.top5(&query);
    let mut brute: Vec<(u64, u32)> = (0..150)
        .map(|i| {
            let v = tree.records[i].vector;
            let d: u64 = (0..VECTOR_DIMENSIONS).map(|k| ((query[k] as i64 - v[k] as i64).pow(2)) as u64).sum();
            (d, i as u32)
        })
        .collect();
    brute.sort_unstable();
    for k in 0..5 {
        assert_eq!((top[k].distance, top[k].index), brute[k]);
    }
}

#[test]
fn morton_keys_keep_coordinate_order() {
    let mut low = [0_i16; VECTOR_DIMENSIONS];
    let mut high = [0_i16; VECTOR_DIMENSIONS];
    for d in 0..VECTOR_DIMENSIONS {
        low[d] = (d as i16 * 311) % 9_000;
        high[d] = low[d] + (d as i16 * 17) % 700;
    }
    assert!(morton_key(&low) <= morton_key(&high));
    high[3] = 10_000;
    assert!(morton_key(&low) <= morton_key(&high));
    assert_eq!(morton_key(&low), morton_key(&low));
}

#[test]
fn morton_key_interleaves_byte_bits() {
    let mut vector = [0_i16; VECTOR_DIMENSIONS];
    for d in 0..VECTOR_DIMENSIONS {
        vector[d] = ((d as i16) * 613 + 97) % 10_000;
    }
    vector[5] = -1;
    vector[6] = 4_321;
    let key = morton_key(&vector);
    for bit in 0..8_u32 {
        for d in 0..VECTOR_DIMENSIONS {
            let byte = quantize_to_byte(d, vector[d]);
            let from_key = (key >> (127 - (16 * bit + d as u32))) & 1;
            let from_byte = ((byte >> (7 - bit)) & 1) as u128;
            assert_eq!(from_key, from_byte);
        }
    }
}
