//! Fraud scoring over quantized transaction vectors: request parsing, the
//! binary index formats, and the nearest-neighbour searches that score a vector.
use vstd::prelude::*;

pub mod bytes;
pub mod timestamp;
pub mod numtext;
pub mod dto;
pub mod parser;
pub mod distance;
pub mod nearest;
pub mod hnsw;
pub mod hnsw_file;
pub mod memory;
pub mod morton;
pub mod kdtree;
pub mod kdsearch;
pub mod consts;
pub mod encoding;
pub mod response;
pub mod service;
pub mod controller;
pub mod http;
pub mod umbral;
pub mod reference;
pub mod reference_file;
pub mod ivf;
pub mod ivf_build;
pub mod hnsw_build;

verus! {

/// Dimensions of a reference vector.
pub const VECTOR_DIMENSIONS: usize = 16;
/// Bytes of a stored reference vector (16 little-endian `i16`).
pub const VECTOR_LEN: usize = 32;
/// Neighbours that decide a score.
pub const NEAREST_COUNT: usize = 5;

/// Bytes of an IVF file header: magic, reference count, centroid count and
/// candidate count.
pub const IVF_HEADER_LEN: usize = 28;
/// References sampled to train the flat index's centroids.
pub const IVF_FINE_SAMPLES: usize = 3_000_000;
/// Centroids of the flat index.
pub const IVF_FINE_CENTROIDS: usize = 4096;
/// k-means steps that train the flat index's centroids.
pub const IVF_FINE_ITERATIONS: usize = 200;
/// Centroid lists a search of the flat index probes first.
pub const IVF_INITIAL_PROBES: usize = 2;
/// Centroid lists a search of the flat index probes at most.
pub const IVF_MAX_PROBES: usize = 8;

/// A quantized vector: each dimension scaled by 10 000.
pub type ReferenceVector = [i16; 16];

} // verus!
