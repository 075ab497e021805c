//! Sources of labelled references that a vector can be scored against.
use vstd::prelude::*;

use crate::ReferenceVector;
use crate::distance::squared_distance;
use crate::hnsw::{HnswIndex, HnswInfo, HnswLayoutError, fraud_bit, search_result_ok, spec_read_layout, spec_search_top};
use crate::nearest::{
    NearestCandidate, ReferenceRecord, all_within, distinct_indices, has_index, search_records,
    sorted_by_key,
};

verus! {

/// Labelled references that answer nearest-neighbour queries.
pub trait ReferenceSource {
    /// How many references there are.
    spec fn reference_count(&self) -> nat;

    /// The fraud label of reference `index`.
    fn is_fraud(&self, index: usize) -> bool
        requires
            index < self.reference_count(),
    ;

    /// At most `top` references near `vector`, ordered by distance, then index.
    fn search_top(&self, vector: &ReferenceVector, top: usize) -> Vec<NearestCandidate>;
}

/// References served from an HNSW index file.
pub struct IndexedReferences<'a> {
    index: HnswIndex<'a>,
}

impl<'a> IndexedReferences<'a> {
    #[verifier::type_invariant]
    spec fn index_wf(&self) -> bool {
        self.index.wf()
    }

    /// The index the references are read from.
    pub closed spec fn spec_index(&self) -> HnswIndex<'a> {
        self.index
    }
}

impl<'a> ReferenceSource for IndexedReferences<'a> {
    open spec fn reference_count(&self) -> nat {
        self.spec_index().layout.reference_count as nat
    }

    fn is_fraud(&self, index: usize) -> (r: bool)
        ensures
            r == fraud_bit(self.spec_index().bytes@, self.spec_index().layout, index as int),
    {
        proof {
            use_type_invariant(self);
        }
        self.index.is_fraud(index)
    }

    fn search_top(&self, vector: &ReferenceVector, top: usize) -> (r: Vec<NearestCandidate>)
        ensures
            r@.len() <= top,
            search_result_ok(self.spec_index().bytes@, self.spec_index().layout, vector@, r@),
            r@ == spec_search_top(self.spec_index().bytes@, self.spec_index().layout, vector@, top as int),
    {
        proof {
            use_type_invariant(self);
        }
        self.index.search_top(vector, top)
    }
}

impl ReferenceSource for [ReferenceRecord] {
    open spec fn reference_count(&self) -> nat {
        self@.len()
    }

    fn is_fraud(&self, index: usize) -> (r: bool)
        ensures
            r == self@[index as int].is_fraud,
    {
        self[index].is_fraud
    }

    fn search_top(&self, vector: &ReferenceVector, top: usize) -> (r: Vec<NearestCandidate>)
        ensures
            r@.len() == if top < self@.len() { top as int } else { self@.len() as int },
            sorted_by_key(r@),
            distinct_indices(r@),
            forall|i: int|
                0 <= i < r@.len() ==> (#[trigger] r@[i]).index < self@.len() && r@[i].distance
                    == squared_distance(vector@, self@[r@[i].index as int].vector@),
            forall|j: usize|
                j < self@.len() && !has_index(r@, j) ==> #[trigger] all_within(
                    r@,
                    squared_distance(vector@, self@[j as int].vector@),
                ),
    {
        search_records(self, vector, top)
    }
}

impl<'a> IndexedReferences<'a> {
    /// The references of the HNSW index file held in `bytes`.
    pub fn from_bytes(bytes: &'a [u8]) -> (r: Result<Self, HnswLayoutError>)
        ensures
            match spec_read_layout(bytes@) {
                Ok(l) => r matches Ok(refs) && refs.spec_index().bytes == bytes
                    && refs.spec_index().layout == l,
                Err(e) => r matches Err(e2) && e2 == e,
            },
    {
        match HnswIndex::from_bytes(bytes) {
            Ok(index) => Ok(IndexedReferences { index }),
            Err(e) => Err(e),
        }
    }

    pub fn hnsw_info(&self) -> (r: HnswInfo)
        ensures
            r.entrypoint == self.spec_index().layout.entrypoint,
            r.max_level == self.spec_index().layout.max_level,
            r.reference_count == self.spec_index().layout.reference_count,
    {
        self.index.info()
    }
}

} // verus!
