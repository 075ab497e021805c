//! The scoring decision: the Morton index's fast score when it has one, else
//! the frauds among the five nearest references the KD-tree finds.
use vstd::prelude::*;

use crate::ReferenceVector;
use crate::morton::{Morton, score_possible, spec_fast_score, spec_top_neighbors};
use crate::kdtree::KdTree;
use crate::kdsearch::{frauds_among, spec_top5};
use crate::response::{approved, spec_approved};

verus! {

/// Where a decision came from.
#[derive(Debug, Clone, Copy, PartialEq, Eq, Structural)]
pub enum DecisionSource {
    Morton,
    KdTree,
}

/// A fraud level in fifths of one (`0..=5`) and where it came from.
#[derive(Debug, Clone, Copy, PartialEq, Eq, Structural)]
pub struct FraudDecision {
    pub fraud_level: u8,
    pub source: DecisionSource,
}

/// What `Morton::score` gives for `vector`.
pub open spec fn spec_morton_score(m: Morton, vector: Seq<i16>) -> Option<u8> {
    if m.count == 0 { None } else { spec_fast_score(spec_top_neighbors(m, vector)) }
}

/// The Morton index and the KD-tree a service decides with.
pub struct Service<'a> {
    pub morton: Morton<'a>,
    pub kdtree: KdTree<'a>,
}

/// The decision the service makes on `vector`: the Morton index's fast
/// score when it has one; else the KD-tree search's count of frauds among
/// the five records it keeps (the five nearest, on a valid tree).
pub open spec fn decision_ok(s: Service, vector: Seq<i16>, r: FraudDecision) -> bool {
    match spec_morton_score(s.morton, vector) {
        Some(level) => r == FraudDecision { fraud_level: level, source: DecisionSource::Morton },
        None => r == FraudDecision {
            fraud_level: frauds_among(spec_top5(s.kdtree, vector), 5) as u8,
            source: DecisionSource::KdTree,
        },
    }
}

impl<'a> Service<'a> {
    pub open spec fn wf(&self) -> bool {
        self.morton.wf() && self.kdtree.wf()
    }

    /// Whether both indexes agree with the length of their bytes.
    pub fn is_consistent(&self) -> (r: bool)
        ensures
            r == self.wf(),
    {
        let morton_len = self.morton.bytes.len() as u128;
        let kd_len = self.kdtree.bytes.len() as u128;
        let nodes = self.kdtree.nodes as u128;
        let records = self.kdtree.records as u128;
        morton_len == 20 + self.morton.count as u128 * 49 && self.kdtree.vectors_offset as u128 == 28 + 80 * nodes
            && self.kdtree.labels_offset as u128 == self.kdtree.vectors_offset as u128 + 32 * records && kd_len
            == self.kdtree.labels_offset as u128 + records
    }

    pub fn new(morton: Morton<'a>, kdtree: KdTree<'a>) -> (r: Self)
        ensures
            r.morton == morton,
            r.kdtree == kdtree,
    {
        Service { morton, kdtree }
    }

    /// Decides on a vector: by the Morton index when its fast score decides,
    /// else by the KD-tree.
    pub fn decide(&self, vector: &ReferenceVector) -> (r: FraudDecision)
        requires
            self.wf(),
        ensures
            decision_ok(*self, vector@, r),
            score_possible(self.morton, vector@, spec_morton_score(self.morton, vector@)),
            r.fraud_level <= 5,
    {
        let score = self.morton.score(vector);
        proof {
            crate::morton::lemma_score_level(self.morton, vector@, score);
        }
        match score {
            Some(fraud_level) => FraudDecision { fraud_level, source: DecisionSource::Morton },
            None => {
                let frauds = self.kdtree.score(vector);
                FraudDecision { fraud_level: frauds as u8, source: DecisionSource::KdTree }
            },
        }
    }

    /// The fraud level of a vector, in fifths.
    pub fn fraud_score(&self, vector: &ReferenceVector) -> (r: u8)
        requires
            self.wf(),
        ensures
            exists|d: FraudDecision| #[trigger] decision_ok(*self, vector@, d) && d.fraud_level == r,
            r <= 5,
    {
        let d = self.decide(vector);
        d.fraud_level
    }
}

/// Decisions counted by source, with those that disagreed with the answer
/// expected of them.
#[derive(Debug, Clone, Copy, PartialEq, Eq, Structural)]
pub struct DecisionTally {
    pub morton_cases: usize,
    pub kdtree_cases: usize,
    pub morton_mismatches: usize,
    pub kdtree_mismatches: usize,
}

/// One if `b`, else zero.
pub open spec fn count_of(b: bool) -> int {
    if b { 1 } else { 0 }
}

impl DecisionTally {
    /// No decision counted.
    pub fn new() -> (r: Self)
        ensures
            r == (DecisionTally { morton_cases: 0, kdtree_cases: 0, morton_mismatches: 0, kdtree_mismatches: 0 }),
    {
        DecisionTally { morton_cases: 0, kdtree_cases: 0, morton_mismatches: 0, kdtree_mismatches: 0 }
    }

    /// Counts a decision under its source, and as a mismatch when whether it
    /// approves differs from `expected_approved`.
    pub fn record(&mut self, decision: FraudDecision, expected_approved: bool)
        requires
            old(self).morton_cases < usize::MAX,
            old(self).kdtree_cases < usize::MAX,
            old(self).morton_mismatches < usize::MAX,
            old(self).kdtree_mismatches < usize::MAX,
        ensures
            ({
                let mismatched = count_of(spec_approved(decision.fraud_level as nat) != expected_approved);
                match decision.source {
                    DecisionSource::Morton => {
                        &&& final(self).morton_cases == old(self).morton_cases + 1
                        &&& final(self).morton_mismatches == old(self).morton_mismatches + mismatched
                        &&& final(self).kdtree_cases == old(self).kdtree_cases
                        &&& final(self).kdtree_mismatches == old(self).kdtree_mismatches
                    },
                    DecisionSource::KdTree => {
                        &&& final(self).kdtree_cases == old(self).kdtree_cases + 1
                        &&& final(self).kdtree_mismatches == old(self).kdtree_mismatches + mismatched
                        &&& final(self).morton_cases == old(self).morton_cases
                        &&& final(self).morton_mismatches == old(self).morton_mismatches
                    },
                }
            }),
    {
        let mismatched: usize = if approved(decision.fraud_level) != expected_approved { 1 } else { 0 };
        match decision.source {
            DecisionSource::Morton => {
                self.morton_cases = self.morton_cases + 1;
                self.morton_mismatches = self.morton_mismatches + mismatched;
            },
            DecisionSource::KdTree => {
                self.kdtree_cases = self.kdtree_cases + 1;
                self.kdtree_mismatches = self.kdtree_mismatches + mismatched;
            },
        }
    }
}

} // verus!
