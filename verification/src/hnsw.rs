//! The HNSW index file: its layout, and the graph search over it.
use vstd::prelude::*;
use vstd::string::StringExecFns;
use crate::response::{decimal, push_decimal};
use vstd::set_lib::{lemma_int_range, lemma_len_subset, set_int_range};
use vstd::relations::{sorted_by, total_ordering};

use crate::ReferenceVector;
use crate::bytes::{i16_at, read_i16_le, read_u32_le, read_u64_le, u32_at, u64_at};
use crate::distance::{distance2_limited, lemma_partial_sq_bounds, squared_distance};
use crate::nearest::{
    NearestCandidate, TopNearest, distinct_indices, key_le, last_max_slot, lemma_add_len, lemma_last_max_slot, sorted_by_key, spec_add,
};

verus! {

broadcast use vstd::slice::group_slice_axioms;

/// Level-0 neighbour slots per reference.
pub const HNSW_M: usize = 16;
/// Neighbour slots per reference on each upper level.
pub const HNSW_UPPER_M: usize = 8;
/// Candidates kept while searching level 0.
pub const HNSW_EF_SEARCH: usize = 64;
/// Candidates kept while building the graph.
pub const HNSW_EF_CONSTRUCTION: usize = 128;
/// Entry points carried from level 1 down to level 0.
pub const HNSW_ENTRYPOINTS: usize = 8;
/// Bytes before the reference vectors.
pub const HNSW_HEADER_LEN: usize = 32;
/// A neighbour slot that holds no neighbour.
pub const EMPTY_NEIGHBOR: u32 = 0xffff_ffff;

/// The magic bytes that open an HNSW index file.
pub open spec fn hnsw_magic_spec() -> Seq<u8> {
    seq![82u8, 50, 54, 72, 78, 83, 87, 49]
}

/// The magic bytes that open an HNSW index file: `R26HNSW1`.
pub fn hnsw_magic() -> (r: [u8; 8])
    ensures
        r@ == hnsw_magic_spec(),
{
    let r: [u8; 8] = [82, 50, 54, 72, 78, 83, 87, 49];
    assert(r@ =~= hnsw_magic_spec());
    r
}

/// Summary of a loaded HNSW index.
#[derive(Debug, Clone, Copy)]
pub struct HnswInfo {
    pub m: usize,
    pub upper_m: usize,
    pub ef_search: usize,
    pub entrypoint: usize,
    pub max_level: u8,
    pub reference_count: usize,
}

/// Where each section of an HNSW index file starts.
#[derive(Debug, Clone, Copy, PartialEq, Eq, Structural)]
pub struct HnswLayout {
    pub reference_count: usize,
    pub entrypoint: usize,
    pub max_level: u8,
    pub upper_edge_count: usize,
    pub vectors_offset: usize,
    pub fraud_offset: usize,
    pub levels_offset: usize,
    pub level0_offset: usize,
    pub upper_offsets_offset: usize,
    pub upper_neighbors_offset: usize,
}

/// Why an HNSW index file was refused.
#[derive(Debug, Clone, Copy, PartialEq, Eq, Structural)]
pub enum HnswLayoutError {
    TooShort,
    BadMagic,
    NoReferences,
    EntrypointOutOfBounds,
    LengthMismatch { expected: u128, actual: usize },
    UpperOffsetMismatch { last_upper_offset: u64, upper_edge_count: u64 },
}

/// The sentence describing an error, with the numbers it carries.
pub open spec fn layout_error_text(e: HnswLayoutError) -> Seq<char> {
    match e {
        HnswLayoutError::TooShort => "invalid HNSW binary: file is smaller than header"@,
        HnswLayoutError::BadMagic => "invalid HNSW binary: bad magic"@,
        HnswLayoutError::NoReferences => "invalid HNSW binary: no references"@,
        HnswLayoutError::EntrypointOutOfBounds => "invalid HNSW binary: entrypoint out of bounds"@,
        HnswLayoutError::LengthMismatch { expected, actual } => "invalid HNSW binary: expected "@ + decimal(
            expected as nat,
        ) + " bytes, got "@ + decimal(actual as nat) + " bytes"@,
        HnswLayoutError::UpperOffsetMismatch { last_upper_offset, upper_edge_count } =>
            "invalid HNSW binary: last upper offset "@ + decimal(last_upper_offset as nat)
            + " does not match upper edge count "@ + decimal(upper_edge_count as nat),
    }
}

impl HnswLayoutError {
    /// A sentence describing the error.
    pub fn message(&self) -> (r: String)
        ensures
            r@ == layout_error_text(*self),
    {
        match self {
            HnswLayoutError::TooShort => String::from_str("invalid HNSW binary: file is smaller than header"),
            HnswLayoutError::BadMagic => String::from_str("invalid HNSW binary: bad magic"),
            HnswLayoutError::NoReferences => String::from_str("invalid HNSW binary: no references"),
            HnswLayoutError::EntrypointOutOfBounds => String::from_str(
                "invalid HNSW binary: entrypoint out of bounds",
            ),
            HnswLayoutError::LengthMismatch { expected, actual } => {
                let mut text = String::from_str("invalid HNSW binary: expected ");
                push_decimal(&mut text, *expected);
                text.append(" bytes, got ");
                push_decimal(&mut text, *actual as u128);
                text.append(" bytes");
                text
            },
            HnswLayoutError::UpperOffsetMismatch { last_upper_offset, upper_edge_count } => {
                let mut text = String::from_str("invalid HNSW binary: last upper offset ");
                push_decimal(&mut text, *last_upper_offset as u128);
                text.append(" does not match upper edge count ");
                push_decimal(&mut text, *upper_edge_count as u128);
                text
            },
        }
    }
}

/// The byte length an index with these counts must have.
pub open spec fn hnsw_expected_len(count: int, upper_edge_count: int) -> int {
    32 + count * 32 + (count + 7) / 8 + count + count * 64 + (count + 1) * 8 + upper_edge_count * 4
}

/// The section offsets of an index with `count` references.
pub open spec fn hnsw_layout_for(count: int, entrypoint: int, max_level: u8, upper_edge_count: int) -> HnswLayout {
    let vectors: int = 32;
    let fraud = vectors + count * 32;
    let levels = fraud + (count + 7) / 8;
    let level0 = levels + count;
    let upper_offsets = level0 + count * 64;
    let upper_neighbors = upper_offsets + (count + 1) * 8;
    HnswLayout {
        reference_count: count as usize,
        entrypoint: entrypoint as usize,
        max_level,
        upper_edge_count: upper_edge_count as usize,
        vectors_offset: vectors as usize,
        fraud_offset: fraud as usize,
        levels_offset: levels as usize,
        level0_offset: level0 as usize,
        upper_offsets_offset: upper_offsets as usize,
        upper_neighbors_offset: upper_neighbors as usize,
    }
}

/// How `HnswLayout::read` judges the bytes of an index file.
#[verifier::opaque]
pub open spec fn spec_read_layout(b: Seq<u8>) -> Result<HnswLayout, HnswLayoutError> {
    if b.len() < 32 {
        Err(HnswLayoutError::TooShort)
    } else if b.subrange(0, 8) != hnsw_magic_spec() {
        Err(HnswLayoutError::BadMagic)
    } else {
        let count = u64_at(b, 8);
        let entrypoint = u32_at(b, 16);
        let max_level = b[20];
        let upper = u64_at(b, 24);
        let expected = hnsw_expected_len(count, upper);
        let layout = hnsw_layout_for(count, entrypoint, max_level, upper);
        if count == 0 {
            Err(HnswLayoutError::NoReferences)
        } else if entrypoint >= count {
            Err(HnswLayoutError::EntrypointOutOfBounds)
        } else if b.len() != expected {
            Err(HnswLayoutError::LengthMismatch { expected: expected as u128, actual: b.len() as usize })
        } else if u64_at(b, layout.upper_offsets_offset + count * 8) != upper {
            Err(
                HnswLayoutError::UpperOffsetMismatch {
                    last_upper_offset: u64_at(b, layout.upper_offsets_offset + count * 8) as u64,
                    upper_edge_count: upper as u64,
                },
            )
        } else {
            Ok(layout)
        }
    }
}

/// The first 8 bytes are the index magic.
fn starts_with_magic(bytes: &[u8]) -> (r: bool)
    requires
        8 <= bytes@.len(),
    ensures
        r == (bytes@.subrange(0, 8) == hnsw_magic_spec()),
{
    let magic = hnsw_magic();
    let mut i: usize = 0;
    while i < 8
        invariant
            i <= 8 <= bytes@.len(),
            magic@ == hnsw_magic_spec(),
            forall|j: int| 0 <= j < i ==> bytes@[j] == magic@[j],
        decreases 8 - i,
    {
        if bytes[i] != magic[i] {
            assert(bytes@.subrange(0, 8)[i as int] != hnsw_magic_spec()[i as int]);
            return false;
        }
        i = i + 1;
    }
    assert(bytes@.subrange(0, 8) =~= hnsw_magic_spec());
    true
}

impl HnswLayout {
    /// Checks the header and the length of an index file and locates its sections.
    pub fn read(bytes: &[u8]) -> (r: Result<Self, HnswLayoutError>)
        ensures
            r == spec_read_layout(bytes@),
    {
        reveal(spec_read_layout);
        if bytes.len() < 32 {
            return Err(HnswLayoutError::TooShort);
        }
        if !starts_with_magic(bytes) {
            return Err(HnswLayoutError::BadMagic);
        }
        let count = read_u64_le(bytes, 8);
        let entrypoint = read_u32_le(bytes, 16);
        let max_level = bytes[20];
        let upper = read_u64_le(bytes, 24);
        if count == 0 {
            return Err(HnswLayoutError::NoReferences);
        }
        if entrypoint as u64 >= count {
            return Err(HnswLayoutError::EntrypointOutOfBounds);
        }
        let c = count as u128;
        let expected: u128 = 32 + c * 32 + (c + 7) / 8 + c + c * 64 + (c + 1) * 8 + upper as u128 * 4;
        if expected != bytes.len() as u128 {
            return Err(HnswLayoutError::LengthMismatch { expected, actual: bytes.len() });
        }
        let count = count as usize;
        let vectors_offset: usize = 32;
        let fraud_offset = vectors_offset + count * 32;
        let levels_offset = fraud_offset + (count + 7) / 8;
        let level0_offset = levels_offset + count;
        let upper_offsets_offset = level0_offset + count * 64;
        let upper_neighbors_offset = upper_offsets_offset + (count + 1) * 8;
        let last_upper_offset = read_u64_le(bytes, upper_offsets_offset + count * 8);
        if last_upper_offset != upper {
            return Err(
                HnswLayoutError::UpperOffsetMismatch { last_upper_offset, upper_edge_count: upper },
            );
        }
        Ok(
            HnswLayout {
                reference_count: count,
                entrypoint: entrypoint as usize,
                max_level,
                upper_edge_count: upper as usize,
                vectors_offset,
                fraud_offset,
                levels_offset,
                level0_offset,
                upper_offsets_offset,
                upper_neighbors_offset,
            },
        )
    }
}


/// The facts a successful `HnswLayout::read` establishes about an index file.
pub open spec fn layout_ok(b: Seq<u8>, l: HnswLayout) -> bool {
    &&& l.reference_count >= 1
    &&& l.entrypoint < l.reference_count
    &&& l == hnsw_layout_for(
        l.reference_count as int,
        l.entrypoint as int,
        l.max_level,
        l.upper_edge_count as int,
    )
    &&& b.len() == hnsw_expected_len(l.reference_count as int, l.upper_edge_count as int)
    &&& b.len() <= usize::MAX
}

proof fn lemma_read_layout_ok(b: Seq<u8>)
    requires
        b.len() <= usize::MAX,
        spec_read_layout(b) is Ok,
    ensures
        layout_ok(b, spec_read_layout(b)->Ok_0),
{
    reveal(spec_read_layout);
}

/// The stored vector of reference `index`.
pub open spec fn ref_vector(b: Seq<u8>, l: HnswLayout, index: int) -> Seq<i16> {
    Seq::new(16, |d: int| i16_at(b, l.vectors_offset + index * 32 + 2 * d) as i16)
}

/// Bit `index % 8` of the fraud byte of reference `index`.
pub open spec fn fraud_bit(b: Seq<u8>, l: HnswLayout, index: int) -> bool {
    (b[l.fraud_offset + index / 8] >> ((index % 8) as u8)) & 1u8 == 1u8
}

/// A reference of the index and its true squared distance to `vector`.
pub open spec fn candidate_ok(b: Seq<u8>, l: HnswLayout, vector: Seq<i16>, c: NearestCandidate) -> bool {
    c.index < l.reference_count && c.distance == squared_distance(vector, ref_vector(b, l, c.index as int))
}

/// Every candidate is a reference with its true distance.
pub open spec fn all_ok(b: Seq<u8>, l: HnswLayout, vector: Seq<i16>, s: Seq<NearestCandidate>) -> bool {
    forall|i: int| 0 <= i < s.len() ==> #[trigger] candidate_ok(b, l, vector, s[i])
}

proof fn lemma_add_keeps_ok(
    b: Seq<u8>,
    l: HnswLayout,
    vector: Seq<i16>,
    s: Seq<NearestCandidate>,
    capacity: int,
    c: NearestCandidate,
)
    requires
        all_ok(b, l, vector, s),
        candidate_ok(b, l, vector, c),
    ensures
        all_ok(b, l, vector, spec_add(s, capacity, c)),
{
    let t = spec_add(s, capacity, c);
    if s.len() > 0 {
        lemma_last_max_slot(s);
    }
    assert forall|i: int| 0 <= i < t.len() implies #[trigger] candidate_ok(b, l, vector, t[i]) by {
        if i < s.len() && t[i] != c {
            assert(t[i] == s[i]);
        }
    }
}

/// A sequence of distinct indices below `n` has at most `n` entries.
proof fn lemma_distinct_below(s: Seq<usize>, n: int)
    requires
        0 <= n,
        s.no_duplicates(),
        forall|i: int| 0 <= i < s.len() ==> s[i] < n,
    ensures
        s.len() <= n,
{
    let t = s.map_values(|x: usize| x as int);
    assert(t.no_duplicates()) by {
        assert forall|i: int, j: int| 0 <= i < t.len() && 0 <= j < t.len() && i != j implies t[i]
            != t[j] by {
            assert(s[i] != s[j]);
        }
    }
    t.unique_seq_to_set();
    lemma_int_range(0, n);
    assert forall|x: int| t.to_set().contains(x) implies set_int_range(0, n).contains(x) by {
        assert(t.contains(x));
        let k = choose|k: int| 0 <= k < t.len() && t[k] == x;
        assert(s[k] < n);
    }
    lemma_len_subset(t.to_set(), set_int_range(0, n));
}

fn contains_index(v: &Vec<usize>, x: usize) -> (r: bool)
    ensures
        r == v@.contains(x),
{
    let mut i: usize = 0;
    while i < v.len()
        invariant
            i <= v@.len(),
            forall|j: int| 0 <= j < i ==> v@[j] != x,
        decreases v@.len() - i,
    {
        if v[i] == x {
            return true;
        }
        i = i + 1;
    }
    false
}

/// `a` goes strictly before `b`: nearer, or as near with a smaller index.
pub open spec fn key_lt(a: NearestCandidate, b: NearestCandidate) -> bool {
    a.distance < b.distance || (a.distance == b.distance && a.index < b.index)
}

/// The first slot holding the candidate first by distance, then index.
pub open spec fn min_slot(s: Seq<NearestCandidate>) -> int
    decreases s.len(),
{
    if s.len() <= 1 {
        0
    } else {
        let k = min_slot(s.drop_last());
        if key_lt(s.last(), s[k]) { s.len() - 1 } else { k }
    }
}

pub(crate) proof fn lemma_min_slot(s: Seq<NearestCandidate>)
    requires
        s.len() > 0,
    ensures
        0 <= min_slot(s) < s.len(),
        forall|i: int| 0 <= i < s.len() ==> key_le(s[min_slot(s)], #[trigger] s[i]),
    decreases s.len(),
{
    if s.len() > 1 {
        lemma_min_slot(s.drop_last());
        assert forall|i: int| 0 <= i < s.len() implies key_le(s[min_slot(s)], #[trigger] s[i]) by {
            if i < s.len() - 1 {
                assert(s[i] == s.drop_last()[i]);
            }
        }
    }
}

/// The candidates left once the first one by key is taken out: the last one
/// moves into its slot.
pub open spec fn without_min(s: Seq<NearestCandidate>) -> Seq<NearestCandidate> {
    s.update(min_slot(s), s.last()).drop_last()
}

/// Removes and returns the candidate first by distance, then index.
fn pop_min(v: &mut Vec<NearestCandidate>) -> (r: Option<NearestCandidate>)
    ensures
        old(v)@.len() == 0 ==> r is None && final(v)@ == old(v)@,
        old(v)@.len() > 0 ==> r == Some(old(v)@[min_slot(old(v)@)]) && final(v)@ == without_min(old(v)@),
        old(v)@.len() > 0 ==> (r matches Some(c) && old(v)@.contains(c) && final(v)@.len() == old(
            v,
        )@.len() - 1 && (forall|x: NearestCandidate| #[trigger]
            final(v)@.contains(x) ==> old(v)@.contains(x)) && (forall|i: int|
            0 <= i < old(v)@.len() ==> key_le(c, #[trigger] old(v)@[i]))),
{
    let n = v.len();
    if n == 0 {
        return None;
    }
    let mut m: usize = 0;
    let mut j: usize = 1;
    while j < n
        invariant
            n == v@.len(),
            m < j <= n,
            forall|b: int| 0 <= b < j ==> key_le(v@[m as int], v@[b]),
            m == min_slot(v@.subrange(0, j as int)),
        decreases n - j,
    {
        proof {
            let t = v@.subrange(0, j + 1);
            assert(t.drop_last() =~= v@.subrange(0, j as int));
            lemma_min_slot(v@.subrange(0, j as int));
        }
        if v[j].distance < v[m].distance || (v[j].distance == v[m].distance && v[j].index
            < v[m].index) {
            m = j;
        }
        j = j + 1;
    }
    assert(v@.subrange(0, n as int) =~= v@);
    let ghost before = v@;
    let c = v.swap_remove(m);
    proof {
        assert(before.contains(before[m as int]));
        assert forall|x: NearestCandidate| #[trigger] v@.contains(x) implies before.contains(x) by {
            let k = choose|k: int| 0 <= k < v@.len() && v@[k] == x;
            if k == m {
                assert(before[n - 1] == x);
            } else {
                assert(before[k] == x);
            }
        }
    }
    Some(c)
}

/// The bytes of an HNSW index file and where its sections lie.
pub struct HnswIndex<'a> {
    pub bytes: &'a [u8],
    pub layout: HnswLayout,
}

impl<'a> HnswIndex<'a> {
    pub open spec fn wf(&self) -> bool {
        layout_ok(self.bytes@, self.layout)
    }

    /// Checks and locates the sections of an index file held in `bytes`.
    pub fn from_bytes(bytes: &'a [u8]) -> (r: Result<Self, HnswLayoutError>)
        ensures
            match spec_read_layout(bytes@) {
                Ok(l) => r matches Ok(index) && index.bytes == bytes && index.layout == l && index.wf(),
                Err(e) => r matches Err(e2) && e2 == e,
            },
    {
        match HnswLayout::read(bytes) {
            Ok(layout) => {
                proof {
                    assert(bytes@.len() == bytes.len());
                    lemma_read_layout_ok(bytes@);
                }
                Ok(HnswIndex { bytes, layout })
            },
            Err(e) => Err(e),
        }
    }

    pub fn info(&self) -> (r: HnswInfo)
        ensures
            r.m == HNSW_M,
            r.upper_m == HNSW_UPPER_M,
            r.ef_search == HNSW_EF_SEARCH,
            r.entrypoint == self.layout.entrypoint,
            r.max_level == self.layout.max_level,
            r.reference_count == self.layout.reference_count,
    {
        HnswInfo {
            m: HNSW_M,
            upper_m: HNSW_UPPER_M,
            ef_search: HNSW_EF_SEARCH,
            entrypoint: self.layout.entrypoint,
            max_level: self.layout.max_level,
            reference_count: self.layout.reference_count,
        }
    }

    /// The fraud label of reference `index`.
    pub fn is_fraud(&self, index: usize) -> (r: bool)
        requires
            self.wf(),
            index < self.layout.reference_count,
        ensures
            r == fraud_bit(self.bytes@, self.layout, index as int),
    {
        let byte = self.bytes[self.layout.fraud_offset + index / 8];
        (byte >> ((index % 8) as u8)) & 1 == 1
    }

    /// The stored vector of reference `index`.
    pub fn reference_vector(&self, index: usize) -> (r: ReferenceVector)
        requires
            self.wf(),
            index < self.layout.reference_count,
        ensures
            r@ == ref_vector(self.bytes@, self.layout, index as int),
    {
        let offset = self.layout.vectors_offset + index * 32;
        let mut v: ReferenceVector = [0; 16];
        let mut d: usize = 0;
        while d < 16
            invariant
                self.wf(),
                index < self.layout.reference_count,
                offset == self.layout.vectors_offset + index * 32,
                d <= 16,
                forall|k: int| 0 <= k < d ==> v@[k] == i16_at(self.bytes@, offset + 2 * k),
            decreases 16 - d,
        {
            v[d] = read_i16_le(self.bytes, offset + 2 * d);
            d = d + 1;
        }
        assert(v@ =~= ref_vector(self.bytes@, self.layout, index as int));
        v
    }

    fn distance_to(&self, index: usize, vector: &ReferenceVector, limit: u64) -> (r: u64)
        requires
            self.wf(),
            index < self.layout.reference_count,
        ensures
            r < limit ==> r == squared_distance(vector@, ref_vector(self.bytes@, self.layout, index as int)),
            limit == u64::MAX ==> r == squared_distance(vector@, ref_vector(self.bytes@, self.layout, index as int)),
            r <= squared_distance(vector@, ref_vector(self.bytes@, self.layout, index as int)),
    {
        let reference = self.reference_vector(index);
        proof {
            lemma_partial_sq_bounds(vector@, reference@, 16);
        }
        distance2_limited(vector, &reference, limit)
    }

    fn level_at(&self, index: usize) -> (r: u8)
        requires
            self.wf(),
            index < self.layout.reference_count,
        ensures
            r == self.bytes@[self.layout.levels_offset + index],
    {
        self.bytes[self.layout.levels_offset + index]
    }

    fn upper_offset_at(&self, index: usize) -> (r: u64)
        requires
            self.wf(),
            index < self.layout.reference_count,
        ensures
            r == u64_at(self.bytes@, self.layout.upper_offsets_offset + index * 8),
    {
        read_u64_le(self.bytes, self.layout.upper_offsets_offset + index * 8)
    }

    /// The non-empty level-0 neighbour slots of `index` that name a reference.
    fn level0_neighbors(&self, index: usize) -> (r: Vec<usize>)
        requires
            self.wf(),
            index < self.layout.reference_count,
        ensures
            forall|i: int| 0 <= i < r@.len() ==> #[trigger] r@[i] < self.layout.reference_count,
            r@ == neighbor_list(self.bytes@, self.layout, index as int, 0),
    {
        let mut out: Vec<usize> = Vec::new();
        let mut slot: usize = 0;
        while slot < HNSW_M
            invariant
                self.wf(),
                index < self.layout.reference_count,
                slot <= HNSW_M,
                forall|i: int| 0 <= i < out@.len() ==> #[trigger] out@[i] < self.layout.reference_count,
                out@ == level0_list(self.bytes@, self.layout, index as int, slot as int),
            decreases HNSW_M - slot,
        {
            let offset = self.layout.level0_offset + (index * HNSW_M + slot) * 4;
            let neighbor = read_u32_le(self.bytes, offset);
            if neighbor != EMPTY_NEIGHBOR && (neighbor as usize) < self.layout.reference_count {
                out.push(neighbor as usize);
            }
            slot = slot + 1;
        }
        out
    }

    /// The non-empty neighbour slots of `index` on upper `level` that name a reference.
    fn upper_neighbors(&self, index: usize, level: u8) -> (r: Vec<usize>)
        requires
            self.wf(),
            index < self.layout.reference_count,
        ensures
            forall|i: int| 0 <= i < r@.len() ==> #[trigger] r@[i] < self.layout.reference_count,
            level >= 1 ==> r@ == neighbor_list(self.bytes@, self.layout, index as int, level as int),
    {
        let mut out: Vec<usize> = Vec::new();
        let node_level = self.level_at(index);
        if level == 0 || level > node_level {
            return out;
        }
        let start: u128 = self.upper_offset_at(index) as u128 + (level as u128 - 1) * 8;
        let mut k: u128 = 0;
        while k < 8
            invariant
                self.wf(),
                k <= 8,
                start < 0x1_0000_0000_0000_0000 + 0x1_0000,
                forall|i: int| 0 <= i < out@.len() ==> #[trigger] out@[i] < self.layout.reference_count,
                1 <= level <= node_level,
                node_level == self.bytes@[self.layout.levels_offset + index],
                index < self.layout.reference_count,
                start == u64_at(self.bytes@, self.layout.upper_offsets_offset + index * 8) + (level - 1) * 8,
                out@ == upper_list(self.bytes@, self.layout, index as int, level as int, k as int),
            decreases 8 - k,
        {
            let position = start + k;
            if position < self.layout.upper_edge_count as u128 {
                let position = position as usize;
                let neighbor = read_u32_le(self.bytes, self.layout.upper_neighbors_offset + position * 4);
                if neighbor != EMPTY_NEIGHBOR && (neighbor as usize) < self.layout.reference_count {
                    out.push(neighbor as usize);
                }
            }
            k = k + 1;
        }
        out
    }
}


/// The non-empty level-0 neighbour slots of `index` among its first `slots`
/// that name a reference.
pub open spec fn level0_list(b: Seq<u8>, l: HnswLayout, index: int, slots: int) -> Seq<usize>
    decreases slots,
{
    if slots <= 0 {
        Seq::empty()
    } else {
        let prev = level0_list(b, l, index, slots - 1);
        let neighbor = u32_at(b, l.level0_offset + (index * 16 + slots - 1) * 4);
        if neighbor != EMPTY_NEIGHBOR && neighbor < l.reference_count {
            prev.push(neighbor as usize)
        } else {
            prev
        }
    }
}

/// The non-empty neighbour slots of `index` on upper `level` among its first
/// `k` that lie within the edge list and name a reference; none on a level
/// the node does not reach.
pub open spec fn upper_list(b: Seq<u8>, l: HnswLayout, index: int, level: int, k: int) -> Seq<usize>
    decreases k,
{
    if k <= 0 || level == 0 || level > b[l.levels_offset + index] {
        Seq::empty()
    } else {
        let prev = upper_list(b, l, index, level, k - 1);
        let position = u64_at(b, l.upper_offsets_offset + index * 8) + (level - 1) * 8 + (k - 1);
        if position < l.upper_edge_count {
            let neighbor = u32_at(b, l.upper_neighbors_offset + position * 4);
            if neighbor != EMPTY_NEIGHBOR && neighbor < l.reference_count {
                prev.push(neighbor as usize)
            } else {
                prev
            }
        } else {
            prev
        }
    }
}

/// The neighbours a search follows from `index` on `level`.
pub open spec fn neighbor_list(b: Seq<u8>, l: HnswLayout, index: int, level: int) -> Seq<usize> {
    if level == 0 { level0_list(b, l, index, 16) } else { upper_list(b, l, index, level, 8) }
}

/// The state of a beam search: the nodes visited, the candidates still to
/// expand, and the nearest found so far.
pub type BeamState = (Seq<usize>, Seq<NearestCandidate>, Seq<NearestCandidate>);

/// The distance a full list of nearest ones admits below: that of its
/// farthest, or none while the list has room.
pub open spec fn worst_of(nearest: Seq<NearestCandidate>, capacity: int) -> u64 {
    if nearest.len() < capacity || nearest.len() == 0 {
        u64::MAX
    } else {
        nearest[last_max_slot(nearest)].distance
    }
}

/// The state after offering the first `i` of `neighbors`: each one not yet
/// visited is marked visited, and kept as a candidate and among the nearest
/// when the list has room or it lies nearer than the farthest there.
pub open spec fn expand(
    b: Seq<u8>,
    l: HnswLayout,
    vector: Seq<i16>,
    capacity: int,
    st: BeamState,
    neighbors: Seq<usize>,
    i: int,
) -> BeamState
    decreases i,
{
    if i <= 0 {
        st
    } else {
        let s = expand(b, l, vector, capacity, st, neighbors, i - 1);
        let neighbor = neighbors[i - 1];
        if s.0.contains(neighbor) {
            s
        } else {
            let limit = worst_of(s.2, capacity);
            let d = squared_distance(vector, ref_vector(b, l, neighbor as int));
            if limit == u64::MAX || d < limit {
                let found = NearestCandidate { index: neighbor, distance: d as u64 };
                (s.0.push(neighbor), s.1.push(found), spec_add(s.2, capacity, found))
            } else {
                (s.0.push(neighbor), s.1, s.2)
            }
        }
    }
}

/// One step of a beam search on `level`: take the first candidate; stop when
/// there is none, or when the list is full and it lies beyond the farthest
/// kept; else offer its neighbours. The flag says whether the search stopped.
pub open spec fn beam_step(
    b: Seq<u8>,
    l: HnswLayout,
    vector: Seq<i16>,
    level: int,
    capacity: int,
    st: BeamState,
) -> (BeamState, bool) {
    if st.1.len() == 0 {
        (st, true)
    } else {
        let c = st.1[min_slot(st.1)];
        let rest = (st.0, without_min(st.1), st.2);
        if st.2.len() >= capacity && c.distance > worst_of(st.2, capacity) {
            (rest, true)
        } else {
            let neighbors = neighbor_list(b, l, c.index as int, level);
            (expand(b, l, vector, capacity, rest, neighbors, neighbors.len() as int), false)
        }
    }
}

/// The state a beam search reaches from `st` within `fuel` steps.
pub open spec fn beam(
    b: Seq<u8>,
    l: HnswLayout,
    vector: Seq<i16>,
    level: int,
    capacity: int,
    st: BeamState,
    fuel: nat,
) -> BeamState
    decreases fuel,
{
    if fuel == 0 {
        st
    } else {
        let next = beam_step(b, l, vector, level, capacity, st);
        if next.1 {
            next.0
        } else {
            beam(b, l, vector, level, capacity, next.0, (fuel - 1) as nat)
        }
    }
}

/// Steps enough for a search from `st` over `n` references to stop.
pub open spec fn beam_fuel(st: BeamState, n: int) -> nat {
    (2 * (n - st.0.len()) + st.1.len() + 1) as nat
}

/// Where a beam search on an upper level starts: at `entry` alone.
pub open spec fn upper_start(entry: NearestCandidate, ef: int) -> BeamState {
    (seq![entry.index], seq![entry], spec_add(Seq::empty(), ef, entry))
}

/// The nearest ones, in order, that a beam search of width `ef` on upper
/// `level` finds from `entry`.
pub open spec fn upper_result(
    b: Seq<u8>,
    l: HnswLayout,
    vector: Seq<i16>,
    level: int,
    ef: int,
    entry: NearestCandidate,
) -> Seq<NearestCandidate> {
    let st = upper_start(entry, ef);
    in_order(beam(b, l, vector, level, ef, st, beam_fuel(st, l.reference_count as int)).2)
}

/// Where a level-0 search starts: the first `e` entry points, each not seen
/// before visited and offered.
pub open spec fn layer0_start(entrypoints: Seq<NearestCandidate>, capacity: int, e: int) -> BeamState
    decreases e,
{
    if e <= 0 {
        (Seq::empty(), Seq::empty(), Seq::empty())
    } else {
        let s = layer0_start(entrypoints, capacity, e - 1);
        let entry = entrypoints[e - 1];
        if s.0.contains(entry.index) {
            s
        } else {
            (s.0.push(entry.index), s.1.push(entry), spec_add(s.2, capacity, entry))
        }
    }
}

/// How many nearest ones a level-0 search keeps for `top` results.
pub open spec fn layer0_capacity(top: int) -> int {
    if HNSW_EF_SEARCH > top { HNSW_EF_SEARCH as int } else { top }
}

/// The first `top` of the nearest ones, in order, that a level-0 beam search
/// finds from `entrypoints`.
pub open spec fn layer0_result(
    b: Seq<u8>,
    l: HnswLayout,
    vector: Seq<i16>,
    entrypoints: Seq<NearestCandidate>,
    top: int,
) -> Seq<NearestCandidate> {
    let capacity = layer0_capacity(top);
    let st = layer0_start(entrypoints, capacity, entrypoints.len() as int);
    let found = in_order(beam(b, l, vector, 0, capacity, st, beam_fuel(st, l.reference_count as int)).2);
    if top <= found.len() { found.subrange(0, top) } else { found }
}

/// The squared distance from `vector` to reference `index`.
pub open spec fn ref_distance(b: Seq<u8>, l: HnswLayout, vector: Seq<i16>, index: int) -> int {
    squared_distance(vector, ref_vector(b, l, index))
}

/// One greedy pass over the first `i` of `neighbors`: move to each one nearer
/// than the current node.
pub open spec fn greedy_pass(
    b: Seq<u8>,
    l: HnswLayout,
    vector: Seq<i16>,
    node: int,
    d: int,
    neighbors: Seq<usize>,
    i: int,
) -> (int, int)
    decreases i,
{
    if i <= 0 {
        (node, d)
    } else {
        let p = greedy_pass(b, l, vector, node, d, neighbors, i - 1);
        let nd = ref_distance(b, l, vector, neighbors[i - 1] as int);
        if nd < p.1 { (neighbors[i - 1] as int, nd) } else { p }
    }
}

/// Greedy descent on `level` from `node` at distance `d`: passes over the
/// current node's neighbours until one moves no nearer.
pub open spec fn greedy(b: Seq<u8>, l: HnswLayout, vector: Seq<i16>, node: int, d: int, level: int) -> (int, int)
    decreases d,
{
    let neighbors = neighbor_list(b, l, node, level);
    let p = greedy_pass(b, l, vector, node, d, neighbors, neighbors.len() as int);
    if 0 <= p.1 < d { greedy(b, l, vector, p.0, p.1, level) } else { (node, d) }
}

/// Greedy descent through the levels from `level` down to 2.
pub open spec fn descend(b: Seq<u8>, l: HnswLayout, vector: Seq<i16>, node: int, d: int, level: int) -> (int, int)
    decreases level,
{
    if level < 2 {
        (node, d)
    } else {
        let g = greedy(b, l, vector, node, d, level);
        descend(b, l, vector, g.0, g.1, level - 1)
    }
}

/// What `HnswIndex::search_top` returns: greedy descent from the entry point
/// to level 2, a beam search of `HNSW_ENTRYPOINTS` on level 1 (when the index
/// has one), then the level-0 beam search from there, cut to `top`.
pub open spec fn spec_search_top(b: Seq<u8>, l: HnswLayout, vector: Seq<i16>, top: int) -> Seq<NearestCandidate> {
    if l.reference_count == 0 || top == 0 {
        Seq::empty()
    } else {
        let ep = l.entrypoint as int;
        let g = descend(b, l, vector, ep, ref_distance(b, l, vector, ep), l.max_level as int);
        let entry = NearestCandidate { index: g.0 as usize, distance: g.1 as u64 };
        let entrypoints = if l.max_level >= 1 {
            upper_result(b, l, vector, 1, HNSW_ENTRYPOINTS as int, entry)
        } else {
            seq![entry]
        };
        layer0_result(b, l, vector, entrypoints, top)
    }
}

/// The order of search results: by distance, then index.
pub open spec fn result_order() -> spec_fn(NearestCandidate, NearestCandidate) -> bool {
    |a: NearestCandidate, c: NearestCandidate| key_le(a, c)
}

/// Candidates in result order.
pub open spec fn in_order(s: Seq<NearestCandidate>) -> Seq<NearestCandidate> {
    s.sort_by(result_order())
}

/// A sorted list with the same distinct candidates as `s` is `s` in order.
pub(crate) proof fn lemma_in_order(s: Seq<NearestCandidate>, r: Seq<NearestCandidate>)
    requires
        distinct_indices(s),
        distinct_indices(r),
        r.len() == s.len(),
        forall|x: NearestCandidate| r.contains(x) <==> s.contains(x),
        sorted_by_key(r),
    ensures
        r == in_order(s),
{
    broadcast use vstd::seq_lib::to_multiset_contains;
    assert(total_ordering(result_order()));
    assert(s.no_duplicates());
    assert(r.no_duplicates());
    s.lemma_multiset_has_no_duplicates();
    r.lemma_multiset_has_no_duplicates();
    assert forall|x: NearestCandidate| r.to_multiset().count(x) == s.to_multiset().count(x) by {
        if r.contains(x) {
            assert(r.to_multiset().contains(x));
            assert(s.to_multiset().contains(x));
        }
    }
    assert(r.to_multiset() =~= s.to_multiset());
    s.lemma_sort_by_ensures(result_order());
    assert(sorted_by(r, result_order()));
    vstd::seq_lib::lemma_sorted_unique(r, in_order(s), result_order());
}

/// What a search returns: references with their true distances, one per index,
/// ordered by distance, then index.
pub open spec fn search_result_ok(
    b: Seq<u8>,
    l: HnswLayout,
    vector: Seq<i16>,
    r: Seq<NearestCandidate>,
) -> bool {
    &&& sorted_by_key(r)
    &&& distinct_indices(r)
    &&& all_ok(b, l, vector, r)
}

impl<'a> HnswIndex<'a> {
    /// Greedy descent from the entry point through the levels above 1, then a beam
    /// search on level 1 and on level 0; at most `top` results, exactly those
    /// `spec_search_top` describes.
    pub fn search_top(&self, vector: &ReferenceVector, top: usize) -> (r: Vec<NearestCandidate>)
        requires
            self.wf(),
        ensures
            r@.len() <= top,
            search_result_ok(self.bytes@, self.layout, vector@, r@),
            self.layout.reference_count > 0 && top > 0 ==> r@.len() > 0,
            r@ == spec_search_top(self.bytes@, self.layout, vector@, top as int),
    {
        if self.layout.reference_count == 0 || top == 0 {
            return Vec::new();
        }
        let mut entrypoint = self.layout.entrypoint;
        let mut entry_distance = self.distance_to(entrypoint, vector, u64::MAX);
        let mut level = self.layout.max_level;
        let ghost b = self.bytes@;
        let ghost l = self.layout;
        let ghost target = descend(b, l, vector@, entrypoint as int, entry_distance as int, level as int);
        while level >= 2
            invariant
                self.wf(),
                b == self.bytes@,
                l == self.layout,
                entrypoint < self.layout.reference_count,
                entry_distance == squared_distance(vector@, ref_vector(self.bytes@, self.layout, entrypoint as int)),
                descend(b, l, vector@, entrypoint as int, entry_distance as int, level as int) == target,
            decreases level,
        {
            let ghost level_target = greedy(b, l, vector@, entrypoint as int, entry_distance as int, level as int);
            let mut changed = true;
            while changed
                invariant
                    self.wf(),
                    b == self.bytes@,
                    l == self.layout,
                    level >= 2,
                    entrypoint < self.layout.reference_count,
                    entry_distance == squared_distance(
                        vector@,
                        ref_vector(self.bytes@, self.layout, entrypoint as int),
                    ),
                    changed ==> greedy(b, l, vector@, entrypoint as int, entry_distance as int, level as int)
                        == level_target,
                    !changed ==> (entrypoint as int, entry_distance as int) == level_target,
                decreases entry_distance + if changed { 1int } else { 0int },
            {
                changed = false;
                let ghost start_distance = entry_distance;
                let ghost start_node = entrypoint;
                let neighbors = self.upper_neighbors(entrypoint, level);
                let mut i: usize = 0;
                while i < neighbors.len()
                    invariant
                        self.wf(),
                        i <= neighbors@.len(),
                        forall|k: int| 0 <= k < neighbors@.len() ==> #[trigger] neighbors@[k] < self.layout.reference_count,
                        entrypoint < self.layout.reference_count,
                        entry_distance == squared_distance(
                            vector@,
                            ref_vector(self.bytes@, self.layout, entrypoint as int),
                        ),
                        entry_distance <= start_distance,
                        changed <==> entry_distance < start_distance,
                        !changed ==> entrypoint == start_node,
                        neighbors@ == neighbor_list(b, l, start_node as int, level as int),
                        b == self.bytes@,
                        l == self.layout,
                        (entrypoint as int, entry_distance as int) == greedy_pass(
                            b,
                            l,
                            vector@,
                            start_node as int,
                            start_distance as int,
                            neighbors@,
                            i as int,
                        ),
                    decreases neighbors@.len() - i,
                {
                    let neighbor = neighbors[i];
                    let distance = self.distance_to(neighbor, vector, entry_distance);
                    if distance < entry_distance {
                        entrypoint = neighbor;
                        entry_distance = distance;
                        changed = true;
                    }
                    i = i + 1;
                }
            }
            level = level - 1;
        }
        assert((entrypoint as int, entry_distance as int) == target);
        let entry = NearestCandidate { index: entrypoint, distance: entry_distance };
        let entrypoints = if self.layout.max_level >= 1 {
            self.search_upper_layer(vector, entry, 1, HNSW_ENTRYPOINTS)
        } else {
            let mut v = Vec::new();
            v.push(entry);
            v
        };
        self.search_layer0(vector, &entrypoints, top)
    }

    /// Beam search on one upper level from `entry`, keeping the `ef` nearest found.
    fn search_upper_layer(&self, vector: &ReferenceVector, entry: NearestCandidate, level: u8, ef: usize) -> (r: Vec<
        NearestCandidate,
    >)
        requires
            self.wf(),
            candidate_ok(self.bytes@, self.layout, vector@, entry),
            ef > 0,
            level >= 1,
        ensures
            forall|i: int| 0 <= i < r@.len() ==> #[trigger] candidate_ok(self.bytes@, self.layout, vector@, r@[i]),
            r@.len() > 0,
            r@ == upper_result(self.bytes@, self.layout, vector@, level as int, ef as int, entry),
    {
        let ghost b = self.bytes@;
        let ghost l = self.layout;
        let ghost n = self.layout.reference_count as int;
        let mut visited: Vec<usize> = Vec::new();
        let mut candidates: Vec<NearestCandidate> = Vec::new();
        let mut nearest = TopNearest::new(ef);
        visited.push(entry.index);
        candidates.push(entry);
        proof {
            lemma_add_keeps_ok(b, l, vector@, nearest.candidates@, ef as int, entry);
        }
        nearest.add(entry);
        proof {
            assert(visited@.no_duplicates());
        }
        let ghost start: BeamState = (visited@, candidates@, nearest.candidates@);
        assert(start == upper_start(entry, ef as int)) by {
            assert(visited@ =~= seq![entry.index]);
            assert(candidates@ =~= seq![entry]);
        }
        let ghost target = beam(b, l, vector@, level as int, ef as int, start, beam_fuel(start, n));
        let ghost mut fuel: nat = beam_fuel(start, n);
        loop
            invariant_except_break
                fuel > 2 * (n - visited@.len()) + candidates@.len(),
                beam(b, l, vector@, level as int, ef as int, (visited@, candidates@, nearest.candidates@), fuel) == target,
            invariant
                self.wf(),
                b == self.bytes@,
                l == self.layout,
                n == l.reference_count,
                nearest.wf(),
                nearest.candidates@.len() > 0,
                all_ok(b, l, vector@, nearest.candidates@),
                all_ok(b, l, vector@, candidates@),
                visited@.no_duplicates(),
                forall|i: int| 0 <= i < visited@.len() ==> #[trigger] visited@[i] < n,
                visited@.len() <= n,
                nearest.capacity == ef,
                level >= 1,
            ensures
                nearest.candidates@ == target.2,
                nearest.wf(),
                nearest.candidates@.len() > 0,
                all_ok(b, l, vector@, nearest.candidates@),
            decreases 2 * (n - visited@.len()) + candidates@.len(),
        {
            let ghost measure = 2 * (n - visited@.len()) + candidates@.len();
            let ghost cur: BeamState = (visited@, candidates@, nearest.candidates@);
            let candidate = match pop_min(&mut candidates) {
                Some(c) => c,
                None => break,
            };
            proof {
                assert(candidates@.len() > 0 || true);
                assert forall|i: int| 0 <= i < candidates@.len() implies #[trigger] candidate_ok(
                    b,
                    l,
                    vector@,
                    candidates@[i],
                ) by {
                    assert(candidates@.contains(candidates@[i]));
                }
            }
            assert(candidate_ok(b, l, vector@, candidate));
            if nearest.is_full() && candidate.distance > nearest.current_worst_distance() {
                break;
            }
            let ghost rest: BeamState = (visited@, candidates@, nearest.candidates@);
            let neighbors = self.upper_neighbors(candidate.index, level);
            let mut i: usize = 0;
            while i < neighbors.len()
                invariant
                    self.wf(),
                    b == self.bytes@,
                    l == self.layout,
                    n == l.reference_count,
                    i <= neighbors@.len(),
                    forall|k: int| 0 <= k < neighbors@.len() ==> #[trigger] neighbors@[k] < n,
                    nearest.wf(),
                    nearest.candidates@.len() > 0,
                    all_ok(b, l, vector@, nearest.candidates@),
                    all_ok(b, l, vector@, candidates@),
                    visited@.no_duplicates(),
                    forall|k: int| 0 <= k < visited@.len() ==> #[trigger] visited@[k] < n,
                    visited@.len() <= n,
                    2 * (n - visited@.len()) + candidates@.len() < measure,
                    nearest.capacity == ef,
                    neighbors@ == neighbor_list(b, l, candidate.index as int, level as int),
                    (visited@, candidates@, nearest.candidates@) == expand(b, l, vector@, ef as int, rest, neighbors@, i as int),
                decreases neighbors@.len() - i,
            {
                let neighbor = neighbors[i];
                if !contains_index(&visited, neighbor) {
                    visited.push(neighbor);
                    proof {
                        let vs = visited@;
                        assert forall|p: int, q: int|
                            0 <= p < vs.len() && 0 <= q < vs.len() && p != q implies vs[p] != vs[q] by {
                            if p == vs.len() - 1 {
                                assert(vs[q] == visited@.drop_last()[q]);
                            } else if q == vs.len() - 1 {
                                assert(vs[p] == visited@.drop_last()[p]);
                            }
                        }
                        lemma_distinct_below(visited@, n);
                    }
                    let limit = nearest.current_worst_distance();
                    let distance = self.distance_to(neighbor, vector, limit);
                    assert(limit == worst_of(nearest.candidates@, ef as int));
                    if limit == u64::MAX || distance < limit {
                        let found = NearestCandidate { index: neighbor, distance };
                        candidates.push(found);
                        proof {
                            assert forall|k: int| 0 <= k < candidates@.len() implies #[trigger] candidate_ok(
                                b,
                                l,
                                vector@,
                                candidates@[k],
                            ) by {
                                if k < candidates@.len() - 1 {
                                    assert(candidates@[k] == candidates@.drop_last()[k]);
                                }
                            }
                            lemma_add_keeps_ok(b, l, vector@, nearest.candidates@, nearest.capacity as int, found);
                        }
                        proof {
                            lemma_add_len(nearest.candidates@, nearest.capacity as int, found);
                        }
                        nearest.add(found);
                    }
                }
                i = i + 1;
            }
            proof {
                fuel = (fuel - 1) as nat;
            }
        }
        let ghost held = nearest.candidates@;
        let r = nearest.into_sorted();
        proof {
            lemma_in_order(held, r@);
            assert forall|i: int| 0 <= i < r@.len() implies #[trigger] candidate_ok(b, l, vector@, r@[i]) by {
                assert(r@.contains(r@[i]));
                let x = choose|x: int| 0 <= x < held.len() && held[x] == r@[i];
            }
        }
        r
    }

    /// Beam search on level 0 from `entrypoints`; at most `top` results, ordered.
    fn search_layer0(&self, vector: &ReferenceVector, entrypoints: &Vec<NearestCandidate>, top: usize) -> (r: Vec<
        NearestCandidate,
    >)
        requires
            self.wf(),
            all_ok(self.bytes@, self.layout, vector@, entrypoints@),
        ensures
            r@.len() <= top,
            search_result_ok(self.bytes@, self.layout, vector@, r@),
            entrypoints@.len() > 0 && top > 0 ==> r@.len() > 0,
            r@ == layer0_result(self.bytes@, self.layout, vector@, entrypoints@, top as int),
    {
        let ghost b = self.bytes@;
        let ghost l = self.layout;
        let ghost n = self.layout.reference_count as int;
        let mut visited: Vec<usize> = Vec::new();
        let mut candidates: Vec<NearestCandidate> = Vec::new();
        let capacity = if HNSW_EF_SEARCH > top { HNSW_EF_SEARCH } else { top };
        let mut nearest = TopNearest::new(capacity);
        let mut e: usize = 0;
        while e < entrypoints.len()
            invariant
                self.wf(),
                b == self.bytes@,
                l == self.layout,
                n == l.reference_count,
                e <= entrypoints@.len(),
                all_ok(b, l, vector@, entrypoints@),
                nearest.wf(),
                nearest.capacity == capacity,
                capacity > 0,
                e > 0 ==> nearest.candidates@.len() > 0,
                e == 0 ==> visited@.len() == 0,
                all_ok(b, l, vector@, nearest.candidates@),
                all_ok(b, l, vector@, candidates@),
                visited@.no_duplicates(),
                forall|i: int| 0 <= i < visited@.len() ==> #[trigger] visited@[i] < n,
                visited@.len() <= n,
                (visited@, candidates@, nearest.candidates@) == layer0_start(entrypoints@, capacity as int, e as int),
            decreases entrypoints@.len() - e,
        {
            let entry = entrypoints[e];
            assert(candidate_ok(b, l, vector@, entrypoints@[e as int]));
            if !contains_index(&visited, entry.index) {
                visited.push(entry.index);
                candidates.push(entry);
                proof {
                    let vs = visited@;
                    assert forall|p: int, q: int|
                        0 <= p < vs.len() && 0 <= q < vs.len() && p != q implies vs[p] != vs[q] by {
                        if p == vs.len() - 1 {
                            assert(vs[q] == visited@.drop_last()[q]);
                        } else if q == vs.len() - 1 {
                            assert(vs[p] == visited@.drop_last()[p]);
                        }
                    }
                    lemma_distinct_below(visited@, n);
                    assert forall|k: int| 0 <= k < candidates@.len() implies #[trigger] candidate_ok(
                        b,
                        l,
                        vector@,
                        candidates@[k],
                    ) by {
                        if k < candidates@.len() - 1 {
                            assert(candidates@[k] == candidates@.drop_last()[k]);
                        }
                    }
                    lemma_add_keeps_ok(b, l, vector@, nearest.candidates@, nearest.capacity as int, entry);
                }
                proof {
                    lemma_add_len(nearest.candidates@, nearest.capacity as int, entry);
                }
                nearest.add(entry);
            }
            e = e + 1;
        }
        let ghost start: BeamState = (visited@, candidates@, nearest.candidates@);
        let ghost target = beam(b, l, vector@, 0, capacity as int, start, beam_fuel(start, n));
        let ghost mut fuel: nat = beam_fuel(start, n);
        loop
            invariant_except_break
                fuel > 2 * (n - visited@.len()) + candidates@.len(),
                beam(b, l, vector@, 0, capacity as int, (visited@, candidates@, nearest.candidates@), fuel) == target,
            invariant
                self.wf(),
                b == self.bytes@,
                l == self.layout,
                n == l.reference_count,
                nearest.wf(),
                entrypoints@.len() > 0 ==> nearest.candidates@.len() > 0,
                all_ok(b, l, vector@, nearest.candidates@),
                all_ok(b, l, vector@, candidates@),
                visited@.no_duplicates(),
                forall|i: int| 0 <= i < visited@.len() ==> #[trigger] visited@[i] < n,
                visited@.len() <= n,
                nearest.capacity == capacity,
            ensures
                nearest.candidates@ == target.2,
                nearest.wf(),
                entrypoints@.len() > 0 ==> nearest.candidates@.len() > 0,
                all_ok(b, l, vector@, nearest.candidates@),
            decreases 2 * (n - visited@.len()) + candidates@.len(),
        {
            let ghost measure = 2 * (n - visited@.len()) + candidates@.len();
            let ghost cur: BeamState = (visited@, candidates@, nearest.candidates@);
            let candidate = match pop_min(&mut candidates) {
                Some(c) => c,
                None => break,
            };
            proof {
                assert forall|i: int| 0 <= i < candidates@.len() implies #[trigger] candidate_ok(
                    b,
                    l,
                    vector@,
                    candidates@[i],
                ) by {
                    assert(candidates@.contains(candidates@[i]));
                }
            }
            if nearest.is_full() && candidate.distance > nearest.current_worst_distance() {
                break;
            }
            assert(candidate_ok(b, l, vector@, candidate));
            let ghost rest: BeamState = (visited@, candidates@, nearest.candidates@);
            let neighbors = self.level0_neighbors(candidate.index);
            let mut i: usize = 0;
            while i < neighbors.len()
                invariant
                    self.wf(),
                    b == self.bytes@,
                    l == self.layout,
                    n == l.reference_count,
                    i <= neighbors@.len(),
                    forall|k: int| 0 <= k < neighbors@.len() ==> #[trigger] neighbors@[k] < n,
                    nearest.wf(),
                    entrypoints@.len() > 0 ==> nearest.candidates@.len() > 0,
                    all_ok(b, l, vector@, nearest.candidates@),
                    all_ok(b, l, vector@, candidates@),
                    visited@.no_duplicates(),
                    forall|k: int| 0 <= k < visited@.len() ==> #[trigger] visited@[k] < n,
                    visited@.len() <= n,
                    2 * (n - visited@.len()) + candidates@.len() < measure,
                    nearest.capacity == capacity,
                    neighbors@ == neighbor_list(b, l, candidate.index as int, 0),
                    (visited@, candidates@, nearest.candidates@) == expand(b, l, vector@, capacity as int, rest, neighbors@, i as int),
                decreases neighbors@.len() - i,
            {
                let neighbor = neighbors[i];
                if !contains_index(&visited, neighbor) {
                    visited.push(neighbor);
                    proof {
                        let vs = visited@;
                        assert forall|p: int, q: int|
                            0 <= p < vs.len() && 0 <= q < vs.len() && p != q implies vs[p] != vs[q] by {
                            if p == vs.len() - 1 {
                                assert(vs[q] == visited@.drop_last()[q]);
                            } else if q == vs.len() - 1 {
                                assert(vs[p] == visited@.drop_last()[p]);
                            }
                        }
                        lemma_distinct_below(visited@, n);
                    }
                    let limit = nearest.current_worst_distance();
                    let distance = self.distance_to(neighbor, vector, limit);
                    assert(limit == worst_of(nearest.candidates@, capacity as int));
                    if limit == u64::MAX || distance < limit {
                        let found = NearestCandidate { index: neighbor, distance };
                        candidates.push(found);
                        proof {
                            assert forall|k: int| 0 <= k < candidates@.len() implies #[trigger] candidate_ok(
                                b,
                                l,
                                vector@,
                                candidates@[k],
                            ) by {
                                if k < candidates@.len() - 1 {
                                    assert(candidates@[k] == candidates@.drop_last()[k]);
                                }
                            }
                            lemma_add_keeps_ok(b, l, vector@, nearest.candidates@, nearest.capacity as int, found);
                        }
                        proof {
                            lemma_add_len(nearest.candidates@, nearest.capacity as int, found);
                        }
                        nearest.add(found);
                    }
                }
                i = i + 1;
            }
            proof {
                fuel = (fuel - 1) as nat;
            }
        }
        let ghost held = nearest.candidates@;
        let mut r = nearest.into_sorted();
        proof {
            lemma_in_order(held, r@);
            assert forall|i: int| 0 <= i < r@.len() implies #[trigger] candidate_ok(b, l, vector@, r@[i]) by {
                assert(r@.contains(r@[i]));
                let x = choose|x: int| 0 <= x < held.len() && held[x] == r@[i];
            }
        }
        r.truncate(top);
        r
    }
}

} // verus!
