//! The KD-tree index: a balanced tree of bounding boxes over the reference
//! vectors, searched for the 5 nearest by squared Euclidean distance.
use vstd::prelude::*;

use crate::ReferenceVector;
use crate::bytes::{
    blocks, i16_at, le_bytes, lemma_blocks_len, lemma_blocks_window, lemma_le_bytes_len, lemma_u32_window,
    lemma_u64_window, lemma_window_byte, lemma_window_concat, lemma_window_nested, push_u32_le, push_u64_le,
    read_i16_le, read_u32_le, read_u64_le, u32_at, u64_at, window,
};
use crate::distance::squared_distance;
use crate::morton::{MortonEntry, lemma_vector_window, push_vector, vector_bytes};

verus! {

broadcast use vstd::slice::group_slice_axioms;

/// The format version this library reads and writes.
pub const KD_VERSION: u32 = 4;
/// Bytes before the first node.
pub const KD_HEADER_LEN: usize = 28;
/// Bytes of one node: two bounding vectors and four `u32`.
pub const KD_NODE_LEN: usize = 80;
/// Neighbours that decide a score.
pub const TOP_K: usize = 5;
/// Nodes with at most this many records are leaves.
pub const LEAF_SIZE: usize = 64;
/// A child link that names no node.
pub const NO_CHILD: u32 = 0xffff_ffff;

/// `RKDTREE1`.
pub open spec fn kd_magic_spec() -> Seq<u8> {
    seq![82u8, 75, 68, 84, 82, 69, 69, 49]
}

pub fn kd_magic() -> (r: [u8; 8])
    ensures
        r@ == kd_magic_spec(),
{
    let r: [u8; 8] = [82, 75, 68, 84, 82, 69, 69, 49];
    assert(r@ =~= kd_magic_spec());
    r
}

/// A box of the tree: coordinate bounds, children, and the records it covers.
#[derive(Clone, Copy)]
pub struct KdNode {
    pub min: ReferenceVector,
    pub max: ReferenceVector,
    pub left: u32,
    pub right: u32,
    pub start: u32,
    pub len: u32,
}

/// A record found near the query.
#[derive(Clone, Copy, PartialEq, Eq, Structural)]
pub struct Neighbor {
    pub distance: u64,
    pub index: u32,
    pub label: u8,
}

/// A reference vector and its label, in tree order.
#[derive(Clone, Copy)]
pub struct KdRecord {
    pub vector: ReferenceVector,
    pub label: u8,
}

/// Why a KD-tree file was refused.
#[derive(Debug, Clone, Copy, PartialEq, Eq, Structural)]
pub enum KdTreeError {
    InvalidMagic,
    UnsupportedVersion,
    InvalidLength,
}

impl KdTreeError {
    pub fn message(&self) -> (r: &'static str)
        ensures
            r@ == match self {
                KdTreeError::InvalidMagic => "invalid kd-tree index magic"@,
                KdTreeError::UnsupportedVersion => "unsupported kd-tree index version"@,
                KdTreeError::InvalidLength => "invalid kd-tree index length"@,
            },
    {
        match self {
            KdTreeError::InvalidMagic => "invalid kd-tree index magic",
            KdTreeError::UnsupportedVersion => "unsupported kd-tree index version",
            KdTreeError::InvalidLength => "invalid kd-tree index length",
        }
    }
}

/// The node and record counts a KD-tree file declares, when it is well formed.
pub open spec fn spec_kd_counts(b: Seq<u8>) -> Result<(int, int), KdTreeError> {
    if b.len() < 28 || b.subrange(0, 8) != kd_magic_spec() {
        Err(KdTreeError::InvalidMagic)
    } else if u32_at(b, 8) != 4 {
        Err(KdTreeError::UnsupportedVersion)
    } else {
        let nodes = u64_at(b, 12);
        let records = u64_at(b, 20);
        let expected = 28 + nodes * 80 + records * 32 + records;
        if expected > usize::MAX || b.len() != expected {
            Err(KdTreeError::InvalidLength)
        } else {
            Ok((nodes, records))
        }
    }
}

/// `n` clamped below at 0.
pub open spec fn pos(n: int) -> int {
    if n < 0 { 0 } else { n }
}

/// How far `value` lies outside `lo..=hi` along one axis (both sides added).
pub open spec fn axis_gap(value: i16, lo: i16, hi: i16) -> int {
    pos(lo - value) + pos(value - hi)
}

/// The squared gaps over the first `n` axes.
pub open spec fn gap_prefix(v: Seq<i16>, lo: Seq<i16>, hi: Seq<i16>, n: int) -> int
    decreases n,
{
    if n <= 0 {
        0
    } else {
        gap_prefix(v, lo, hi, n - 1) + axis_gap(v[n - 1], lo[n - 1], hi[n - 1]) * axis_gap(
            v[n - 1],
            lo[n - 1],
            hi[n - 1],
        )
    }
}

/// The squared distance from a vector to a node's box: a lower bound of the
/// distance to any vector inside the box.
pub open spec fn spec_lower_bound_l2(v: Seq<i16>, node: KdNode) -> int {
    gap_prefix(v, node.min@, node.max@, 16)
}

proof fn lemma_gap_bounds(v: Seq<i16>, lo: Seq<i16>, hi: Seq<i16>, n: int)
    requires
        0 <= n,
    ensures
        0 <= gap_prefix(v, lo, hi, n) <= n * 17179607040,
    decreases n,
{
    if n > 0 {
        lemma_gap_bounds(v, lo, hi, n - 1);
        let g = axis_gap(v[n - 1], lo[n - 1], hi[n - 1]);
        assert(0 <= g <= 131070);
        assert(0 <= g * g <= 17179607040) by (nonlinear_arith)
            requires 0 <= g <= 131070;
    }
}

/// The squared distance from `vector` to the box of `node`.
pub fn lower_bound_l2(vector: &ReferenceVector, node: &KdNode) -> (r: u64)
    ensures
        r == spec_lower_bound_l2(vector@, *node),
{
    let mut sum: u64 = 0;
    let mut d: usize = 0;
    while d < 16
        invariant
            d <= 16,
            sum == gap_prefix(vector@, node.min@, node.max@, d as int),
        decreases 16 - d,
    {
        proof {
            lemma_gap_bounds(vector@, node.min@, node.max@, d as int);
        }
        let value = vector[d] as i64;
        let below: i64 = if (node.min[d] as i64) - value > 0 { node.min[d] as i64 - value } else { 0 };
        let above: i64 = if value - (node.max[d] as i64) > 0 { value - node.max[d] as i64 } else { 0 };
        let gap = below + above;
        proof {
            assert(0 <= gap * gap <= 17179607040) by (nonlinear_arith)
                requires 0 <= gap <= 131070;
        }
        sum = sum + (gap * gap) as u64;
        d = d + 1;
    }
    sum
}

/// `left` goes before `right`: nearer, or as near with a smaller index.
pub open spec fn spec_neighbor_better(left: Neighbor, right: Neighbor) -> bool {
    left.distance < right.distance || (left.distance == right.distance && left.index < right.index)
}

pub fn neighbor_better(left: Neighbor, right: Neighbor) -> (r: bool)
    ensures
        r == spec_neighbor_better(left, right),
{
    left.distance < right.distance || (left.distance == right.distance && left.index < right.index)
}

/// The empty slot of a top list.
pub open spec fn no_neighbor() -> Neighbor {
    Neighbor { distance: u64::MAX, index: u32::MAX, label: 0 }
}

fn starts_with_kd_magic(bytes: &[u8]) -> (r: bool)
    requires
        8 <= bytes@.len(),
    ensures
        r == (bytes@.subrange(0, 8) == kd_magic_spec()),
{
    let magic = kd_magic();
    let mut i: usize = 0;
    while i < 8
        invariant
            i <= 8 <= bytes@.len(),
            magic@ == kd_magic_spec(),
            forall|j: int| 0 <= j < i ==> bytes@[j] == magic@[j],
        decreases 8 - i,
    {
        if bytes[i] != magic[i] {
            assert(bytes@.subrange(0, 8)[i as int] != kd_magic_spec()[i as int]);
            assert(bytes@.subrange(0, 8) != kd_magic_spec());
            return false;
        }
        i = i + 1;
    }
    assert(bytes@.subrange(0, 8) =~= kd_magic_spec());
    true
}

/// The stored node `i`: its bounds and links as the file holds them.
pub open spec fn node_matches(b: Seq<u8>, i: int, node: KdNode) -> bool {
    node_fields_at(b, 28 + 80 * i, node)
}

/// The node stored at byte offset `off`.
pub open spec fn node_fields_at(b: Seq<u8>, off: int, node: KdNode) -> bool {
    &&& node.min@ == Seq::new(16, |d: int| i16_at(b, off + 2 * d) as i16)
    &&& node.max@ == Seq::new(16, |d: int| i16_at(b, off + 32 + 2 * d) as i16)
    &&& node.left == u32_at(b, off + 64)
    &&& node.right == u32_at(b, off + 68)
    &&& node.start == u32_at(b, off + 72)
    &&& node.len == u32_at(b, off + 76)
}

/// Decodes the node at the start of `raw`.
pub fn decode_node(raw: &[u8]) -> (r: KdNode)
    requires
        raw@.len() >= 80,
    ensures
        node_fields_at(raw@, 0, r),
{
    let mut min: ReferenceVector = [0; 16];
    let mut max: ReferenceVector = [0; 16];
    let mut d: usize = 0;
    while d < 16
        invariant
            raw@.len() >= 80,
            d <= 16,
            forall|k: int| 0 <= k < d ==> min@[k] == i16_at(raw@, 2 * k),
            forall|k: int| 0 <= k < d ==> max@[k] == i16_at(raw@, 32 + 2 * k),
        decreases 16 - d,
    {
        min[d] = read_i16_le(raw, 2 * d);
        max[d] = read_i16_le(raw, 32 + 2 * d);
        d = d + 1;
    }
    let left = read_u32_le(raw, 64);
    let right = read_u32_le(raw, 68);
    let start = read_u32_le(raw, 72);
    let len = read_u32_le(raw, 76);
    let node = KdNode { min, max, left, right, start, len };
    assert(node.min@ =~= Seq::new(16, |d: int| i16_at(raw@, 0 + 2 * d) as i16));
    assert(node.max@ =~= Seq::new(16, |d: int| i16_at(raw@, 0 + 32 + 2 * d) as i16));
    node
}

/// A KD-tree file held in memory.
pub struct KdTree<'a> {
    pub bytes: &'a [u8],
    pub nodes: usize,
    pub records: usize,
    pub vectors_offset: usize,
    pub labels_offset: usize,
}

/// A slot of the top list is empty, or names a record with its true distance and label.
pub open spec fn neighbor_ok(t: KdTree, vector: Seq<i16>, n: Neighbor) -> bool {
    n == no_neighbor() || (n.index < t.records && n.distance == squared_distance(
        vector,
        t.record_vector(n.index as int),
    ) && n.label == t.record_label(n.index as int))
}

/// The top list: each slot empty or a record, ordered by distance then index,
/// empty slots last.
pub open spec fn top_ok(t: KdTree, vector: Seq<i16>, top: Seq<Neighbor>) -> bool {
    &&& top.len() == 5
    &&& forall|k: int| 0 <= k < 5 ==> #[trigger] neighbor_ok(t, vector, top[k])
    &&& forall|a: int, c: int| 0 <= a < c < 5 ==> !spec_neighbor_better(top[c], top[a])
}

impl<'a> KdTree<'a> {
    pub open spec fn wf(&self) -> bool {
        &&& self.vectors_offset == 28 + 80 * self.nodes
        &&& self.labels_offset == self.vectors_offset + 32 * self.records
        &&& self.bytes@.len() == self.labels_offset + self.records
        &&& self.bytes@.len() <= usize::MAX
    }

    /// The vector of record `i`.
    pub open spec fn record_vector(&self, i: int) -> Seq<i16> {
        Seq::new(16, |d: int| i16_at(self.bytes@, self.vectors_offset + 32 * i + 2 * d) as i16)
    }

    /// The label of record `i`.
    pub open spec fn record_label(&self, i: int) -> u8 {
        self.bytes@[self.labels_offset + i]
    }

    /// Checks the header and length of a KD-tree file.
    pub fn from_bytes(bytes: &'a [u8]) -> (r: Result<Self, KdTreeError>)
        ensures
            match spec_kd_counts(bytes@) {
                Ok((nodes, records)) => r matches Ok(t) && t.bytes == bytes && t.nodes == nodes
                    && t.records == records && t.wf(),
                Err(e) => r matches Err(e2) && e2 == e,
            },
    {
        if bytes.len() < 28 || !starts_with_kd_magic(bytes) {
            return Err(KdTreeError::InvalidMagic);
        }
        if read_u32_le(bytes, 8) != KD_VERSION {
            return Err(KdTreeError::UnsupportedVersion);
        }
        let nodes = read_u64_le(bytes, 12) as u128;
        let records = read_u64_le(bytes, 20) as u128;
        let expected: u128 = 28 + nodes * 80 + records * 32 + records;
        if expected > usize::MAX as u128 || expected != bytes.len() as u128 {
            return Err(KdTreeError::InvalidLength);
        }
        let nodes = nodes as usize;
        let records = records as usize;
        let vectors_offset = 28 + nodes * 80;
        let labels_offset = vectors_offset + records * 32;
        Ok(KdTree { bytes, nodes, records, vectors_offset, labels_offset })
    }

    /// Node `index`.
    pub fn node_at(&self, index: usize) -> (r: KdNode)
        requires
            self.wf(),
            index < self.nodes,
        ensures
            node_matches(self.bytes@, index as int, r),
    {
        let start = 28 + index * 80;
        let raw = vstd::slice::slice_subrange(self.bytes, start, start + 80);
        let node = decode_node(raw);
        assert forall|k: int| 0 <= k < 80 implies raw@[k] == self.bytes@[start + k] by {}
        assert(node.min@ =~= Seq::new(16, |d: int| i16_at(self.bytes@, 28 + 80 * index + 2 * d) as i16));
        assert(node.max@ =~= Seq::new(16, |d: int| i16_at(self.bytes@, 28 + 80 * index + 32 + 2 * d) as i16));
        node
    }

    /// The vector of record `index`.
    pub fn vector_at(&self, index: usize) -> (r: ReferenceVector)
        requires
            self.wf(),
            index < self.records,
        ensures
            r@ == self.record_vector(index as int),
    {
        let offset = self.vectors_offset + index * 32;
        let mut v: ReferenceVector = [0; 16];
        let mut d: usize = 0;
        while d < 16
            invariant
                self.wf(),
                index < self.records,
                offset == self.vectors_offset + index * 32,
                d <= 16,
                forall|k: int| 0 <= k < d ==> v@[k] == i16_at(self.bytes@, offset + 2 * k),
            decreases 16 - d,
        {
            v[d] = read_i16_le(self.bytes, offset + 2 * d);
            d = d + 1;
        }
        assert(v@ =~= self.record_vector(index as int));
        v
    }

    /// The label of record `index`.
    pub fn label_at(&self, index: usize) -> (r: u8)
        requires
            self.wf(),
            index < self.records,
        ensures
            r == self.record_label(index as int),
    {
        self.bytes[self.labels_offset + index]
    }

}

/// Why a KD-tree could not be built.
#[derive(Debug, Clone, Copy, PartialEq, Eq, Structural)]
pub enum KdBuildError {
    TooManyEntries,
    TooManyNodes,
}

/// The vector lies inside the node's box.
pub open spec fn in_box(node: KdNode, v: Seq<i16>) -> bool {
    forall|d: int| 0 <= d < 16 ==> node.min@[d] <= #[trigger] v[d] <= node.max@[d]
}

/// The node covers at least one record, inside `indices`, every entry it
/// covers lies in its box, and each bound of the box is reached by one of them.
pub open spec fn node_box_ok(node: KdNode, indices: Seq<u32>, entries: Seq<MortonEntry>) -> bool {
    &&& 1 <= node.len
    &&& node.start + node.len <= indices.len()
    &&& forall|i: int|
        node.start <= i < node.start + node.len ==> in_box(node, #[trigger] entries[indices[i] as int].vector@)
    &&& forall|d: int|
        0 <= d < 16 ==> #[trigger] coordinate_attained(
            node.min@[d],
            entries,
            indices,
            node.start as int,
            node.start + node.len,
            d,
        )
    &&& forall|d: int|
        0 <= d < 16 ==> #[trigger] coordinate_attained(
            node.max@[d],
            entries,
            indices,
            node.start as int,
            node.start + node.len,
            d,
        )
}

/// Node `k` is a leaf of at most `LEAF_SIZE` records, or it splits its range
/// in two halves (the smaller first) covered by two later nodes.
pub open spec fn links_ok(nodes: Seq<KdNode>, k: int) -> bool {
    let node = nodes[k];
    if node.len <= LEAF_SIZE {
        node.left == NO_CHILD && node.right == NO_CHILD
    } else {
        &&& k < node.left < node.right < nodes.len()
        &&& nodes[node.left as int].start == node.start
        &&& nodes[node.left as int].len == node.len / 2
        &&& nodes[node.right as int].start == node.start + node.len / 2
        &&& nodes[node.right as int].len == node.len - node.len / 2
    }
}

/// `d` is the first dimension along which the box `min..=max` is widest.
pub open spec fn is_widest(min: Seq<i16>, max: Seq<i16>, d: int) -> bool {
    &&& 0 <= d < 16
    &&& forall|e: int| 0 <= e < 16 ==> max[e] - min[e] <= max[d] - min[d]
    &&& forall|e: int| 0 <= e < d ==> max[e] - min[e] < max[d] - min[d]
}

/// Coordinate `d` of the entry that position `i` of `indices` names.
pub open spec fn coordinate_at(entries: Seq<MortonEntry>, indices: Seq<u32>, i: int, d: int) -> i16 {
    entries[indices[i] as int].vector@[d]
}

/// An inner node's first half of records lies at or below its second half
/// along the dimension where its box is widest.
pub open spec fn split_ok(node: KdNode, indices: Seq<u32>, entries: Seq<MortonEntry>) -> bool {
    node.len > LEAF_SIZE ==> forall|d: int, i: int, j: int|
        is_widest(node.min@, node.max@, d) && node.start <= i < node.start + node.len / 2 <= j < node.start + node.len
            ==> #[trigger] coordinate_at(entries, indices, i, d) <= #[trigger] coordinate_at(entries, indices, j, d)
}

/// Node `k` of a finished tree.
pub open spec fn node_ok(nodes: Seq<KdNode>, k: int, indices: Seq<u32>, entries: Seq<MortonEntry>) -> bool {
    node_box_ok(nodes[k], indices, entries) && links_ok(nodes, k) && split_ok(nodes[k], indices, entries)
}

/// The split of a node depends only on the positions it covers.
proof fn lemma_split_frame(node: KdNode, a: Seq<u32>, b: Seq<u32>, entries: Seq<MortonEntry>)
    requires
        split_ok(node, a, entries),
        forall|i: int| node.start <= i < node.start + node.len ==> #[trigger] b[i] == a[i],
    ensures
        split_ok(node, b, entries),
{
    if node.len > LEAF_SIZE {
        assert forall|d: int, i: int, j: int|
            is_widest(node.min@, node.max@, d) && node.start <= i < node.start + node.len / 2 <= j < node.start
                + node.len implies #[trigger] coordinate_at(entries, b, i, d) <= #[trigger] coordinate_at(
            entries,
            b,
            j,
            d,
        ) by {
            assert(b[i] == a[i] && b[j] == a[j]);
            assert(coordinate_at(entries, a, i, d) <= coordinate_at(entries, a, j, d));
        }
    }
}

/// After the range is split around position `start + middle` and each half
/// is then reordered within itself, the first half still lies at or below
/// the second along `d`.
proof fn lemma_halves_ordered(
    entries: Seq<MortonEntry>,
    sel: Seq<u32>,
    al: Seq<u32>,
    ar: Seq<u32>,
    start: int,
    middle: int,
    len: int,
    d: int,
)
    requires
        0 <= middle < len,
        forall|i: int| start <= i < start + middle ==> #[trigger] coordinate_at(entries, sel, i, d) <= coordinate_at(
            entries,
            sel,
            start + middle,
            d,
        ),
        forall|i: int| start + middle < i < start + len ==> #[trigger] coordinate_at(entries, sel, i, d) >= coordinate_at(
            entries,
            sel,
            start + middle,
            d,
        ),
        permuted_within(sel, al, start, start + middle),
        permuted_within(al, ar, start + middle, start + len),
    ensures
        forall|i: int, j: int|
            start <= i < start + middle <= j < start + len ==> #[trigger] coordinate_at(entries, ar, i, d)
                <= #[trigger] coordinate_at(entries, ar, j, d),
{
    lemma_permuted_occurs(sel, al, start, start + middle);
    lemma_permuted_occurs(al, ar, start + middle, start + len);
    assert forall|i: int, j: int| start <= i < start + middle <= j < start + len implies #[trigger] coordinate_at(
        entries,
        ar,
        i,
        d,
    ) <= #[trigger] coordinate_at(entries, ar, j, d) by {
        assert(ar[i] == al[i]);
        assert(occurs_in(sel, start, start + middle, al[i]));
        let i2 = choose|i2: int| start <= i2 < start + middle && #[trigger] sel[i2] == al[i];
        assert(coordinate_at(entries, sel, i2, d) <= coordinate_at(entries, sel, start + middle, d));
        assert(occurs_in(al, start + middle, start + len, ar[j]));
        let j2 = choose|j2: int| start + middle <= j2 < start + len && #[trigger] al[j2] == ar[j];
        assert(al[j2] == sel[j2]);
        assert(coordinate_at(entries, sel, j2, d) >= coordinate_at(entries, sel, start + middle, d));
    }
}

/// `b` is `a` with the values in `start..end` reordered.
pub open spec fn permuted_within(a: Seq<u32>, b: Seq<u32>, start: int, end: int) -> bool {
    &&& 0 <= start <= end <= a.len()
    &&& b.len() == a.len()
    &&& forall|i: int| 0 <= i < a.len() && !(start <= i < end) ==> #[trigger] b[i] == a[i]
    &&& b.subrange(start, end).to_multiset() == a.subrange(start, end).to_multiset()
}

/// `v` occurs in `s[start..end]`.
pub open spec fn occurs_in(s: Seq<u32>, start: int, end: int, v: u32) -> bool {
    exists|j: int| start <= j < end && #[trigger] s[j] == v
}

proof fn lemma_permuted_occurs(a: Seq<u32>, b: Seq<u32>, start: int, end: int)
    requires
        permuted_within(a, b, start, end),
    ensures
        forall|i: int| start <= i < end ==> #[trigger] occurs_in(a, start, end, b[i]),
        forall|i: int| start <= i < end ==> #[trigger] occurs_in(b, start, end, a[i]),
{
    broadcast use vstd::seq_lib::group_to_multiset_ensures;
    let sa = a.subrange(start, end);
    let sb = b.subrange(start, end);
    assert forall|i: int| start <= i < end implies #[trigger] occurs_in(a, start, end, b[i]) by {
        assert(sb[i - start] == b[i]);
        assert(sb.contains(b[i]));
        assert(sb.to_multiset().count(b[i]) > 0);
        assert(sa.to_multiset().count(b[i]) > 0);
        assert(sa.contains(b[i]));
        let j = choose|j: int| 0 <= j < sa.len() && sa[j] == b[i];
        assert(a[start + j] == b[i]);
    }
    assert forall|i: int| start <= i < end implies #[trigger] occurs_in(b, start, end, a[i]) by {
        assert(sa[i - start] == a[i]);
        assert(sa.contains(a[i]));
        assert(sa.to_multiset().count(a[i]) > 0);
        assert(sb.to_multiset().count(a[i]) > 0);
        assert(sb.contains(a[i]));
        let j = choose|j: int| 0 <= j < sb.len() && sb[j] == a[i];
        assert(b[start + j] == a[i]);
    }
}

proof fn lemma_permuted_trans(a: Seq<u32>, b: Seq<u32>, c: Seq<u32>, start: int, end: int)
    requires
        permuted_within(a, b, start, end),
        permuted_within(b, c, start, end),
    ensures
        permuted_within(a, c, start, end),
{
}

proof fn lemma_permuted_widen(a: Seq<u32>, b: Seq<u32>, start: int, end: int, outer_start: int, outer_end: int)
    requires
        permuted_within(a, b, start, end),
        0 <= outer_start <= start,
        end <= outer_end <= a.len(),
    ensures
        permuted_within(a, b, outer_start, outer_end),
{
    broadcast use vstd::seq_lib::lemma_multiset_commutative;
    assert(a.subrange(outer_start, start) =~= b.subrange(outer_start, start));
    assert(a.subrange(end, outer_end) =~= b.subrange(end, outer_end));
    assert(a.subrange(outer_start, outer_end) =~= a.subrange(outer_start, start) + a.subrange(start, end)
        + a.subrange(end, outer_end));
    assert(b.subrange(outer_start, outer_end) =~= b.subrange(outer_start, start) + b.subrange(start, end)
        + b.subrange(end, outer_end));
}

/// The node's range holds `start..end`, or lies wholly before or after it.
pub open spec fn nested_or_apart(node: KdNode, start: int, end: int) -> bool {
    (node.start <= start && end <= node.start + node.len) || node.start + node.len <= start || end
        <= node.start
}

proof fn lemma_box_kept(node: KdNode, entries: Seq<MortonEntry>, a: Seq<u32>, b: Seq<u32>, start: int, end: int)
    requires
        node_box_ok(node, a, entries),
        permuted_within(a, b, start, end),
        nested_or_apart(node, start, end),
    ensures
        node_box_ok(node, b, entries),
{
    lemma_permuted_occurs(a, b, start, end);
    let lo = node.start as int;
    let hi = node.start + node.len;
    assert forall|i: int| lo <= i < hi implies in_box(node, #[trigger] entries[b[i] as int].vector@) by {
        if start <= i < end {
            assert(occurs_in(a, start, end, b[i]));
            let j = choose|j: int| start <= j < end && #[trigger] a[j] == b[i];
            assert(in_box(node, entries[a[j] as int].vector@));
        } else {
            assert(b[i] == a[i]);
        }
    }
    assert forall|d: int| 0 <= d < 16 implies #[trigger] coordinate_attained(node.min@[d], entries, b, lo, hi, d) by {
        assert(coordinate_attained(node.min@[d], entries, a, lo, hi, d));
        let j = choose|j: int| lo <= j < hi && #[trigger] entries[a[j] as int].vector@[d] == node.min@[d];
        if start <= j < end {
            assert(occurs_in(b, start, end, a[j]));
            let i = choose|i: int| start <= i < end && #[trigger] b[i] == a[j];
            assert(entries[b[i] as int].vector@[d] == node.min@[d]);
        } else {
            assert(b[j] == a[j]);
            assert(entries[b[j] as int].vector@[d] == node.min@[d]);
        }
    }
    assert forall|d: int| 0 <= d < 16 implies #[trigger] coordinate_attained(node.max@[d], entries, b, lo, hi, d) by {
        assert(coordinate_attained(node.max@[d], entries, a, lo, hi, d));
        let j = choose|j: int| lo <= j < hi && #[trigger] entries[a[j] as int].vector@[d] == node.max@[d];
        if start <= j < end {
            assert(occurs_in(b, start, end, a[j]));
            let i = choose|i: int| start <= i < end && #[trigger] b[i] == a[j];
            assert(entries[b[i] as int].vector@[d] == node.max@[d]);
        } else {
            assert(b[j] == a[j]);
            assert(entries[b[j] as int].vector@[d] == node.max@[d]);
        }
    }
}

proof fn lemma_indices_kept(a: Seq<u32>, b: Seq<u32>, start: int, end: int, n: int)
    requires
        indices_ok(a, n),
        permuted_within(a, b, start, end),
    ensures
        indices_ok(b, n),
{
    lemma_permuted_occurs(a, b, start, end);
    assert forall|i: int| 0 <= i < b.len() implies #[trigger] b[i] < n by {
        if start <= i < end {
            assert(occurs_in(a, start, end, b[i]));
        } else {
            assert(b[i] == a[i]);
        }
    }
}

/// An upper bound on the nodes a subtree over `len` records takes.
pub open spec fn node_budget(len: int) -> int {
    if len <= LEAF_SIZE { 1 } else { (len - 16) / 16 }
}

proof fn lemma_node_budget(len: int)
    requires
        len > LEAF_SIZE,
    ensures
        1 + node_budget(len / 2) + node_budget(len - len / 2) <= node_budget(len),
{
    let h1 = len / 2;
    let h2 = len - len / 2;
    assert(h1 >= 32 && h2 >= 32);
    assert(16 * node_budget(h1) <= h1 - 16);
    assert(16 * node_budget(h2) <= h2 - 16);
}

/// Every index names an entry.
pub open spec fn indices_ok(indices: Seq<u32>, n: int) -> bool {
    forall|i: int| 0 <= i < indices.len() ==> #[trigger] indices[i] < n
}

/// The coordinate `dimension` of entry `index`.
pub fn entry_coordinate(entries: &[MortonEntry], index: u32, dimension: usize) -> (r: i16)
    requires
        index < entries@.len(),
        dimension < 16,
    ensures
        r == entries@[index as int].vector@[dimension as int],
{
    entries[index as usize].vector[dimension]
}

/// `slice::select_nth_unstable_by_key` on `indices[start..start + len]`, keyed by
/// coordinate `dimension` of the entry each index names: the range is permuted so
/// that position `middle` holds the element it would hold if the range were sorted,
/// with no greater key before it and no smaller key after it. Which of equal keys
/// lands where is left open by the documentation and is not stated.
#[verifier::external_body]
fn select_nth_by_coordinate(
    indices: &mut Vec<u32>,
    start: usize,
    len: usize,
    middle: usize,
    entries: &[MortonEntry],
    dimension: usize,
)
    requires
        start + len <= old(indices)@.len(),
        middle < len,
        dimension < 16,
        indices_ok(old(indices)@, entries@.len() as int),
    ensures
        final(indices)@.len() == old(indices)@.len(),
        forall|i: int|
            0 <= i < old(indices)@.len() && !(start <= i < start + len) ==> #[trigger] final(indices)@[i]
                == old(indices)@[i],
        final(indices)@.subrange(start as int, start + len).to_multiset() == old(indices)@.subrange(
            start as int,
            start + len,
        ).to_multiset(),
        forall|i: int|
            start <= i < start + middle ==> entries@[#[trigger] final(indices)@[i] as int].vector@[dimension as int]
                <= entries@[final(indices)@[start + middle] as int].vector@[dimension as int],
        forall|i: int|
            start + middle < i < start + len ==> entries@[#[trigger] final(indices)@[i] as int].vector@[dimension as int]
                >= entries@[final(indices)@[start + middle] as int].vector@[dimension as int],
{
    indices[start..start + len].select_nth_unstable_by_key(
        middle,
        |entry_index| entry_coordinate(entries, *entry_index, dimension),
    );
}

/// Some entry named by `indices[start..end]` has `value` as its coordinate `d`.
pub open spec fn coordinate_attained(
    value: i16,
    entries: Seq<MortonEntry>,
    indices: Seq<u32>,
    start: int,
    end: int,
    d: int,
) -> bool {
    exists|k: int| start <= k < end && #[trigger] entries[indices[k] as int].vector@[d] == value
}

/// The coordinate-wise minimum and maximum of the entries named by `indices[start..start + len]`.
pub fn bounds(entries: &[MortonEntry], indices: &Vec<u32>, start: usize, len: usize) -> (r: (
    ReferenceVector,
    ReferenceVector,
))
    requires
        start + len <= indices@.len(),
        len >= 1,
        indices_ok(indices@, entries@.len() as int),
    ensures
        forall|i: int, d: int|
            start <= i < start + len && 0 <= d < 16 ==> r.0@[d] <= #[trigger] entries@[indices@[i] as int].vector@[d]
                <= r.1@[d],
        forall|d: int|
            0 <= d < 16 ==> #[trigger] coordinate_attained(r.0@[d], entries@, indices@, start as int, start + len, d),
        forall|d: int|
            0 <= d < 16 ==> #[trigger] coordinate_attained(r.1@[d], entries@, indices@, start as int, start + len, d),
{
    let mut min: ReferenceVector = [i16::MAX; 16];
    let mut max: ReferenceVector = [i16::MIN; 16];
    let total = indices.len();
    assert(start + len <= total);
    let end = start + len;
    let mut i = start;
    while i < end
        invariant
            end == start + len,
            i == start ==> forall|d: int| 0 <= d < 16 ==> #[trigger] min@[d] == i16::MAX,
            i == start ==> forall|d: int| 0 <= d < 16 ==> #[trigger] max@[d] == i16::MIN,
            start <= i <= end <= indices@.len(),
            indices_ok(indices@, entries@.len() as int),
            forall|k: int, d: int|
                start <= k < i && 0 <= d < 16 ==> min@[d] <= #[trigger] entries@[indices@[k] as int].vector@[d]
                    <= max@[d],
            i > start ==> forall|d: int|
                0 <= d < 16 ==> #[trigger] coordinate_attained(min@[d], entries@, indices@, start as int, i as int, d),
            i > start ==> forall|d: int|
                0 <= d < 16 ==> #[trigger] coordinate_attained(max@[d], entries@, indices@, start as int, i as int, d),
        decreases end - i,
    {
        assert(indices@[i as int] < entries@.len());
        let vector = entries[indices[i] as usize].vector;
        assert(vector@ == entries@[indices@[i as int] as int].vector@);
        let ghost old_min = min@;
        let ghost old_max = max@;
        let mut d: usize = 0;
        while d < 16
            invariant
                d <= 16,
                min@.len() == 16,
                max@.len() == 16,
                old_min.len() == 16,
                old_max.len() == 16,
                forall|e: int| d <= e < 16 ==> #[trigger] min@[e] == old_min[e],
                forall|e: int| d <= e < 16 ==> #[trigger] max@[e] == old_max[e],
                forall|e: int|
                    0 <= e < d ==> #[trigger] min@[e] == (if vector@[e] < old_min[e] {
                        vector@[e]
                    } else {
                        old_min[e]
                    }),
                forall|e: int|
                    0 <= e < d ==> #[trigger] max@[e] == (if vector@[e] > old_max[e] {
                        vector@[e]
                    } else {
                        old_max[e]
                    }),
            decreases 16 - d,
        {
            let lo = if vector[d] < min[d] { vector[d] } else { min[d] };
            let hi = if vector[d] > max[d] { vector[d] } else { max[d] };
            min[d] = lo;
            max[d] = hi;
            d = d + 1;
        }
        proof {
            assert forall|d: int| 0 <= d < 16 implies #[trigger] coordinate_attained(
                min@[d],
                entries@,
                indices@,
                start as int,
                i + 1,
                d,
            ) by {
                if i == start || vector@[d] < old_min[d] {
                    assert(entries@[indices@[i as int] as int].vector@[d] == min@[d]);
                } else {
                    assert(coordinate_attained(old_min[d], entries@, indices@, start as int, i as int, d));
                    let k = choose|k: int|
                        start <= k < i && #[trigger] entries@[indices@[k] as int].vector@[d] == old_min[d];
                    assert(entries@[indices@[k] as int].vector@[d] == min@[d]);
                }
            }
            assert forall|d: int| 0 <= d < 16 implies #[trigger] coordinate_attained(
                max@[d],
                entries@,
                indices@,
                start as int,
                i + 1,
                d,
            ) by {
                if i == start || vector@[d] > old_max[d] {
                    assert(entries@[indices@[i as int] as int].vector@[d] == max@[d]);
                } else {
                    assert(coordinate_attained(old_max[d], entries@, indices@, start as int, i as int, d));
                    let k = choose|k: int|
                        start <= k < i && #[trigger] entries@[indices@[k] as int].vector@[d] == old_max[d];
                    assert(entries@[indices@[k] as int].vector@[d] == max@[d]);
                }
            }
        }
        i = i + 1;
    }
    (min, max)
}

/// The first dimension along which the box is widest.
pub fn widest_dimension(min: &ReferenceVector, max: &ReferenceVector) -> (r: usize)
    ensures
        r < 16,
        forall|d: int| 0 <= d < 16 ==> max@[d] - min@[d] <= max@[r as int] - min@[r as int],
        forall|d: int| 0 <= d < r ==> max@[d] - min@[d] < max@[r as int] - min@[r as int],
{
    let mut dimension: usize = 0;
    let mut width: i32 = i32::MIN;
    let mut index: usize = 0;
    while index < 16
        invariant
            index <= 16,
            dimension < 16,
            index == 0 ==> width == i32::MIN && dimension == 0,
            index > 0 ==> dimension < index && width == max@[dimension as int] - min@[dimension as int],
            forall|d: int| 0 <= d < index ==> max@[d] - min@[d] <= width,
            forall|d: int| 0 <= d < dimension ==> max@[d] - min@[d] < width,
        decreases 16 - index,
    {
        let candidate_width = max[index] as i32 - min[index] as i32;
        if candidate_width > width {
            width = candidate_width;
            dimension = index;
        }
        index = index + 1;
    }
    dimension
}


/// The 80 bytes of a node.
pub open spec fn node_bytes(node: KdNode) -> Seq<u8> {
    vector_bytes(node.min@, 16) + vector_bytes(node.max@, 16) + le_bytes(node.left as nat, 4) + le_bytes(
        node.right as nat,
        4,
    ) + le_bytes(node.start as nat, 4) + le_bytes(node.len as nat, 4)
}

pub open spec fn node_block(nodes: Seq<KdNode>) -> spec_fn(int) -> Seq<u8> {
    |k: int| node_bytes(nodes[k])
}

pub open spec fn record_vector_block(records: Seq<KdRecord>) -> spec_fn(int) -> Seq<u8> {
    |k: int| vector_bytes(records[k].vector@, 16)
}

pub open spec fn record_label_block(records: Seq<KdRecord>) -> spec_fn(int) -> Seq<u8> {
    |k: int| seq![records[k].label]
}

/// The KD-tree file holding `nodes` and `records`: the header, the nodes, the
/// record vectors, then the record labels.
pub open spec fn spec_kd_file(nodes: Seq<KdNode>, records: Seq<KdRecord>) -> Seq<u8> {
    kd_magic_spec() + le_bytes(4, 4) + le_bytes(nodes.len(), 8) + le_bytes(records.len(), 8) + blocks(
        node_block(nodes),
        nodes.len() as int,
    ) + blocks(record_vector_block(records), records.len() as int) + blocks(
        record_label_block(records),
        records.len() as int,
    )
}

/// Serializes nodes and records into a KD-tree file.
pub fn encode_kd_file(nodes: &Vec<KdNode>, records: &Vec<KdRecord>) -> (r: Vec<u8>)
    ensures
        r@ == spec_kd_file(nodes@, records@),
{
    let mut out: Vec<u8> = Vec::new();
    let magic = kd_magic();
    let mut i: usize = 0;
    while i < 8
        invariant
            i <= 8,
            magic@ == kd_magic_spec(),
            out@ == magic@.subrange(0, i as int),
        decreases 8 - i,
    {
        out.push(magic[i]);
        proof {
            assert(magic@.subrange(0, i + 1) =~= magic@.subrange(0, i as int).push(magic@[i as int]));
        }
        i = i + 1;
    }
    assert(magic@.subrange(0, 8) =~= magic@);
    push_u32_le(&mut out, KD_VERSION);
    push_u64_le(&mut out, nodes.len() as u64);
    push_u64_le(&mut out, records.len() as u64);
    let ghost header = out@;
    let mut k: usize = 0;
    while k < nodes.len()
        invariant
            k <= nodes@.len(),
            out@ == header + blocks(node_block(nodes@), k as int),
        decreases nodes@.len() - k,
    {
        let node = nodes[k];
        let ghost before = out@;
        push_vector(&mut out, &node.min);
        push_vector(&mut out, &node.max);
        push_u32_le(&mut out, node.left);
        push_u32_le(&mut out, node.right);
        push_u32_le(&mut out, node.start);
        push_u32_le(&mut out, node.len);
        proof {
            assert(out@ =~= before + node_bytes(node));
            assert(out@ =~= header + blocks(node_block(nodes@), k + 1));
        }
        k = k + 1;
    }
    let ghost with_nodes = out@;
    let mut k: usize = 0;
    while k < records.len()
        invariant
            k <= records@.len(),
            out@ == with_nodes + blocks(record_vector_block(records@), k as int),
        decreases records@.len() - k,
    {
        let record = records[k];
        push_vector(&mut out, &record.vector);
        proof {
            assert(out@ =~= with_nodes + blocks(record_vector_block(records@), k + 1));
        }
        k = k + 1;
    }
    let ghost with_vectors = out@;
    let mut k: usize = 0;
    while k < records.len()
        invariant
            k <= records@.len(),
            out@ == with_vectors + blocks(record_label_block(records@), k as int),
        decreases records@.len() - k,
    {
        out.push(records[k].label);
        proof {
            assert(out@ =~= with_vectors + blocks(record_label_block(records@), k + 1));
        }
        k = k + 1;
    }
    out
}

/// A node reads back from where it was written.
proof fn lemma_node_window(s: Seq<u8>, p: int, node: KdNode)
    requires
        window(s, p, node_bytes(node)),
    ensures
        node_bytes(node).len() == 80,
        node_fields_at(s, p, node),
{
    let a = vector_bytes(node.min@, 16);
    let b = vector_bytes(node.max@, 16);
    let c = le_bytes(node.left as nat, 4);
    let d = le_bytes(node.right as nat, 4);
    let e = le_bytes(node.start as nat, 4);
    let g = le_bytes(node.len as nat, 4);
    assert(a.subrange(0, a.len() as int) =~= a);
    assert(b.subrange(0, b.len() as int) =~= b);
    lemma_vector_window(a, 0, node.min@);
    lemma_vector_window(b, 0, node.max@);
    lemma_le_bytes_len(node.left as nat, 4);
    lemma_le_bytes_len(node.right as nat, 4);
    lemma_le_bytes_len(node.start as nat, 4);
    lemma_le_bytes_len(node.len as nat, 4);
    lemma_window_concat(a + b + c + d + e, g);
    lemma_window_concat(a + b + c + d, e);
    lemma_window_concat(a + b + c, d);
    lemma_window_concat(a + b, c);
    lemma_window_concat(a, b);
    lemma_window_nested(s, p, node_bytes(node), 0, a + b + c + d + e);
    lemma_window_nested(s, p, node_bytes(node), 76, g);
    lemma_window_nested(s, p, a + b + c + d + e, 0, a + b + c + d);
    lemma_window_nested(s, p, a + b + c + d + e, 72, e);
    lemma_window_nested(s, p, a + b + c + d, 0, a + b + c);
    lemma_window_nested(s, p, a + b + c + d, 68, d);
    lemma_window_nested(s, p, a + b + c, 0, a + b);
    lemma_window_nested(s, p, a + b + c, 64, c);
    lemma_window_nested(s, p, a + b, 0, a);
    lemma_window_nested(s, p, a + b, 32, b);
    lemma_vector_window(s, p, node.min@);
    lemma_vector_window(s, p + 32, node.max@);
    lemma_u32_window(s, p + 64, node.left as nat);
    lemma_u32_window(s, p + 68, node.right as nat);
    lemma_u32_window(s, p + 72, node.start as nat);
    lemma_u32_window(s, p + 76, node.len as nat);
    assert(Seq::new(16, |k: int| i16_at(s, p + 32 + 2 * k) as i16) =~= Seq::new(
        16,
        |k: int| i16_at(s, (p + 32) + 2 * k) as i16,
    ));
}

/// Where each section of a KD-tree file starts, and that it is there.
proof fn lemma_kd_sections(nodes: Seq<KdNode>, records: Seq<KdRecord>)
    ensures
        ({
            let f = spec_kd_file(nodes, records);
            let nn = nodes.len() as int;
            let nr = records.len() as int;
            let h = kd_magic_spec() + le_bytes(4, 4) + le_bytes(nodes.len(), 8) + le_bytes(records.len(), 8);
            &&& f.len() == 28 + nn * 80 + nr * 32 + nr
            &&& h.len() == 28
            &&& window(f, 0, h)
            &&& window(f, 28, blocks(node_block(nodes), nn))
            &&& window(f, 28 + 80 * nn, blocks(record_vector_block(records), nr))
            &&& window(f, 28 + 80 * nn + 32 * nr, blocks(record_label_block(records), nr))
            &&& forall|k: int| 0 <= k < nn ==> #[trigger] node_block(nodes)(k).len() == 80
            &&& forall|k: int| 0 <= k < nr ==> #[trigger] record_vector_block(records)(k).len() == 32
            &&& forall|k: int| 0 <= k < nr ==> #[trigger] record_label_block(records)(k).len() == 1
        }),
{
    let nn = nodes.len() as int;
    let nr = records.len() as int;
    let f = spec_kd_file(nodes, records);
    let h1 = kd_magic_spec();
    let h2 = le_bytes(4, 4);
    let h3 = le_bytes(nodes.len(), 8);
    let h4 = le_bytes(records.len(), 8);
    let nb = node_block(nodes);
    let vb = record_vector_block(records);
    let lb = record_label_block(records);
    let b1 = blocks(nb, nn);
    let b2 = blocks(vb, nr);
    let b3 = blocks(lb, nr);
    lemma_le_bytes_len(4, 4);
    lemma_le_bytes_len(nodes.len(), 8);
    lemma_le_bytes_len(records.len(), 8);
    assert forall|k: int| 0 <= k < nn implies #[trigger] nb(k).len() == 80 by {
        let x = node_bytes(nodes[k]);
        assert(x.subrange(0, x.len() as int) =~= x);
        lemma_node_window(x, 0, nodes[k]);
    }
    assert forall|k: int| 0 <= k < nr implies #[trigger] vb(k).len() == 32 by {
        let x = vector_bytes(records[k].vector@, 16);
        assert(x.subrange(0, x.len() as int) =~= x);
        lemma_vector_window(x, 0, records[k].vector@);
    }
    assert forall|k: int| 0 <= k < nr implies #[trigger] lb(k).len() == 1 by {}
    lemma_blocks_len(nb, nn, 80);
    lemma_blocks_len(vb, nr, 32);
    lemma_blocks_len(lb, nr, 1);
    let h = h1 + h2 + h3 + h4;
    assert(f == h + b1 + b2 + b3);
    lemma_window_concat(h + b1 + b2, b3);
    lemma_window_concat(h + b1, b2);
    lemma_window_concat(h, b1);
    lemma_window_nested(f, 0, h + b1 + b2, 0, h + b1);
    lemma_window_nested(f, 0, h + b1, 0, h);
    lemma_window_nested(f, 0, h + b1, 28, b1);
    lemma_window_nested(f, 0, h + b1 + b2, 28 + 80 * nn, b2);
}

/// The header of a KD-tree file reads back, and the file is accepted.
proof fn lemma_kd_header(nodes: Seq<KdNode>, records: Seq<KdRecord>)
    requires
        28 + 80 * nodes.len() + 33 * records.len() <= usize::MAX,
    ensures
        spec_kd_counts(spec_kd_file(nodes, records)) == Ok::<(int, int), KdTreeError>(
            (nodes.len() as int, records.len() as int),
        ),
{
    let f = spec_kd_file(nodes, records);
    let h1 = kd_magic_spec();
    let h2 = le_bytes(4, 4);
    let h3 = le_bytes(nodes.len(), 8);
    let h4 = le_bytes(records.len(), 8);
    let h = h1 + h2 + h3 + h4;
    lemma_kd_sections(nodes, records);
    lemma_le_bytes_len(4, 4);
    lemma_le_bytes_len(nodes.len(), 8);
    lemma_le_bytes_len(records.len(), 8);
    lemma_window_concat(h1 + h2 + h3, h4);
    lemma_window_concat(h1 + h2, h3);
    lemma_window_concat(h1, h2);
    lemma_window_nested(f, 0, h, 0, h1 + h2 + h3);
    lemma_window_nested(f, 0, h1 + h2 + h3, 0, h1 + h2);
    lemma_window_nested(f, 0, h1 + h2, 0, h1);
    lemma_window_nested(f, 0, h1 + h2, 8, h2);
    lemma_window_nested(f, 0, h1 + h2 + h3, 12, h3);
    lemma_window_nested(f, 0, h, 20, h4);
    lemma_u32_window(f, 8, 4);
    lemma_u64_window(f, 12, nodes.len());
    lemma_u64_window(f, 20, records.len());
    assert(f.subrange(0, 8) == h1);
}

proof fn lemma_kd_nodes(nodes: Seq<KdNode>, f: Seq<u8>)
    requires
        window(f, 28, blocks(node_block(nodes), nodes.len() as int)),
        forall|k: int| 0 <= k < nodes.len() ==> #[trigger] node_block(nodes)(k).len() == 80,
    ensures
        forall|i: int| 0 <= i < nodes.len() ==> node_matches(f, i, #[trigger] nodes[i]),
{
    let nn = nodes.len() as int;
    let nb = node_block(nodes);
    assert forall|i: int| 0 <= i < nn implies node_matches(f, i, #[trigger] nodes[i]) by {
        lemma_blocks_window(nb, nn, 80, i);
        lemma_window_nested(f, 28, blocks(nb, nn), i * 80, nb(i));
        lemma_node_window(f, 28 + 80 * i, nodes[i]);
    }
}

/// Record `i` of a file with `nodes` nodes, as stored.
pub open spec fn kd_record_vector(f: Seq<u8>, nodes: int, i: int) -> Seq<i16> {
    Seq::new(16, |d: int| i16_at(f, 28 + 80 * nodes + 32 * i + 2 * d) as i16)
}

proof fn lemma_kd_records(records: Seq<KdRecord>, f: Seq<u8>, nn: int)
    requires
        window(f, 28 + 80 * nn, blocks(record_vector_block(records), records.len() as int)),
        window(f, 28 + 80 * nn + 32 * records.len(), blocks(record_label_block(records), records.len() as int)),
        forall|k: int| 0 <= k < records.len() ==> #[trigger] record_vector_block(records)(k).len() == 32,
        forall|k: int| 0 <= k < records.len() ==> #[trigger] record_label_block(records)(k).len() == 1,
    ensures
        forall|i: int|
            0 <= i < records.len() ==> kd_record_vector(f, nn, i) == #[trigger] records[i].vector@ && f[28 + 80
                * nn + 32 * records.len() + i] == records[i].label,
{
    let nr = records.len() as int;
    let at = 28 + 80 * nn;
    let vb = record_vector_block(records);
    let lb = record_label_block(records);
    assert forall|i: int| 0 <= i < nr implies kd_record_vector(f, nn, i) == #[trigger] records[i].vector@
        && f[at + 32 * nr + i] == records[i].label by {
        lemma_blocks_window(vb, nr, 32, i);
        lemma_window_nested(f, at, blocks(vb, nr), i * 32, vb(i));
        lemma_vector_window(f, at + 32 * i, records[i].vector@);
        assert(kd_record_vector(f, nn, i) =~= Seq::new(16, |d: int| i16_at(f, (at + 32 * i) + 2 * d) as i16));
        lemma_blocks_window(lb, nr, 1, i);
        lemma_window_nested(f, at + 32 * nr, blocks(lb, nr), i * 1, lb(i));
        lemma_window_byte(f, at + 32 * nr + i, lb(i), 0);
    }
}

/// A file written by `encode_kd_file` is accepted by `KdTree::from_bytes` with
/// the same node and record counts, and every node, record vector and record
/// label reads back as it was written.
pub proof fn lemma_kd_file_roundtrip(nodes: Seq<KdNode>, records: Seq<KdRecord>)
    requires
        28 + 80 * nodes.len() + 33 * records.len() <= usize::MAX,
    ensures
        spec_kd_counts(spec_kd_file(nodes, records)) == Ok::<(int, int), KdTreeError>(
            (nodes.len() as int, records.len() as int),
        ),
        forall|i: int| 0 <= i < nodes.len() ==> node_matches(spec_kd_file(nodes, records), i, #[trigger] nodes[i]),
        forall|i: int|
            0 <= i < records.len() ==> kd_record_vector(spec_kd_file(nodes, records), nodes.len() as int, i)
                == #[trigger] records[i].vector@ && spec_kd_file(nodes, records)[28 + 80 * nodes.len() + 32
                * records.len() + i] == records[i].label,
{
    let f = spec_kd_file(nodes, records);
    lemma_kd_sections(nodes, records);
    lemma_kd_header(nodes, records);
    lemma_kd_nodes(nodes, f);
    lemma_kd_records(records, f, nodes.len() as int);
}

/// A KD-tree under construction over a set of entries: its nodes in creation
/// order, the entry each record position holds, and the records in that order.
pub struct KdTreeBuilder {
    pub nodes: Vec<KdNode>,
    pub indices: Vec<u32>,
    pub records: Vec<KdRecord>,
}

/// `0, 1, .., n - 1`.
pub open spec fn identity(n: int) -> Seq<u32> {
    Seq::new(n as nat, |i: int| i as u32)
}

impl KdTreeBuilder {
    /// Builds the tree over `entries`: the root covers every record, each node
    /// is a tight box around what it covers, nodes over more than `LEAF_SIZE`
    /// records split their range in halves after ordering it along the box's
    /// widest dimension, and records come out in tree order.
    pub fn build(entries: &[MortonEntry]) -> (r: Result<KdTreeBuilder, KdBuildError>)
        ensures
            entries@.len() > u32::MAX ==> r == Err::<KdTreeBuilder, KdBuildError>(KdBuildError::TooManyEntries),
            entries@.len() <= u32::MAX ==> r is Ok,
            r matches Ok(t) ==> {
                &&& t.indices@.len() == entries@.len()
                &&& t.indices@.to_multiset() == identity(entries@.len() as int).to_multiset()
                &&& t.records@.len() == entries@.len()
                &&& forall|i: int|
                    0 <= i < t.records@.len() ==> #[trigger] t.records@[i].vector == entries@[t.indices@[i] as int].vector
                        && t.records@[i].label == entries@[t.indices@[i] as int].label
                &&& entries@.len() == 0 ==> t.nodes@.len() == 0
                &&& entries@.len() > 0 ==> t.nodes@.len() >= 1 && t.nodes@[0].start == 0 && t.nodes@[0].len
                    == entries@.len()
                &&& t.nodes@.len() <= node_budget(entries@.len() as int)
                &&& forall|k: int| 0 <= k < t.nodes@.len() ==> #[trigger] node_ok(t.nodes@, k, t.indices@, entries@)
            },
    {
        if entries.len() > 0xffff_ffffusize {
            return Err(KdBuildError::TooManyEntries);
        }
        let n = entries.len();
        let mut indices: Vec<u32> = Vec::new();
        let mut i: usize = 0;
        while i < n
            invariant
                n == entries@.len(),
                n <= u32::MAX,
                i <= n,
                indices@ == identity(i as int),
            decreases n - i,
        {
            indices.push(i as u32);
            proof {
                assert(indices@ =~= identity(i + 1));
            }
            i = i + 1;
        }
        let mut tree = KdTreeBuilder { nodes: Vec::new(), indices, records: Vec::new() };
        let ghost initial = tree.indices@;
        assert(indices_ok(initial, n as int));
        if n > 0 {
            assert(node_budget(n as int) <= 0x1000_0000);
            let root = tree.build_node(entries, 0, n);
            if root.is_err() {
                return Err(KdBuildError::TooManyNodes);
            }
        }
        assert(permuted_within(initial, tree.indices@, 0, n as int)) by {
            if n == 0 {
                assert(tree.indices@ =~= initial);
            }
        }
        assert(tree.indices@.subrange(0, n as int) =~= tree.indices@);
        assert(initial.subrange(0, n as int) =~= initial);
        let mut records: Vec<KdRecord> = Vec::new();
        let mut k: usize = 0;
        while k < n
            invariant
                n == entries@.len(),
                k <= n,
                tree.indices@.len() == n,
                indices_ok(tree.indices@, n as int),
                records@.len() == k,
                forall|j: int|
                    0 <= j < k ==> #[trigger] records@[j].vector == entries@[tree.indices@[j] as int].vector
                        && records@[j].label == entries@[tree.indices@[j] as int].label,
            decreases n - k,
        {
            let entry = entries[tree.indices[k] as usize];
            records.push(KdRecord { vector: entry.vector, label: entry.label });
            k = k + 1;
        }
        tree.records = records;
        Ok(tree)
    }

    /// Adds the subtree over `indices[start..start + len]` and returns the index
    /// of its root. Only that range of `indices` is reordered.
    fn build_node(&mut self, entries: &[MortonEntry], start: usize, len: usize) -> (r: Result<u32, KdBuildError>)
        requires
            1 <= len,
            start + len <= old(self).indices@.len() <= u32::MAX,
            indices_ok(old(self).indices@, entries@.len() as int),
            old(self).nodes@.len() + node_budget(len as int) <= 0x1_0000_0000,
            forall|k: int|
                0 <= k < old(self).nodes@.len() ==> #[trigger] node_box_ok(
                    old(self).nodes@[k],
                    old(self).indices@,
                    entries@,
                ),
            forall|k: int|
                0 <= k < old(self).nodes@.len() ==> #[trigger] nested_or_apart(
                    old(self).nodes@[k],
                    start as int,
                    start + len,
                ),
        ensures
            r == Ok::<u32, KdBuildError>(old(self).nodes@.len() as u32),
            old(self).nodes@.len() < final(self).nodes@.len() <= old(self).nodes@.len() + node_budget(len as int),
            forall|k: int| 0 <= k < old(self).nodes@.len() ==> #[trigger] final(self).nodes@[k] == old(self).nodes@[k],
            permuted_within(old(self).indices@, final(self).indices@, start as int, start + len),
            final(self).indices@.len() == old(self).indices@.len(),
            indices_ok(final(self).indices@, entries@.len() as int),
            final(self).records@ == old(self).records@,
            final(self).nodes@[old(self).nodes@.len() as int].start == start,
            final(self).nodes@[old(self).nodes@.len() as int].len == len,
            forall|k: int|
                0 <= k < final(self).nodes@.len() ==> #[trigger] node_box_ok(
                    final(self).nodes@[k],
                    final(self).indices@,
                    entries@,
                ),
            forall|k: int|
                old(self).nodes@.len() <= k < final(self).nodes@.len() ==> #[trigger] links_ok(
                    final(self).nodes@,
                    k,
                ),
            forall|k: int|
                old(self).nodes@.len() <= k < final(self).nodes@.len() ==> start <= #[trigger] final(self).nodes@[k].start
                    && final(self).nodes@[k].start + final(self).nodes@[k].len <= start + len,
            forall|k: int|
                old(self).nodes@.len() <= k < final(self).nodes@.len() ==> #[trigger] split_ok(
                    final(self).nodes@[k],
                    final(self).indices@,
                    entries@,
                ),
        decreases len,
    {
        let node_index = self.nodes.len();
        if node_index > 0xffff_ffffusize {
            return Err(KdBuildError::TooManyNodes);
        }
        let ghost old_indices = self.indices@;
        let ghost old_nodes = self.nodes@;
        let (min, max) = bounds(entries, &self.indices, start, len);
        self.nodes.push(KdNode {
            min,
            max,
            left: NO_CHILD,
            right: NO_CHILD,
            start: start as u32,
            len: len as u32,
        });
        assert(node_box_ok(self.nodes@[node_index as int], self.indices@, entries@));
        if len <= LEAF_SIZE {
            assert(permuted_within(old_indices, self.indices@, start as int, start + len));
            assert(links_ok(self.nodes@, node_index as int));
            return Ok(node_index as u32);
        }
        proof {
            lemma_node_budget(len as int);
        }
        let split_dimension = widest_dimension(&min, &max);
        let middle = len / 2;
        let ghost before_select = self.indices@;
        select_nth_by_coordinate(&mut self.indices, start, len, middle, entries, split_dimension);
        let ghost after_select = self.indices@;
        assert(permuted_within(before_select, after_select, start as int, start + len));
        proof {
            lemma_indices_kept(before_select, after_select, start as int, start + len, entries@.len() as int);
            assert forall|k: int| 0 <= k < self.nodes@.len() implies #[trigger] node_box_ok(
                self.nodes@[k],
                self.indices@,
                entries@,
            ) by {
                lemma_box_kept(self.nodes@[k], entries@, before_select, after_select, start as int, start + len);
            }
        }
        let ghost pushed = self.nodes@;
        proof {
            assert forall|k: int| 0 <= k < self.nodes@.len() implies #[trigger] nested_or_apart(
                self.nodes@[k],
                start as int,
                start + middle,
            ) by {
                if k < old_nodes.len() {
                    assert(self.nodes@[k] == old_nodes[k]);
                    assert(nested_or_apart(old_nodes[k], start as int, start + len));
                }
            }
        }
        let left = self.build_node(entries, start, middle);
        let ghost after_left = self.indices@;
        let ghost left_nodes = self.nodes@;
        proof {
            lemma_permuted_widen(after_select, after_left, start as int, start + middle, start as int, start + len);
            assert forall|k: int| 0 <= k < self.nodes@.len() implies #[trigger] nested_or_apart(
                self.nodes@[k],
                start + middle,
                start + len,
            ) by {
                if k < old_nodes.len() {
                    assert(self.nodes@[k] == pushed[k]);
                    assert(pushed[k] == old_nodes[k]);
                    assert(nested_or_apart(old_nodes[k], start as int, start + len));
                } else if k == node_index {
                    assert(self.nodes@[k] == pushed[k]);
                } else {
                    assert(links_ok(self.nodes@, k));
                }
            }
        }
        let right = self.build_node(entries, start + middle, len - middle);
        let ghost after_right = self.indices@;
        let ghost right_nodes = self.nodes@;
        proof {
            assert forall|k: int| old_nodes.len() < k < left_nodes.len() implies #[trigger] split_ok(
                right_nodes[k],
                after_right,
                entries@,
            ) by {
                assert(right_nodes[k] == left_nodes[k]);
                assert(start <= left_nodes[k].start && left_nodes[k].start + left_nodes[k].len <= start + middle);
                lemma_split_frame(left_nodes[k], after_left, after_right, entries@);
            }
            lemma_halves_ordered(
                entries@,
                after_select,
                after_left,
                after_right,
                start as int,
                middle as int,
                len as int,
                split_dimension as int,
            );
        }
        proof {
            assert forall|k: int| node_index < k < left_nodes.len() implies #[trigger] links_ok(self.nodes@, k)
                && start <= self.nodes@[k].start && self.nodes@[k].start + self.nodes@[k].len <= start + len by {
                assert(links_ok(left_nodes, k));
                assert(self.nodes@[k] == left_nodes[k]);
                if left_nodes[k].len > LEAF_SIZE {
                    assert(self.nodes@[left_nodes[k].left as int] == left_nodes[left_nodes[k].left as int]);
                    assert(self.nodes@[left_nodes[k].right as int] == left_nodes[left_nodes[k].right as int]);
                }
            }
            lemma_permuted_widen(after_left, after_right, start + middle, start + len, start as int, start + len);
            lemma_permuted_trans(after_select, after_left, after_right, start as int, start + len);
            lemma_permuted_trans(before_select, after_select, after_right, start as int, start + len);
        }
        let left = match left {
            Ok(v) => v,
            Err(e) => return Err(e),
        };
        let right = match right {
            Ok(v) => v,
            Err(e) => return Err(e),
        };
        let mut node = self.nodes[node_index];
        node.left = left;
        node.right = right;
        let ghost before_set = self.nodes@;
        self.nodes.set(node_index, node);
        proof {
            assert forall|k: int| 0 <= k < self.nodes@.len() implies #[trigger] node_box_ok(
                self.nodes@[k],
                self.indices@,
                entries@,
            ) by {
                if k != node_index {
                    assert(self.nodes@[k] == before_set[k]);
                } else {
                    assert(node_box_ok(before_set[k], self.indices@, entries@));
                }
            }
            assert forall|k: int| node_index < k < self.nodes@.len() implies #[trigger] links_ok(self.nodes@, k)
                && start <= self.nodes@[k].start && self.nodes@[k].start + self.nodes@[k].len <= start + len by {
                assert(links_ok(before_set, k));
                assert(start <= before_set[k].start && before_set[k].start + before_set[k].len <= start + len);
                assert(self.nodes@[k] == before_set[k]);
                if self.nodes@[k].len > LEAF_SIZE {
                    assert(self.nodes@[self.nodes@[k].left as int] == before_set[before_set[k].left as int]);
                    assert(self.nodes@[self.nodes@[k].right as int] == before_set[before_set[k].right as int]);
                }
            }
            assert(links_ok(self.nodes@, node_index as int));
            assert(self.nodes@[node_index as int].start == start && self.nodes@[node_index as int].len == len);
            assert forall|k: int| node_index <= k < self.nodes@.len() implies #[trigger] links_ok(self.nodes@, k)
                && start <= self.nodes@[k].start && self.nodes@[k].start + self.nodes@[k].len <= start + len by {
                if k > node_index {
                    assert(links_ok(self.nodes@, k));
                }
            }
            assert(before_set == right_nodes);
            assert forall|k: int| node_index <= k < self.nodes@.len() implies #[trigger] split_ok(
                self.nodes@[k],
                self.indices@,
                entries@,
            ) by {
                if k == node_index {
                    let nd = self.nodes@[k];
                    assert(nd.min == min && nd.max == max && nd.start == start && nd.len == len);
                    assert forall|d: int, i: int, j: int|
                        is_widest(nd.min@, nd.max@, d) && nd.start <= i < nd.start + nd.len / 2 <= j < nd.start
                            + nd.len implies #[trigger] coordinate_at(entries@, self.indices@, i, d)
                        <= #[trigger] coordinate_at(entries@, self.indices@, j, d) by {
                        assert(is_widest(min@, max@, split_dimension as int));
                        assert(d == split_dimension);
                    }
                } else {
                    assert(self.nodes@[k] == right_nodes[k]);
                }
            }
        }
        Ok(node_index as u32)
    }

    /// The KD-tree file of this tree.
    pub fn encode(&self) -> (r: Vec<u8>)
        ensures
            r@ == spec_kd_file(self.nodes@, self.records@),
    {
        encode_kd_file(&self.nodes, &self.records)
    }

    pub fn nodes_len(&self) -> (r: usize)
        ensures
            r == self.nodes@.len(),
    {
        self.nodes.len()
    }

    pub fn records_len(&self) -> (r: usize)
        ensures
            r == self.records@.len(),
    {
        self.records.len()
    }
}

} // verus!
