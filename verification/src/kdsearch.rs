//! Searching a KD-tree file for the 5 nearest records: a depth-first walk
//! that skips every box farther than the fifth neighbour found so far.
use vstd::prelude::*;

use crate::ReferenceVector;
use crate::distance::{lemma_partial_sq_bounds, lemma_partial_sq_monotone, partial_sq, squared_distance};
use crate::kdtree::{
    KdTree, NO_CHILD, Neighbor, axis_gap, gap_prefix, lower_bound_l2, neighbor_better, KdNode, KdRecord,
    LEAF_SIZE, in_box, kd_record_vector, lemma_kd_file_roundtrip, node_ok, spec_kd_file, neighbor_ok,
    no_neighbor, node_matches, spec_lower_bound_l2, spec_neighbor_better, top_ok,
};
use crate::bytes::{i16_at, u32_at};
use crate::morton::MortonEntry;

verus! {

/// The slot `neighbor` takes when offered to `top`: after every one of the
/// first `k` slots it does not go before.
pub open spec fn insert_slot(top: Seq<Neighbor>, neighbor: Neighbor, k: int) -> int
    decreases k,
{
    if k > 0 && spec_neighbor_better(neighbor, top[k - 1]) {
        insert_slot(top, neighbor, k - 1)
    } else {
        k
    }
}

/// `top` after offering `neighbor`: unchanged unless it goes before the last
/// slot; else it takes its slot and the last slot falls out.
pub open spec fn spec_insert_neighbor(top: Seq<Neighbor>, neighbor: Neighbor) -> Seq<Neighbor> {
    if !spec_neighbor_better(neighbor, top[4]) {
        top
    } else {
        let o = insert_slot(top, neighbor, 4);
        top.subrange(0, o).push(neighbor) + top.subrange(o, 4)
    }
}

/// Inserts `neighbor` in order when it goes before the last slot; the last slot falls out.
pub fn insert_neighbor(top: &mut [Neighbor; 5], neighbor: Neighbor)
    ensures
        final(top)@ == spec_insert_neighbor(old(top)@, neighbor),
        !spec_neighbor_better(neighbor, old(top)@[4]) ==> final(top)@ == old(top)@,
        spec_neighbor_better(neighbor, old(top)@[4]) ==> exists|o: int|
            0 <= o < 5 && final(top)@ == old(top)@.subrange(0, o).push(neighbor) + old(top)@.subrange(
                o,
                4,
            ) && (o == 0 || !spec_neighbor_better(neighbor, old(top)@[o - 1])) && (forall|k: int|
                o <= k < 4 ==> spec_neighbor_better(neighbor, #[trigger] old(top)@[k])),
{
    if !neighbor_better(neighbor, top[4]) {
        return;
    }
    let ghost before = top@;
    let mut output: usize = 4;
    while output > 0 && neighbor_better(neighbor, top[output - 1])
        invariant
            output <= 4,
            top@.len() == 5,
            forall|k: int| 0 <= k <= output ==> top@[k] == before[k],
            forall|k: int| output < k < 5 ==> top@[k] == before[k - 1],
            forall|k: int| output <= k < 4 ==> spec_neighbor_better(neighbor, #[trigger] before[k]),
            insert_slot(before, neighbor, output as int) == insert_slot(before, neighbor, 4),
        decreases output,
    {
        top[output] = top[output - 1];
        output = output - 1;
    }
    top[output] = neighbor;
    assert(top@ =~= before.subrange(0, output as int).push(neighbor) + before.subrange(output as int, 4));
}


/// The box bounds and links of node `i` as the file stores them.
pub open spec fn stored_min(b: Seq<u8>, i: int) -> Seq<i16> {
    Seq::new(16, |d: int| i16_at(b, 28 + 80 * i + 2 * d) as i16)
}

pub open spec fn stored_max(b: Seq<u8>, i: int) -> Seq<i16> {
    Seq::new(16, |d: int| i16_at(b, 28 + 80 * i + 32 + 2 * d) as i16)
}

pub open spec fn stored_left(b: Seq<u8>, i: int) -> int {
    u32_at(b, 28 + 80 * i + 64)
}

pub open spec fn stored_right(b: Seq<u8>, i: int) -> int {
    u32_at(b, 28 + 80 * i + 68)
}

pub open spec fn stored_start(b: Seq<u8>, i: int) -> int {
    u32_at(b, 28 + 80 * i + 72)
}

pub open spec fn stored_len(b: Seq<u8>, i: int) -> int {
    u32_at(b, 28 + 80 * i + 76)
}

/// `w` lies in the box `lo..=hi`.
pub open spec fn within(lo: Seq<i16>, hi: Seq<i16>, w: Seq<i16>) -> bool {
    forall|d: int| 0 <= d < 16 ==> lo[d] <= #[trigger] w[d] <= hi[d]
}

/// Record `r` is one node `i` covers.
pub open spec fn in_range(b: Seq<u8>, i: int, r: int) -> bool {
    stored_start(b, i) <= r < stored_start(b, i) + stored_len(b, i)
}

/// Node `i` of the file is one `KdTreeBuilder` writes: it covers records
/// of the file, its box holds every record it covers, and an inner node has
/// two later children that split its range in two, in order.
pub open spec fn node_valid(t: KdTree, i: int) -> bool {
    let b = t.bytes@;
    &&& stored_start(b, i) + stored_len(b, i) <= t.records
    &&& forall|r: int| #![trigger t.record_vector(r)]
        in_range(b, i, r) ==> within(stored_min(b, i), stored_max(b, i), t.record_vector(r))
    &&& stored_left(b, i) != NO_CHILD ==> {
        &&& i < stored_left(b, i) < t.nodes
        &&& i < stored_right(b, i) < t.nodes
        &&& stored_start(b, stored_left(b, i)) == stored_start(b, i)
        &&& stored_start(b, stored_right(b, i)) == stored_start(b, i) + stored_len(b, stored_left(b, i))
        &&& stored_len(b, stored_left(b, i)) + stored_len(b, stored_right(b, i)) == stored_len(b, i)
    }
}

/// The file holds a tree whose root covers every record (there are none
/// without a root) and whose every node is valid.
pub open spec fn tree_valid(t: KdTree) -> bool {
    &&& t.nodes == 0 ==> t.records == 0
    &&& t.nodes > 0 ==> stored_start(t.bytes@, 0) == 0 && stored_len(t.bytes@, 0) == t.records
    &&& forall|i: int| 0 <= i < t.nodes ==> #[trigger] node_valid(t, i)
}

/// The top list after offering record `r`: kept out when its first 8
/// coordinates already lie farther than the last slot, else inserted.
pub open spec fn offer_record(t: KdTree, vector: Seq<i16>, top: Seq<Neighbor>, r: int) -> Seq<Neighbor> {
    if partial_sq(vector, t.record_vector(r), 8) > top[4].distance {
        top
    } else {
        spec_insert_neighbor(
            top,
            Neighbor {
                distance: squared_distance(vector, t.record_vector(r)) as u64,
                index: r as u32,
                label: t.record_label(r),
            },
        )
    }
}

/// The top list after offering records `r..end` in order (a record index
/// that does not fit the list's index type is skipped).
pub open spec fn scan_from(t: KdTree, vector: Seq<i16>, top: Seq<Neighbor>, r: int, end: int) -> Seq<Neighbor>
    decreases end - r,
{
    if r >= end {
        top
    } else {
        let next = if r < 0xffff_ffff { offer_record(t, vector, top, r) } else { top };
        scan_from(t, vector, next, r + 1, end)
    }
}

/// The lower bound of the distance from `vector` to the box of node `c`.
pub open spec fn node_bound(t: KdTree, vector: Seq<i16>, c: int) -> int {
    gap_prefix(vector, stored_min(t.bytes@, c), stored_max(t.bytes@, c), 16)
}

/// The stack after the children of inner node `x` are offered with the
/// fifth distance `worst`: each child that comes after `x` in the file and
/// whose box lies within `worst` is pushed, the nearer one last.
pub open spec fn spec_push_children(t: KdTree, vector: Seq<i16>, s: Seq<usize>, x: int, worst: int) -> Seq<usize> {
    let b = t.bytes@;
    let left = stored_left(b, x);
    let right = stored_right(b, x);
    let left_ok = x < left < t.nodes;
    let right_ok = x < right < t.nodes;
    let left_bound = if left_ok { node_bound(t, vector, left) } else { u64::MAX as int };
    let right_bound = if right_ok { node_bound(t, vector, right) } else { u64::MAX as int };
    let push_left = left_ok && left_bound <= worst;
    let push_right = right_ok && right_bound <= worst;
    if left_bound <= right_bound {
        let s1 = if push_right { s.push(right as usize) } else { s };
        if push_left { s1.push(left as usize) } else { s1 }
    } else {
        let s1 = if push_left { s.push(left as usize) } else { s };
        if push_right { s1.push(right as usize) } else { s1 }
    }
}

/// One step of the walk: pop a node; drop it when its box lies beyond the
/// fifth distance; scan a leaf's records; push an inner node's children.
pub open spec fn walk_step(t: KdTree, vector: Seq<i16>, st: (Seq<usize>, Seq<Neighbor>)) -> (Seq<usize>, Seq<Neighbor>) {
    let b = t.bytes@;
    let x = st.0.last() as int;
    let rest = st.0.drop_last();
    let top = st.1;
    if node_bound(t, vector, x) > top[4].distance {
        (rest, top)
    } else if stored_left(b, x) == NO_CHILD {
        let start = stored_start(b, x);
        let end = if start + stored_len(b, x) < t.records { start + stored_len(b, x) } else { t.records as int };
        (rest, scan_from(t, vector, top, start, end))
    } else {
        (spec_push_children(t, vector, rest, x, top[4].distance as int), top)
    }
}

/// The walk from `st` until the stack is empty, within `fuel` steps.
pub open spec fn walk(t: KdTree, vector: Seq<i16>, st: (Seq<usize>, Seq<Neighbor>), fuel: nat) -> (Seq<usize>, Seq<Neighbor>)
    decreases fuel,
{
    if fuel == 0 || st.0.len() == 0 {
        st
    } else {
        walk(t, vector, walk_step(t, vector, st), (fuel - 1) as nat)
    }
}

/// The empty top list.
pub open spec fn empty_top() -> Seq<Neighbor> {
    Seq::new(5, |k: int| no_neighbor())
}

/// What `KdTree::top5` returns for `vector` on any well-formed file: the
/// top list its depth-first walk from the root ends with.
pub open spec fn spec_top5(t: KdTree, vector: Seq<i16>) -> Seq<Neighbor> {
    if t.nodes == 0 {
        empty_top()
    } else {
        walk(t, vector, (seq![0usize], empty_top()), (stack_weight(seq![0usize], t.nodes as int) + 1) as nat).1
    }
}

/// Record `r` as a neighbour of `vector`.
pub open spec fn record_neighbor(t: KdTree, vector: Seq<i16>, r: int) -> Neighbor {
    Neighbor {
        distance: squared_distance(vector, t.record_vector(r)) as u64,
        index: r as u32,
        label: t.record_label(r),
    }
}

/// Record `r` is in the top list, or goes after its last slot.
pub open spec fn settled(t: KdTree, vector: Seq<i16>, top: Seq<Neighbor>, r: int) -> bool {
    top.contains(record_neighbor(t, vector, r)) || !spec_neighbor_better(record_neighbor(t, vector, r), top[4])
}

/// The records the filled slots of a top list name are distinct.
pub open spec fn top_distinct(top: Seq<Neighbor>) -> bool {
    forall|a: int, c: int|
        0 <= a < c < 5 && top[a] != no_neighbor() && top[c] != no_neighbor() ==> #[trigger] top[a].index
            != #[trigger] top[c].index
}

/// The record ranges of nodes `i` and `j` do not overlap.
pub open spec fn ranges_apart(b: Seq<u8>, i: int, j: int) -> bool {
    stored_start(b, i) + stored_len(b, i) <= stored_start(b, j) || stored_start(b, j) + stored_len(b, j)
        <= stored_start(b, i)
}

/// The nodes on the stack cover pairwise disjoint records.
pub open spec fn stack_apart(b: Seq<u8>, stack: Seq<usize>) -> bool {
    forall|p: int, q: int| 0 <= p < q < stack.len() ==> ranges_apart(b, #[trigger] stack[p] as int, #[trigger] stack[q] as int)
}

/// No record in a filled slot is still covered by a node on the stack.
pub open spec fn top_off_stack(b: Seq<u8>, stack: Seq<usize>, top: Seq<Neighbor>) -> bool {
    forall|k: int| 0 <= k < 5 && #[trigger] top[k] != no_neighbor() ==> !pending(b, stack, top[k].index as int)
}

/// After an insertion every slot is the new record or one from before.
proof fn lemma_insert_members(before: Seq<Neighbor>, after: Seq<Neighbor>, n: Neighbor, o: int)
    requires
        before.len() == 5,
        0 <= o < 5,
        after == before.subrange(0, o).push(n) + before.subrange(o, 4),
    ensures
        forall|k: int| 0 <= k < 5 ==> #[trigger] after[k] == n || before.contains(after[k]),
{
    assert forall|k: int| 0 <= k < 5 implies #[trigger] after[k] == n || before.contains(after[k]) by {
        if k < o {
            assert(before[k] == after[k]);
        } else if k > o {
            assert(before[k - 1] == after[k]);
        }
    }
}

/// Node `c` covers only records node `x` covers.
pub open spec fn range_inside(b: Seq<u8>, c: int, x: int) -> bool {
    stored_start(b, x) <= stored_start(b, c) && stored_start(b, c) + stored_len(b, c) <= stored_start(b, x)
        + stored_len(b, x)
}

/// Popping the last node of a stack of disjoint nodes, none covering a
/// record of the top list.
proof fn lemma_pop_apart(b: Seq<u8>, s: Seq<usize>, top: Seq<Neighbor>)
    requires
        s.len() > 0,
        stack_apart(b, s),
        top_off_stack(b, s, top),
    ensures
        stack_apart(b, s.drop_last()),
        top_off_stack(b, s.drop_last(), top),
        forall|q: int| 0 <= q < s.len() - 1 ==> ranges_apart(b, s.last() as int, #[trigger] s[q] as int),
        forall|k: int| 0 <= k < 5 && #[trigger] top[k] != no_neighbor() ==> !in_range(b, s.last() as int, top[k].index as int),
{
    let rest = s.drop_last();
    assert forall|p: int, q: int| 0 <= p < q < rest.len() implies ranges_apart(b, #[trigger] rest[p] as int, #[trigger] rest[q] as int) by {
        assert(rest[p] == s[p] && rest[q] == s[q]);
    }
    assert forall|q: int| 0 <= q < s.len() - 1 implies ranges_apart(b, s.last() as int, #[trigger] s[q] as int) by {
        assert(ranges_apart(b, s[q] as int, s[s.len() - 1] as int));
    }
    assert forall|k: int| 0 <= k < 5 && #[trigger] top[k] != no_neighbor() implies !pending(b, rest, top[k].index as int)
        && !in_range(b, s.last() as int, top[k].index as int) by {
        assert(!pending(b, s, top[k].index as int));
        if pending(b, rest, top[k].index as int) {
            let j = choose|j: int| 0 <= j < rest.len() && in_range(b, rest[j] as int, top[k].index as int);
            assert(s[j] == rest[j]);
        }
        if in_range(b, s.last() as int, top[k].index as int) {
            assert(in_range(b, s[s.len() - 1] as int, top[k].index as int));
        }
    }
}

/// Pushing onto the rest of the stack nodes inside the popped node `x`,
/// pairwise disjoint, keeps the stack disjoint and off the top list.
proof fn lemma_push_apart(b: Seq<u8>, rest: Seq<usize>, x: int, s: Seq<usize>, top: Seq<Neighbor>)
    requires
        stack_apart(b, rest),
        top_off_stack(b, rest, top),
        forall|q: int| 0 <= q < rest.len() ==> ranges_apart(b, x, #[trigger] rest[q] as int),
        forall|k: int| 0 <= k < 5 && #[trigger] top[k] != no_neighbor() ==> !in_range(b, x, top[k].index as int),
        s.len() >= rest.len(),
        forall|k: int| 0 <= k < rest.len() ==> #[trigger] s[k] == rest[k],
        forall|k: int| rest.len() <= k < s.len() ==> range_inside(b, #[trigger] s[k] as int, x),
        forall|p: int, q: int| rest.len() <= p < q < s.len() ==> ranges_apart(b, #[trigger] s[p] as int, #[trigger] s[q] as int),
    ensures
        stack_apart(b, s),
        top_off_stack(b, s, top),
{
    assert forall|p: int, q: int| 0 <= p < q < s.len() implies ranges_apart(b, #[trigger] s[p] as int, #[trigger] s[q] as int) by {
        if q < rest.len() {
            assert(s[p] == rest[p] && s[q] == rest[q]);
        } else if p < rest.len() {
            assert(s[p] == rest[p]);
            assert(ranges_apart(b, x, rest[p] as int));
            assert(range_inside(b, s[q] as int, x));
        }
    }
    assert forall|k: int| 0 <= k < 5 && #[trigger] top[k] != no_neighbor() implies !pending(b, s, top[k].index as int) by {
        assert(!pending(b, rest, top[k].index as int));
        if pending(b, s, top[k].index as int) {
            let j = choose|j: int| 0 <= j < s.len() && in_range(b, s[j] as int, top[k].index as int);
            if j < rest.len() {
                assert(s[j] == rest[j]);
                assert(in_range(b, rest[j] as int, top[k].index as int));
            } else {
                assert(range_inside(b, s[j] as int, x));
            }
        }
    }
}

/// Inserting a record that no filled slot names keeps the slots distinct.
proof fn lemma_insert_distinct(before: Seq<Neighbor>, after: Seq<Neighbor>, n: Neighbor, o: int)
    requires
        before.len() == 5,
        top_distinct(before),
        n != no_neighbor(),
        forall|k: int| 0 <= k < 5 && before[k] != no_neighbor() ==> #[trigger] before[k].index != n.index,
        0 <= o < 5,
        after == before.subrange(0, o).push(n) + before.subrange(o, 4),
    ensures
        top_distinct(after),
{
    assert forall|k: int| 0 <= k < 5 implies #[trigger] after[k] == (if k < o {
        before[k]
    } else if k == o {
        n
    } else {
        before[k - 1]
    }) by {}
    assert forall|a: int, c: int|
        0 <= a < c < 5 && after[a] != no_neighbor() && after[c] != no_neighbor() implies #[trigger] after[a].index
            != #[trigger] after[c].index by {
        let ia = if a < o { a } else { a - 1 };
        let ic = if c < o { c } else { c - 1 };
        if a != o && c != o {
            assert(after[a] == before[ia] && after[c] == before[ic]);
            assert(ia < ic);
        } else if a == o {
            assert(after[c] == before[ic]);
        } else {
            assert(after[a] == before[ia]);
        }
    }
}

/// Record `r` is covered by a node still on the stack.
pub open spec fn pending(b: Seq<u8>, stack: Seq<usize>, r: int) -> bool {
    exists|k: int| 0 <= k < stack.len() && in_range(b, stack[k] as int, r)
}

/// `3^e`.
pub open spec fn pow3(e: nat) -> nat
    decreases e,
{
    if e == 0 { 1 } else { 3 * pow3((e - 1) as nat) }
}

proof fn lemma_pow3_monotone(a: nat, b: nat)
    requires
        a <= b,
    ensures
        1 <= pow3(a) <= pow3(b),
    decreases b,
{
    if a < b {
        lemma_pow3_monotone(a, (b - 1) as nat);
    } else if b > 0 {
        lemma_pow3_monotone((b - 1) as nat, (b - 1) as nat);
    }
}

/// The weight of a stack of nodes below `n`: node `i` weighs `3^(n - i)`,
/// so a node weighs more than two later ones together.
pub open spec fn stack_weight(s: Seq<usize>, n: int) -> int
    decreases s.len(),
{
    if s.len() == 0 {
        0
    } else {
        stack_weight(s.drop_last(), n) + pow3((n - s.last()) as nat)
    }
}

proof fn lemma_stack_weight_nonneg(s: Seq<usize>, n: int)
    ensures
        stack_weight(s, n) >= 0,
    decreases s.len(),
{
    if s.len() > 0 {
        lemma_stack_weight_nonneg(s.drop_last(), n);
    }
}

/// A box's squared gap to `v` is no more than the distance from `v` to any
/// vector in the box.
proof fn lemma_gap_below_distance(v: Seq<i16>, lo: Seq<i16>, hi: Seq<i16>, w: Seq<i16>, n: int)
    requires
        0 <= n <= 16,
        within(lo, hi, w),
    ensures
        gap_prefix(v, lo, hi, n) <= partial_sq(v, w, n),
    decreases n,
{
    if n > 0 {
        lemma_gap_below_distance(v, lo, hi, w, n - 1);
        let d = n - 1;
        assert(lo[d] <= w[d] <= hi[d]);
        let g = axis_gap(v[d], lo[d], hi[d]);
        let e = v[d] - w[d];
        assert(0 <= g && (g <= e || g <= -e)) by {
            if v[d] < lo[d] {
                assert(g == lo[d] - v[d]);
            } else if v[d] > hi[d] {
                assert(g == v[d] - hi[d]);
            } else {
                assert(g == 0);
            }
        }
        assert(g * g <= e * e) by (nonlinear_arith)
            requires 0 <= g && (g <= e || g <= -e);
    }
}

/// Once settled, a record stays settled as the top list takes better neighbours.
proof fn lemma_settled_kept(t: KdTree, vector: Seq<i16>, before: Seq<Neighbor>, after: Seq<Neighbor>, n: Neighbor, r: int)
    requires
        top_ok(t, vector, before),
        settled(t, vector, before, r),
        !spec_neighbor_better(n, before[4]) ==> after == before,
        spec_neighbor_better(n, before[4]) ==> exists|o: int|
            0 <= o < 5 && after == before.subrange(0, o).push(n) + before.subrange(o, 4) && (o == 0
                || !spec_neighbor_better(n, before[o - 1])) && (forall|k: int|
                o <= k < 4 ==> spec_neighbor_better(n, #[trigger] before[k])),
    ensures
        settled(t, vector, after, r),
{
    let x = record_neighbor(t, vector, r);
    if spec_neighbor_better(n, before[4]) {
        let o = choose|o: int|
            0 <= o < 5 && after == before.subrange(0, o).push(n) + before.subrange(o, 4) && (o == 0
                || !spec_neighbor_better(n, before[o - 1])) && (forall|k: int|
                o <= k < 4 ==> spec_neighbor_better(n, #[trigger] before[k]));
        assert(after.len() == 5);
        assert(!spec_neighbor_better(before[4], after[4])) by {
            if o < 4 {
                assert(after[4] == before.subrange(o, 4)[3 - o]);
                assert(after[4] == before[3]);
                assert(!spec_neighbor_better(before[4], before[3]));
            } else {
                assert(after[4] == n);
            }
        }
        if before.contains(x) {
            let k = choose|k: int| 0 <= k < before.len() && before[k] == x;
            if k < o {
                assert(after[k] == x);
                assert(after.contains(x));
            } else if k < 4 {
                assert(after[k + 1] == before.subrange(o, 4)[k - o]);
                assert(after[k + 1] == x);
                assert(after.contains(x));
            } else {
                assert(x == before[4]);
            }
        }
    }
}

/// The top lists a search may end with: ordered, distinct records, every
/// record of the tree in the list or after its last slot.
pub open spec fn nearest_five(t: KdTree, vector: Seq<i16>, top: Seq<Neighbor>) -> bool {
    &&& top_ok(t, vector, top)
    &&& top_distinct(top)
    &&& forall|i: int| 0 <= i < t.records ==> #[trigger] settled(t, vector, top, i)
}

/// Where two such lists agree on their first `k` slots, the first of them
/// does not go before the second at slot `k`.
proof fn lemma_not_before(t: KdTree, vector: Seq<i16>, a: Seq<Neighbor>, c: Seq<Neighbor>, k: int)
    requires
        t.records < 0xffff_ffff,
        nearest_five(t, vector, a),
        nearest_five(t, vector, c),
        0 <= k < 5,
        forall|j: int| 0 <= j < k ==> #[trigger] a[j] == c[j],
    ensures
        !spec_neighbor_better(a[k], c[k]),
{
    if spec_neighbor_better(a[k], c[k]) {
        assert(neighbor_ok(t, vector, a[k]));
        assert(a[k] != no_neighbor());
        let r = a[k].index as int;
        assert(record_neighbor(t, vector, r) == a[k]);
        assert(settled(t, vector, c, r));
        if c.contains(a[k]) {
            let m = choose|m: int| 0 <= m < 5 && c[m] == a[k];
            if m < k {
                assert(a[m] == c[m]);
                assert(a[m] != no_neighbor());
                assert(a[m].index != a[k].index);
            } else if m > k {
                assert(!spec_neighbor_better(c[m], c[k]));
            }
        } else {
            assert(!spec_neighbor_better(c[4], c[k]) || k == 4);
        }
    }
}

/// A search's final top list is fixed: two lists meeting `nearest_five` are
/// the same, so they hold the five nearest records by distance and then index.
pub proof fn lemma_nearest_five_unique(t: KdTree, vector: Seq<i16>, a: Seq<Neighbor>, c: Seq<Neighbor>)
    requires
        t.records < 0xffff_ffff,
        nearest_five(t, vector, a),
        nearest_five(t, vector, c),
    ensures
        a == c,
{
    lemma_prefix_same(t, vector, a, c, 5);
    assert(a =~= c);
}

proof fn lemma_prefix_same(t: KdTree, vector: Seq<i16>, a: Seq<Neighbor>, c: Seq<Neighbor>, k: int)
    requires
        t.records < 0xffff_ffff,
        nearest_five(t, vector, a),
        nearest_five(t, vector, c),
        0 <= k <= 5,
    ensures
        forall|j: int| 0 <= j < k ==> #[trigger] a[j] == c[j],
    decreases k,
{
    if k > 0 {
        lemma_prefix_same(t, vector, a, c, k - 1);
        lemma_not_before(t, vector, a, c, k - 1);
        lemma_not_before(t, vector, c, a, k - 1);
        assert(neighbor_ok(t, vector, a[k - 1]) && neighbor_ok(t, vector, c[k - 1]));
        assert(a[k - 1] == c[k - 1]);
    }
}

/// A fraud count the search of `t` can give for `vector`: the frauds among
/// the five slots of a top list it keeps, which in a valid tree are the five
/// nearest records.
pub open spec fn kd_score_ok(t: KdTree, vector: Seq<i16>, count: int) -> bool {
    exists|top: Seq<Neighbor>|
        #[trigger] top_ok(t, vector, top) && count == frauds_among(top, 5) && (tree_valid(t) && t.records
            < 0xffff_ffff ==> nearest_five(t, vector, top))
}

/// On a valid tree the fraud count of the search is fixed: the frauds among
/// the five nearest records.
pub proof fn lemma_kd_score_fixed(t: KdTree, vector: Seq<i16>, c1: int, c2: int)
    requires
        tree_valid(t),
        t.records < 0xffff_ffff,
        kd_score_ok(t, vector, c1),
        kd_score_ok(t, vector, c2),
    ensures
        c1 == c2,
{
    let a = choose|top: Seq<Neighbor>|
        #[trigger] top_ok(t, vector, top) && c1 == frauds_among(top, 5) && (tree_valid(t) && t.records
            < 0xffff_ffff ==> nearest_five(t, vector, top));
    let c = choose|top: Seq<Neighbor>|
        #[trigger] top_ok(t, vector, top) && c2 == frauds_among(top, 5) && (tree_valid(t) && t.records
            < 0xffff_ffff ==> nearest_five(t, vector, top));
    lemma_nearest_five_unique(t, vector, a, c);
}

impl<'a> KdTree<'a> {
    /// How many of the 5 nearest records found carry label 1; the score is that count over 5.
    pub fn score(&self, vector: &ReferenceVector) -> (r: usize)
        requires
            self.wf(),
        ensures
            r <= 5,
            r == frauds_among(spec_top5(*self, vector@), 5),
            kd_score_ok(*self, vector@, r as int),
    {
        let top = self.top5(vector);
        let mut count: usize = 0;
        let mut i: usize = 0;
        while i < 5
            invariant
                i <= 5,
                count == frauds_among(top@, i as int),
                count <= i,
            decreases 5 - i,
        {
            if top[i].label == 1 {
                count = count + 1;
            }
            i = i + 1;
        }
        count
    }

    /// Offers records `start..end` to the top list, in order.
    fn scan_leaf(&self, vector: &ReferenceVector, top: &mut [Neighbor; 5], start: usize, end: usize)
        requires
            self.wf(),
            end <= self.records,
            top_ok(*self, vector@, old(top)@),
        ensures
            final(top)@ == scan_from(*self, vector@, old(top)@, start as int, end as int),
            top_ok(*self, vector@, final(top)@),
            forall|i: int| #[trigger] settled(*self, vector@, old(top)@, i) ==> settled(*self, vector@, final(top)@, i),
            self.records < 0xffff_ffff ==> forall|i: int| start <= i < end ==> #[trigger] settled(*self, vector@, final(top)@, i),
            forall|k: int|
                0 <= k < 5 && #[trigger] final(top)@[k] != no_neighbor() ==> old(top)@.contains(final(top)@[k]) || start
                    <= final(top)@[k].index < end,
            top_distinct(old(top)@) && (forall|k: int|
                0 <= k < 5 && #[trigger] old(top)@[k] != no_neighbor() ==> !(start <= old(top)@[k].index < end))
                ==> top_distinct(final(top)@),
    {
        let ghost fresh = top_distinct(old(top)@) && (forall|k: int|
            0 <= k < 5 && #[trigger] old(top)@[k] != no_neighbor() ==> !(start <= old(top)@[k].index < end));
        let mut record_index: usize = start;
        while record_index < end
            invariant
                self.wf(),
                end <= self.records,
                start <= record_index,
                record_index <= end || record_index == start,
                top_ok(*self, vector@, top@),
                forall|i: int| #[trigger] settled(*self, vector@, old(top)@, i) ==> settled(*self, vector@, top@, i),
                self.records < 0xffff_ffff ==> forall|i: int| start <= i < record_index ==> #[trigger] settled(*self, vector@, top@, i),
                forall|k: int|
                    0 <= k < 5 && #[trigger] top@[k] != no_neighbor() ==> old(top)@.contains(top@[k]) || start
                        <= top@[k].index < record_index,
                fresh == (top_distinct(old(top)@) && (forall|k: int|
                    0 <= k < 5 && #[trigger] old(top)@[k] != no_neighbor() ==> !(start <= old(top)@[k].index < end))),
                fresh ==> top_distinct(top@),
                scan_from(*self, vector@, top@, record_index as int, end as int) == scan_from(
                    *self,
                    vector@,
                    old(top)@,
                    start as int,
                    end as int,
                ),
            decreases end - record_index,
        {
            let ghost before = top@;
            if record_index < 0xffff_ffff {
                let candidate = self.vector_at(record_index);
                proof {
                    lemma_partial_sq_bounds(vector@, candidate@, 16);
                    lemma_partial_sq_monotone(vector@, candidate@, 8, 16);
                }
                match l2_distance_with_first_8_exit(vector, &candidate, top[4].distance) {
                    Some(distance) => {
                        let neighbor = Neighbor {
                            distance,
                            index: record_index as u32,
                            label: self.label_at(record_index),
                        };
                        insert_neighbor(top, neighbor);
                        proof {
                            lemma_insert_keeps_top(*self, vector@, before, top@, neighbor);
                            assert(neighbor.index == record_index);
                            if spec_neighbor_better(neighbor, before[4]) {
                                let o = choose|o: int|
                                    0 <= o < 5 && top@ == before.subrange(0, o).push(neighbor) + before.subrange(o, 4)
                                        && (o == 0 || !spec_neighbor_better(neighbor, before[o - 1])) && (forall|k: int|
                                        o <= k < 4 ==> spec_neighbor_better(neighbor, #[trigger] before[k]));
                                if fresh {
                                    assert forall|k: int| 0 <= k < 5 && before[k] != no_neighbor() implies #[trigger] before[k].index
                                        != neighbor.index by {
                                        if old(top)@.contains(before[k]) {
                                            let j = choose|j: int| 0 <= j < 5 && old(top)@[j] == before[k];
                                            assert(old(top)@[j] != no_neighbor());
                                            assert(!(start <= old(top)@[j].index < end));
                                        }
                                    }
                                    lemma_insert_distinct(before, top@, neighbor, o);
                                }
                                lemma_insert_members(before, top@, neighbor, o);
                                assert forall|k: int|
                                    0 <= k < 5 && #[trigger] top@[k] != no_neighbor() implies old(top)@.contains(top@[k]) || start
                                        <= top@[k].index < record_index + 1 by {
                                    if top@[k] != neighbor {
                                        let j = choose|j: int| 0 <= j < 5 && before[j] == top@[k];
                                        assert(before[j] != no_neighbor());
                                    }
                                }
                            }
                            assert(neighbor == record_neighbor(*self, vector@, record_index as int));
                            assert forall|i: int| #[trigger] settled(*self, vector@, before, i) implies settled(
                                *self,
                                vector@,
                                top@,
                                i,
                            ) by {
                                lemma_settled_kept(*self, vector@, before, top@, neighbor, i);
                            }
                            if spec_neighbor_better(neighbor, before[4]) {
                                let o = choose|o: int|
                                    0 <= o < 5 && top@ == before.subrange(0, o).push(neighbor) + before.subrange(o, 4)
                                        && (o == 0 || !spec_neighbor_better(neighbor, before[o - 1])) && (forall|k: int|
                                        o <= k < 4 ==> spec_neighbor_better(neighbor, #[trigger] before[k]));
                                assert(top@[o] == neighbor);
                                assert(top@.contains(neighbor));
                            }
                            assert(settled(*self, vector@, top@, record_index as int));
                        }
                    },
                    None => {
                        assert(settled(*self, vector@, top@, record_index as int));
                    },
                }
                proof {
                    if self.records < 0xffff_ffff {
                        assert forall|i: int| start <= i < record_index + 1 implies #[trigger] settled(
                            *self,
                            vector@,
                            top@,
                            i,
                        ) by {
                            if i < record_index {
                                assert(settled(*self, vector@, before, i));
                            }
                        }
                    }
                }
            }
            record_index = record_index + 1;
        }
    }

    /// Pushes the children of inner node `node_index` whose boxes lie no
    /// farther than `worst`, the nearer last; a child that does not come after
    /// its parent in the file is skipped.
    fn push_children(
        &self,
        vector: &ReferenceVector,
        stack: &mut Vec<usize>,
        node: KdNode,
        node_index: usize,
        worst: u64,
    )
        requires
            self.wf(),
            node_index < self.nodes,
            node_matches(self.bytes@, node_index as int, node),
            forall|k: int| 0 <= k < old(stack)@.len() ==> #[trigger] old(stack)@[k] < self.nodes,
        ensures
            forall|k: int| 0 <= k < final(stack)@.len() ==> #[trigger] final(stack)@[k] < self.nodes,
            final(stack)@.len() >= old(stack)@.len(),
            forall|k: int| 0 <= k < old(stack)@.len() ==> #[trigger] final(stack)@[k] == old(stack)@[k],
            final(stack)@ == spec_push_children(*self, vector@, old(stack)@, node_index as int, worst as int),
            final(stack)@.len() <= old(stack)@.len() + 2,
            final(stack)@.len() == old(stack)@.len() + 2 ==> (final(stack)@[old(stack)@.len() as int] == node.left as usize
                && final(stack)@[old(stack)@.len() + 1int] == node.right as usize) || (final(stack)@[old(stack)@.len() as int]
                == node.right as usize && final(stack)@[old(stack)@.len() + 1int] == node.left as usize),
            forall|k: int|
                old(stack)@.len() <= k < final(stack)@.len() ==> #[trigger] final(stack)@[k] == node.left as usize
                    || final(stack)@[k] == node.right as usize,
            stack_weight(final(stack)@, self.nodes as int) < stack_weight(old(stack)@, self.nodes as int) + pow3(
                (self.nodes - node_index) as nat,
            ),
            tree_valid(*self) && node.left != NO_CHILD ==> forall|i: int|
                #![trigger self.record_vector(i)]
                in_range(self.bytes@, node_index as int, i) ==> pending(self.bytes@, final(stack)@, i)
                    || squared_distance(vector@, self.record_vector(i)) > worst,
    {
        let ghost b = self.bytes@;
        let left = node.left as usize;
        let right = node.right as usize;
        let left_node_ok = node_index < left && left < self.nodes;
        let right_node_ok = node_index < right && right < self.nodes;
        let left_bound = if left_node_ok {
            lower_bound_l2(vector, &self.node_at(left))
        } else {
            u64::MAX
        };
        let right_bound = if right_node_ok {
            lower_bound_l2(vector, &self.node_at(right))
        } else {
            u64::MAX
        };
        let ghost unit = pow3((self.nodes - node_index - 1) as nat);
        proof {
            lemma_pow3_monotone((self.nodes - node_index - 1) as nat, (self.nodes - node_index - 1) as nat);
            assert(pow3((self.nodes - node_index) as nat) == 3 * unit);
            if left_node_ok {
                lemma_pow3_monotone((self.nodes - left) as nat, (self.nodes - node_index - 1) as nat);
            }
            if right_node_ok {
                lemma_pow3_monotone((self.nodes - right) as nat, (self.nodes - node_index - 1) as nat);
            }
        }
        let ghost start = stack@;
        let push_left = left_node_ok && left_bound <= worst;
        let push_right = right_node_ok && right_bound <= worst;
        if left_bound <= right_bound {
            if push_right {
                stack.push(right);
            }
            if push_left {
                stack.push(left);
            }
        } else {
            if push_left {
                stack.push(left);
            }
            if push_right {
                stack.push(right);
            }
        }
        proof {
            let n = self.nodes as int;
            if push_left && push_right {
                let first = if left_bound <= right_bound { right } else { left };
                let second = if left_bound <= right_bound { left } else { right };
                assert(stack@ == start.push(first).push(second));
                lemma_weight_push(start, first, n);
                lemma_weight_push(start.push(first), second, n);
                assert(stack@[start.len() as int] == first && stack@[start.len() + 1int] == second);
            } else if push_left {
                assert(stack@ == start.push(left));
                lemma_weight_push(start, left, n);
                assert(stack@[start.len() as int] == left);
            } else if push_right {
                assert(stack@ == start.push(right));
                lemma_weight_push(start, right, n);
                assert(stack@[start.len() as int] == right);
            } else {
                assert(stack@ == start);
            }
            assert(stack_weight(stack@, n) <= stack_weight(start, n) + 2 * unit);
            assert(push_left ==> stack@.contains(left));
            assert(push_right ==> stack@.contains(right));
            if tree_valid(*self) && node.left != NO_CHILD {
                assert(node_valid(*self, node_index as int));
                assert forall|i: int| #![trigger self.record_vector(i)]
                    in_range(b, node_index as int, i) implies pending(b, stack@, i)
                        || squared_distance(vector@, self.record_vector(i)) > worst by {
                    let child = if in_range(b, left as int, i) { left } else { right };
                    assert(in_range(b, child as int, i));
                    if (child == left && push_left) || (child == right && push_right) {
                        let k = choose|k: int| 0 <= k < stack@.len() && stack@[k] == child;
                        assert(in_range(b, stack@[k] as int, i));
                    } else {
                        assert(node_valid(*self, child as int));
                        assert(within(stored_min(b, child as int), stored_max(b, child as int), self.record_vector(i)));
                        lemma_gap_below_distance(
                            vector@,
                            stored_min(b, child as int),
                            stored_max(b, child as int),
                            self.record_vector(i),
                            16,
                        );
                    }
                }
            }
        }
    }

    /// The 5 nearest records reached by a depth-first walk that skips every box
    /// lying farther than the current fifth nearest; empty slots are `no_neighbor()`.
    /// A child is entered only when it comes after its parent in the file, and
    /// links to nodes or records outside the file are skipped; in a valid tree
    /// (every file `KdTreeBuilder` writes) nothing is skipped and the result is
    /// the 5 nearest records, by distance and then index.
    pub fn top5(&self, vector: &ReferenceVector) -> (r: [Neighbor; 5])
        requires
            self.wf(),
        ensures
            top_ok(*self, vector@, r@),
            tree_valid(*self) && self.records < 0xffff_ffff ==> nearest_five(*self, vector@, r@),
            r@ == spec_top5(*self, vector@),
    {
        let ghost b = self.bytes@;
        let ghost valid = tree_valid(*self) && self.records < 0xffff_ffff;
        let empty = Neighbor { distance: u64::MAX, index: u32::MAX, label: 0 };
        let mut top: [Neighbor; 5] = [empty; 5];
        assert(top_ok(*self, vector@, top@));
        assert(top@ =~= empty_top());
        if self.nodes == 0 {
            return top;
        }
        let mut stack: Vec<usize> = Vec::new();
        stack.push(0);
        assert(stack@ =~= seq![0usize]);
        let ghost mut fuel: nat = (stack_weight(seq![0usize], self.nodes as int) + 1) as nat;
        let ghost target = walk(*self, vector@, (stack@, top@), fuel);
        proof {
            if valid {
                assert forall|i: int| 0 <= i < self.records implies #[trigger] pending(b, stack@, i) by {
                    assert(in_range(b, stack@[0] as int, i));
                }
            }
        }
        while stack.len() > 0
            invariant
                self.wf(),
                b == self.bytes@,
                valid == (tree_valid(*self) && self.records < 0xffff_ffff),
                forall|k: int| 0 <= k < stack@.len() ==> #[trigger] stack@[k] < self.nodes,
                top_ok(*self, vector@, top@),
                valid ==> forall|i: int|
                    0 <= i < self.records ==> pending(b, stack@, i) || #[trigger] settled(*self, vector@, top@, i),
                valid ==> stack_apart(b, stack@),
                valid ==> top_off_stack(b, stack@, top@),
                valid ==> top_distinct(top@),
                fuel > stack_weight(stack@, self.nodes as int),
                walk(*self, vector@, (stack@, top@), fuel) == target,
            decreases stack_weight(stack@, self.nodes as int),
        {
            let ghost before_pop = stack@;
            let ghost cur = (stack@, top@);
            let ghost next = walk_step(*self, vector@, cur);
            let node_index = stack.pop().unwrap();
            let ghost rest = stack@;
            proof {
                assert(rest == before_pop.drop_last());
                assert(node_index == before_pop.last());
                lemma_pop_weight(before_pop, self.nodes as int);
                lemma_stack_weight_nonneg(rest, self.nodes as int);
                if valid {
                    lemma_pop_pending(b, before_pop);
                    lemma_pop_apart(b, before_pop, top@);
                }
            }
            let node = self.node_at(node_index);
            let bound = lower_bound_l2(vector, &node);
            if bound > top[4].distance {
                proof {
                    if valid {
                        assert forall|i: int| 0 <= i < self.records implies pending(b, rest, i) || #[trigger] settled(
                            *self,
                            vector@,
                            top@,
                            i,
                        ) by {
                            if in_range(b, node_index as int, i) {
                                lemma_pruned(*self, vector@, top@, node_index as int, node, i);
                            }
                        }
                    }
                    assert((stack@, top@) == next);
                    fuel = (fuel - 1) as nat;
                }
                continue;
            }
            if node.left == NO_CHILD {
                let end64: u64 = node.start as u64 + node.len as u64;
                let end: usize = if end64 < self.records as u64 {
                    end64 as usize
                } else {
                    self.records
                };
                let ghost before = top@;
                proof {
                    if valid {
                        assert forall|k: int| 0 <= k < 5 && #[trigger] before[k] != no_neighbor() implies !(node.start
                            <= before[k].index < end) by {
                            assert(!in_range(b, node_index as int, before[k].index as int));
                        }
                    }
                }
                self.scan_leaf(vector, &mut top, node.start as usize, end);
                proof {
                    if valid {
                        assert forall|k: int| 0 <= k < 5 && #[trigger] top@[k] != no_neighbor() implies !pending(
                            b,
                            rest,
                            top@[k].index as int,
                        ) by {
                            if before.contains(top@[k]) {
                                let j = choose|j: int| 0 <= j < 5 && before[j] == top@[k];
                                assert(before[j] != no_neighbor());
                            } else {
                                assert(in_range(b, node_index as int, top@[k].index as int));
                                if pending(b, rest, top@[k].index as int) {
                                    let q = choose|q: int| 0 <= q < rest.len() && in_range(b, rest[q] as int, top@[k].index as int);
                                    assert(ranges_apart(b, before_pop.last() as int, before_pop[q] as int));
                                    assert(before_pop[q] == rest[q]);
                                }
                            }
                        }
                        assert(node_valid(*self, node_index as int));
                        assert forall|i: int| 0 <= i < self.records implies pending(b, rest, i) || #[trigger] settled(
                            *self,
                            vector@,
                            top@,
                            i,
                        ) by {
                            if settled(*self, vector@, before, i) {
                            } else if in_range(b, node_index as int, i) {
                                assert(node.start <= i < end);
                            }
                        }
                    }
                    assert((stack@, top@) == next);
                    fuel = (fuel - 1) as nat;
                }
                continue;
            }
            let worst = top[4].distance;
            self.push_children(vector, &mut stack, node, node_index, worst);
            proof {
                lemma_stack_weight_nonneg(stack@, self.nodes as int);
                if valid {
                    assert(node_valid(*self, node_index as int));
                    let x = node_index as int;
                    assert(stored_left(b, x) == node.left && stored_right(b, x) == node.right);
                    assert forall|k: int| rest.len() <= k < stack@.len() implies range_inside(b, #[trigger] stack@[k] as int, x) by {}
                    assert forall|p: int, q: int| rest.len() <= p < q < stack@.len() implies ranges_apart(
                        b,
                        #[trigger] stack@[p] as int,
                        #[trigger] stack@[q] as int,
                    ) by {
                        assert(p == rest.len() && q == rest.len() + 1);
                    }
                    assert forall|q: int| 0 <= q < rest.len() implies ranges_apart(b, x, #[trigger] rest[q] as int) by {
                        assert(before_pop[q] == rest[q]);
                    }
                    lemma_push_apart(b, rest, x, stack@, top@);
                    assert forall|i: int| 0 <= i < self.records implies pending(b, stack@, i) || #[trigger] settled(
                        *self,
                        vector@,
                        top@,
                        i,
                    ) by {
                        if pending(b, rest, i) {
                            let k = choose|k: int| 0 <= k < rest.len() && in_range(b, rest[k] as int, i);
                            assert(stack@[k] == rest[k]);
                        } else if in_range(b, node_index as int, i) && !pending(b, stack@, i) {
                            lemma_partial_sq_bounds(vector@, self.record_vector(i), 16);
                        }
                    }
                }
                assert((stack@, top@) == next);
                fuel = (fuel - 1) as nat;
            }
        }
        top
    }
}

/// How many of the first `n` slots carry label 1.
pub open spec fn frauds_among(top: Seq<Neighbor>, n: int) -> int
    decreases n,
{
    if n <= 0 { 0 } else { frauds_among(top, n - 1) + if top[n - 1].label == 1 { 1int } else { 0int } }
}

proof fn lemma_insert_keeps_top(t: KdTree, vector: Seq<i16>, before: Seq<Neighbor>, after: Seq<Neighbor>, n: Neighbor)
    requires
        top_ok(t, vector, before),
        neighbor_ok(t, vector, n),
        n != no_neighbor(),
        !spec_neighbor_better(n, before[4]) ==> after == before,
        spec_neighbor_better(n, before[4]) ==> exists|o: int|
            0 <= o < 5 && after == before.subrange(0, o).push(n) + before.subrange(o, 4) && (o == 0
                || !spec_neighbor_better(n, before[o - 1])) && (forall|k: int|
                o <= k < 4 ==> spec_neighbor_better(n, #[trigger] before[k])),
    ensures
        top_ok(t, vector, after),
{
    if spec_neighbor_better(n, before[4]) {
        let o = choose|o: int|
            0 <= o < 5 && after == before.subrange(0, o).push(n) + before.subrange(o, 4) && (o == 0
                || !spec_neighbor_better(n, before[o - 1])) && (forall|k: int|
                o <= k < 4 ==> spec_neighbor_better(n, #[trigger] before[k]));
        assert forall|k: int| 0 <= k < 5 implies #[trigger] neighbor_ok(t, vector, after[k]) by {
            if k < o {
                assert(after[k] == before[k]);
            } else if k > o {
                assert(after[k] == before[k - 1]);
            }
        }
        assert forall|a: int, c: int| 0 <= a < c < 5 implies !spec_neighbor_better(after[c], after[a]) by {
            if c < o {
                assert(after[a] == before[a] && after[c] == before[c]);
            } else if c == o {
                assert(after[a] == before[a]);
                if a < o - 1 {
                    assert(!spec_neighbor_better(before[o - 1], before[a]));
                }
            } else if a < o {
                assert(after[a] == before[a] && after[c] == before[c - 1]);
            } else if a == o {
                assert(after[c] == before[c - 1]);
                assert(spec_neighbor_better(n, before[c - 1]));
            } else {
                assert(after[a] == before[a - 1] && after[c] == before[c - 1]);
            }
        }
    }
}

/// Squared distance, `None` once the first 8 dimensions alone exceed `worst`.
pub fn l2_distance_with_first_8_exit(left: &ReferenceVector, right: &ReferenceVector, worst: u64) -> (r: Option<u64>)
    ensures
        partial_sq(left@, right@, 8) > worst ==> r is None,
        partial_sq(left@, right@, 8) <= worst ==> r == Some(squared_distance(left@, right@) as u64),
{
    proof {
        lemma_partial_sq_bounds(left@, right@, 16);
    }
    let first = crate::distance::add_squares(left, right, 0, 0, 8);
    if first > worst {
        return None;
    }
    Some(crate::distance::add_squares(left, right, first, 8, 16))
}


/// Pushing a node adds its weight.
proof fn lemma_weight_push(s: Seq<usize>, c: usize, n: int)
    ensures
        stack_weight(s.push(c), n) == stack_weight(s, n) + pow3((n - c) as nat),
{
    assert(s.push(c).drop_last() == s);
}

/// Popping a node lightens the stack by the node's weight, which is positive.
proof fn lemma_pop_weight(s: Seq<usize>, n: int)
    requires
        s.len() > 0,
        s.last() < n,
    ensures
        stack_weight(s.drop_last(), n) < stack_weight(s, n),
        stack_weight(s.drop_last(), n) + pow3((n - s.last()) as nat) == stack_weight(s, n),
{
    lemma_pow3_monotone(0, (n - s.last()) as nat);
}

/// A record pending on a stack is pending on what is left after a pop, or
/// covered by the node popped.
proof fn lemma_pop_pending(b: Seq<u8>, s: Seq<usize>)
    requires
        s.len() > 0,
    ensures
        forall|i: int| #[trigger] pending(b, s, i) ==> pending(b, s.drop_last(), i) || in_range(b, s.last() as int, i),
{
    assert forall|i: int| #[trigger] pending(b, s, i) implies pending(b, s.drop_last(), i) || in_range(
        b,
        s.last() as int,
        i,
    ) by {
        let k = choose|k: int| 0 <= k < s.len() && in_range(b, s[k] as int, i);
        if k < s.len() - 1 {
            assert(s.drop_last()[k] == s[k]);
        }
    }
}

/// A record a valid node covers is settled once the node's box lies farther
/// than the last slot.
proof fn lemma_pruned(t: KdTree, vector: Seq<i16>, top: Seq<Neighbor>, node_index: int, node: KdNode, i: int)
    requires
        0 <= node_index < t.nodes,
        node_valid(t, node_index),
        node_matches(t.bytes@, node_index, node),
        spec_lower_bound_l2(vector, node) > top[4].distance,
        in_range(t.bytes@, node_index, i),
    ensures
        settled(t, vector, top, i),
{
    let b = t.bytes@;
    assert(node.min@ =~= stored_min(b, node_index));
    assert(node.max@ =~= stored_max(b, node_index));
    lemma_gap_below_distance(vector, node.min@, node.max@, t.record_vector(i), 16);
    lemma_partial_sq_bounds(vector, t.record_vector(i), 16);
}

/// The file `KdTreeBuilder` writes for a tree it built over `entries` holds a
/// valid tree, so `KdTree::top5` over it finds the 5 nearest records.
pub proof fn lemma_built_tree_valid(
    entries: Seq<MortonEntry>,
    nodes: Seq<KdNode>,
    indices: Seq<u32>,
    records: Seq<KdRecord>,
    t: KdTree,
)
    requires
        indices.len() == entries.len(),
        records.len() == entries.len(),
        forall|i: int|
            0 <= i < records.len() ==> #[trigger] records[i].vector == entries[indices[i] as int].vector,
        entries.len() == 0 ==> nodes.len() == 0,
        entries.len() > 0 ==> nodes.len() >= 1 && nodes[0].start == 0 && nodes[0].len == entries.len(),
        forall|k: int| 0 <= k < nodes.len() ==> #[trigger] node_ok(nodes, k, indices, entries),
        28 + 80 * nodes.len() + 33 * records.len() <= usize::MAX,
        t.wf(),
        t.bytes@ == spec_kd_file(nodes, records),
        t.nodes == nodes.len(),
        t.records == records.len(),
    ensures
        tree_valid(t),
{
    let b = t.bytes@;
    lemma_kd_file_roundtrip(nodes, records);
    assert forall|i: int| 0 <= i < records.len() implies #[trigger] t.record_vector(i) == entries[indices[i] as int].vector@ by {
        assert(kd_record_vector(b, nodes.len() as int, i) == records[i].vector@);
        assert(t.record_vector(i) =~= kd_record_vector(b, nodes.len() as int, i));
    }
    assert forall|k: int| 0 <= k < t.nodes implies #[trigger] node_valid(t, k) by {
        let node = nodes[k];
        assert(node_matches(b, k, node));
        assert(node_ok(nodes, k, indices, entries));
        assert(stored_min(b, k) =~= node.min@);
        assert(stored_max(b, k) =~= node.max@);
        assert forall|r: int| #![trigger t.record_vector(r)] in_range(b, k, r) implies within(
            stored_min(b, k),
            stored_max(b, k),
            t.record_vector(r),
        ) by {
            assert(in_box(node, entries[indices[r] as int].vector@));
        }
        if stored_left(b, k) != NO_CHILD {
            assert(node.len > LEAF_SIZE);
            assert(node_matches(b, node.left as int, nodes[node.left as int]));
            assert(node_matches(b, node.right as int, nodes[node.right as int]));
        }
    }
    if t.nodes > 0 {
        assert(node_matches(b, 0, nodes[0]));
    }
}

} // verus!
