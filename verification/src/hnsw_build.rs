//! Building the HNSW graph: references are inserted one by one, each at a
//! level drawn from a fixed xorshift stream, and linked to the neighbours a
//! layered search finds for it.
use vstd::prelude::*;

use vstd::relations::{sorted_by, total_ordering};

use crate::ReferenceVector;
use crate::bytes::u32_at;
use crate::hnsw::{HnswLayout, HnswLayoutError, hnsw_expected_len, hnsw_layout_for, spec_read_layout};
use crate::hnsw_file::{edges_before, encode_hnsw_file, lemma_hnsw_file_roundtrip, lists_view, spec_hnsw_file};
use crate::reference::ReferenceDataset;
use crate::distance::{distance2_limited, lemma_partial_sq_bounds, squared_distance};
use crate::hnsw::{EMPTY_NEIGHBOR, HNSW_EF_CONSTRUCTION, HNSW_M, HNSW_UPPER_M};
use crate::hnsw::{BeamState, beam_fuel, in_order, lemma_in_order, lemma_min_slot, min_slot, without_min, worst_of};
use crate::nearest::{
    NearestCandidate, TopNearest, distinct_indices, key_le, lemma_last_max_slot, sorted_by_key, spec_add,
};

verus! {

/// A neighbour slot that is empty or names one of the first `count` nodes.
pub open spec fn valid_neighbor(v: u32, count: int) -> bool {
    v == EMPTY_NEIGHBOR || v < count
}

/// The node indices a list of slots names, in slot order, empty slots skipped.
pub open spec fn present(slots: Seq<u32>) -> Seq<usize>
    decreases slots.len(),
{
    if slots.len() == 0 {
        Seq::empty()
    } else if slots.last() == EMPTY_NEIGHBOR {
        present(slots.drop_last())
    } else {
        present(slots.drop_last()).push(slots.last() as usize)
    }
}

/// How many of `visited` differ from `mark`.
pub open spec fn unvisited(visited: Seq<u32>, mark: u32) -> int
    decreases visited.len(),
{
    if visited.len() == 0 {
        0
    } else {
        unvisited(visited.drop_last(), mark) + if visited.last() != mark { 1int } else { 0int }
    }
}

proof fn lemma_unvisited_nonneg(visited: Seq<u32>, mark: u32)
    ensures
        0 <= unvisited(visited, mark),
    decreases visited.len(),
{
    if visited.len() > 0 {
        lemma_unvisited_nonneg(visited.drop_last(), mark);
    }
}

/// Marking an unmarked slot leaves one fewer unmarked.
proof fn lemma_unvisited_mark(visited: Seq<u32>, mark: u32, i: int)
    requires
        0 <= i < visited.len(),
        visited[i] != mark,
    ensures
        unvisited(visited.update(i, mark), mark) == unvisited(visited, mark) - 1,
    decreases visited.len(),
{
    let after = visited.update(i, mark);
    if i == visited.len() - 1 {
        assert(after.drop_last() =~= visited.drop_last());
    } else {
        assert(after.drop_last() =~= visited.drop_last().update(i, mark));
        lemma_unvisited_mark(visited.drop_last(), mark, i);
    }
}

proof fn lemma_present_bounds(slots: Seq<u32>, count: int)
    requires
        forall|s: int| 0 <= s < slots.len() ==> #[trigger] valid_neighbor(slots[s], count),
    ensures
        present(slots).len() <= slots.len(),
        forall|k: int| 0 <= k < present(slots).len() ==> #[trigger] present(slots)[k] < count,
        forall|k: int|
            0 <= k < present(slots).len() ==> exists|s: int|
                0 <= s < slots.len() && slots[s] != EMPTY_NEIGHBOR && #[trigger] present(slots)[k] == slots[s] as usize,
    decreases slots.len(),
{
    if slots.len() > 0 {
        let rest = slots.drop_last();
        assert forall|s: int| 0 <= s < rest.len() implies #[trigger] valid_neighbor(rest[s], count) by {
            assert(valid_neighbor(slots[s], count));
        }
        lemma_present_bounds(rest, count);
        assert(valid_neighbor(slots[slots.len() - 1], count));
        assert forall|k: int| 0 <= k < present(slots).len() implies exists|s: int|
            0 <= s < slots.len() && slots[s] != EMPTY_NEIGHBOR && #[trigger] present(slots)[k] == slots[s] as usize by {
            if k < present(rest).len() {
                let s = choose|s: int|
                    0 <= s < rest.len() && rest[s] != EMPTY_NEIGHBOR && #[trigger] present(rest)[k] == rest[s] as usize;
                assert(slots[s] == rest[s]);
            } else {
                assert(slots[slots.len() - 1] != EMPTY_NEIGHBOR);
                assert(present(slots) == present(rest).push(slots[slots.len() - 1] as usize));
                assert(present(slots)[k] == slots[slots.len() - 1] as usize);
            }
        }
    }
}

/// A search result: an inserted node reaching `level`, at its exact squared
/// distance from the query.
pub open spec fn found(
    levels: Seq<u8>,
    vectors: Seq<ReferenceVector>,
    vector: Seq<i16>,
    level: int,
    c: NearestCandidate,
) -> bool {
    &&& c.index < levels.len()
    &&& levels[c.index as int] >= level
    &&& c.distance == squared_distance(vector, vectors[c.index as int]@)
}

/// Adding a search result to a bounded set keeps every member a search
/// result, and never makes the set smaller.
proof fn lemma_add_found(
    s: Seq<NearestCandidate>,
    capacity: int,
    c: NearestCandidate,
    levels: Seq<u8>,
    vectors: Seq<ReferenceVector>,
    vector: Seq<i16>,
    level: int,
)
    requires
        forall|k: int| 0 <= k < s.len() ==> #[trigger] found(levels, vectors, vector, level, s[k]),
        found(levels, vectors, vector, level, c),
    ensures
        forall|k: int|
            0 <= k < spec_add(s, capacity, c).len() ==> #[trigger] found(levels, vectors, vector, level, spec_add(s, capacity, c)[k]),
        spec_add(s, capacity, c).len() >= s.len(),
{
    if s.len() > 0 {
        lemma_last_max_slot(s);
    }
}

/// Takes out the candidate with the smallest distance (the smallest index
/// among equals).
fn pop_nearest(candidates: &mut Vec<NearestCandidate>) -> (r: NearestCandidate)
    requires
        old(candidates)@.len() > 0,
    ensures
        exists|k: int|
            0 <= k < old(candidates)@.len() && #[trigger] old(candidates)@[k] == r && final(candidates)@
                == old(candidates)@.update(k, old(candidates)@.last()).drop_last(),
        forall|k: int| 0 <= k < old(candidates)@.len() ==> key_le(r, #[trigger] old(candidates)@[k]),
        r == old(candidates)@[min_slot(old(candidates)@)],
        final(candidates)@ == without_min(old(candidates)@),
{
    let mut best: usize = 0;
    let mut k: usize = 1;
    while k < candidates.len()
        invariant
            candidates@ == old(candidates)@,
            best < candidates@.len(),
            1 <= k <= candidates@.len(),
            forall|j: int| 0 <= j < k ==> key_le(candidates@[best as int], #[trigger] candidates@[j]),
            best == min_slot(candidates@.subrange(0, k as int)),
        decreases candidates@.len() - k,
    {
        proof {
            let t = candidates@.subrange(0, k + 1);
            assert(t.drop_last() =~= candidates@.subrange(0, k as int));
            lemma_min_slot(candidates@.subrange(0, k as int));
        }
        let c = candidates[k];
        let b = candidates[best];
        if c.distance < b.distance || (c.distance == b.distance && c.index < b.index) {
            best = k;
        }
        k = k + 1;
    }
    assert(candidates@.subrange(0, candidates@.len() as int) =~= candidates@);
    candidates.swap_remove(best)
}

/// The squared distance from `vector` to reference `i`.
pub open spec fn vector_distance(vectors: Seq<ReferenceVector>, vector: Seq<i16>, i: int) -> int {
    squared_distance(vector, vectors[i]@)
}

/// A build search's state after offering the first `i` of `neighbors` (see
/// `hnsw::expand`; distances to `vectors`).
pub open spec fn build_expand(
    vectors: Seq<ReferenceVector>,
    vector: Seq<i16>,
    capacity: int,
    st: BeamState,
    neighbors: Seq<usize>,
    i: int,
) -> BeamState
    decreases i,
{
    if i <= 0 {
        st
    } else {
        let s = build_expand(vectors, vector, capacity, st, neighbors, i - 1);
        let neighbor = neighbors[i - 1];
        if s.0.contains(neighbor) {
            s
        } else {
            let limit = worst_of(s.2, capacity);
            let d = vector_distance(vectors, vector, neighbor as int);
            if limit == u64::MAX || d < limit {
                let found = NearestCandidate { index: neighbor, distance: d as u64 };
                (s.0.push(neighbor), s.1.push(found), spec_add(s.2, capacity, found))
            } else {
                (s.0.push(neighbor), s.1, s.2)
            }
        }
    }
}

/// The links of a graph as plain values: each node's level, its level-0
/// slots and its upper slots.
pub type GraphLinks = (Seq<u8>, Seq<Seq<u32>>, Seq<Seq<u32>>);

/// The slots of `index` at `level` in `g` (see `HnswBuildGraph::slots`).
pub open spec fn view_slots(g: GraphLinks, index: int, level: int) -> Seq<u32> {
    if level == 0 {
        g.1[index]
    } else if level > g.0[index] {
        Seq::empty()
    } else {
        g.2[index].subrange((level - 1) * 8, level * 8)
    }
}

/// One step of a build search on `level` of graph `g` (see `hnsw::beam_step`).
pub open spec fn build_step(
    g: GraphLinks,
    vectors: Seq<ReferenceVector>,
    vector: Seq<i16>,
    level: int,
    capacity: int,
    st: BeamState,
) -> (BeamState, bool) {
    if st.1.len() == 0 {
        (st, true)
    } else {
        let c = st.1[min_slot(st.1)];
        let rest = (st.0, without_min(st.1), st.2);
        if st.2.len() >= capacity && c.distance > worst_of(st.2, capacity) {
            (rest, true)
        } else {
            let neighbors = present(view_slots(g, c.index as int, level));
            (build_expand(vectors, vector, capacity, rest, neighbors, neighbors.len() as int), false)
        }
    }
}

/// The state a build search reaches from `st` within `fuel` steps.
pub open spec fn build_beam(
    g: GraphLinks,
    vectors: Seq<ReferenceVector>,
    vector: Seq<i16>,
    level: int,
    capacity: int,
    st: BeamState,
    fuel: nat,
) -> BeamState
    decreases fuel,
{
    if fuel == 0 {
        st
    } else {
        let next = build_step(g, vectors, vector, level, capacity, st);
        if next.1 {
            next.0
        } else {
            build_beam(g, vectors, vector, level, capacity, next.0, (fuel - 1) as nat)
        }
    }
}

/// The nearest nodes, in order, a best-first search of width `ef` on `level`
/// of `g` finds from `entrypoint`.
pub open spec fn build_search(
    g: GraphLinks,
    vectors: Seq<ReferenceVector>,
    vector: Seq<i16>,
    entrypoint: usize,
    ef: int,
    level: int,
) -> Seq<NearestCandidate> {
    let entry = NearestCandidate {
        index: entrypoint,
        distance: vector_distance(vectors, vector, entrypoint as int) as u64,
    };
    let st: BeamState = (seq![entrypoint], seq![entry], spec_add(Seq::empty(), ef, entry));
    in_order(build_beam(g, vectors, vector, level, ef, st, beam_fuel(st, vectors.len() as int)).2)
}

/// One greedy pass over the first `i` of `neighbors`: move to each one nearer
/// than the current node.
pub open spec fn build_greedy_pass(
    vectors: Seq<ReferenceVector>,
    vector: Seq<i16>,
    node: int,
    d: int,
    neighbors: Seq<usize>,
    i: int,
) -> (int, int)
    decreases i,
{
    if i <= 0 {
        (node, d)
    } else {
        let p = build_greedy_pass(vectors, vector, node, d, neighbors, i - 1);
        let nd = vector_distance(vectors, vector, neighbors[i - 1] as int);
        if nd < p.1 { (neighbors[i - 1] as int, nd) } else { p }
    }
}

/// Greedy descent on `level` of `g` from `node` at distance `d`: passes over
/// the current node's neighbours until one moves no nearer.
pub open spec fn build_greedy(
    g: GraphLinks,
    vectors: Seq<ReferenceVector>,
    vector: Seq<i16>,
    node: int,
    d: int,
    level: int,
) -> (int, int)
    decreases d,
{
    let neighbors = present(view_slots(g, node, level));
    let p = build_greedy_pass(vectors, vector, node, d, neighbors, neighbors.len() as int);
    if 0 <= p.1 < d { build_greedy(g, vectors, vector, p.0, p.1, level) } else { (node, d) }
}

/// `g` with the level-0 slots of `index` replaced by `s`.
pub open spec fn with_level0(g: GraphLinks, index: int, s: Seq<u32>) -> GraphLinks {
    (g.0, g.1.update(index, s), g.2)
}

/// `g` with the upper slots of `index` replaced by `s`.
pub open spec fn with_upper(g: GraphLinks, index: int, s: Seq<u32>) -> GraphLinks {
    (g.0, g.1, g.2.update(index, s))
}

/// `g` with the slots of `index` at `level` set to `selected`.
pub open spec fn with_neighbors(g: GraphLinks, index: int, level: int, selected: Seq<usize>) -> GraphLinks {
    if level == 0 {
        with_level0(g, index, HnswBuildGraph::filled(selected, 16))
    } else {
        with_upper(
            g,
            index,
            g.2[index].subrange(0, (level - 1) * 8) + HnswBuildGraph::filled(selected, 8) + g.2[index].subrange(
                level * 8,
                g.2[index].len() as int,
            ),
        )
    }
}

/// `g` once `target` is linked back to `source` at `level` (see
/// `HnswBuildGraph::add_backlink`).
pub open spec fn with_backlink(
    g: GraphLinks,
    vectors: Seq<ReferenceVector>,
    target: int,
    source: usize,
    level: int,
    capacity: int,
) -> GraphLinks {
    let chosen = spec_keep_backlink(
        vectors,
        target,
        source,
        spec_select(vectors, backlink_candidates(vectors, target, present(view_slots(g, target, level)), source), capacity),
        capacity,
    );
    with_neighbors(g, target, level, chosen)
}

/// `g` once the first `k` of `selected` are linked back to `source`.
pub open spec fn with_backlinks(
    g: GraphLinks,
    vectors: Seq<ReferenceVector>,
    selected: Seq<usize>,
    source: usize,
    level: int,
    capacity: int,
    k: int,
) -> GraphLinks
    decreases k,
{
    if k <= 0 {
        g
    } else {
        with_backlink(
            with_backlinks(g, vectors, selected, source, level, capacity, k - 1),
            vectors,
            selected[k - 1] as int,
            source,
            level,
            capacity,
        )
    }
}

/// Greedy descent from level `current` down to the level above `level`.
pub open spec fn descend_to(
    g: GraphLinks,
    vectors: Seq<ReferenceVector>,
    vector: Seq<i16>,
    node: int,
    d: int,
    current: int,
    level: int,
) -> (int, int)
    decreases current - level,
{
    if current <= level {
        (node, d)
    } else {
        let r = build_greedy(g, vectors, vector, node, d, current);
        descend_to(g, vectors, vector, r.0, r.1, current - 1, level)
    }
}

/// Linking node `index` at `level`: search from `entry`, choose neighbours,
/// set them and link back from each; with the next entry point.
pub open spec fn link_level(
    g: GraphLinks,
    vectors: Seq<ReferenceVector>,
    index: int,
    entry: int,
    level: int,
) -> (GraphLinks, int) {
    let capacity = if level == 0 { HNSW_M as int } else { HNSW_UPPER_M as int };
    let candidates = build_search(g, vectors, vectors[index]@, entry as usize, HNSW_EF_CONSTRUCTION as int, level);
    let selected = spec_select(vectors, candidates, capacity);
    let linked = with_neighbors(g, index, level, selected);
    let next = if candidates.len() > 0 { candidates[0].index as int } else { entry };
    (with_backlinks(linked, vectors, selected, index as usize, level, capacity, selected.len() as int), next)
}

/// Linking node `index` on levels `current` down to 1.
pub open spec fn link_upper(
    g: GraphLinks,
    vectors: Seq<ReferenceVector>,
    index: int,
    entry: int,
    current: int,
) -> (GraphLinks, int)
    decreases current,
{
    if current < 1 {
        (g, entry)
    } else {
        let r = link_level(g, vectors, index, entry, current);
        link_upper(r.0, vectors, index, r.1, current - 1)
    }
}

/// The links after inserting node `index` at `level` into a graph with links
/// `g`, entry point `entrypoint` and top level `max_level` (see
/// `HnswBuildGraph::insert`).
pub open spec fn links_after_insert(
    g: GraphLinks,
    vectors: Seq<ReferenceVector>,
    index: int,
    level: u8,
    entrypoint: int,
    max_level: int,
) -> GraphLinks {
    let added: GraphLinks = (
        g.0.push(level),
        g.1.push(Seq::new(16, |s: int| EMPTY_NEIGHBOR)),
        g.2.push(Seq::new((level * 8) as nat, |s: int| EMPTY_NEIGHBOR)),
    );
    if index == 0 {
        added
    } else {
        let vector = vectors[index]@;
        let d = vector_distance(vectors, vector, entrypoint);
        let top = descend_to(added, vectors, vector, entrypoint, d, max_level, level as int);
        let start = if max_level < level { max_level } else { level as int };
        let upper = link_upper(added, vectors, index, top.0, start);
        link_level(upper.0, vectors, index, upper.1, 0).0
    }
}

/// The links, entry point and top level after inserting the first `k` of
/// `vectors`, node `i` at the `i`-th level drawn from `HNSW_LEVEL_SEED`.
pub open spec fn graph_after(vectors: Seq<ReferenceVector>, k: nat) -> (GraphLinks, int, int)
    decreases k,
{
    if k == 0 {
        ((Seq::empty(), Seq::empty(), Seq::empty()), 0, 0)
    } else {
        let before = graph_after(vectors, (k - 1) as nat);
        let index = k - 1;
        let level = drawn_level(HNSW_LEVEL_SEED, index as nat) as u8;
        let links = links_after_insert(before.0, vectors, index, level, before.1, before.2);
        if index == 0 || level > before.2 {
            (links, index, level as int)
        } else {
            (links, before.1, before.2)
        }
    }
}

/// Graphs with the same links have the same links view.
proof fn lemma_same_links_view(a: HnswBuildGraph, b: HnswBuildGraph)
    requires
        a.same_links(&b),
    ensures
        a.links() == b.links(),
{
    assert(a.links().1 =~= b.links().1);
    assert(a.links().2 =~= b.links().2);
}

/// The links of a graph whose level-0 slots of `index` alone changed.
proof fn lemma_links_level0(a: HnswBuildGraph, b: HnswBuildGraph, index: int)
    requires
        b.levels@ == a.levels@,
        b.level0@.len() == a.level0@.len(),
        0 <= index < a.level0@.len(),
        forall|i: int| 0 <= i < a.level0@.len() && i != index ==> #[trigger] b.level0@[i] == a.level0@[i],
        b.upper@.len() == a.upper@.len(),
        forall|i: int| 0 <= i < a.upper@.len() ==> #[trigger] b.upper@[i]@ == a.upper@[i]@,
    ensures
        b.links() == with_level0(a.links(), index, b.level0@[index]@),
{
    assert(b.links().1 =~= a.links().1.update(index, b.level0@[index]@));
    assert(b.links().2 =~= a.links().2);
}

/// The links of a graph whose upper slots of `index` alone changed.
proof fn lemma_links_upper(a: HnswBuildGraph, b: HnswBuildGraph, index: int)
    requires
        b.levels@ == a.levels@,
        b.level0@ == a.level0@,
        b.upper@.len() == a.upper@.len(),
        0 <= index < a.upper@.len(),
        forall|i: int| 0 <= i < a.upper@.len() && i != index ==> #[trigger] b.upper@[i]@ == a.upper@[i]@,
    ensures
        b.links() == with_upper(a.links(), index, b.upper@[index]@),
{
    assert(b.links().1 =~= a.links().1);
    assert(b.links().2 =~= a.links().2.update(index, b.upper@[index]@));
}

/// A node's slots are those its links view gives.
proof fn lemma_slots_view(a: HnswBuildGraph, i: int, level: int)
    requires
        0 <= i < a.upper@.len(),
        i < a.level0@.len(),
        i < a.levels@.len(),
    ensures
        a.slots(i, level) == view_slots(a.links(), i, level),
{
}

/// Graphs with the same links have the same slots.
proof fn lemma_same_slots(a: HnswBuildGraph, b: HnswBuildGraph, i: int, level: int)
    requires
        a.same_links(&b),
        0 <= i < a.upper@.len(),
        i < a.level0@.len(),
    ensures
        a.slots(i, level) == b.slots(i, level),
{
    assert(a.upper@[i]@ == b.upper@[i]@);
    assert(a.level0@[i] == b.level0@[i]);
}

/// A slot sequence with no marked entry has all of them unmarked.
proof fn lemma_unvisited_all(visited: Seq<u32>, mark: u32)
    requires
        forall|i: int| 0 <= i < visited.len() ==> #[trigger] visited[i] != mark,
    ensures
        unvisited(visited, mark) == visited.len(),
    decreases visited.len(),
{
    if visited.len() > 0 {
        lemma_unvisited_all(visited.drop_last(), mark);
    }
}

/// Pairs in ascending order: by the first element, then the second.
pub open spec fn pair_le(a: (u64, usize), b: (u64, usize)) -> bool {
    a.0 < b.0 || (a.0 == b.0 && a.1 <= b.1)
}

pub open spec fn pair_order() -> spec_fn((u64, usize), (u64, usize)) -> bool {
    |a: (u64, usize), b: (u64, usize)| pair_le(a, b)
}

proof fn lemma_pair_order_total()
    ensures
        total_ordering(pair_order()),
{
}

/// A candidate as the pair it is ordered by: distance, then index.
pub open spec fn candidate_key(c: NearestCandidate) -> (u64, usize) {
    (c.distance, c.index)
}

/// The candidates as pairs, in ascending order.
pub open spec fn by_key(candidates: Seq<NearestCandidate>) -> Seq<(u64, usize)> {
    candidates.map_values(|c: NearestCandidate| candidate_key(c)).sort_by(pair_order())
}

/// Some neighbour already kept lies nearer to the candidate than the
/// candidate lies to the query.
pub open spec fn redundant(vectors: Seq<ReferenceVector>, kept: Seq<(u64, usize)>, c: (u64, usize)) -> bool {
    exists|j: int| 0 <= j < kept.len() && squared_distance(vectors[c.1 as int]@, vectors[#[trigger] kept[j].1 as int]@) < c.0
}

/// The first pass over the first `k` sorted candidates: a candidate is kept
/// while there is room and no kept one is nearer to it than the query.
pub open spec fn diverse(vectors: Seq<ReferenceVector>, sorted: Seq<(u64, usize)>, capacity: int, k: int) -> Seq<(u64, usize)>
    decreases k,
{
    if k <= 0 {
        Seq::empty()
    } else {
        let kept = diverse(vectors, sorted, capacity, k - 1);
        if kept.len() < capacity && !redundant(vectors, kept, sorted[k - 1]) {
            kept.push(sorted[k - 1])
        } else {
            kept
        }
    }
}

/// Whether `kept` holds a pair with index `index`.
pub open spec fn has_pair_index(kept: Seq<(u64, usize)>, index: usize) -> bool {
    exists|j: int| 0 <= j < kept.len() && (#[trigger] kept[j]).1 == index
}

/// The second pass over the first `k` sorted candidates: the room left is
/// filled with candidates whose index is not kept yet.
pub open spec fn topped_up(sorted: Seq<(u64, usize)>, capacity: int, kept: Seq<(u64, usize)>, k: int) -> Seq<(u64, usize)>
    decreases k,
{
    if k <= 0 {
        kept
    } else {
        let sel = topped_up(sorted, capacity, kept, k - 1);
        if sel.len() < capacity && !has_pair_index(sel, sorted[k - 1].1) {
            sel.push(sorted[k - 1])
        } else {
            sel
        }
    }
}

/// The neighbours chosen among `candidates`: in ascending order, first
/// those no chosen one is nearer to than the query, then the nearest others,
/// `capacity` at most.
pub open spec fn spec_select(vectors: Seq<ReferenceVector>, candidates: Seq<NearestCandidate>, capacity: int) -> Seq<usize> {
    let sorted = by_key(candidates);
    topped_up(sorted, capacity, diverse(vectors, sorted, capacity, sorted.len() as int), sorted.len() as int).map_values(
        |p: (u64, usize)| p.1,
    )
}

/// `slice::sort_unstable` on pairs: afterwards they are in ascending order,
/// tuples comparing by their first element and then their second as std
/// documents, and the same pairs as before. Where equal pairs end up is
/// not stated, and cannot matter.
#[verifier::external_body]
fn sort_pairs(pairs: &mut Vec<(u64, usize)>)
    ensures
        final(pairs)@.to_multiset() == old(pairs)@.to_multiset(),
        sorted_by(final(pairs)@, pair_order()),
{
    pairs.sort_unstable();
}

/// Whether some kept neighbour lies nearer to `candidate` than the query.
fn is_redundant(vectors: &[ReferenceVector], kept: &Vec<(u64, usize)>, candidate: (u64, usize)) -> (r: bool)
    requires
        candidate.1 < vectors@.len(),
        forall|j: int| 0 <= j < kept@.len() ==> #[trigger] kept@[j].1 < vectors@.len(),
    ensures
        r == redundant(vectors@, kept@, candidate),
{
    let candidate_vector = vectors[candidate.1];
    let mut j: usize = 0;
    while j < kept.len()
        invariant
            candidate_vector == vectors@[candidate.1 as int],
            forall|i: int| 0 <= i < kept@.len() ==> #[trigger] kept@[i].1 < vectors@.len(),
            j <= kept@.len(),
            forall|i: int|
                0 <= i < j ==> squared_distance(vectors@[candidate.1 as int]@, vectors@[#[trigger] kept@[i].1 as int]@)
                    >= candidate.0,
        decreases kept@.len() - j,
    {
        let other = kept[j];
        if distance2_limited(&candidate_vector, &vectors[other.1], candidate.0) < candidate.0 {
            return true;
        }
        j = j + 1;
    }
    false
}

/// Whether some kept pair has index `index`.
fn has_index_pair(kept: &Vec<(u64, usize)>, index: usize) -> (r: bool)
    ensures
        r == has_pair_index(kept@, index),
{
    let mut j: usize = 0;
    while j < kept.len()
        invariant
            j <= kept@.len(),
            forall|i: int| 0 <= i < j ==> (#[trigger] kept@[i]).1 != index,
        decreases kept@.len() - j,
    {
        if kept[j].1 == index {
            return true;
        }
        j = j + 1;
    }
    false
}

/// Chooses up to `capacity` neighbours among `candidates` (see `spec_select`).
pub fn select_neighbors(vectors: &[ReferenceVector], candidates: &[NearestCandidate], capacity: usize) -> (r: Vec<usize>)
    requires
        forall|k: int| 0 <= k < candidates@.len() ==> #[trigger] candidates@[k].index < vectors@.len(),
    ensures
        r@ == spec_select(vectors@, candidates@, capacity as int),
        r@.len() <= capacity,
        candidates@.len() > 0 && capacity > 0 ==> r@.len() > 0,
        forall|k: int|
            0 <= k < r@.len() ==> exists|j: int| 0 <= j < candidates@.len() && #[trigger] r@[k] == candidates@[j].index,
{
    broadcast use vstd::seq_lib::group_to_multiset_ensures;

    let mut pairs: Vec<(u64, usize)> = Vec::new();
    let mut k: usize = 0;
    while k < candidates.len()
        invariant
            k <= candidates@.len(),
            pairs@ == candidates@.subrange(0, k as int).map_values(|c: NearestCandidate| candidate_key(c)),
        decreases candidates@.len() - k,
    {
        pairs.push((candidates[k].distance, candidates[k].index));
        proof {
            assert(candidates@.subrange(0, k + 1).map_values(|c: NearestCandidate| candidate_key(c)) =~= pairs@);
        }
        k = k + 1;
    }
    assert(candidates@.subrange(0, candidates@.len() as int) =~= candidates@);
    let ghost keys = pairs@;
    sort_pairs(&mut pairs);
    proof {
        lemma_pair_order_total();
        keys.lemma_sort_by_ensures(pair_order());
        vstd::seq_lib::lemma_sorted_unique(pairs@, keys.sort_by(pair_order()), pair_order());
        assert forall|i: int| 0 <= i < pairs@.len() implies (#[trigger] pairs@[i]).1 < vectors@.len() && exists|j: int|
            0 <= j < candidates@.len() && pairs@[i].1 == candidates@[j].index by {
            assert(pairs@.to_multiset().count(pairs@[i]) > 0);
            assert(keys.contains(pairs@[i]));
            let j = choose|j: int| 0 <= j < keys.len() && keys[j] == pairs@[i];
            assert(candidates@[j].index < vectors@.len());
        }
    }
    let ghost sorted = pairs@;
    assert(sorted.len() == candidates@.len()) by {
        assert(keys.len() == candidates@.len());
        assert(sorted.to_multiset().len() == keys.to_multiset().len());
    }
    let mut kept: Vec<(u64, usize)> = Vec::new();
    let mut k: usize = 0;
    while k < pairs.len()
        invariant
            sorted == pairs@,
            forall|i: int| 0 <= i < sorted.len() ==> (#[trigger] sorted[i]).1 < vectors@.len(),
            k <= sorted.len(),
            kept@ == diverse(vectors@, sorted, capacity as int, k as int),
            kept@.len() <= capacity,
            forall|i: int| 0 <= i < kept@.len() ==> exists|j: int| 0 <= j < sorted.len() && #[trigger] kept@[i] == sorted[j],
        decreases sorted.len() - k,
    {
        let candidate = pairs[k];
        if kept.len() < capacity && !is_redundant(vectors, &kept, candidate) {
            kept.push(candidate);
            proof {
                assert forall|i: int| 0 <= i < kept@.len() implies exists|j: int|
                    0 <= j < sorted.len() && #[trigger] kept@[i] == sorted[j] by {
                    if i == kept@.len() - 1 {
                        assert(kept@[i] == sorted[k as int]);
                    }
                }
            }
        }
        k = k + 1;
    }
    let ghost first = kept@;
    let mut k: usize = 0;
    while k < pairs.len()
        invariant
            sorted == pairs@,
            forall|i: int| 0 <= i < sorted.len() ==> (#[trigger] sorted[i]).1 < vectors@.len(),
            k <= sorted.len(),
            kept@ == topped_up(sorted, capacity as int, first, k as int),
            kept@.len() <= capacity,
            k > 0 && capacity > 0 ==> kept@.len() > 0,
            forall|i: int| 0 <= i < kept@.len() ==> exists|j: int| 0 <= j < sorted.len() && #[trigger] kept@[i] == sorted[j],
        decreases sorted.len() - k,
    {
        let candidate = pairs[k];
        if kept.len() < capacity && !has_index_pair(&kept, candidate.1) {
            kept.push(candidate);
            proof {
                assert forall|i: int| 0 <= i < kept@.len() implies exists|j: int|
                    0 <= j < sorted.len() && #[trigger] kept@[i] == sorted[j] by {
                    if i == kept@.len() - 1 {
                        assert(kept@[i] == sorted[k as int]);
                    }
                }
            }
        }
        k = k + 1;
    }
    let mut r: Vec<usize> = Vec::new();
    let mut k: usize = 0;
    while k < kept.len()
        invariant
            k <= kept@.len(),
            r@ == kept@.subrange(0, k as int).map_values(|p: (u64, usize)| p.1),
        decreases kept@.len() - k,
    {
        r.push(kept[k].1);
        proof {
            assert(kept@.subrange(0, k + 1).map_values(|p: (u64, usize)| p.1) =~= r@);
        }
        k = k + 1;
    }
    proof {
        assert(kept@.subrange(0, kept@.len() as int) =~= kept@);
        assert forall|i: int| 0 <= i < r@.len() implies exists|j: int|
            0 <= j < candidates@.len() && #[trigger] r@[i] == candidates@[j].index by {
            let t = choose|t: int| 0 <= t < sorted.len() && #[trigger] kept@[i] == sorted[t];
            assert(exists|j: int| 0 <= j < candidates@.len() && sorted[t].1 == candidates@[j].index);
        }
    }
    r
}

/// The squared distance between references `a` and `b`.
pub open spec fn ref_distance(vectors: Seq<ReferenceVector>, a: int, b: int) -> int {
    squared_distance(vectors[a]@, vectors[b]@)
}

/// The last slot of `selected` holding a neighbour farthest from `target`.
pub open spec fn last_farthest(vectors: Seq<ReferenceVector>, target: int, selected: Seq<usize>) -> int
    decreases selected.len(),
{
    if selected.len() <= 1 {
        0
    } else {
        let k = last_farthest(vectors, target, selected.drop_last());
        if ref_distance(vectors, target, selected.last() as int) >= ref_distance(vectors, target, selected[k] as int) {
            selected.len() - 1
        } else {
            k
        }
    }
}

proof fn lemma_last_farthest(vectors: Seq<ReferenceVector>, target: int, selected: Seq<usize>)
    requires
        selected.len() > 0,
    ensures
        0 <= last_farthest(vectors, target, selected) < selected.len(),
    decreases selected.len(),
{
    if selected.len() > 1 {
        lemma_last_farthest(vectors, target, selected.drop_last());
    }
}

/// The neighbours of `target` once `source` has asked to be one: kept as
/// chosen if `source` is among them; else `source` joins while there is
/// room; else it replaces the farthest (the last of the farthest) if it is
/// nearer than that one.
pub open spec fn spec_keep_backlink(
    vectors: Seq<ReferenceVector>,
    target: int,
    source: usize,
    selected: Seq<usize>,
    capacity: int,
) -> Seq<usize> {
    if selected.contains(source) {
        selected
    } else if selected.len() < capacity {
        selected.push(source)
    } else if selected.len() == 0 {
        selected
    } else {
        let slot = last_farthest(vectors, target, selected);
        if ref_distance(vectors, target, source as int) < ref_distance(vectors, target, selected[slot] as int) {
            selected.update(slot, source)
        } else {
            selected
        }
    }
}

/// The candidates for `target`'s neighbours when `source` links to it: its
/// current neighbours, then `source` unless it is one of them, each at its
/// squared distance from `target`.
pub open spec fn backlink_candidates(
    vectors: Seq<ReferenceVector>,
    target: int,
    current: Seq<usize>,
    source: usize,
) -> Seq<NearestCandidate> {
    let base = current.map_values(
        |i: usize| NearestCandidate { index: i, distance: ref_distance(vectors, target, i as int) as u64 },
    );
    if current.contains(source) {
        base
    } else {
        base.push(NearestCandidate { index: source, distance: ref_distance(vectors, target, source as int) as u64 })
    }
}

/// The exact squared distance between two references.
fn exact_distance(vectors: &[ReferenceVector], a: usize, b: usize) -> (r: u64)
    requires
        a < vectors@.len(),
        b < vectors@.len(),
    ensures
        r == ref_distance(vectors@, a as int, b as int),
{
    proof {
        lemma_partial_sq_bounds(vectors@[a as int]@, vectors@[b as int]@, 16);
    }
    distance2_limited(&vectors[a], &vectors[b], u64::MAX)
}

/// The seed of the level stream.
pub const HNSW_LEVEL_SEED: u64 = 0x9e37_79b9_7f4a_7c15;

/// One xorshift step.
pub open spec fn xorshift(x: u64) -> u64 {
    let a = x ^ (x << 13u64);
    let b = a ^ (a >> 7u64);
    b ^ (b << 17u64)
}

/// Advances the stream and returns its new state.
pub fn next_random(rng: &mut u64) -> (r: u64)
    ensures
        r == xorshift(*old(rng)),
        *final(rng) == r,
{
    let mut x = *rng;
    x = x ^ (x << 13u64);
    x = x ^ (x >> 7u64);
    x = x ^ (x << 17u64);
    *rng = x;
    x
}

/// Drawing a level from `level` on: while below 255, one more level for each
/// draw divisible by `HNSW_M`; the level and the stream state after.
pub open spec fn level_draw(rng: u64, level: int) -> (int, u64)
    decreases 255 - level,
{
    if level >= 255 {
        (level, rng)
    } else if xorshift(rng) % 16 == 0 {
        level_draw(xorshift(rng), level + 1)
    } else {
        (level, xorshift(rng))
    }
}

proof fn lemma_level_draw_range(rng: u64, level: int)
    requires
        0 <= level,
    ensures
        level <= level_draw(rng, level).0 <= if level < 255 { 255 } else { level },
    decreases 255 - level,
{
    if level < 255 && xorshift(rng) % 16 == 0 {
        lemma_level_draw_range(xorshift(rng), level + 1);
    }
}

/// A node's level: each draw divisible by `HNSW_M` lifts it one level, up to 255.
pub fn random_level(rng: &mut u64) -> (r: u8)
    ensures
        (r as int, *final(rng)) == level_draw(*old(rng), 0),
{
    let mut level: u8 = 0;
    proof {
        lemma_level_draw_range(*rng, 0);
    }
    while level < 255
        invariant
            level <= 255,
            level_draw(*rng, level as int) == level_draw(*old(rng), 0),
        ensures
            (level as int, *rng) == level_draw(*old(rng), 0),
        decreases 255 - level,
    {
        let x = next_random(rng);
        if x % 16 != 0 {
            return level;
        }
        level = level + 1;
    }
    level
}

/// The stream state after `k` levels were drawn from `seed`.
pub open spec fn rng_after(seed: u64, k: nat) -> u64
    decreases k,
{
    if k == 0 {
        seed
    } else {
        level_draw(rng_after(seed, (k - 1) as nat), 0).1
    }
}

/// The level drawn for node `k`.
pub open spec fn drawn_level(seed: u64, k: nat) -> int {
    level_draw(rng_after(seed, k), 0).0
}

/// The graph as it is built: each node's level, its level-0 neighbour slots,
/// its upper-level slots (`HNSW_UPPER_M` per level above 0), the entry point
/// and the top level, and the visit marks a layer search uses.
pub struct HnswBuildGraph {
    pub levels: Vec<u8>,
    pub level0: Vec<[u32; 16]>,
    pub upper: Vec<Vec<u32>>,
    pub entrypoint: usize,
    pub max_level: u8,
    pub visited: Vec<u32>,
    pub visit_mark: u32,
}

impl HnswBuildGraph {
    /// Nodes inserted so far.
    pub open spec fn count(&self) -> int {
        self.levels@.len() as int
    }

    /// The slots of `index` at `level`: its level-0 slots, its slots for an
    /// upper level it reaches, or none.
    /// The graph's links as plain values.
    pub open spec fn links(&self) -> GraphLinks {
        (
            self.levels@,
            self.level0@.map_values(|a: [u32; 16]| a@),
            self.upper@.map_values(|u: Vec<u32>| u@),
        )
    }

    pub open spec fn slots(&self, index: int, level: int) -> Seq<u32> {
        if level == 0 {
            self.level0@[index]@
        } else if level > self.levels@[index] {
            Seq::empty()
        } else {
            self.upper@[index]@.subrange((level - 1) * 8, level * 8)
        }
    }

    /// The graph over the first `count()` of `n` references is consistent:
    /// every slot is empty or names an inserted node, a node listed at an
    /// upper level reaches that level, the entry point is a node of the top
    /// level, and no visit mark is ahead of the current one.
    pub open spec fn wf(&self, n: int) -> bool {
        &&& self.links_ok(n)
        &&& self.top_ok()
    }

    /// The entry point is a node of the top level, or the graph is empty.
    pub open spec fn top_ok(&self) -> bool {
        let count = self.count();
        &&& count > 0 ==> self.entrypoint < count && self.levels@[self.entrypoint as int] == self.max_level
        &&& forall|i: int| 0 <= i < count ==> #[trigger] self.levels@[i] <= self.max_level
        &&& count == 0 ==> self.entrypoint == 0 && self.max_level == 0
    }

    /// The slots and visit marks are consistent (see `wf`).
    pub open spec fn links_ok(&self, n: int) -> bool {
        let count = self.count();
        &&& n < EMPTY_NEIGHBOR
        &&& count <= n
        &&& self.level0@.len() == count
        &&& self.upper@.len() == count
        &&& self.visited@.len() == n
        &&& forall|i: int| 0 <= i < count ==> (#[trigger] self.upper@[i])@.len() == self.levels@[i] * 8
        &&& forall|i: int, s: int| 0 <= i < count && 0 <= s < 16 ==> valid_neighbor(#[trigger] self.level0@[i][s], count)
        &&& forall|i: int, s: int|
            0 <= i < count && 0 <= s < self.upper@[i]@.len() ==> valid_neighbor(#[trigger] self.upper@[i]@[s], count)
        &&& forall|i: int, s: int|
            0 <= i < count && 0 <= s < self.upper@[i]@.len() && #[trigger] self.upper@[i]@[s] != EMPTY_NEIGHBOR
                ==> self.levels@[self.upper@[i]@[s] as int] >= s / 8 + 1
        &&& forall|i: int| 0 <= i < n ==> #[trigger] self.visited@[i] <= self.visit_mark
    }

    /// Whether two graphs have the same nodes and links.
    pub open spec fn same_links(&self, other: &Self) -> bool {
        &&& self.levels@ == other.levels@
        &&& self.level0@ == other.level0@
        &&& self.upper@.len() == other.upper@.len()
        &&& forall|i: int| 0 <= i < self.upper@.len() ==> (#[trigger] self.upper@[i])@ == other.upper@[i]@
        &&& self.entrypoint == other.entrypoint
        &&& self.max_level == other.max_level
    }

    /// An empty graph for `n` references.
    pub fn new(n: usize) -> (r: Self)
        requires
            n < EMPTY_NEIGHBOR,
        ensures
            r.wf(n as int),
            r.count() == 0,
    {
        let mut visited: Vec<u32> = Vec::new();
        let mut i: usize = 0;
        while i < n
            invariant
                i <= n,
                visited@.len() == i,
                forall|j: int| 0 <= j < i ==> #[trigger] visited@[j] == 0,
            decreases n - i,
        {
            visited.push(0);
            i = i + 1;
        }
        HnswBuildGraph {
            levels: Vec::new(),
            level0: Vec::new(),
            upper: Vec::new(),
            entrypoint: 0,
            max_level: 0,
            visited,
            visit_mark: 0,
        }
    }

    /// The neighbours of `index` at `level`, in slot order.
    pub fn neighbors(&self, index: usize, level: u8) -> (r: Vec<usize>)
        requires
            self.links_ok(self.visited@.len() as int),
            index < self.count(),
        ensures
            r@ == present(self.slots(index as int, level as int)),
            r@.len() <= 16,
            forall|k: int| 0 <= k < r@.len() ==> #[trigger] r@[k] < self.count(),
            forall|k: int| 0 <= k < r@.len() ==> #[trigger] self.levels@[r@[k] as int] >= level,
    {
        let ghost slots = self.slots(index as int, level as int);
        let mut r: Vec<usize> = Vec::new();
        let (start, end): (usize, usize) = if level == 0 {
            (0, 16)
        } else if level > self.levels[index] {
            (0, 0)
        } else {
            ((level as usize - 1) * 8, level as usize * 8)
        };
        let mut s: usize = start;
        while s < end
            invariant
                self.links_ok(self.visited@.len() as int),
                index < self.count(),
                slots == self.slots(index as int, level as int),
                start <= s <= end,
                end - start == slots.len(),
                level == 0 ==> start == 0 && end == 16,
                level != 0 ==> end <= self.upper@[index as int]@.len(),
                level != 0 && level <= self.levels@[index as int] ==> start == (level - 1) * 8,
                r@ == present(slots.subrange(0, s - start)),
            decreases end - s,
        {
            let v = if level == 0 {
                self.level0[index][s]
            } else {
                self.upper[index][s]
            };
            proof {
                assert(slots.subrange(0, s - start + 1).drop_last() =~= slots.subrange(0, s - start));
                assert(slots[s - start] == v);
            }
            if v != EMPTY_NEIGHBOR {
                r.push(v as usize);
            }
            s = s + 1;
        }
        proof {
            assert(slots.subrange(0, end - start) =~= slots);
            assert forall|t: int| 0 <= t < slots.len() implies #[trigger] valid_neighbor(slots[t], self.count()) by {
                if level == 0 {
                    assert(valid_neighbor(self.level0@[index as int][t], self.count()));
                } else {
                    assert(valid_neighbor(self.upper@[index as int]@[(level - 1) * 8 + t], self.count()));
                }
            }
            lemma_present_bounds(slots, self.count());
            assert forall|k: int| 0 <= k < r@.len() implies #[trigger] self.levels@[r@[k] as int] >= level by {
                let t = choose|t: int|
                    0 <= t < slots.len() && slots[t] != EMPTY_NEIGHBOR && #[trigger] present(slots)[k] == slots[t] as usize;
                if level != 0 {
                    let s = (level - 1) * 8 + t;
                    assert(self.upper@[index as int]@[s] == slots[t]);
                    assert(s / 8 + 1 == level);
                }
            }
        }
        r
    }

    /// The first `width` of `selected` as slots, the rest empty.
    pub open spec fn filled(selected: Seq<usize>, width: int) -> Seq<u32> {
        Seq::new(width as nat, |s: int| if s < selected.len() { selected[s] as u32 } else { EMPTY_NEIGHBOR })
    }

    /// Gives `index` the level-0 neighbours `selected` (the first 16 of them).
    pub fn set_level0_neighbors(&mut self, index: usize, selected: &[usize])
        requires
            old(self).links_ok(old(self).visited@.len() as int),
            index < old(self).count(),
            forall|k: int| 0 <= k < selected@.len() ==> #[trigger] selected@[k] < old(self).count(),
        ensures
            final(self).links_ok(old(self).visited@.len() as int),
            final(self).level0@.len() == old(self).level0@.len(),
            final(self).level0@[index as int]@ == Self::filled(selected@, 16),
            forall|i: int| 0 <= i < old(self).count() && i != index ==> #[trigger] final(self).level0@[i] == old(self).level0@[i],
            final(self).levels@ == old(self).levels@,
            final(self).upper@ == old(self).upper@,
            final(self).entrypoint == old(self).entrypoint,
            final(self).max_level == old(self).max_level,
            final(self).visited@ == old(self).visited@,
            final(self).visit_mark == old(self).visit_mark,
    {
        let mut slots: [u32; 16] = [EMPTY_NEIGHBOR; 16];
        let mut s: usize = 0;
        while s < 16
            invariant
                s <= 16,
                old(self).links_ok(old(self).visited@.len() as int),
                forall|k: int| 0 <= k < selected@.len() ==> #[trigger] selected@[k] < old(self).count(),
                forall|t: int| 0 <= t < s ==> #[trigger] slots@[t] == Self::filled(selected@, 16)[t],
                forall|t: int| s <= t < 16 ==> #[trigger] slots@[t] == EMPTY_NEIGHBOR,
            decreases 16 - s,
        {
            if s < selected.len() {
                slots[s] = selected[s] as u32;
            }
            s = s + 1;
        }
        assert(slots@ =~= Self::filled(selected@, 16));
        self.level0.set(index, slots);
        proof {
            let n = old(self).visited@.len() as int;
            let count = self.count();
            assert forall|i: int, t: int| 0 <= i < count && 0 <= t < 16 implies valid_neighbor(
                #[trigger] self.level0@[i][t],
                count,
            ) by {
                if i == index {
                    assert(self.level0@[i]@[t] == Self::filled(selected@, 16)[t]);
                    if t < selected@.len() {
                        assert(selected@[t] < count);
                    }
                } else {
                    assert(self.level0@[i] == old(self).level0@[i]);
                    assert(valid_neighbor(old(self).level0@[i][t], count));
                }
            }
        }
    }

    /// Gives `index` the neighbours `selected` (the first 8 of them) at upper
    /// level `level`.
    pub fn set_upper_neighbors(&mut self, index: usize, level: u8, selected: &[usize])
        requires
            old(self).links_ok(old(self).visited@.len() as int),
            index < old(self).count(),
            1 <= level <= old(self).levels@[index as int],
            forall|k: int| 0 <= k < selected@.len() ==> #[trigger] selected@[k] < old(self).count(),
            forall|k: int| 0 <= k < selected@.len() ==> #[trigger] old(self).levels@[selected@[k] as int] >= level,
        ensures
            final(self).links_ok(old(self).visited@.len() as int),
            final(self).upper@.len() == old(self).upper@.len(),
            final(self).upper@[index as int]@ == old(self).upper@[index as int]@.subrange(0, (level - 1) * 8)
                + Self::filled(selected@, 8) + old(self).upper@[index as int]@.subrange(
                level * 8,
                old(self).upper@[index as int]@.len() as int,
            ),
            forall|i: int| 0 <= i < old(self).count() && i != index ==> #[trigger] final(self).upper@[i]@ == old(self).upper@[i]@,
            final(self).levels@ == old(self).levels@,
            final(self).level0@ == old(self).level0@,
            final(self).entrypoint == old(self).entrypoint,
            final(self).max_level == old(self).max_level,
            final(self).visited@ == old(self).visited@,
            final(self).visit_mark == old(self).visit_mark,
    {
        let ghost n = old(self).visited@.len() as int;
        let ghost before = old(self).upper@[index as int]@;
        let start = (level as usize - 1) * 8;
        let mut list = self.upper[index].clone();
        assert(list@ == before);
        let mut s: usize = 0;
        while s < 8
            invariant
                s <= 8,
                start == (level - 1) * 8,
                level <= old(self).levels@[index as int],
                before.len() == old(self).levels@[index as int] * 8,
                list@.len() == before.len(),
                forall|t: int| 0 <= t < start ==> #[trigger] list@[t] == before[t],
                forall|t: int| start + 8 <= t < before.len() ==> #[trigger] list@[t] == before[t],
                forall|t: int| 0 <= t < s ==> #[trigger] list@[start + t] == Self::filled(selected@, 8)[t],
                forall|t: int| s <= t < 8 ==> #[trigger] list@[start + t] == before[start + t],
            decreases 8 - s,
        {
            let v = if s < selected.len() { selected[s] as u32 } else { EMPTY_NEIGHBOR };
            list.set(start + s, v);
            s = s + 1;
        }
        proof {
            let expected = before.subrange(0, (level - 1) * 8) + Self::filled(selected@, 8) + before.subrange(
                level * 8,
                before.len() as int,
            );
            assert(expected.len() == list@.len());
            assert forall|t: int| 0 <= t < list@.len() implies #[trigger] list@[t] == expected[t] by {
                if t < start {
                } else if t < start + 8 {
                    assert(list@[start + (t - start)] == Self::filled(selected@, 8)[t - start]);
                } else {
                }
            }
            assert(list@ =~= expected);
        }
        self.upper.set(index, list);
        proof {
            let count = self.count();
            assert forall|i: int| 0 <= i < count implies (#[trigger] self.upper@[i])@.len() == self.levels@[i] * 8 by {
                if i != index {
                    assert(self.upper@[i] == old(self).upper@[i]);
                }
            }
            assert forall|i: int, t: int| 0 <= i < count && 0 <= t < self.upper@[i]@.len() implies valid_neighbor(
                #[trigger] self.upper@[i]@[t],
                count,
            ) && (self.upper@[i]@[t] != EMPTY_NEIGHBOR ==> self.levels@[self.upper@[i]@[t] as int] >= t / 8 + 1) by {
                if i == index {
                    if start <= t < start + 8 {
                        assert(self.upper@[i]@[t] == list@[start + (t - start)]);
                        if t - start < selected@.len() {
                            assert(selected@[t - start] < count);
                            assert(old(self).levels@[selected@[t - start] as int] >= level);
                        }
                        assert(t / 8 + 1 == level) by (nonlinear_arith)
                            requires start == (level - 1) * 8, start <= t < start + 8;
                    } else {
                        assert(self.upper@[i]@[t] == before[t]);
                        assert(valid_neighbor(old(self).upper@[i]@[t], count));
                    }
                } else {
                    assert(self.upper@[i] == old(self).upper@[i]);
                    assert(valid_neighbor(old(self).upper@[i]@[t], count));
                }
            }
        }
    }

    /// Starts a new search: a mark no node carries yet.
    pub fn next_visit_mark(&mut self)
        requires
            old(self).links_ok(old(self).visited@.len() as int),
        ensures
            final(self).links_ok(old(self).visited@.len() as int),
            final(self).same_links(old(self)),
            final(self).visited@.len() == old(self).visited@.len(),
            forall|i: int| 0 <= i < final(self).visited@.len() ==> #[trigger] final(self).visited@[i] != final(self).visit_mark,
    {
        let ghost n = old(self).visited@.len() as int;
        if self.visit_mark == u32::MAX {
            let mut i: usize = 0;
            while i < self.visited.len()
                invariant
                    self.visited@.len() == n,
                    i <= n,
                    forall|j: int| 0 <= j < i ==> #[trigger] self.visited@[j] == 0,
                    self.levels@ == old(self).levels@,
                    self.level0@ == old(self).level0@,
                    self.upper@ == old(self).upper@,
                    self.entrypoint == old(self).entrypoint,
                    self.max_level == old(self).max_level,
                decreases n - i,
            {
                self.visited.set(i, 0);
                i = i + 1;
            }
            self.visit_mark = 1;
        } else {
            self.visit_mark = self.visit_mark + 1;
        }
    }

    /// Marks `index` visited in the current search.
    pub fn mark_visited(&mut self, index: usize)
        requires
            old(self).links_ok(old(self).visited@.len() as int),
            index < old(self).visited@.len(),
        ensures
            final(self).links_ok(old(self).visited@.len() as int),
            final(self).same_links(old(self)),
            final(self).visit_mark == old(self).visit_mark,
            final(self).visited@ == old(self).visited@.update(index as int, old(self).visit_mark),
    {
        self.visited.set(index, self.visit_mark);
    }

    /// Whether `index` was visited in the current search.
    pub fn is_visited(&self, index: usize) -> (r: bool)
        requires
            index < self.visited@.len(),
        ensures
            r == (self.visited@[index as int] == self.visit_mark),
    {
        self.visited[index] == self.visit_mark
    }

    /// Walks from `start` at `level` to a neighbour nearer to `vector` as
    /// long as one of the current node's neighbours is nearer than it.
    pub fn greedy_search(
        &self,
        vectors: &[ReferenceVector],
        vector: &ReferenceVector,
        start: usize,
        start_distance: u64,
        level: u8,
    ) -> (r: (usize, u64))
        requires
            self.links_ok(vectors@.len() as int),
            start < self.count(),
            self.levels@[start as int] >= level,
            start_distance == squared_distance(vector@, vectors@[start as int]@),
        ensures
            r.0 < self.count(),
            self.levels@[r.0 as int] >= level,
            r.1 == squared_distance(vector@, vectors@[r.0 as int]@),
            r.1 <= start_distance,
            forall|k: int|
                0 <= k < present(self.slots(r.0 as int, level as int)).len() ==> squared_distance(
                    vector@,
                    vectors@[#[trigger] present(self.slots(r.0 as int, level as int))[k] as int]@,
                ) >= r.1,
            (r.0 as int, r.1 as int) == build_greedy(
                self.links(),
                vectors@,
                vector@,
                start as int,
                start_distance as int,
                level as int,
            ),
    {
        let ghost target = build_greedy(self.links(), vectors@, vector@, start as int, start_distance as int, level as int);
        let mut entrypoint = start;
        let mut entry_distance = start_distance;
        let mut changed = true;
        while changed
            invariant
                self.links_ok(vectors@.len() as int),
                entrypoint < self.count(),
                self.levels@[entrypoint as int] >= level,
                entry_distance == squared_distance(vector@, vectors@[entrypoint as int]@),
                entry_distance <= start_distance,
                !changed ==> forall|k: int|
                    0 <= k < present(self.slots(entrypoint as int, level as int)).len() ==> squared_distance(
                        vector@,
                        vectors@[#[trigger] present(self.slots(entrypoint as int, level as int))[k] as int]@,
                    ) >= entry_distance,
                changed ==> build_greedy(self.links(), vectors@, vector@, entrypoint as int, entry_distance as int, level as int)
                    == target,
                !changed ==> (entrypoint as int, entry_distance as int) == target,
            decreases entry_distance as int + if changed { 1int } else { 0int },
        {
            changed = false;
            let neighbors = self.neighbors(entrypoint, level);
            let ghost from = entrypoint;
            let ghost from_distance = entry_distance;
            let mut k: usize = 0;
            while k < neighbors.len()
                invariant
                    self.links_ok(vectors@.len() as int),
                    neighbors@ == present(self.slots(from as int, level as int)),
                    forall|j: int| 0 <= j < neighbors@.len() ==> #[trigger] neighbors@[j] < self.count(),
                    forall|j: int| 0 <= j < neighbors@.len() ==> #[trigger] self.levels@[neighbors@[j] as int] >= level,
                    k <= neighbors@.len(),
                    entrypoint < self.count(),
                    self.levels@[entrypoint as int] >= level,
                    entry_distance == squared_distance(vector@, vectors@[entrypoint as int]@),
                    entry_distance <= from_distance,
                    from_distance <= start_distance,
                    changed ==> entry_distance < from_distance,
                    !changed ==> entrypoint == from && entry_distance == from_distance,
                    !changed ==> forall|j: int|
                        0 <= j < k ==> squared_distance(vector@, vectors@[#[trigger] neighbors@[j] as int]@)
                            >= entry_distance,
                    changed <==> entry_distance < from_distance,
                    (entrypoint as int, entry_distance as int) == build_greedy_pass(
                        vectors@,
                        vector@,
                        from as int,
                        from_distance as int,
                        neighbors@,
                        k as int,
                    ),
                decreases neighbors@.len() - k,
            {
                let neighbor = neighbors[k];
                let distance = distance2_limited(vector, &vectors[neighbor], entry_distance);
                if distance < entry_distance {
                    entrypoint = neighbor;
                    entry_distance = distance;
                    changed = true;
                }
                k = k + 1;
            }
        }
        (entrypoint, entry_distance)
    }

    /// The `ef` nearest nodes to `vector` a best-first search at `level`
    /// from `entrypoint` finds, ordered by distance, then index.
    pub fn search_layer(
        &mut self,
        vectors: &[ReferenceVector],
        vector: &ReferenceVector,
        entrypoint: usize,
        ef: usize,
        level: u8,
    ) -> (r: Vec<NearestCandidate>)
        requires
            old(self).links_ok(vectors@.len() as int),
            entrypoint < old(self).count(),
            old(self).levels@[entrypoint as int] >= level,
        ensures
            final(self).links_ok(vectors@.len() as int),
            final(self).same_links(old(self)),
            final(self).visited@.len() == old(self).visited@.len(),
            sorted_by_key(r@),
            distinct_indices(r@),
            r@.len() <= ef,
            ef > 0 ==> r@.len() > 0,
            forall|k: int|
                0 <= k < r@.len() ==> #[trigger] found(old(self).levels@, vectors@, vector@, level as int, r@[k]),
            r@ == build_search(old(self).links(), vectors@, vector@, entrypoint, ef as int, level as int),
    {
        let ghost n = vectors@.len() as int;
        let ghost levels = old(self).levels@;
        let ghost g = old(self).links();
        self.next_visit_mark();
        let ghost fresh = self.visited@;
        proof {
            lemma_partial_sq_bounds(vector@, vectors@[entrypoint as int]@, 16);
        }
        let entry_distance = distance2_limited(vector, &vectors[entrypoint], u64::MAX);
        let mut candidates: Vec<NearestCandidate> = Vec::new();
        let mut nearest = TopNearest::new(ef);
        self.mark_visited(entrypoint);
        let entry = NearestCandidate { index: entrypoint, distance: entry_distance };
        candidates.push(entry);
        proof {
            lemma_add_found(nearest.candidates@, ef as int, entry, levels, vectors@, vector@, level as int);
        }
        nearest.add(entry);
        let ghost mut vis: Seq<usize> = seq![entrypoint];
        let ghost start: BeamState = (vis, candidates@, nearest.candidates@);
        proof {
            lemma_unvisited_all(fresh, self.visit_mark);
            lemma_unvisited_mark(fresh, self.visit_mark, entrypoint as int);
            assert(candidates@ =~= seq![entry]);
            assert forall|i: int| 0 <= i < n implies ((#[trigger] self.visited@[i] == self.visit_mark) <==> vis.contains(
                i as usize,
            )) by {
                if i == entrypoint {
                    assert(vis[0] == i as usize);
                }
            }
        }
        let ghost target = build_beam(g, vectors@, vector@, level as int, ef as int, start, beam_fuel(start, n));
        let ghost mut fuel: nat = beam_fuel(start, n);
        while candidates.len() > 0
            invariant_except_break
                fuel > 2 * unvisited(self.visited@, self.visit_mark) + candidates@.len(),
                build_beam(g, vectors@, vector@, level as int, ef as int, (vis, candidates@, nearest.candidates@), fuel)
                    == target,
            invariant
                n == vectors@.len(),
                self.links_ok(n),
                self.same_links(old(self)),
                self.visited@.len() == n,
                levels == self.levels@,
                nearest.wf(),
                nearest.capacity == ef,
                ef > 0 ==> nearest.candidates@.len() > 0,
                forall|k: int|
                    0 <= k < nearest.candidates@.len() ==> #[trigger] found(levels, vectors@, vector@, level as int, nearest.candidates@[k]),
                forall|k: int|
                    0 <= k < candidates@.len() ==> #[trigger] found(levels, vectors@, vector@, level as int, candidates@[k]),
                forall|i: int| 0 <= i < n ==> ((#[trigger] self.visited@[i] == self.visit_mark) <==> vis.contains(i as usize)),
                g == old(self).links(),
            ensures
                nearest.candidates@ == target.2,
                nearest.wf(),
                ef > 0 ==> nearest.candidates@.len() > 0,
                forall|k: int|
                    0 <= k < nearest.candidates@.len() ==> #[trigger] found(levels, vectors@, vector@, level as int, nearest.candidates@[k]),
            decreases 2 * unvisited(self.visited@, self.visit_mark) + candidates@.len(),
        {
            let ghost cur: BeamState = (vis, candidates@, nearest.candidates@);
            let ghost before = candidates@;
            let candidate = pop_nearest(&mut candidates);
            proof {
                let k = choose|k: int|
                    0 <= k < before.len() && #[trigger] before[k] == candidate && candidates@ == before.update(
                        k,
                        before.last(),
                    ).drop_last();
                assert(found(levels, vectors@, vector@, level as int, before[k]));
                assert forall|j: int| 0 <= j < candidates@.len() implies #[trigger] found(
                    levels,
                    vectors@,
                    vector@,
                    level as int,
                    candidates@[j],
                ) by {
                    if j == k {
                        assert(found(levels, vectors@, vector@, level as int, before[before.len() - 1]));
                    } else {
                        assert(found(levels, vectors@, vector@, level as int, before[j]));
                    }
                }
                lemma_unvisited_nonneg(self.visited@, self.visit_mark);
            }
            if nearest.is_full() && candidate.distance > nearest.current_worst_distance() {
                break;
            }
            let ghost rest: BeamState = (vis, candidates@, nearest.candidates@);
            let neighbors = self.neighbors(candidate.index, level);
            proof {
                lemma_same_slots(*self, *old(self), candidate.index as int, level as int);
                lemma_slots_view(*old(self), candidate.index as int, level as int);
            }
            let ghost measure = 2 * unvisited(self.visited@, self.visit_mark) + candidates@.len();
            let mut k: usize = 0;
            while k < neighbors.len()
                invariant
                    n == vectors@.len(),
                    self.links_ok(n),
                    self.same_links(old(self)),
                    self.visited@.len() == n,
                    levels == self.levels@,
                    forall|j: int| 0 <= j < neighbors@.len() ==> #[trigger] neighbors@[j] < levels.len(),
                    forall|j: int| 0 <= j < neighbors@.len() ==> #[trigger] levels[neighbors@[j] as int] >= level,
                    k <= neighbors@.len(),
                    nearest.wf(),
                    nearest.capacity == ef,
                    ef > 0 ==> nearest.candidates@.len() > 0,
                    forall|j: int|
                        0 <= j < nearest.candidates@.len() ==> #[trigger] found(levels, vectors@, vector@, level as int, nearest.candidates@[j]),
                    forall|j: int|
                        0 <= j < candidates@.len() ==> #[trigger] found(levels, vectors@, vector@, level as int, candidates@[j]),
                    2 * unvisited(self.visited@, self.visit_mark) + candidates@.len() <= measure,
                    forall|i: int| 0 <= i < n ==> ((#[trigger] self.visited@[i] == self.visit_mark) <==> vis.contains(i as usize)),
                    neighbors@ == present(view_slots(g, candidate.index as int, level as int)),
                    (vis, candidates@, nearest.candidates@) == build_expand(vectors@, vector@, ef as int, rest, neighbors@, k as int),
                decreases neighbors@.len() - k,
            {
                let neighbor = neighbors[k];
                assert(neighbor < levels.len());
                assert(neighbor < vectors@.len());
                if !self.is_visited(neighbor) {
                    proof {
                        lemma_unvisited_mark(self.visited@, self.visit_mark, neighbor as int);
                    }
                    self.mark_visited(neighbor);
                    proof {
                        let old_vis = vis;
                        vis = vis.push(neighbor);
                        assert forall|i: int| 0 <= i < n implies ((#[trigger] self.visited@[i] == self.visit_mark)
                            <==> vis.contains(i as usize)) by {
                            if i == neighbor {
                                assert(vis[vis.len() - 1] == neighbor);
                            } else if old_vis.contains(i as usize) {
                                let q = choose|q: int| 0 <= q < old_vis.len() && old_vis[q] == i as usize;
                                assert(vis[q] == i as usize);
                            } else if vis.contains(i as usize) {
                                let q = choose|q: int| 0 <= q < vis.len() && vis[q] == i as usize;
                                if q < old_vis.len() {
                                    assert(old_vis[q] == i as usize);
                                }
                            }
                        }
                    }
                    let limit = nearest.current_worst_distance();
                    proof {
                        lemma_partial_sq_bounds(vector@, vectors@[neighbor as int]@, 16);
                    }
                    let distance = distance2_limited(vector, &vectors[neighbor], limit);
                    assert(limit == worst_of(nearest.candidates@, ef as int));
                    if limit == u64::MAX || distance < limit {
                        let next = NearestCandidate { index: neighbor, distance };
                        candidates.push(next);
                        proof {
                            lemma_add_found(
                                nearest.candidates@,
                                ef as int,
                                next,
                                levels,
                                vectors@,
                                vector@,
                                level as int,
                            );
                        }
                        nearest.add(next);
                    }
                }
                k = k + 1;
            }
            proof {
                lemma_unvisited_nonneg(self.visited@, self.visit_mark);
                fuel = (fuel - 1) as nat;
            }
        }
        let ghost held = nearest.candidates@;
        let r = nearest.into_sorted();
        proof {
            lemma_in_order(held, r@);
            assert forall|k: int| 0 <= k < r@.len() implies #[trigger] found(
                old(self).levels@,
                vectors@,
                vector@,
                level as int,
                r@[k],
            ) by {
                assert(r@.contains(r@[k]));
                assert(nearest.candidates@.contains(r@[k]));
                let j = choose|j: int| 0 <= j < nearest.candidates@.len() && nearest.candidates@[j] == r@[k];
                assert(found(levels, vectors@, vector@, level as int, nearest.candidates@[j]));
            }
        }
        r
    }

    /// Makes room for `source` among `target`'s chosen neighbours (see
    /// `spec_keep_backlink`).
    pub fn keep_competitive_backlink(
        &self,
        vectors: &[ReferenceVector],
        target: usize,
        source: usize,
        selected: &mut Vec<usize>,
        capacity: usize,
    )
        requires
            target < vectors@.len(),
            source < vectors@.len(),
            forall|k: int| 0 <= k < old(selected)@.len() ==> #[trigger] old(selected)@[k] < vectors@.len(),
        ensures
            final(selected)@ == spec_keep_backlink(vectors@, target as int, source, old(selected)@, capacity as int),
    {
        let mut k: usize = 0;
        while k < selected.len()
            invariant
                selected@ == old(selected)@,
                k <= selected@.len(),
                forall|j: int| 0 <= j < k ==> selected@[j] != source,
            decreases selected@.len() - k,
        {
            if selected[k] == source {
                assert(selected@.contains(source));
                return;
            }
            k = k + 1;
        }
        assert(!selected@.contains(source));
        if selected.len() < capacity {
            selected.push(source);
            return;
        }
        if selected.len() == 0 {
            return;
        }
        let ghost chosen = selected@;
        let source_distance = exact_distance(vectors, target, source);
        let mut slot: usize = 0;
        let mut worst = exact_distance(vectors, target, selected[0]);
        let mut k: usize = 1;
        while k < selected.len()
            invariant
                selected@ == chosen,
                chosen.len() > 0,
                forall|j: int| 0 <= j < chosen.len() ==> #[trigger] chosen[j] < vectors@.len(),
                target < vectors@.len(),
                1 <= k <= chosen.len(),
                slot == last_farthest(vectors@, target as int, chosen.subrange(0, k as int)),
                slot < k,
                worst == ref_distance(vectors@, target as int, chosen[slot as int] as int),
            decreases chosen.len() - k,
        {
            proof {
                assert(chosen.subrange(0, k + 1).drop_last() =~= chosen.subrange(0, k as int));
            }
            let distance = exact_distance(vectors, target, selected[k]);
            if distance >= worst {
                slot = k;
                worst = distance;
            }
            k = k + 1;
        }
        assert(chosen.subrange(0, chosen.len() as int) =~= chosen);
        if source_distance < worst {
            selected.set(slot, source);
        }
    }

    /// Links `target` back to `source` at `level`: `target`'s neighbours are
    /// chosen again among its current ones and `source`, and `source` is
    /// kept among them if it competes (see `spec_keep_backlink`).
    pub fn add_backlink(
        &mut self,
        vectors: &[ReferenceVector],
        target: usize,
        source: usize,
        level: u8,
        capacity: usize,
    )
        requires
            old(self).links_ok(vectors@.len() as int),
            target < old(self).count(),
            source < old(self).count(),
            old(self).levels@[target as int] >= level,
            old(self).levels@[source as int] >= level,
        ensures
            final(self).links_ok(vectors@.len() as int),
            final(self).levels@ == old(self).levels@,
            final(self).entrypoint == old(self).entrypoint,
            final(self).max_level == old(self).max_level,
            final(self).visited@ == old(self).visited@,
            final(self).visit_mark == old(self).visit_mark,
            final(self).level0@.len() == old(self).level0@.len(),
            final(self).upper@.len() == old(self).upper@.len(),
            forall|i: int| 0 <= i < old(self).count() && i != target ==> #[trigger] final(self).level0@[i] == old(self).level0@[i],
            forall|i: int| 0 <= i < old(self).count() && i != target ==> #[trigger] final(self).upper@[i]@ == old(self).upper@[i]@,
            capacity > 0 && level == 0 ==> final(self).level0@[target as int]@[0] != EMPTY_NEIGHBOR,
            final(self).links() == with_backlink(
                old(self).links(),
                vectors@,
                target as int,
                source,
                level as int,
                capacity as int,
            ),
            ({
                let chosen = spec_keep_backlink(
                    vectors@,
                    target as int,
                    source,
                    spec_select(
                        vectors@,
                        backlink_candidates(
                            vectors@,
                            target as int,
                            present(old(self).slots(target as int, level as int)),
                            source,
                        ),
                        capacity as int,
                    ),
                    capacity as int,
                );
                &&& level == 0 ==> final(self).level0@[target as int]@ == Self::filled(chosen, 16)
                &&& level == 0 ==> final(self).upper@[target as int]@ == old(self).upper@[target as int]@
                &&& level > 0 ==> final(self).level0@[target as int] == old(self).level0@[target as int]
                &&& level > 0 ==> final(self).upper@[target as int]@ == old(self).upper@[target as int]@.subrange(
                    0,
                    (level - 1) * 8,
                ) + Self::filled(chosen, 8) + old(self).upper@[target as int]@.subrange(
                    level * 8,
                    old(self).upper@[target as int]@.len() as int,
                )
            }),
    {
        let ghost n = vectors@.len() as int;
        let current = self.neighbors(target, level);
        let ghost current_view = current@;
        let mut candidates: Vec<NearestCandidate> = Vec::new();
        let mut has_source = false;
        let mut k: usize = 0;
        while k < current.len()
            invariant
                n == vectors@.len(),
                self.count() <= n,
                target < n,
                current@ == current_view,
                forall|j: int| 0 <= j < current@.len() ==> #[trigger] current@[j] < self.count(),
                k <= current@.len(),
                candidates@ == current@.subrange(0, k as int).map_values(
                    |i: usize| NearestCandidate { index: i, distance: ref_distance(vectors@, target as int, i as int) as u64 },
                ),
                has_source == current@.subrange(0, k as int).contains(source),
            decreases current@.len() - k,
        {
            let neighbor = current[k];
            let distance = exact_distance(vectors, target, neighbor);
            candidates.push(NearestCandidate { index: neighbor, distance });
            if neighbor == source {
                has_source = true;
            }
            proof {
                let next = current@.subrange(0, k + 1);
                assert(next.drop_last() =~= current@.subrange(0, k as int));
                assert(next.map_values(
                    |i: usize| NearestCandidate { index: i, distance: ref_distance(vectors@, target as int, i as int) as u64 },
                ) =~= candidates@);
                if has_source {
                    if neighbor != source {
                        let j = choose|j: int| 0 <= j < k && current@.subrange(0, k as int)[j] == source;
                        assert(next[j] == source);
                    } else {
                        assert(next[k as int] == source);
                    }
                } else {
                    assert forall|j: int| 0 <= j < next.len() implies next[j] != source by {
                        if j < k {
                            assert(current@.subrange(0, k as int)[j] == next[j]);
                        }
                    }
                }
            }
            k = k + 1;
        }
        assert(current@.subrange(0, current@.len() as int) =~= current@);
        if !has_source {
            let distance = exact_distance(vectors, target, source);
            candidates.push(NearestCandidate { index: source, distance });
        }
        assert(candidates@ == backlink_candidates(vectors@, target as int, current@, source));
        proof {
            assert forall|j: int| 0 <= j < candidates@.len() implies #[trigger] candidates@[j].index < vectors@.len()
                && self.levels@[candidates@[j].index as int] >= level by {
                if j < current@.len() {
                    assert(candidates@[j].index == current@[j]);
                }
            }
        }
        let mut selected = select_neighbors(vectors, &candidates, capacity);
        proof {
            assert forall|j: int| 0 <= j < selected@.len() implies #[trigger] selected@[j] < self.count()
                && self.levels@[selected@[j] as int] >= level by {
                let i = choose|i: int| 0 <= i < candidates@.len() && #[trigger] selected@[j] == candidates@[i].index;
                if i < current@.len() {
                    assert(candidates@[i].index == current@[i]);
                }
            }
        }
        let ghost before_keep = selected@;
        assert(candidates@.len() > 0) by {
            if has_source {
                assert(current@.len() > 0);
            }
        }
        self.keep_competitive_backlink(vectors, target, source, &mut selected, capacity);
        proof {
            if before_keep.len() > 0 {
                lemma_last_farthest(vectors@, target as int, before_keep);
            }
            assert forall|j: int| 0 <= j < selected@.len() implies #[trigger] selected@[j] < self.count()
                && self.levels@[selected@[j] as int] >= level by {
                if selected@[j] != source {
                    if before_keep.contains(source) || before_keep.len() == 0 {
                        assert(selected@ == before_keep);
                    } else if before_keep.len() < capacity {
                        assert(selected@ == before_keep.push(source));
                        assert(selected@[j] == before_keep[j]);
                    } else {
                        let slot = last_farthest(vectors@, target as int, before_keep);
                        assert(j != slot || selected@ == before_keep);
                        assert(selected@[j] == before_keep[j]);
                    }
                }
            }
        }
        assert(capacity > 0 ==> selected@.len() > 0);
        let ghost chosen = selected@;
        if level == 0 {
            self.set_level0_neighbors(target, &selected);
            assert(capacity > 0 ==> self.level0@[target as int]@[0] == selected@[0] as u32);
            proof {
                lemma_links_level0(*old(self), *self, target as int);
            }
        } else {
            self.set_upper_neighbors(target, level, &selected);
            proof {
                lemma_links_upper(*old(self), *self, target as int);
            }
        }
        proof {
            lemma_slots_view(*old(self), target as int, level as int);
            assert(self.links() == with_neighbors(old(self).links(), target as int, level as int, chosen));
        }
    }

    /// Inserts reference `index` at `level`: it descends greedily from the
    /// entry point through the levels above its own, then on each of its
    /// levels links to the neighbours a layer search finds and is linked back
    /// from them; a node above the top level becomes the entry point.
    pub fn insert(&mut self, vectors: &[ReferenceVector], index: usize, level: u8)
        requires
            old(self).wf(vectors@.len() as int),
            index == old(self).count(),
            index < vectors@.len(),
        ensures
            final(self).wf(vectors@.len() as int),
            final(self).levels@ == old(self).levels@.push(level),
            final(self).visited@.len() == old(self).visited@.len(),
            index == 0 || level > old(self).max_level ==> final(self).entrypoint == index && final(self).max_level
                == level,
            !(index == 0 || level > old(self).max_level) ==> final(self).entrypoint == old(self).entrypoint
                && final(self).max_level == old(self).max_level,
            index > 0 ==> final(self).level0@[index as int]@[0] != EMPTY_NEIGHBOR,
            forall|i: int|
                0 <= i < index && old(self).level0@[i]@[0] != EMPTY_NEIGHBOR ==> #[trigger] final(self).level0@[i]@[0]
                    != EMPTY_NEIGHBOR,
            final(self).links() == links_after_insert(
                old(self).links(),
                vectors@,
                index as int,
                level,
                old(self).entrypoint as int,
                old(self).max_level as int,
            ),
    {
        let ghost n = vectors@.len() as int;
        let mut upper: Vec<u32> = Vec::new();
        let upper_len = level as usize * 8;
        let mut k: usize = 0;
        while k < upper_len
            invariant
                k <= upper_len,
                upper@.len() == k,
                forall|j: int| 0 <= j < k ==> #[trigger] upper@[j] == EMPTY_NEIGHBOR,
            decreases upper_len - k,
        {
            upper.push(EMPTY_NEIGHBOR);
            k = k + 1;
        }
        let ghost pushed_upper = upper@;
        self.levels.push(level);
        self.level0.push([EMPTY_NEIGHBOR; 16]);
        self.upper.push(upper);
        let ghost added: GraphLinks = (
            old(self).links().0.push(level),
            old(self).links().1.push(Seq::new(16, |s: int| EMPTY_NEIGHBOR)),
            old(self).links().2.push(Seq::new((level * 8) as nat, |s: int| EMPTY_NEIGHBOR)),
        );
        proof {
            assert(pushed_upper =~= Seq::new((level * 8) as nat, |s: int| EMPTY_NEIGHBOR));
            assert(self.level0@[index as int]@ =~= Seq::new(16, |s: int| EMPTY_NEIGHBOR));
            assert(self.links().1 =~= added.1);
            assert(self.links().2 =~= added.2);
            assert(self.links() == added);
        }
        proof {
            let count = self.count();
            assert forall|i: int| 0 <= i < count implies (#[trigger] self.upper@[i])@.len() == self.levels@[i] * 8 by {
                if i < index {
                    assert(self.upper@[i] == old(self).upper@[i]);
                }
            }
            assert forall|i: int, t: int| 0 <= i < count && 0 <= t < 16 implies valid_neighbor(
                #[trigger] self.level0@[i][t],
                count,
            ) by {
                if i < index {
                    assert(self.level0@[i] == old(self).level0@[i]);
                    assert(valid_neighbor(old(self).level0@[i][t], index as int));
                }
            }
            assert forall|i: int, t: int| 0 <= i < count && 0 <= t < self.upper@[i]@.len() implies valid_neighbor(
                #[trigger] self.upper@[i]@[t],
                count,
            ) && (self.upper@[i]@[t] != EMPTY_NEIGHBOR ==> self.levels@[self.upper@[i]@[t] as int] >= t / 8 + 1) by {
                if i < index {
                    assert(self.upper@[i] == old(self).upper@[i]);
                    assert(valid_neighbor(old(self).upper@[i]@[t], index as int));
                    if old(self).upper@[i]@[t] != EMPTY_NEIGHBOR {
                        assert(self.levels@[self.upper@[i]@[t] as int] == old(self).levels@[old(self).upper@[i]@[t] as int]);
                    }
                }
            }
        }
        if index == 0 {
            self.entrypoint = 0;
            self.max_level = level;
            return;
        }
        let ghost levels = self.levels@;
        let ghost count = self.count();
        let ghost l0 = self.level0@;
        assert forall|i: int| 0 <= i < index implies #[trigger] l0[i] == old(self).level0@[i] by {}
        let old_entrypoint = self.entrypoint;
        let old_max_level = self.max_level;
        let vector = vectors[index];
        let mut entrypoint = self.entrypoint;
        let mut entry_distance = exact_distance(vectors, index, entrypoint);
        let mut current = self.max_level;
        let ghost top = descend_to(
            added,
            vectors@,
            vector@,
            entrypoint as int,
            entry_distance as int,
            current as int,
            level as int,
        );
        while current > level
            invariant
                self.links() == added,
                current <= old_max_level,
                current >= level || current == old_max_level,
                descend_to(added, vectors@, vector@, entrypoint as int, entry_distance as int, current as int, level as int)
                    == top,
                n == vectors@.len(),
                self.links_ok(n),
                self.levels@ == levels,
                count == self.count(),
                vector == vectors@[index as int],
                entrypoint < count,
                self.levels@[entrypoint as int] >= current,
                entry_distance == squared_distance(vector@, vectors@[entrypoint as int]@),
            decreases current,
        {
            let (next, next_distance) = self.greedy_search(vectors, &vector, entrypoint, entry_distance, current);
            entrypoint = next;
            entry_distance = next_distance;
            current = current - 1;
        }
        let ghost up_target = link_upper(added, vectors@, index as int, entrypoint as int, current as int);
        assert(current as int == if old_max_level < level { old_max_level as int } else { level as int });
        while current >= 1
            invariant
                link_upper(self.links(), vectors@, index as int, entrypoint as int, current as int) == up_target,
                n == vectors@.len(),
                self.links_ok(n),
                self.levels@ == levels,
                count == self.count(),
                index < count,
                levels[index as int] == level,
                vector == vectors@[index as int],
                current <= level,
                entrypoint < count,
                self.levels@[entrypoint as int] >= current,
                self.entrypoint == old_entrypoint,
                self.max_level == old_max_level,
                self.visited@.len() == n,
                self.level0@ == l0,
            decreases current,
        {
            let ghost before_search = *self;
            let candidates = self.search_layer(vectors, &vector, entrypoint, HNSW_EF_CONSTRUCTION, current);
            proof {
                lemma_same_links_view(*self, before_search);
                assert forall|j: int| 0 <= j < candidates@.len() implies #[trigger] candidates@[j].index < vectors@.len() by {
                    assert(found(levels, vectors@, vector@, current as int, candidates@[j]));
                }
            }
            let selected = select_neighbors(vectors, &candidates, HNSW_UPPER_M);
            proof {
                assert forall|j: int| 0 <= j < selected@.len() implies #[trigger] selected@[j] < self.count()
                    && self.levels@[selected@[j] as int] >= current by {
                    let i = choose|i: int| 0 <= i < candidates@.len() && #[trigger] selected@[j] == candidates@[i].index;
                    assert(found(levels, vectors@, vector@, current as int, candidates@[i]));
                }
            }
            let ghost before_set = *self;
            self.set_upper_neighbors(index, current, &selected);
            proof {
                lemma_links_upper(before_set, *self, index as int);
            }
            let ghost linked = self.links();
            let mut k: usize = 0;
            while k < selected.len()
                invariant
                    n == vectors@.len(),
                    self.links_ok(n),
                    self.levels@ == levels,
                    count == self.count(),
                    index < count,
                    levels[index as int] == level,
                    1 <= current <= level,
                    forall|j: int| 0 <= j < selected@.len() ==> #[trigger] selected@[j] < count && levels[selected@[j] as int] >= current,
                    k <= selected@.len(),
                    self.entrypoint == old_entrypoint,
                    self.max_level == old_max_level,
                    self.visited@.len() == n,
                    self.level0@ == l0,
                    self.links() == with_backlinks(
                        linked,
                        vectors@,
                        selected@,
                        index,
                        current as int,
                        HNSW_UPPER_M as int,
                        k as int,
                    ),
                decreases selected@.len() - k,
            {
                self.add_backlink(vectors, selected[k], index, current, HNSW_UPPER_M);
                assert(self.level0@ =~= l0);
                k = k + 1;
            }
            if candidates.len() > 0 {
                entrypoint = candidates[0].index;
                assert(found(levels, vectors@, vector@, current as int, candidates@[0]));
            }
            current = current - 1;
        }
        let ghost before_search = *self;
        let candidates = self.search_layer(vectors, &vector, entrypoint, HNSW_EF_CONSTRUCTION, 0);
        proof {
            lemma_same_links_view(*self, before_search);
            assert forall|j: int| 0 <= j < candidates@.len() implies #[trigger] candidates@[j].index < vectors@.len() by {
                assert(found(levels, vectors@, vector@, 0, candidates@[j]));
            }
        }
        let selected = select_neighbors(vectors, &candidates, HNSW_M);
        proof {
            assert forall|j: int| 0 <= j < selected@.len() implies #[trigger] selected@[j] < self.count() by {
                let i = choose|i: int| 0 <= i < candidates@.len() && #[trigger] selected@[j] == candidates@[i].index;
                assert(found(levels, vectors@, vector@, 0, candidates@[i]));
            }
        }
        let ghost before_set = *self;
        self.set_level0_neighbors(index, &selected);
        assert(self.level0@[index as int]@[0] == selected@[0] as u32);
        proof {
            lemma_links_level0(before_set, *self, index as int);
        }
        let ghost linked = self.links();
        let mut k: usize = 0;
        while k < selected.len()
            invariant
                n == vectors@.len(),
                self.links_ok(n),
                self.levels@ == levels,
                count == self.count(),
                index < count,
                forall|j: int| 0 <= j < selected@.len() ==> #[trigger] selected@[j] < count,
                k <= selected@.len(),
                self.entrypoint == old_entrypoint,
                self.max_level == old_max_level,
                self.visited@.len() == n,
                self.level0@[index as int]@[0] != EMPTY_NEIGHBOR,
                forall|i: int|
                    0 <= i < index && l0[i]@[0] != EMPTY_NEIGHBOR ==> #[trigger] self.level0@[i]@[0] != EMPTY_NEIGHBOR,
                self.links() == with_backlinks(linked, vectors@, selected@, index, 0, HNSW_M as int, k as int),
            decreases selected@.len() - k,
        {
            self.add_backlink(vectors, selected[k], index, 0, HNSW_M);
            k = k + 1;
        }
        if level > self.max_level {
            self.entrypoint = index;
            self.max_level = level;
        }
    }

    /// The graph over `vectors`, inserted in order, node `k` at the `k`-th
    /// level drawn from `HNSW_LEVEL_SEED`; every node but the first has a
    /// level-0 neighbour.
    pub fn build(vectors: &[ReferenceVector]) -> (r: Self)
        requires
            vectors@.len() < EMPTY_NEIGHBOR,
        ensures
            r.wf(vectors@.len() as int),
            r.count() == vectors@.len(),
            forall|k: int| 0 <= k < vectors@.len() ==> #[trigger] r.levels@[k] == drawn_level(HNSW_LEVEL_SEED, k as nat),
            forall|k: int| 0 < k < vectors@.len() ==> #[trigger] r.level0@[k]@[0] != EMPTY_NEIGHBOR,
            (r.links(), r.entrypoint as int, r.max_level as int) == graph_after(vectors@, vectors@.len()),
    {
        let mut graph = Self::new(vectors.len());
        proof {
            assert(graph.links().0 =~= Seq::<u8>::empty());
            assert(graph.links().1 =~= Seq::<Seq<u32>>::empty());
            assert(graph.links().2 =~= Seq::<Seq<u32>>::empty());
        }
        let mut rng: u64 = HNSW_LEVEL_SEED;
        let mut index: usize = 0;
        while index < vectors.len()
            invariant
                index <= vectors@.len(),
                graph.wf(vectors@.len() as int),
                graph.count() == index,
                rng == rng_after(HNSW_LEVEL_SEED, index as nat),
                forall|k: int| 0 <= k < index ==> #[trigger] graph.levels@[k] == drawn_level(HNSW_LEVEL_SEED, k as nat),
                forall|k: int| 0 < k < index ==> #[trigger] graph.level0@[k]@[0] != EMPTY_NEIGHBOR,
                (graph.links(), graph.entrypoint as int, graph.max_level as int) == graph_after(vectors@, index as nat),
            decreases vectors@.len() - index,
        {
            let level = random_level(&mut rng);
            let ghost before = graph.levels@;
            graph.insert(vectors, index, level);
            proof {
                assert forall|k: int| 0 <= k < index + 1 implies #[trigger] graph.levels@[k] == drawn_level(
                    HNSW_LEVEL_SEED,
                    k as nat,
                ) by {
                    if k < index {
                        assert(graph.levels@[k] == before[k]);
                    }
                }
            }
            index = index + 1;
        }
        graph
    }
}

proof fn lemma_edges_bound(upper: Seq<Seq<u32>>, k: int)
    requires
        0 <= k <= upper.len(),
        forall|i: int| 0 <= i < upper.len() ==> (#[trigger] upper[i]).len() <= 2040,
    ensures
        0 <= edges_before(upper, k) <= 2040 * k,
    decreases k,
{
    if k > 0 {
        lemma_edges_bound(upper, k - 1);
    }
}

/// Why an HNSW index could not be built.
#[derive(Debug, Clone, Copy, PartialEq, Eq, Structural)]
pub enum HnswBuildError {
    /// There are no references.
    Empty,
    /// More references than 32-bit neighbour slots can name.
    TooManyReferences,
}

/// The HNSW index over every reference.
pub struct IndexHnsw;

impl IndexHnsw {
    /// The HNSW index file of `dataset`: the graph `HnswBuildGraph::build`
    /// makes over its vectors, written with the vectors and fraud bits.
    pub fn build(dataset: &ReferenceDataset) -> (r: Result<Vec<u8>, HnswBuildError>)
        ensures
            dataset.vectors@.len() == 0 ==> r == Err::<Vec<u8>, HnswBuildError>(HnswBuildError::Empty),
            dataset.vectors@.len() >= EMPTY_NEIGHBOR ==> r == Err::<Vec<u8>, HnswBuildError>(
                HnswBuildError::TooManyReferences,
            ),
            0 < dataset.vectors@.len() < EMPTY_NEIGHBOR ==> r is Ok,
            r matches Ok(bytes) ==> exists|graph: HnswBuildGraph|
                #[trigger] graph.wf(dataset.vectors@.len() as int) && graph.count() == dataset.vectors@.len()
                    && (forall|k: int|
                    0 <= k < dataset.vectors@.len() ==> #[trigger] graph.levels@[k] == drawn_level(
                        HNSW_LEVEL_SEED,
                        k as nat,
                    )) && (forall|k: int|
                    0 < k < dataset.vectors@.len() ==> #[trigger] graph.level0@[k]@[0] != EMPTY_NEIGHBOR)
                    && (graph.links(), graph.entrypoint as int, graph.max_level as int) == graph_after(
                    dataset.vectors@,
                    dataset.vectors@.len(),
                ) && bytes@ == spec_hnsw_file(
                    dataset.vectors@,
                    dataset.fraud_bits@,
                    graph.levels@,
                    graph.level0@,
                    lists_view(graph.upper@),
                    graph.entrypoint as u32,
                    graph.max_level,
                ),
    {
        let vectors = dataset.vectors.as_slice();
        if vectors.len() == 0 {
            return Err(HnswBuildError::Empty);
        }
        if vectors.len() >= 0xffff_ffff {
            return Err(HnswBuildError::TooManyReferences);
        }
        let graph = HnswBuildGraph::build(vectors);
        let bytes = Self::write_index(dataset, &graph);
        assert(graph.wf(dataset.vectors@.len() as int));
        Ok(bytes)
    }

    /// The index file of `graph` over `dataset`.
    pub fn write_index(dataset: &ReferenceDataset, graph: &HnswBuildGraph) -> (r: Vec<u8>)
        requires
            graph.wf(dataset.vectors@.len() as int),
        ensures
            r@ == spec_hnsw_file(
                dataset.vectors@,
                dataset.fraud_bits@,
                graph.levels@,
                graph.level0@,
                lists_view(graph.upper@),
                graph.entrypoint as u32,
                graph.max_level,
            ),
    {
        proof {
            let lists = lists_view(graph.upper@);
            assert forall|i: int| 0 <= i < lists.len() implies (#[trigger] lists[i]).len() <= 2040 by {
                assert(graph.upper@[i]@.len() == graph.levels@[i] * 8);
            }
            lemma_edges_bound(lists, lists.len() as int);
            assert(2040 * lists.len() <= u64::MAX) by (nonlinear_arith)
                requires lists.len() < 0xffff_ffff;
        }
        encode_hnsw_file(
            dataset.vectors.as_slice(),
            dataset.fraud_bits.as_slice(),
            graph.levels.as_slice(),
            graph.level0.as_slice(),
            graph.upper.as_slice(),
            graph.entrypoint as u32,
            graph.max_level,
        )
    }
}

/// The index file of a consistent graph over all of a dataset's references is
/// accepted by `HnswLayout::read`, which finds the graph's entry point and top
/// level in it, and every neighbour slot it reads back is empty or names a
/// reference of the file.
pub proof fn lemma_built_index_readable(vectors: Seq<ReferenceVector>, fraud_bits: Seq<u8>, graph: HnswBuildGraph)
    requires
        graph.wf(vectors.len() as int),
        graph.count() == vectors.len(),
        vectors.len() > 0,
        fraud_bits.len() == (vectors.len() + 7) / 8,
        hnsw_expected_len(vectors.len() as int, edges_before(lists_view(graph.upper@), vectors.len() as int))
            <= usize::MAX,
    ensures
        ({
            let n = vectors.len() as int;
            let upper = lists_view(graph.upper@);
            let f = spec_hnsw_file(
                vectors,
                fraud_bits,
                graph.levels@,
                graph.level0@,
                upper,
                graph.entrypoint as u32,
                graph.max_level,
            );
            &&& spec_read_layout(f) == Ok::<HnswLayout, HnswLayoutError>(
                hnsw_layout_for(n, graph.entrypoint as int, graph.max_level, edges_before(upper, n)),
            )
            &&& forall|i: int, s: int|
                0 <= i < n && 0 <= s < 16 ==> #[trigger] u32_at(f, 32 + 33 * n + (n + 7) / 8 + 64 * i + 4 * s)
                    == EMPTY_NEIGHBOR || u32_at(f, 32 + 33 * n + (n + 7) / 8 + 64 * i + 4 * s) < n
            &&& forall|i: int, j: int|
                0 <= i < n && 0 <= j < upper[i].len() ==> #[trigger] u32_at(
                    f,
                    32 + 105 * n + 8 + (n + 7) / 8 + 4 * (edges_before(upper, i) + j),
                ) == EMPTY_NEIGHBOR || u32_at(f, 32 + 105 * n + 8 + (n + 7) / 8 + 4 * (edges_before(upper, i) + j)) < n
        }),
{
    let n = vectors.len() as int;
    let upper = lists_view(graph.upper@);
    assert forall|i: int| 0 <= i < upper.len() implies (#[trigger] upper[i]).len() <= 2040 by {
        assert(graph.upper@[i]@.len() == graph.levels@[i] * 8);
    }
    lemma_edges_bound(upper, n);
    assert(2040 * n < 0x1_0000_0000_0000_0000) by (nonlinear_arith)
        requires n < 0xffff_ffff;
    lemma_hnsw_file_roundtrip(
        vectors,
        fraud_bits,
        graph.levels@,
        graph.level0@,
        upper,
        graph.entrypoint as u32,
        graph.max_level,
    );
    let f = spec_hnsw_file(vectors, fraud_bits, graph.levels@, graph.level0@, upper, graph.entrypoint as u32, graph.max_level);
    assert forall|i: int, s: int| 0 <= i < n && 0 <= s < 16 implies #[trigger] u32_at(
        f,
        32 + 33 * n + (n + 7) / 8 + 64 * i + 4 * s,
    ) == EMPTY_NEIGHBOR || u32_at(f, 32 + 33 * n + (n + 7) / 8 + 64 * i + 4 * s) < n by {
        assert(valid_neighbor(graph.level0@[i][s], n));
    }
    assert forall|i: int, j: int| 0 <= i < n && 0 <= j < upper[i].len() implies #[trigger] u32_at(
        f,
        32 + 105 * n + 8 + (n + 7) / 8 + 4 * (edges_before(upper, i) + j),
    ) == EMPTY_NEIGHBOR || u32_at(f, 32 + 105 * n + 8 + (n + 7) / 8 + 4 * (edges_before(upper, i) + j)) < n by {
        assert(upper[i][j] == graph.upper@[i]@[j]);
        assert(valid_neighbor(graph.upper@[i]@[j], n));
    }
}

} // verus!
