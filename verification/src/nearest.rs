//! A bounded set of the nearest candidates seen so far, and the exact
//! nearest-neighbour scan over a list of references.
use vstd::prelude::*;

use crate::ReferenceVector;
use crate::distance::{distance2_limited, lemma_partial_sq_bounds, squared_distance};

verus! {

/// A reference and how far it lies from the query.
#[derive(Debug, Clone, Copy, PartialEq, Eq, Structural)]
pub struct NearestCandidate {
    pub index: usize,
    pub distance: u64,
}

/// A stored reference vector and its label.
#[derive(Debug, Clone, Copy)]
pub struct ReferenceRecord {
    pub vector: ReferenceVector,
    pub is_fraud: bool,
}

/// `a` comes before `b`: by distance, then by index.
pub open spec fn key_le(a: NearestCandidate, b: NearestCandidate) -> bool {
    a.distance < b.distance || (a.distance == b.distance && a.index <= b.index)
}

pub open spec fn sorted_by_key(s: Seq<NearestCandidate>) -> bool {
    forall|i: int, j: int| 0 <= i < j < s.len() ==> key_le(s[i], s[j])
}

pub open spec fn has_index(s: Seq<NearestCandidate>, index: usize) -> bool {
    exists|i: int| 0 <= i < s.len() && (#[trigger] s[i]).index == index
}

pub open spec fn distinct_indices(s: Seq<NearestCandidate>) -> bool {
    forall|i: int, j: int| 0 <= i < s.len() && 0 <= j < s.len() && i != j ==> (#[trigger] s[i]).index
        != (#[trigger] s[j]).index
}

/// The last slot holding the largest distance.
pub open spec fn last_max_slot(s: Seq<NearestCandidate>) -> int
    decreases s.len(),
{
    if s.len() <= 1 {
        0
    } else {
        let k = last_max_slot(s.drop_last());
        if s.last().distance >= s[k].distance { s.len() - 1 } else { k }
    }
}

pub proof fn lemma_last_max_slot(s: Seq<NearestCandidate>)
    requires
        s.len() > 0,
    ensures
        0 <= last_max_slot(s) < s.len(),
        forall|i: int| 0 <= i < s.len() ==> (#[trigger] s[i]).distance <= s[last_max_slot(s)].distance,
    decreases s.len(),
{
    if s.len() > 1 {
        lemma_last_max_slot(s.drop_last());
        let k = last_max_slot(s.drop_last());
        assert forall|i: int| 0 <= i < s.len() implies (#[trigger] s[i]).distance <= s[last_max_slot(
            s,
        )].distance by {
            if i < s.len() - 1 {
                assert(s[i] == s.drop_last()[i]);
            }
        }
    }
}

/// The candidates a `TopNearest` holds after `add(candidate)`.
pub open spec fn spec_add(s: Seq<NearestCandidate>, capacity: int, c: NearestCandidate) -> Seq<
    NearestCandidate,
> {
    if capacity == 0 || has_index(s, c.index) {
        s
    } else if s.len() < capacity {
        s.push(c)
    } else if s.len() > 0 && c.distance < s[last_max_slot(s)].distance {
        s.update(last_max_slot(s), c)
    } else {
        s
    }
}

/// Adding a candidate never shrinks the list, and a list with room holds
/// something afterwards.
pub proof fn lemma_add_len(s: Seq<NearestCandidate>, capacity: int, c: NearestCandidate)
    ensures
        spec_add(s, capacity, c).len() >= s.len(),
        capacity > 0 ==> spec_add(s, capacity, c).len() >= 1,
{
    if s.len() > 0 {
        lemma_last_max_slot(s);
    }
}

/// The nearest candidates seen so far, at most `capacity` of them, one per index.
pub struct TopNearest {
    pub candidates: Vec<NearestCandidate>,
    pub capacity: usize,
}

impl TopNearest {
    pub open spec fn wf(&self) -> bool {
        &&& self.candidates@.len() <= self.capacity
        &&& distinct_indices(self.candidates@)
    }

    pub fn new(capacity: usize) -> (r: Self)
        ensures
            r.wf(),
            r.capacity == capacity,
            r.candidates@ == Seq::<NearestCandidate>::empty(),
    {
        TopNearest { candidates: Vec::new(), capacity }
    }

    pub fn is_full(&self) -> (r: bool)
        ensures
            r == (self.candidates@.len() >= self.capacity),
    {
        self.candidates.len() >= self.capacity
    }

    /// `u64::MAX` until full, then the largest distance held.
    pub fn current_worst_distance(&self) -> (r: u64)
        ensures
            self.candidates@.len() < self.capacity || self.candidates@.len() == 0 ==> r == u64::MAX,
            self.candidates@.len() >= self.capacity && self.candidates@.len() > 0 ==> r
                == self.candidates@[last_max_slot(self.candidates@)].distance,
    {
        if !self.is_full() {
            return u64::MAX;
        }
        match self.worst_slot() {
            Some(slot) => self.candidates[slot].distance,
            None => u64::MAX,
        }
    }

    /// The last slot holding the largest distance, if any.
    fn worst_slot(&self) -> (r: Option<usize>)
        ensures
            self.candidates@.len() == 0 ==> r is None,
            self.candidates@.len() > 0 ==> r == Some(last_max_slot(self.candidates@) as usize),
            self.candidates@.len() > 0 ==> last_max_slot(self.candidates@) < self.candidates@.len(),
            r matches Some(i) ==> i < self.candidates@.len() && i == last_max_slot(self.candidates@),
    {
        let n = self.candidates.len();
        if n == 0 {
            return None;
        }
        let ghost s = self.candidates@;
        let mut slot: usize = 0;
        let mut i: usize = 1;
        while i < n
            invariant
                n == s.len(),
                s == self.candidates@,
                1 <= i <= n,
                slot == last_max_slot(s.subrange(0, i as int)),
            decreases n - i,
        {
            proof {
                let t = s.subrange(0, i as int + 1);
                assert(t.drop_last() =~= s.subrange(0, i as int));
                lemma_last_max_slot(s.subrange(0, i as int));
            }
            if self.candidates[i].distance >= self.candidates[slot].distance {
                slot = i;
            }
            i = i + 1;
        }
        assert(s.subrange(0, n as int) =~= s);
        proof {
            lemma_last_max_slot(s);
        }
        Some(slot)
    }

    pub fn contains(&self, index: usize) -> (r: bool)
        ensures
            r == has_index(self.candidates@, index),
    {
        let mut i: usize = 0;
        while i < self.candidates.len()
            invariant
                i <= self.candidates@.len(),
                forall|j: int| 0 <= j < i ==> (#[trigger] self.candidates@[j]).index != index,
            decreases self.candidates@.len() - i,
        {
            if self.candidates[i].index == index {
                return true;
            }
            i = i + 1;
        }
        false
    }

    /// Keeps `candidate` if its index is new and it is nearer than the farthest one held
    /// (the last of them when several are as far), or if there is room.
    pub fn add(&mut self, candidate: NearestCandidate)
        requires
            old(self).wf(),
        ensures
            final(self).wf(),
            final(self).capacity == old(self).capacity,
            final(self).candidates@ == spec_add(
                old(self).candidates@,
                old(self).capacity as int,
                candidate,
            ),
    {
        if self.capacity == 0 || self.contains(candidate.index) {
            return;
        }
        if self.candidates.len() < self.capacity {
            self.candidates.push(candidate);
            proof {
                let s = self.candidates@;
                assert forall|i: int, j: int|
                    0 <= i < s.len() && 0 <= j < s.len() && i != j implies (#[trigger] s[i]).index
                    != (#[trigger] s[j]).index by {
                    if i == s.len() - 1 {
                        assert(old(self).candidates@[j] == s[j]);
                    } else if j == s.len() - 1 {
                        assert(old(self).candidates@[i] == s[i]);
                    } else {
                        assert(old(self).candidates@[i] == s[i]);
                        assert(old(self).candidates@[j] == s[j]);
                    }
                }
            }
            return;
        }
        let slot = match self.worst_slot() {
            Some(slot) => slot,
            None => return,
        };
        proof {
            lemma_last_max_slot(self.candidates@);
        }
        if candidate.distance < self.candidates[slot].distance {
            let ghost before = self.candidates@;
            self.candidates.set(slot, candidate);
            proof {
                let s = self.candidates@;
                assert forall|i: int, j: int|
                    0 <= i < s.len() && 0 <= j < s.len() && i != j implies (#[trigger] s[i]).index
                    != (#[trigger] s[j]).index by {
                    if i == slot {
                        assert(before[j] == s[j]);
                    } else if j == slot {
                        assert(before[i] == s[i]);
                    } else {
                        assert(before[i] == s[i]);
                        assert(before[j] == s[j]);
                    }
                }
            }
        }
    }

    /// The candidates ordered by distance, then index.
    pub fn into_sorted(self) -> (r: Vec<NearestCandidate>)
        requires
            self.wf(),
        ensures
            r@.len() == self.candidates@.len(),
            distinct_indices(r@),
            forall|x: NearestCandidate|
                #![trigger r@.contains(x)]
                #![trigger self.candidates@.contains(x)]
                r@.contains(x) <==> self.candidates@.contains(x),
            sorted_by_key(r@),
    {
        let mut v = self.candidates;
        sort_by_key(&mut v);
        v
    }
}

/// Selection sort by distance, then index.
fn sort_by_key(v: &mut Vec<NearestCandidate>)
    requires
        distinct_indices(old(v)@),
    ensures
        distinct_indices(final(v)@),
        final(v)@.len() == old(v)@.len(),
        forall|x: NearestCandidate|
            #![trigger final(v)@.contains(x)]
            #![trigger old(v)@.contains(x)]
            final(v)@.contains(x) <==> old(v)@.contains(x),
        sorted_by_key(final(v)@),
{
    let n = v.len();
    let mut i: usize = 0;
    while i < n
        invariant
            n == v@.len(),
            i <= n,
            distinct_indices(v@),
            forall|x: NearestCandidate| v@.contains(x) <==> old(v)@.contains(x),
            forall|a: int, b: int| 0 <= a < b < i ==> key_le(v@[a], v@[b]),
            forall|a: int, b: int| 0 <= a < i <= b < n ==> key_le(v@[a], v@[b]),
        decreases n - i,
    {
        let mut m = i;
        let mut j = i + 1;
        while j < n
            invariant
                n == v@.len(),
                i <= m < n,
                i < j <= n,
                forall|b: int| i <= b < j ==> key_le(v@[m as int], v@[b]),
            decreases n - j,
        {
            if v[j].distance < v[m].distance || (v[j].distance == v[m].distance && v[j].index
                < v[m].index) {
                m = j;
            }
            j = j + 1;
        }
        let ghost before = v@;
        let a = v[i];
        let b = v[m];
        v.set(i, b);
        v.set(m, a);
        proof {
            let after = v@;
            assert(after =~= before.update(i as int, b).update(m as int, a));
            assert forall|p: int, q: int|
                0 <= p < after.len() && 0 <= q < after.len() && p != q implies (#[trigger] after[p]).index
                != (#[trigger] after[q]).index by {
                let op = if p == i { m as int } else if p == m { i as int } else { p };
                let oq = if q == i { m as int } else if q == m { i as int } else { q };
                assert(after[p] == before[op]);
                assert(after[q] == before[oq]);
            }
            assert forall|x: NearestCandidate| after.contains(x) <==> before.contains(x) by {
                if after.contains(x) {
                    let k = choose|k: int| 0 <= k < after.len() && after[k] == x;
                    if k == i {
                        assert(before[m as int] == x);
                    } else if k == m {
                        assert(before[i as int] == x);
                    } else {
                        assert(before[k] == x);
                    }
                }
                if before.contains(x) {
                    let k = choose|k: int| 0 <= k < before.len() && before[k] == x;
                    if k == i {
                        assert(after[m as int] == x);
                    } else if k == m {
                        assert(after[i as int] == x);
                    } else {
                        assert(after[k] == x);
                    }
                }
            }
        }
        i = i + 1;
    }
}

/// Everything in the list lies no farther than `d`.
pub open spec fn all_within(s: Seq<NearestCandidate>, d: int) -> bool {
    forall|i: int| 0 <= i < s.len() ==> (#[trigger] s[i]).distance <= d
}

/// The exact `top` nearest references to `vector`, ordered by distance, then index.
pub fn search_records(records: &[ReferenceRecord], vector: &ReferenceVector, top: usize) -> (r: Vec<
    NearestCandidate,
>)
    ensures
        r@.len() == if top < records@.len() { top as int } else { records@.len() as int },
        sorted_by_key(r@),
        distinct_indices(r@),
        forall|i: int|
            0 <= i < r@.len() ==> (#[trigger] r@[i]).index < records@.len() && r@[i].distance
                == squared_distance(vector@, records@[r@[i].index as int].vector@),
        forall|j: usize|
            j < records@.len() && !has_index(r@, j) ==> #[trigger] all_within(
                r@,
                squared_distance(vector@, records@[j as int].vector@),
            ),
{
    let mut nearest = TopNearest::new(top);
    let n = records.len();
    let mut k: usize = 0;
    while k < n
        invariant
            n == records@.len(),
            k <= n,
            nearest.wf(),
            nearest.capacity == top,
            nearest.candidates@.len() == if top < k { top as int } else { k as int },
            forall|i: int|
                0 <= i < nearest.candidates@.len() ==> (#[trigger] nearest.candidates@[i]).index < k
                    && nearest.candidates@[i].distance == squared_distance(
                    vector@,
                    records@[nearest.candidates@[i].index as int].vector@,
                ),
            nearest.candidates@.len() < top ==> forall|j: usize|
                j < k ==> has_index(nearest.candidates@, j),
            forall|j: usize|
                j < k && !has_index(nearest.candidates@, j) ==> #[trigger] all_within(
                    nearest.candidates@,
                    squared_distance(vector@, records@[j as int].vector@),
                ),
        decreases n - k,
    {
        let ghost s = nearest.candidates@;
        let limit = nearest.current_worst_distance();
        let distance = distance2_limited(vector, &records[k].vector, limit);
        let ghost dk = squared_distance(vector@, records@[k as int].vector@);
        proof {
            lemma_partial_sq_bounds(vector@, records@[k as int].vector@, 16);
            if s.len() > 0 {
                lemma_last_max_slot(s);
            }
            assert(!has_index(s, k));
        }
        let candidate = NearestCandidate { index: k, distance };
        if limit == u64::MAX || distance < limit {
            nearest.add(candidate);
            proof {
                let t = nearest.candidates@;
                if s.len() < top {
                    assert(t == s.push(candidate));
                    assert(t[s.len() as int] == candidate);
                    assert forall|j: usize| j < k + 1 implies has_index(t, j) by {
                        if j < k {
                            assert(has_index(s, j));
                            let w = choose|w: int| 0 <= w < s.len() && (#[trigger] s[w]).index == j;
                            assert(t[w] == s[w]);
                        } else {
                            assert(t[s.len() as int].index == j);
                        }
                    }
                } else if top == 0 {
                } else {
                    let slot = last_max_slot(s);
                    let worst = s[slot];
                    assert(worst.distance < u64::MAX) by {
                        assert(s[slot].distance == squared_distance(
                            vector@,
                            records@[s[slot].index as int].vector@,
                        ));
                        lemma_partial_sq_bounds(vector@, records@[s[slot].index as int].vector@, 16);
                    }
                    assert(distance < worst.distance);
                    assert(distance == dk);
                    assert(t == s.update(slot, candidate));
                    assert(t[slot].index == k);
                    assert forall|i: int| 0 <= i < t.len() implies (#[trigger] t[i]).distance
                        <= worst.distance by {}
                    assert forall|j: usize|
                        j < k + 1 && !has_index(t, j) implies #[trigger] all_within(
                        t,
                        squared_distance(vector@, records@[j as int].vector@),
                    ) by {
                        let dj = squared_distance(vector@, records@[j as int].vector@);
                        if j == k {
                            assert(has_index(t, j));
                        } else if j == worst.index {
                            assert(s[slot].distance == squared_distance(
                                vector@,
                                records@[s[slot].index as int].vector@,
                            ));
                        } else {
                            if has_index(s, j) {
                                let w = choose|w: int| 0 <= w < s.len() && (#[trigger] s[w]).index == j;
                                assert(w != slot);
                                assert(t[w] == s[w]);
                                assert(has_index(t, j));
                            }
                            assert(all_within(s, dj));
                            assert(s[slot].distance <= dj);
                            assert forall|i: int| 0 <= i < t.len() implies (#[trigger] t[i]).distance
                                <= dj by {
                                if i != slot {
                                    assert(t[i] == s[i]);
                                }
                            }
                        }
                    }
                }
            }
        } else {
            proof {
                let slot = last_max_slot(s);
                assert(limit == s[slot].distance);
                assert(dk >= limit);
                assert forall|i: int| 0 <= i < s.len() implies (#[trigger] s[i]).distance <= dk by {}
                assert(all_within(s, dk));
                assert forall|j: usize|
                    j < k + 1 && !has_index(s, j) implies #[trigger] all_within(
                    s,
                    squared_distance(vector@, records@[j as int].vector@),
                ) by {}
            }
        }
        k = k + 1;
    }
    let ghost s = nearest.candidates@;
    let r = nearest.into_sorted();
    proof {
        assert forall|i: int| 0 <= i < r@.len() implies (#[trigger] r@[i]).index < records@.len()
            && r@[i].distance == squared_distance(vector@, records@[r@[i].index as int].vector@) by {
            assert(s.contains(r@[i]));
        }
        assert forall|j: usize| j < records@.len() && !has_index(r@, j) implies #[trigger] all_within(
            r@,
            squared_distance(vector@, records@[j as int].vector@),
        ) by {
            if has_index(s, j) {
                let w = choose|w: int| 0 <= w < s.len() && (#[trigger] s[w]).index == j;
                assert(s.contains(s[w]));
                assert(r@.contains(s[w]));
                let q = choose|q: int| 0 <= q < r@.len() && r@[q] == s[w];
                assert(r@[q].index == j);
            }
            assert forall|i: int| 0 <= i < r@.len() implies (#[trigger] r@[i]).distance
                <= squared_distance(vector@, records@[j as int].vector@) by {
                assert(all_within(s, squared_distance(vector@, records@[j as int].vector@)));
                assert(r@.contains(r@[i]));
                assert(s.contains(r@[i]));
                let x = choose|x: int| 0 <= x < s.len() && s[x] == r@[i];
                assert(s[x].distance <= squared_distance(vector@, records@[j as int].vector@));
            }
        }
    }
    r
}

} // verus!
