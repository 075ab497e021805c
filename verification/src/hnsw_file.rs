//! Writing an HNSW index file: the header, the reference vectors, the fraud
//! bits, the levels, the level-0 neighbour lists, the running totals of the
//! upper-level lists and those lists themselves.
use vstd::prelude::*;

use crate::ReferenceVector;
use crate::bytes::{
    blocks, i16_at, le_bytes, lemma_blocks_len, lemma_blocks_window, lemma_blocks_window_at,
    lemma_le_bytes_len, lemma_u32_window, lemma_u64_window, lemma_window_byte, lemma_window_concat,
    lemma_window_nested, push_u32_le, push_u64_le, u32_at, u64_at, window,
};
use crate::hnsw::{
    HnswLayout, HnswLayoutError, hnsw_expected_len, hnsw_layout_for, hnsw_magic, hnsw_magic_spec,
    ref_vector, spec_read_layout,
};
use crate::morton::{lemma_vector_window, push_vector, vector_bytes};

verus! {

/// The little-endian bytes of a list of `u32`.
pub open spec fn u32_list_bytes(s: Seq<u32>) -> Seq<u8> {
    blocks(|j: int| le_bytes(s[j] as nat, 4), s.len() as int)
}

/// The upper-level neighbours of the first `k` references, counted.
pub open spec fn edges_before(upper: Seq<Seq<u32>>, k: int) -> int
    decreases k,
{
    if k <= 0 { 0 } else { edges_before(upper, k - 1) + upper[k - 1].len() }
}

/// The contents of each list.
pub open spec fn lists_view(upper: Seq<Vec<u32>>) -> Seq<Seq<u32>> {
    Seq::new(upper.len(), |i: int| upper[i]@)
}

pub open spec fn vector_block(vectors: Seq<ReferenceVector>) -> spec_fn(int) -> Seq<u8> {
    |k: int| vector_bytes(vectors[k]@, 16)
}

pub open spec fn level0_block(level0: Seq<[u32; 16]>) -> spec_fn(int) -> Seq<u8> {
    |k: int| u32_list_bytes(level0[k]@)
}

pub open spec fn offset_block(upper: Seq<Seq<u32>>) -> spec_fn(int) -> Seq<u8> {
    |k: int| le_bytes(edges_before(upper, k) as nat, 8)
}

pub open spec fn upper_block(upper: Seq<Seq<u32>>) -> spec_fn(int) -> Seq<u8> {
    |k: int| u32_list_bytes(upper[k])
}

/// The header of an HNSW index file.
pub open spec fn hnsw_header(count: nat, entrypoint: u32, max_level: u8, edges: nat) -> Seq<u8> {
    hnsw_magic_spec() + le_bytes(count, 8) + le_bytes(entrypoint as nat, 4) + seq![max_level, 0u8, 0u8, 0u8]
        + le_bytes(edges, 8)
}

/// The HNSW index file of a graph over `vectors`.
pub open spec fn spec_hnsw_file(
    vectors: Seq<ReferenceVector>,
    fraud_bits: Seq<u8>,
    levels: Seq<u8>,
    level0: Seq<[u32; 16]>,
    upper: Seq<Seq<u32>>,
    entrypoint: u32,
    max_level: u8,
) -> Seq<u8> {
    hnsw_header(vectors.len(), entrypoint, max_level, edges_before(upper, upper.len() as int) as nat)
        + blocks(vector_block(vectors), vectors.len() as int) + fraud_bits + levels + blocks(
        level0_block(level0),
        level0.len() as int,
    ) + blocks(offset_block(upper), upper.len() + 1int) + blocks(upper_block(upper), upper.len() as int)
}

proof fn lemma_edges_nonneg(upper: Seq<Seq<u32>>, k: int)
    ensures
        0 <= edges_before(upper, k),
    decreases k,
{
    if k > 0 {
        lemma_edges_nonneg(upper, k - 1);
    }
}

proof fn lemma_edges_monotone(upper: Seq<Seq<u32>>, m: int, n: int)
    requires
        0 <= m <= n,
    ensures
        0 <= edges_before(upper, m) <= edges_before(upper, n),
    decreases n - m,
{
    if m < n {
        lemma_edges_monotone(upper, m, n - 1);
    } else {
        lemma_edges_nonneg(upper, m);
    }
}

/// Appends a list of `u32` in little-endian order.
fn push_u32_list(out: &mut Vec<u8>, values: &[u32])
    ensures
        final(out)@ == old(out)@ + u32_list_bytes(values@),
{
    let mut j: usize = 0;
    while j < values.len()
        invariant
            j <= values@.len(),
            out@ == old(out)@ + blocks(|i: int| le_bytes(values@[i] as nat, 4), j as int),
        decreases values@.len() - j,
    {
        push_u32_le(out, values[j]);
        proof {
            assert(out@ =~= old(out)@ + blocks(|i: int| le_bytes(values@[i] as nat, 4), j + 1));
        }
        j = j + 1;
    }
}

/// Writes an HNSW index file.
pub fn encode_hnsw_file(
    vectors: &[ReferenceVector],
    fraud_bits: &[u8],
    levels: &[u8],
    level0: &[[u32; 16]],
    upper: &[Vec<u32>],
    entrypoint: u32,
    max_level: u8,
) -> (r: Vec<u8>)
    requires
        edges_before(lists_view(upper@), upper@.len() as int) <= u64::MAX,
    ensures
        r@ == spec_hnsw_file(vectors@, fraud_bits@, levels@, level0@, lists_view(upper@), entrypoint, max_level),
{
    let ghost lists = lists_view(upper@);
    let mut total: u64 = 0;
    let mut k: usize = 0;
    while k < upper.len()
        invariant
            lists == lists_view(upper@),
            edges_before(lists, upper@.len() as int) <= u64::MAX,
            k <= upper@.len(),
            total == edges_before(lists, k as int),
        decreases upper@.len() - k,
    {
        proof {
            lemma_edges_monotone(lists, k + 1, upper@.len() as int);
        }
        total = total + upper[k].len() as u64;
        k = k + 1;
    }
    let mut out: Vec<u8> = Vec::new();
    let magic = hnsw_magic();
    let mut i: usize = 0;
    while i < 8
        invariant
            i <= 8,
            magic@ == hnsw_magic_spec(),
            out@ == magic@.subrange(0, i as int),
        decreases 8 - i,
    {
        out.push(magic[i]);
        proof {
            assert(magic@.subrange(0, i + 1) =~= magic@.subrange(0, i as int).push(magic@[i as int]));
        }
        i = i + 1;
    }
    assert(magic@.subrange(0, 8) =~= magic@);
    push_u64_le(&mut out, vectors.len() as u64);
    push_u32_le(&mut out, entrypoint);
    out.push(max_level);
    out.push(0);
    out.push(0);
    out.push(0);
    push_u64_le(&mut out, total);
    let ghost header = out@;
    assert(header =~= hnsw_header(vectors@.len(), entrypoint, max_level, total as nat));
    let mut k: usize = 0;
    while k < vectors.len()
        invariant
            k <= vectors@.len(),
            out@ == header + blocks(vector_block(vectors@), k as int),
        decreases vectors@.len() - k,
    {
        let vector = vectors[k];
        push_vector(&mut out, &vector);
        proof {
            assert(out@ =~= header + blocks(vector_block(vectors@), k + 1));
        }
        k = k + 1;
    }
    crate::http::push_bytes(&mut out, fraud_bits);
    crate::http::push_bytes(&mut out, levels);
    let ghost with_levels = out@;
    let mut k: usize = 0;
    while k < level0.len()
        invariant
            k <= level0@.len(),
            out@ == with_levels + blocks(level0_block(level0@), k as int),
        decreases level0@.len() - k,
    {
        let neighbors = level0[k];
        push_u32_list(&mut out, &neighbors);
        proof {
            assert(out@ =~= with_levels + blocks(level0_block(level0@), k + 1));
        }
        k = k + 1;
    }
    let ghost with_level0 = out@;
    let mut offset: u64 = 0;
    push_u64_le(&mut out, offset);
    assert(edges_before(lists, 0) == 0);
    assert(blocks(offset_block(lists), 1) == blocks(offset_block(lists), 0) + offset_block(lists)(0));
    assert(out@ =~= with_level0 + blocks(offset_block(lists), 1));
    let mut k: usize = 0;
    while k < upper.len()
        invariant
            lists == lists_view(upper@),
            edges_before(lists, upper@.len() as int) <= u64::MAX,
            k <= upper@.len(),
            offset == edges_before(lists, k as int),
            out@ == with_level0 + blocks(offset_block(lists), k + 1),
        decreases upper@.len() - k,
    {
        proof {
            lemma_edges_monotone(lists, k + 1, upper@.len() as int);
        }
        offset = offset + upper[k].len() as u64;
        push_u64_le(&mut out, offset);
        proof {
            assert(out@ =~= with_level0 + blocks(offset_block(lists), k + 2));
        }
        k = k + 1;
    }
    let ghost with_offsets = out@;
    let mut k: usize = 0;
    while k < upper.len()
        invariant
            lists == lists_view(upper@),
            k <= upper@.len(),
            out@ == with_offsets + blocks(upper_block(lists), k as int),
        decreases upper@.len() - k,
    {
        push_u32_list(&mut out, upper[k].as_slice());
        proof {
            assert(out@ =~= with_offsets + blocks(upper_block(lists), k + 1));
        }
        k = k + 1;
    }
    out
}

proof fn lemma_u32_list_len(s: Seq<u32>)
    ensures
        u32_list_bytes(s).len() == 4 * s.len(),
        forall|j: int| 0 <= j < s.len() ==> window(u32_list_bytes(s), 4 * j, le_bytes(s[j] as nat, 4)),
{
    let f = |j: int| le_bytes(s[j] as nat, 4);
    assert forall|k: int| 0 <= k < s.len() implies #[trigger] f(k).len() == 4 by {
        lemma_le_bytes_len(s[k] as nat, 4);
    }
    lemma_blocks_len(f, s.len() as int, 4);
    assert forall|j: int| 0 <= j < s.len() implies window(u32_list_bytes(s), 4 * j, le_bytes(s[j] as nat, 4)) by {
        lemma_blocks_window(f, s.len() as int, 4, j);
    }
}

proof fn lemma_upper_blocks_len(upper: Seq<Seq<u32>>, k: int)
    requires
        0 <= k,
    ensures
        blocks(upper_block(upper), k).len() == 4 * edges_before(upper, k),
    decreases k,
{
    if k > 0 {
        lemma_upper_blocks_len(upper, k - 1);
        lemma_u32_list_len(upper[k - 1]);
    }
}

/// Where each section of the file starts, and that it is there.
proof fn lemma_hnsw_sections(
    vectors: Seq<ReferenceVector>,
    fraud_bits: Seq<u8>,
    levels: Seq<u8>,
    level0: Seq<[u32; 16]>,
    upper: Seq<Seq<u32>>,
    entrypoint: u32,
    max_level: u8,
)
    requires
        fraud_bits.len() == (vectors.len() + 7) / 8,
        levels.len() == vectors.len(),
        level0.len() == vectors.len(),
        upper.len() == vectors.len(),
    ensures
        ({
            let f = spec_hnsw_file(vectors, fraud_bits, levels, level0, upper, entrypoint, max_level);
            let n = vectors.len() as int;
            let e = edges_before(upper, n);
            &&& f.len() == hnsw_expected_len(n, e)
            &&& window(f, 0, hnsw_header(vectors.len(), entrypoint, max_level, e as nat))
            &&& hnsw_header(vectors.len(), entrypoint, max_level, e as nat).len() == 32
            &&& window(f, 32, blocks(vector_block(vectors), n))
            &&& window(f, 32 + 32 * n, fraud_bits)
            &&& window(f, 32 + 32 * n + (n + 7) / 8, levels)
            &&& window(f, 32 + 33 * n + (n + 7) / 8, blocks(level0_block(level0), n))
            &&& window(f, 32 + 97 * n + (n + 7) / 8, blocks(offset_block(upper), n + 1))
            &&& window(f, 32 + 105 * n + 8 + (n + 7) / 8, blocks(upper_block(upper), n))
            &&& forall|k: int| 0 <= k < n ==> #[trigger] vector_block(vectors)(k).len() == 32
            &&& forall|k: int| 0 <= k < n ==> #[trigger] level0_block(level0)(k).len() == 64
            &&& forall|k: int| 0 <= k < n + 1 ==> #[trigger] offset_block(upper)(k).len() == 8
        }),
{
    let n = vectors.len() as int;
    let e = edges_before(upper, n);
    let f = spec_hnsw_file(vectors, fraud_bits, levels, level0, upper, entrypoint, max_level);
    let h = hnsw_header(vectors.len(), entrypoint, max_level, e as nat);
    let vb = vector_block(vectors);
    let lb = level0_block(level0);
    let ob = offset_block(upper);
    let ub = upper_block(upper);
    let b1 = blocks(vb, n);
    let b2 = blocks(lb, n);
    let b3 = blocks(ob, n + 1);
    let b4 = blocks(ub, n);
    lemma_edges_nonneg(upper, n);
    lemma_le_bytes_len(vectors.len(), 8);
    lemma_le_bytes_len(entrypoint as nat, 4);
    lemma_le_bytes_len(e as nat, 8);
    assert forall|k: int| 0 <= k < n implies #[trigger] vb(k).len() == 32 by {
        let x = vector_bytes(vectors[k]@, 16);
        assert(x.subrange(0, x.len() as int) =~= x);
        lemma_vector_window(x, 0, vectors[k]@);
    }
    assert forall|k: int| 0 <= k < n implies #[trigger] lb(k).len() == 64 by {
        lemma_u32_list_len(level0[k]@);
    }
    assert forall|k: int| 0 <= k < n + 1 implies #[trigger] ob(k).len() == 8 by {
        lemma_le_bytes_len(edges_before(upper, k) as nat, 8);
    }
    lemma_blocks_len(vb, n, 32);
    lemma_blocks_len(lb, n, 64);
    lemma_blocks_len(ob, n + 1, 8);
    lemma_upper_blocks_len(upper, n);
    let p1 = h + b1;
    let p2 = p1 + fraud_bits;
    let p3 = p2 + levels;
    let p4 = p3 + b2;
    let p5 = p4 + b3;
    assert(f == p5 + b4);
    lemma_window_concat(p5, b4);
    lemma_window_concat(p4, b3);
    lemma_window_concat(p3, b2);
    lemma_window_concat(p2, levels);
    lemma_window_concat(p1, fraud_bits);
    lemma_window_concat(h, b1);
    lemma_window_nested(f, 0, p5, 0, p4);
    lemma_window_nested(f, 0, p4, 0, p3);
    lemma_window_nested(f, 0, p3, 0, p2);
    lemma_window_nested(f, 0, p2, 0, p1);
    lemma_window_nested(f, 0, p1, 0, h);
    lemma_window_nested(f, 0, p1, 32, b1);
    lemma_window_nested(f, 0, p2, 32 + 32 * n, fraud_bits);
    lemma_window_nested(f, 0, p3, 32 + 32 * n + (n + 7) / 8, levels);
    lemma_window_nested(f, 0, p4, 32 + 33 * n + (n + 7) / 8, b2);
    lemma_window_nested(f, 0, p5, 32 + 97 * n + (n + 7) / 8, b3);
}

/// The header reads back as written, with the last running total.
proof fn lemma_hnsw_header(
    vectors: Seq<ReferenceVector>,
    fraud_bits: Seq<u8>,
    levels: Seq<u8>,
    level0: Seq<[u32; 16]>,
    upper: Seq<Seq<u32>>,
    entrypoint: u32,
    max_level: u8,
)
    requires
        vectors.len() < 0x1_0000_0000_0000_0000,
        fraud_bits.len() == (vectors.len() + 7) / 8,
        levels.len() == vectors.len(),
        level0.len() == vectors.len(),
        upper.len() == vectors.len(),
        edges_before(upper, upper.len() as int) < 0x1_0000_0000_0000_0000,
    ensures
        ({
            let f = spec_hnsw_file(vectors, fraud_bits, levels, level0, upper, entrypoint, max_level);
            let n = vectors.len() as int;
            let e = edges_before(upper, n);
            &&& f.len() >= 32
            &&& f.subrange(0, 8) == hnsw_magic_spec()
            &&& u64_at(f, 8) == n
            &&& u32_at(f, 16) == entrypoint
            &&& f[20] == max_level
            &&& u64_at(f, 24) == e
            &&& u64_at(f, 32 + 97 * n + (n + 7) / 8 + 8 * n) == e
        }),
{
    let n = vectors.len() as int;
    let e = edges_before(upper, n);
    let f = spec_hnsw_file(vectors, fraud_bits, levels, level0, upper, entrypoint, max_level);
    let h = hnsw_header(vectors.len(), entrypoint, max_level, e as nat);
    lemma_hnsw_sections(vectors, fraud_bits, levels, level0, upper, entrypoint, max_level);
    lemma_edges_nonneg(upper, n);
    let m = hnsw_magic_spec();
    let c = le_bytes(vectors.len(), 8);
    let ep = le_bytes(entrypoint as nat, 4);
    let lv = seq![max_level, 0u8, 0u8, 0u8];
    let eb = le_bytes(e as nat, 8);
    lemma_le_bytes_len(vectors.len(), 8);
    lemma_le_bytes_len(entrypoint as nat, 4);
    lemma_le_bytes_len(e as nat, 8);
    lemma_window_concat(m + c + ep + lv, eb);
    lemma_window_concat(m + c + ep, lv);
    lemma_window_concat(m + c, ep);
    lemma_window_concat(m, c);
    lemma_window_nested(f, 0, h, 0, m + c + ep + lv);
    lemma_window_nested(f, 0, h, 24, eb);
    lemma_window_nested(f, 0, m + c + ep + lv, 0, m + c + ep);
    lemma_window_nested(f, 0, m + c + ep + lv, 20, lv);
    lemma_window_nested(f, 0, m + c + ep, 0, m + c);
    lemma_window_nested(f, 0, m + c + ep, 16, ep);
    lemma_window_nested(f, 0, m + c, 0, m);
    lemma_window_nested(f, 0, m + c, 8, c);
    lemma_u64_window(f, 8, vectors.len());
    lemma_u32_window(f, 16, entrypoint as nat);
    lemma_u64_window(f, 24, e as nat);
    lemma_window_byte(f, 20, lv, 0);
    assert(f.subrange(0, 8) == m);
    let offsets_at = 32 + 97 * n + (n + 7) / 8;
    let ob = offset_block(upper);
    lemma_blocks_window(ob, n + 1, 8, n);
    lemma_window_nested(f, offsets_at, blocks(ob, n + 1), n * 8, ob(n));
    lemma_u64_window(f, offsets_at + 8 * n, e as nat);
}

/// A file with these header fields, length and last running total is accepted.
proof fn lemma_hnsw_accept(f: Seq<u8>, n: int, entrypoint: int, max_level: u8, e: int)
    requires
        1 <= n,
        0 <= entrypoint < n,
        0 <= e,
        hnsw_expected_len(n, e) <= usize::MAX,
        f.len() == hnsw_expected_len(n, e),
        f.subrange(0, 8) == hnsw_magic_spec(),
        u64_at(f, 8) == n,
        u32_at(f, 16) == entrypoint,
        f[20] == max_level,
        u64_at(f, 24) == e,
        u64_at(f, 32 + 97 * n + (n + 7) / 8 + 8 * n) == e,
    ensures
        spec_read_layout(f) == Ok::<HnswLayout, HnswLayoutError>(hnsw_layout_for(n, entrypoint, max_level, e)),
{
    let l = hnsw_layout_for(n, entrypoint, max_level, e);
    assert(l.upper_offsets_offset == 32 + 97 * n + (n + 7) / 8);
    reveal(spec_read_layout);
}

proof fn lemma_hnsw_vectors(vectors: Seq<ReferenceVector>, f: Seq<u8>, l: HnswLayout)
    requires
        l.vectors_offset == 32,
        window(f, 32, blocks(vector_block(vectors), vectors.len() as int)),
        forall|k: int| 0 <= k < vectors.len() ==> #[trigger] vector_block(vectors)(k).len() == 32,
    ensures
        forall|i: int| 0 <= i < vectors.len() ==> #[trigger] ref_vector(f, l, i) == vectors[i]@,
{
    let n = vectors.len() as int;
    let vb = vector_block(vectors);
    assert forall|i: int| 0 <= i < n implies #[trigger] ref_vector(f, l, i) == vectors[i]@ by {
        lemma_blocks_window(vb, n, 32, i);
        lemma_window_nested(f, 32, blocks(vb, n), i * 32, vb(i));
        lemma_vector_window(f, 32 + 32 * i, vectors[i]@);
        assert(ref_vector(f, l, i) =~= Seq::new(16, |d: int| i16_at(f, 32 + 32 * i + 2 * d) as i16));
    }
}

proof fn lemma_hnsw_level0(level0: Seq<[u32; 16]>, f: Seq<u8>, at: int)
    requires
        window(f, at, blocks(level0_block(level0), level0.len() as int)),
        forall|k: int| 0 <= k < level0.len() ==> #[trigger] level0_block(level0)(k).len() == 64,
    ensures
        forall|i: int, s: int|
            0 <= i < level0.len() && 0 <= s < 16 ==> u32_at(f, at + 64 * i + 4 * s) == #[trigger] level0[i][s],
{
    let n = level0.len() as int;
    let lb = level0_block(level0);
    assert forall|i: int, s: int| 0 <= i < n && 0 <= s < 16 implies u32_at(f, at + 64 * i + 4 * s)
        == #[trigger] level0[i][s] by {
        lemma_blocks_window(lb, n, 64, i);
        lemma_window_nested(f, at, blocks(lb, n), i * 64, lb(i));
        lemma_u32_list_len(level0[i]@);
        lemma_window_nested(f, at + i * 64, lb(i), 4 * s, le_bytes(level0[i]@[s] as nat, 4));
        lemma_u32_window(f, at + 64 * i + 4 * s, level0[i][s] as nat);
    }
}

proof fn lemma_hnsw_offsets(upper: Seq<Seq<u32>>, f: Seq<u8>, at: int)
    requires
        window(f, at, blocks(offset_block(upper), upper.len() + 1int)),
        forall|k: int| 0 <= k < upper.len() + 1 ==> #[trigger] offset_block(upper)(k).len() == 8,
        edges_before(upper, upper.len() as int) < 0x1_0000_0000_0000_0000,
    ensures
        forall|k: int| 0 <= k <= upper.len() ==> #[trigger] u64_at(f, at + 8 * k) == edges_before(upper, k),
{
    let n = upper.len() as int;
    let ob = offset_block(upper);
    assert forall|k: int| 0 <= k <= n implies #[trigger] u64_at(f, at + 8 * k) == edges_before(upper, k) by {
        lemma_blocks_window(ob, n + 1, 8, k);
        lemma_window_nested(f, at, blocks(ob, n + 1), k * 8, ob(k));
        lemma_edges_monotone(upper, k, n);
        lemma_u64_window(f, at + 8 * k, edges_before(upper, k) as nat);
    }
}

proof fn lemma_hnsw_upper(upper: Seq<Seq<u32>>, f: Seq<u8>, at: int)
    requires
        window(f, at, blocks(upper_block(upper), upper.len() as int)),
    ensures
        forall|i: int, j: int|
            0 <= i < upper.len() && 0 <= j < upper[i].len() ==> u32_at(f, at + 4 * (edges_before(upper, i) + j))
                == #[trigger] upper[i][j],
{
    let n = upper.len() as int;
    let ub = upper_block(upper);
    assert forall|i: int, j: int| 0 <= i < n && 0 <= j < upper[i].len() implies u32_at(
        f,
        at + 4 * (edges_before(upper, i) + j),
    ) == #[trigger] upper[i][j] by {
        lemma_blocks_window_at(ub, n, i);
        lemma_upper_blocks_len(upper, i);
        lemma_window_nested(f, at, blocks(ub, n), 4 * edges_before(upper, i), ub(i));
        lemma_u32_list_len(upper[i]);
        lemma_window_nested(f, at + 4 * edges_before(upper, i), ub(i), 4 * j, le_bytes(upper[i][j] as nat, 4));
        lemma_u32_window(f, at + 4 * edges_before(upper, i) + 4 * j, upper[i][j] as nat);
    }
}

/// A file written by `encode_hnsw_file` for a consistent graph is accepted by
/// `HnswLayout::read` with the graph's counts, and every vector, fraud byte,
/// level, neighbour and running total reads back as it was written.
pub proof fn lemma_hnsw_file_roundtrip(
    vectors: Seq<ReferenceVector>,
    fraud_bits: Seq<u8>,
    levels: Seq<u8>,
    level0: Seq<[u32; 16]>,
    upper: Seq<Seq<u32>>,
    entrypoint: u32,
    max_level: u8,
)
    requires
        vectors.len() >= 1,
        entrypoint < vectors.len(),
        vectors.len() < 0x1_0000_0000_0000_0000,
        fraud_bits.len() == (vectors.len() + 7) / 8,
        levels.len() == vectors.len(),
        level0.len() == vectors.len(),
        upper.len() == vectors.len(),
        edges_before(upper, upper.len() as int) < 0x1_0000_0000_0000_0000,
        hnsw_expected_len(vectors.len() as int, edges_before(upper, upper.len() as int)) <= usize::MAX,
    ensures
        ({
            let f = spec_hnsw_file(vectors, fraud_bits, levels, level0, upper, entrypoint, max_level);
            let n = vectors.len() as int;
            let l = hnsw_layout_for(n, entrypoint as int, max_level, edges_before(upper, n));
            &&& spec_read_layout(f) == Ok::<HnswLayout, HnswLayoutError>(l)
            &&& f.len() == hnsw_expected_len(n, edges_before(upper, n))
            &&& forall|i: int| 0 <= i < n ==> #[trigger] ref_vector(f, l, i) == vectors[i]@
            &&& forall|j: int| 0 <= j < fraud_bits.len() ==> f[32 + 32 * n + j] == #[trigger] fraud_bits[j]
            &&& forall|i: int| 0 <= i < n ==> f[32 + 32 * n + (n + 7) / 8 + i] == #[trigger] levels[i]
            &&& forall|i: int, s: int|
                0 <= i < n && 0 <= s < 16 ==> u32_at(f, 32 + 33 * n + (n + 7) / 8 + 64 * i + 4 * s)
                    == #[trigger] level0[i][s]
            &&& forall|k: int|
                0 <= k <= n ==> #[trigger] u64_at(f, 32 + 97 * n + (n + 7) / 8 + 8 * k) == edges_before(upper, k)
            &&& forall|i: int, j: int|
                0 <= i < n && 0 <= j < upper[i].len() ==> u32_at(
                    f,
                    32 + 105 * n + 8 + (n + 7) / 8 + 4 * (edges_before(upper, i) + j),
                ) == #[trigger] upper[i][j]
        }),
{
    let n = vectors.len() as int;
    let f = spec_hnsw_file(vectors, fraud_bits, levels, level0, upper, entrypoint, max_level);
    let l = hnsw_layout_for(n, entrypoint as int, max_level, edges_before(upper, n));
    lemma_hnsw_sections(vectors, fraud_bits, levels, level0, upper, entrypoint, max_level);
    lemma_hnsw_header(vectors, fraud_bits, levels, level0, upper, entrypoint, max_level);
    lemma_edges_nonneg(upper, n);
    lemma_hnsw_accept(f, n, entrypoint as int, max_level, edges_before(upper, n));
    lemma_hnsw_vectors(vectors, f, l);
    assert forall|j: int| 0 <= j < fraud_bits.len() implies f[32 + 32 * n + j] == #[trigger] fraud_bits[j] by {
        lemma_window_byte(f, 32 + 32 * n, fraud_bits, j);
    }
    assert forall|i: int| 0 <= i < n implies f[32 + 32 * n + (n + 7) / 8 + i] == #[trigger] levels[i] by {
        lemma_window_byte(f, 32 + 32 * n + (n + 7) / 8, levels, i);
    }
    lemma_hnsw_level0(level0, f, 32 + 33 * n + (n + 7) / 8);
    lemma_hnsw_offsets(upper, f, 32 + 97 * n + (n + 7) / 8);
    lemma_hnsw_upper(upper, f, 32 + 105 * n + 8 + (n + 7) / 8);
}

} // verus!
