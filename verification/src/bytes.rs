//! Little- and big-endian integers inside byte buffers.
use vstd::prelude::*;

verus! {

/// The unsigned 16-bit little-endian value stored at `off`.
pub open spec fn u16_at(s: Seq<u8>, off: int) -> int {
    s[off] + 256 * s[off + 1]
}

/// The signed 16-bit little-endian (two's complement) value stored at `off`.
pub open spec fn i16_at(s: Seq<u8>, off: int) -> int {
    let u = u16_at(s, off);
    if u >= 0x8000 { u - 0x10000 } else { u }
}

/// The unsigned 32-bit little-endian value stored at `off`.
pub open spec fn u32_at(s: Seq<u8>, off: int) -> int {
    u16_at(s, off) + 0x10000 * u16_at(s, off + 2)
}

/// The unsigned 64-bit little-endian value stored at `off`.
pub open spec fn u64_at(s: Seq<u8>, off: int) -> int {
    u32_at(s, off) + 0x1_0000_0000 * u32_at(s, off + 4)
}

/// The unsigned 128-bit little-endian value stored at `off`.
pub open spec fn u128_at(s: Seq<u8>, off: int) -> int {
    u64_at(s, off) + 0x1_0000_0000_0000_0000 * u64_at(s, off + 8)
}

/// The unsigned 32-bit big-endian value stored at `off`.
pub open spec fn u32_be_at(s: Seq<u8>, off: int) -> int {
    s[off] * 0x100_0000 + s[off + 1] * 0x1_0000 + s[off + 2] * 0x100 + s[off + 3]
}

/// The little-endian bytes of an unsigned value of `n` bytes.
pub open spec fn le_bytes(v: nat, n: nat) -> Seq<u8>
    decreases n,
{
    if n == 0 {
        Seq::empty()
    } else {
        seq![(v % 256) as u8] + le_bytes(v / 256, (n - 1) as nat)
    }
}

/// The big-endian bytes of a 32-bit value.
pub open spec fn u32_be_bytes(v: u32) -> Seq<u8> {
    seq![
        (v / 0x100_0000) as u8,
        ((v / 0x1_0000) % 256) as u8,
        ((v / 0x100) % 256) as u8,
        (v % 256) as u8,
    ]
}

/// The two's complement 16-bit pattern of a signed value.
pub open spec fn i16_bits(v: i16) -> nat {
    if v < 0 { (v + 0x10000) as nat } else { v as nat }
}

pub fn read_u16_le(bytes: &[u8], offset: usize) -> (r: u16)
    requires
        offset + 2 <= bytes.len(),
    ensures
        r == u16_at(bytes@, offset as int),
{
    bytes[offset] as u16 + 256 * bytes[offset + 1] as u16
}

pub fn read_i16_le(bytes: &[u8], offset: usize) -> (r: i16)
    requires
        offset + 2 <= bytes.len(),
    ensures
        r == i16_at(bytes@, offset as int),
{
    let u = read_u16_le(bytes, offset);
    if u >= 0x8000 {
        (u as i32 - 0x10000) as i16
    } else {
        u as i16
    }
}

pub fn read_u32_le(bytes: &[u8], offset: usize) -> (r: u32)
    requires
        offset + 4 <= bytes.len(),
    ensures
        r == u32_at(bytes@, offset as int),
{
    let low = read_u16_le(bytes, offset) as u32;
    let high = read_u16_le(bytes, offset + 2) as u32;
    low + 0x10000 * high
}

pub fn read_u64_le(bytes: &[u8], offset: usize) -> (r: u64)
    requires
        offset + 8 <= bytes.len(),
    ensures
        r == u64_at(bytes@, offset as int),
{
    let low = read_u32_le(bytes, offset) as u64;
    let high = read_u32_le(bytes, offset + 4) as u64;
    low + 0x1_0000_0000 * high
}

pub fn read_u128_le(bytes: &[u8], offset: usize) -> (r: u128)
    requires
        offset + 16 <= bytes.len(),
    ensures
        r == u128_at(bytes@, offset as int),
{
    let low = read_u64_le(bytes, offset) as u128;
    let high = read_u64_le(bytes, offset + 8) as u128;
    low + 0x1_0000_0000_0000_0000 * high
}

pub fn read_u32_be(bytes: &[u8], offset: usize) -> (r: u32)
    requires
        offset + 4 <= bytes.len(),
    ensures
        r == u32_be_at(bytes@, offset as int),
{
    bytes[offset] as u32 * 0x100_0000 + bytes[offset + 1] as u32 * 0x1_0000
        + bytes[offset + 2] as u32 * 0x100 + bytes[offset + 3] as u32
}

/// Appends the `n` low little-endian bytes of `value`.
pub fn push_le(out: &mut Vec<u8>, value: u128, n: usize)
    requires
        n <= 16,
    ensures
        final(out)@ == old(out)@ + le_bytes(value as nat, n as nat),
    decreases n,
{
    if n > 0 {
        out.push((value % 256) as u8);
        push_le(out, value / 256, n - 1);
        assert(old(out)@ + le_bytes(value as nat, n as nat) =~= old(out)@.push((value % 256) as u8)
            + le_bytes((value / 256) as nat, (n - 1) as nat));
    }
}

pub fn push_u16_le(out: &mut Vec<u8>, value: u16)
    ensures
        final(out)@ == old(out)@ + le_bytes(value as nat, 2),
{
    push_le(out, value as u128, 2);
}

pub fn push_i16_le(out: &mut Vec<u8>, value: i16)
    ensures
        final(out)@ == old(out)@ + le_bytes(i16_bits(value), 2),
{
    let bits: u16 = if value < 0 {
        (value as i32 + 0x10000) as u16
    } else {
        value as u16
    };
    push_le(out, bits as u128, 2);
}

pub fn push_u32_le(out: &mut Vec<u8>, value: u32)
    ensures
        final(out)@ == old(out)@ + le_bytes(value as nat, 4),
{
    push_le(out, value as u128, 4);
}

pub fn push_u64_le(out: &mut Vec<u8>, value: u64)
    ensures
        final(out)@ == old(out)@ + le_bytes(value as nat, 8),
{
    push_le(out, value as u128, 8);
}

pub fn push_u128_le(out: &mut Vec<u8>, value: u128)
    ensures
        final(out)@ == old(out)@ + le_bytes(value as nat, 16),
{
    push_le(out, value, 16);
}

pub fn push_u32_be(out: &mut Vec<u8>, value: u32)
    ensures
        final(out)@ == old(out)@ + u32_be_bytes(value),
{
    out.push((value / 0x100_0000) as u8);
    out.push(((value / 0x1_0000) % 256) as u8);
    out.push(((value / 0x100) % 256) as u8);
    out.push((value % 256) as u8);
    assert(final(out)@ =~= old(out)@ + u32_be_bytes(value));
}

/// Two little-endian byte strings of lengths `n` and `m` decode as one of length `n + m`.
pub proof fn lemma_le_bytes_len(v: nat, n: nat)
    ensures
        le_bytes(v, n).len() == n,
    decreases n,
{
    if n > 0 {
        lemma_le_bytes_len(v / 256, (n - 1) as nat);
    }
}

/// Reading back a little-endian 16-bit value gives what was written.
pub proof fn lemma_u16_roundtrip(v: nat, prefix: Seq<u8>, suffix: Seq<u8>)
    requires
        v < 0x10000,
    ensures
        u16_at(prefix + le_bytes(v, 2) + suffix, prefix.len() as int) == v,
{
    reveal_with_fuel(le_bytes, 3);
    let s = prefix + le_bytes(v, 2) + suffix;
    assert(s[prefix.len() as int] == (v % 256) as u8);
    assert(s[prefix.len() as int + 1] == ((v / 256) % 256) as u8);
}

/// Reading back a little-endian 32-bit value gives what was written.
pub proof fn lemma_u32_roundtrip(v: nat, prefix: Seq<u8>, suffix: Seq<u8>)
    requires
        v < 0x1_0000_0000,
    ensures
        u32_at(prefix + le_bytes(v, 4) + suffix, prefix.len() as int) == v,
{
    reveal_with_fuel(le_bytes, 5);
    let s = prefix + le_bytes(v, 4) + suffix;
    let p = prefix.len() as int;
    assert(s[p] == (v % 256) as u8);
    assert(s[p + 1] == ((v / 256) % 256) as u8);
    assert(s[p + 2] == ((v / 256 / 256) % 256) as u8);
    assert(s[p + 3] == ((v / 256 / 256 / 256) % 256) as u8);
}

/// Reading back a little-endian 64-bit value gives what was written.
pub proof fn lemma_u64_roundtrip(v: nat, prefix: Seq<u8>, suffix: Seq<u8>)
    requires
        v < 0x1_0000_0000_0000_0000,
    ensures
        u64_at(prefix + le_bytes(v, 8) + suffix, prefix.len() as int) == v,
{
    reveal_with_fuel(le_bytes, 9);
    let s = prefix + le_bytes(v, 8) + suffix;
    let p = prefix.len() as int;
    assert(s[p] == (v % 256) as u8);
    assert(s[p + 1] == ((v / 256) % 256) as u8);
    assert(s[p + 2] == ((v / 256 / 256) % 256) as u8);
    assert(s[p + 3] == ((v / 256 / 256 / 256) % 256) as u8);
    assert(s[p + 4] == ((v / 256 / 256 / 256 / 256) % 256) as u8);
    assert(s[p + 5] == ((v / 256 / 256 / 256 / 256 / 256) % 256) as u8);
    assert(s[p + 6] == ((v / 256 / 256 / 256 / 256 / 256 / 256) % 256) as u8);
    assert(s[p + 7] == ((v / 256 / 256 / 256 / 256 / 256 / 256 / 256) % 256) as u8);
}


/// `256` to the power `n`.
pub open spec fn pow256(n: nat) -> nat
    decreases n,
{
    if n == 0 { 1 } else { 256 * pow256((n - 1) as nat) }
}

proof fn lemma_pow256_positive(n: nat)
    ensures
        pow256(n) > 0,
    decreases n,
{
    if n > 0 {
        lemma_pow256_positive((n - 1) as nat);
    }
}

/// The low `a` bytes of a little-endian value, then the rest.
pub proof fn lemma_le_bytes_split(v: nat, a: nat, b: nat)
    ensures
        le_bytes(v, a + b) == le_bytes(v % pow256(a), a) + le_bytes(v / pow256(a), b),
    decreases a,
{
    if a == 0 {
        assert(pow256(0) == 1);
        assert(v % 1 == 0 && v / 1 == v);
        assert(le_bytes(v % pow256(a), a) =~= Seq::<u8>::empty());
        assert(le_bytes(v, b) =~= le_bytes(v % pow256(a), a) + le_bytes(v / pow256(a), b));
    } else {
        let p = pow256((a - 1) as nat);
        lemma_pow256_positive((a - 1) as nat);
        lemma_le_bytes_split(v / 256, (a - 1) as nat, b);
        vstd::arithmetic::div_mod::lemma_mod_breakdown(v as int, 256, p as int);
        vstd::arithmetic::div_mod::lemma_div_denominator(v as int, 256, p as int);
        let m = v % (256 * p);
        assert(m == 256 * ((v / 256) % p) + v % 256);
        assert(m % 256 == v % 256);
        assert(m / 256 == (v / 256) % p);
        assert(le_bytes(v, a + b) == seq![(v % 256) as u8] + le_bytes(v / 256, (a - 1 + b) as nat));
        assert(le_bytes(m, a) == seq![(m % 256) as u8] + le_bytes(m / 256, (a - 1) as nat));
        assert(le_bytes(v, a + b) =~= le_bytes(v % pow256(a), a) + le_bytes(v / pow256(a), b));
    }
}

/// Bytes `p..p + x.len()` of `s` are `x`.
pub open spec fn window(s: Seq<u8>, p: int, x: Seq<u8>) -> bool {
    0 <= p && p + x.len() <= s.len() && s.subrange(p, p + x.len()) == x
}

/// A window of a window is a window.
pub proof fn lemma_window_nested(s: Seq<u8>, p: int, x: Seq<u8>, q: int, y: Seq<u8>)
    requires
        window(s, p, x),
        window(x, q, y),
    ensures
        window(s, p + q, y),
{
    assert(s.subrange(p + q, p + q + y.len()) =~= x.subrange(q, q + y.len()));
}

/// Both halves of a concatenation are windows of it.
pub proof fn lemma_window_concat(a: Seq<u8>, b: Seq<u8>)
    ensures
        window(a + b, 0, a),
        window(a + b, a.len() as int, b),
{
    assert((a + b).subrange(0, a.len() as int) =~= a);
    assert((a + b).subrange(a.len() as int, (a.len() + b.len()) as int) =~= b);
}

/// A byte inside a window.
pub proof fn lemma_window_byte(s: Seq<u8>, p: int, x: Seq<u8>, j: int)
    requires
        window(s, p, x),
        0 <= j < x.len(),
    ensures
        s[p + j] == x[j],
{
    assert(s.subrange(p, p + x.len())[j] == s[p + j]);
}

proof fn lemma_window_split(s: Seq<u8>, p: int, x: Seq<u8>)
    requires
        window(s, p, x),
    ensures
        s == s.subrange(0, p) + x + s.subrange(p + x.len(), s.len() as int),
{
    assert(s =~= s.subrange(0, p) + x + s.subrange(p + x.len(), s.len() as int));
}

/// A 16-bit value written at `p` reads back.
pub proof fn lemma_u16_window(s: Seq<u8>, p: int, v: nat)
    requires
        v < 0x10000,
        window(s, p, le_bytes(v, 2)),
    ensures
        u16_at(s, p) == v,
{
    lemma_window_split(s, p, le_bytes(v, 2));
    lemma_le_bytes_len(v, 2);
    lemma_u16_roundtrip(v, s.subrange(0, p), s.subrange(p + 2, s.len() as int));
}

/// A signed 16-bit value written at `p` reads back.
pub proof fn lemma_i16_window(s: Seq<u8>, p: int, v: i16)
    requires
        window(s, p, le_bytes(i16_bits(v), 2)),
    ensures
        i16_at(s, p) == v,
{
    lemma_u16_window(s, p, i16_bits(v));
}

/// A 32-bit value written at `p` reads back.
pub proof fn lemma_u32_window(s: Seq<u8>, p: int, v: nat)
    requires
        v < 0x1_0000_0000,
        window(s, p, le_bytes(v, 4)),
    ensures
        u32_at(s, p) == v,
{
    lemma_window_split(s, p, le_bytes(v, 4));
    lemma_le_bytes_len(v, 4);
    lemma_u32_roundtrip(v, s.subrange(0, p), s.subrange(p + 4, s.len() as int));
}

/// A 64-bit value written at `p` reads back.
pub proof fn lemma_u64_window(s: Seq<u8>, p: int, v: nat)
    requires
        v < 0x1_0000_0000_0000_0000,
        window(s, p, le_bytes(v, 8)),
    ensures
        u64_at(s, p) == v,
{
    lemma_window_split(s, p, le_bytes(v, 8));
    lemma_le_bytes_len(v, 8);
    lemma_u64_roundtrip(v, s.subrange(0, p), s.subrange(p + 8, s.len() as int));
}

/// A 128-bit value written at `p` reads back.
pub proof fn lemma_u128_window(s: Seq<u8>, p: int, v: nat)
    requires
        v < 0x1_0000_0000_0000_0000_0000_0000_0000_0000,
        window(s, p, le_bytes(v, 16)),
    ensures
        u128_at(s, p) == v,
{
    reveal_with_fuel(pow256, 9);
    assert(pow256(8) == 0x1_0000_0000_0000_0000);
    lemma_le_bytes_split(v, 8, 8);
    let lo = v % 0x1_0000_0000_0000_0000;
    let hi = v / 0x1_0000_0000_0000_0000;
    lemma_le_bytes_len(lo, 8);
    lemma_le_bytes_len(hi, 8);
    lemma_window_concat(le_bytes(lo, 8), le_bytes(hi, 8));
    lemma_window_nested(s, p, le_bytes(v, 16), 0, le_bytes(lo, 8));
    lemma_window_nested(s, p, le_bytes(v, 16), 8, le_bytes(hi, 8));
    lemma_u64_window(s, p, lo);
    lemma_u64_window(s, p + 8, hi);
}

/// The concatenation of `f(0), .., f(n - 1)`.
pub open spec fn blocks(f: spec_fn(int) -> Seq<u8>, n: int) -> Seq<u8>
    decreases n,
{
    if n <= 0 { Seq::empty() } else { blocks(f, n - 1) + f(n - 1) }
}

/// Blocks of one width `w` lie at multiples of `w`.
pub proof fn lemma_blocks_window(f: spec_fn(int) -> Seq<u8>, n: int, w: int, i: int)
    requires
        0 <= i < n,
        0 <= w,
        forall|k: int| 0 <= k < n ==> #[trigger] f(k).len() == w,
    ensures
        blocks(f, n).len() == n * w,
        window(blocks(f, n), i * w, f(i)),
    decreases n,
{
    lemma_blocks_len(f, n, w);
    if i < n - 1 {
        lemma_blocks_window(f, n - 1, w, i);
        lemma_window_concat(blocks(f, n - 1), f(n - 1));
        lemma_window_nested(blocks(f, n), 0, blocks(f, n - 1), i * w, f(i));
    } else {
        lemma_blocks_len(f, n - 1, w);
        lemma_window_concat(blocks(f, n - 1), f(n - 1));
        assert((n - 1) * w == i * w);
    }
}

/// The length of `n` blocks of width `w`.
pub proof fn lemma_blocks_len(f: spec_fn(int) -> Seq<u8>, n: int, w: int)
    requires
        0 <= n,
        0 <= w,
        forall|k: int| 0 <= k < n ==> #[trigger] f(k).len() == w,
    ensures
        blocks(f, n).len() == n * w,
    decreases n,
{
    if n > 0 {
        lemma_blocks_len(f, n - 1, w);
        assert(f(n - 1).len() == w);
        assert(blocks(f, n) == blocks(f, n - 1) + f(n - 1));
        assert((n - 1) * w + w == n * w) by (nonlinear_arith);
    } else {
        assert(n * w == 0) by (nonlinear_arith)
            requires n == 0;
    }
}

/// The first `m` blocks start the first `n`.
pub proof fn lemma_blocks_prefix(f: spec_fn(int) -> Seq<u8>, m: int, n: int)
    requires
        0 <= m <= n,
    ensures
        window(blocks(f, n), 0, blocks(f, m)),
    decreases n - m,
{
    if m == n {
        assert(blocks(f, n).subrange(0, blocks(f, n).len() as int) =~= blocks(f, n));
    } else {
        lemma_blocks_prefix(f, m, n - 1);
        lemma_window_concat(blocks(f, n - 1), f(n - 1));
        assert(blocks(f, n) == blocks(f, n - 1) + f(n - 1));
        lemma_window_nested(blocks(f, n), 0, blocks(f, n - 1), 0, blocks(f, m));
    }
}

/// Block `i` lies right after the blocks before it.
pub proof fn lemma_blocks_window_at(f: spec_fn(int) -> Seq<u8>, n: int, i: int)
    requires
        0 <= i < n,
    ensures
        window(blocks(f, n), blocks(f, i).len() as int, f(i)),
{
    lemma_blocks_prefix(f, i + 1, n);
    assert(blocks(f, i + 1) == blocks(f, i) + f(i));
    lemma_window_concat(blocks(f, i), f(i));
    lemma_window_nested(blocks(f, n), 0, blocks(f, i + 1), blocks(f, i).len() as int, f(i));
}

} // verus!
