//! The Morton index: entries sorted by a bit-interleaved key, searched in a
//! window around the query's key.
use vstd::prelude::*;
use vstd::arithmetic::power2::{
    lemma2_to64, lemma_pow2_adds, lemma_pow2_pos, lemma_pow2_strictly_increases, lemma_pow2_unfold, pow2,
};

use crate::ReferenceVector;
use crate::reference::{ReferenceDataset, bit_at};
use crate::bytes::{
    blocks, i16_at, i16_bits, le_bytes, lemma_blocks_len, lemma_blocks_window, lemma_i16_window,
    lemma_le_bytes_len, lemma_u128_window, lemma_u32_window, lemma_u64_window, lemma_window_byte,
    lemma_window_concat, lemma_window_nested, push_i16_le, push_u128_le, push_u32_le, push_u64_le,
    read_i16_le, read_u128_le, read_u32_le, read_u64_le, u128_at, u32_at, u64_at, window,
};

verus! {

broadcast use vstd::slice::group_slice_axioms;

/// Bytes before the first entry.
pub const MORTON_HEADER_LEN: usize = 20;
/// Bytes of one entry: a 16-byte key, 16 `i16` coordinates and a label byte.
pub const MORTON_ENTRY_LEN: usize = 49;
/// The format version this library reads and writes.
pub const MORTON_VERSION: u32 = 2;
/// Neighbours that decide a fast score.
pub const FAST_K: usize = 11;
/// The eleventh neighbour must lie within this L1 distance for a fast score.
pub const FAST_D11_LIMIT: u32 = 5_000;
/// Entries searched on each side of the query's position, unless configured.
pub const DEFAULT_MORTON_WINDOW: usize = 512;

/// `RMORTON1`.
pub open spec fn morton_magic_spec() -> Seq<u8> {
    seq![82u8, 77, 79, 82, 84, 79, 78, 49]
}

pub fn morton_magic() -> (r: [u8; 8])
    ensures
        r@ == morton_magic_spec(),
{
    let r: [u8; 8] = [82, 77, 79, 82, 84, 79, 78, 49];
    assert(r@ =~= morton_magic_spec());
    r
}

/// A reference vector with its label and Morton key.
#[derive(Clone, Copy)]
pub struct MortonEntry {
    pub key: u128,
    pub vector: ReferenceVector,
    pub label: u8,
}

/// `value` clamped to `lo..=hi`.
pub open spec fn clamp(value: int, lo: int, hi: int) -> int {
    if value < lo { lo } else if value > hi { hi } else { value }
}

/// A coordinate in `0..=10 000` mapped to a byte, rounding to nearest.
pub open spec fn spec_quantize_normal(value: i16) -> u8 {
    ((clamp(value as int, 0, 10_000) * 255 + 5_000) / 10_000) as u8
}

/// A coordinate in `-10 000..=10 000` mapped to a byte, rounding to nearest.
pub open spec fn spec_quantize_optional(value: i16) -> u8 {
    ((clamp(value + 10_000, 0, 20_000) * 255 + 10_000) / 20_000) as u8
}

/// Dimensions 5 and 6 may hold -1 for "no previous transaction"; the others lie in `0..=1`.
pub open spec fn spec_quantize_to_byte(dimension: int, value: i16) -> u8 {
    if dimension == 5 || dimension == 6 {
        spec_quantize_optional(value)
    } else {
        spec_quantize_normal(value)
    }
}

/// Bit `j` of the key, most significant first: bit `7 - j / 16` of the byte of dimension `j % 16`.
pub open spec fn key_bit(v: Seq<i16>, j: int) -> int {
    (spec_quantize_to_byte(j % 16, v[j % 16]) as int / pow2((7 - j / 16) as nat) as int) % 2
}

/// The key built from its first `n` bits.
pub open spec fn key_prefix(v: Seq<i16>, n: int) -> int
    decreases n,
{
    if n <= 0 { 0 } else { 2 * key_prefix(v, n - 1) + key_bit(v, n - 1) }
}

/// The Morton key of a vector: the bits of its 16 quantized bytes interleaved,
/// most significant bits first.
pub open spec fn spec_morton_key(v: Seq<i16>) -> int {
    key_prefix(v, 128)
}

/// The byte dimension `d` of `v` contributes to the key.
pub open spec fn key_byte(v: Seq<i16>, d: int) -> int {
    spec_quantize_to_byte(d, v[d]) as int
}

/// The top `t` bits of a byte `q`.
pub open spec fn high_bits(q: int, t: int) -> int {
    q / pow2((8 - t) as nat) as int
}

/// How many bits of dimension `d` the first `n` bits of the key hold.
pub open spec fn bits_taken(n: int, d: int) -> int {
    n / 16 + if d < n % 16 { 1int } else { 0int }
}

/// Taking one more top bit of a byte doubles the top bits and adds that bit.
proof fn lemma_high_bits_step(q: int, t: int)
    requires
        0 <= q < 256,
        0 <= t < 8,
    ensures
        high_bits(q, t + 1) == 2 * high_bits(q, t) + (q / pow2((7 - t) as nat) as int) % 2,
        0 <= (q / pow2((7 - t) as nat) as int) % 2 <= 1,
{
    let p = pow2((7 - t) as nat) as int;
    lemma_pow2_unfold((8 - t) as nat);
    assert(pow2((8 - t) as nat) == 2 * pow2((7 - t) as nat));
    lemma_pow2_pos((7 - t) as nat);
    vstd::arithmetic::div_mod::lemma_div_denominator(q, p, 2);
    assert(p * 2 == 2 * p) by (nonlinear_arith);
    vstd::arithmetic::div_mod::lemma_fundamental_div_mod(q / p, 2);
    vstd::arithmetic::div_mod::lemma_div_pos_is_pos(q, p);
}

/// A larger byte has top bits no smaller.
proof fn lemma_high_bits_ordered(a: int, b: int, t: int)
    requires
        0 <= a <= b,
        0 <= t <= 8,
    ensures
        high_bits(a, t) <= high_bits(b, t),
{
    lemma_pow2_pos((8 - t) as nat);
    vstd::arithmetic::div_mod::lemma_div_is_ordered(a, b, pow2((8 - t) as nat) as int);
}

/// Over the first `n` bits, the key of `v` is below that of `w`, or the two
/// agree and so do the bits of every byte taken so far.
proof fn lemma_key_prefix_order(v: Seq<i16>, w: Seq<i16>, n: int)
    requires
        forall|d: int| 0 <= d < 16 ==> #[trigger] key_byte(v, d) <= key_byte(w, d),
        0 <= n <= 128,
    ensures
        key_prefix(v, n) < key_prefix(w, n) || (key_prefix(v, n) == key_prefix(w, n) && forall|d: int|
            0 <= d < 16 ==> #[trigger] high_bits(key_byte(v, d), bits_taken(n, d)) == high_bits(
                key_byte(w, d),
                bits_taken(n, d),
            )),
    decreases n,
{
    if n == 0 {
        assert forall|d: int| 0 <= d < 16 implies #[trigger] high_bits(key_byte(v, d), bits_taken(0, d)) == high_bits(
            key_byte(w, d),
            bits_taken(0, d),
        ) by {
            lemma2_to64();
            assert(bits_taken(0, d) == 0);
            assert(key_byte(v, d) / 256 == 0 && key_byte(w, d) / 256 == 0);
        }
    } else {
        let m = n - 1;
        lemma_key_prefix_order(v, w, m);
        let d0 = m % 16;
        let t = m / 16;
        assert(bits_taken(m, d0) == t);
        let a = key_byte(v, d0);
        let b = key_byte(w, d0);
        lemma_high_bits_step(a, t);
        lemma_high_bits_step(b, t);
        lemma_high_bits_ordered(a, b, t + 1);
        assert(key_bit(v, m) == (a / pow2((7 - t) as nat) as int) % 2);
        assert(key_bit(w, m) == (b / pow2((7 - t) as nat) as int) % 2);
        assert(key_prefix(v, n) == 2 * key_prefix(v, m) + key_bit(v, m));
        assert(key_prefix(w, n) == 2 * key_prefix(w, m) + key_bit(w, m));
        if key_prefix(v, m) < key_prefix(w, m) {
        } else if key_bit(v, m) < key_bit(w, m) {
        } else {
            assert(key_bit(v, m) == key_bit(w, m));
            assert forall|d: int| 0 <= d < 16 implies #[trigger] high_bits(key_byte(v, d), bits_taken(n, d)) == high_bits(
                key_byte(w, d),
                bits_taken(n, d),
            ) by {
                if d == d0 {
                    assert(bits_taken(n, d) == t + 1);
                } else {
                    assert(bits_taken(n, d) == bits_taken(m, d));
                }
            }
        }
    }
}

/// Bit `j` of the first `n` bits of the key, counted from the most
/// significant, is `key_bit(v, j)`.
proof fn lemma_key_prefix_bits(v: Seq<i16>, n: int)
    requires
        0 <= n <= 128,
    ensures
        key_prefix(v, n) >= 0,
        forall|j: int| 0 <= j < n ==> (#[trigger] key_prefix(v, n) / pow2((n - 1 - j) as nat) as int) % 2 == key_bit(v, j),
    decreases n,
{
    if n > 0 {
        let m = n - 1;
        lemma_key_prefix_bits(v, m);
        let x = key_prefix(v, m);
        let bit = key_bit(v, m);
        lemma_pow2_pos((7 - m / 16) as nat);
        assert(0 <= bit <= 1) by {
            vstd::arithmetic::div_mod::lemma_div_pos_is_pos(key_byte(v, m % 16), pow2((7 - m / 16) as nat) as int);
        }
        assert(key_prefix(v, n) == 2 * x + bit);
        assert forall|j: int| 0 <= j < n implies (#[trigger] key_prefix(v, n) / pow2((n - 1 - j) as nat) as int) % 2
            == key_bit(v, j) by {
            if j == m {
                lemma2_to64();
                assert(pow2((n - 1 - j) as nat) == 1);
                assert((2 * x + bit) / 1 == 2 * x + bit);
                assert((2 * x + bit) % 2 == bit);
                assert(key_prefix(v, n) / pow2((n - 1 - j) as nat) as int == 2 * x + bit);
            } else {
                let p = pow2((m - 1 - j) as nat) as int;
                lemma_pow2_pos((m - 1 - j) as nat);
                lemma_pow2_unfold((n - 1 - j) as nat);
                assert(pow2((n - 1 - j) as nat) == 2 * pow2((m - 1 - j) as nat));
                assert((2 * x + bit) / 2 == x);
                vstd::arithmetic::div_mod::lemma_div_denominator(2 * x + bit, 2, p);
                assert(((2 * x + bit) / 2) / p == (2 * x + bit) / (2 * p));
                assert((x / p) % 2 == key_bit(v, j));
                assert(key_prefix(v, n) / pow2((n - 1 - j) as nat) as int == x / p);
            }
        }
    }
}

/// The bit layout of the key: bit `bit` (from the top) of the byte of
/// dimension `d` sits at position `16 * bit + d` from the key's most
/// significant end.
pub proof fn lemma_morton_key_bits(v: Seq<i16>, bit: int, d: int)
    requires
        0 <= bit < 8,
        0 <= d < 16,
    ensures
        (spec_morton_key(v) / pow2((127 - (16 * bit + d)) as nat) as int) % 2 == (spec_quantize_to_byte(d, v[d])
            as int / pow2((7 - bit) as nat) as int) % 2,
{
    lemma_key_prefix_bits(v, 128);
    let j = 16 * bit + d;
    assert(j % 16 == d && j / 16 == bit);
    assert((key_prefix(v, 128) / pow2((128 - 1 - j) as nat) as int) % 2 == key_bit(v, j));
}

/// The same layout read with shifts and masks on the key as the library
/// computes it: bit `bit` of the byte of dimension `d` is bit
/// `127 - (16 * bit + d)` of the `u128` key.
pub proof fn lemma_morton_key_shift_bits(v: Seq<i16>, key: u128, bit: u32, d: u32)
    requires
        key == spec_morton_key(v),
        bit < 8,
        d < 16,
    ensures
        (key >> ((127 - (16 * bit + d)) as u128)) & 1 == ((spec_quantize_to_byte(d as int, v[d as int]) >> ((7
            - bit) as u8)) & 1) as u128,
{
    let s: u128 = (127 - (16 * bit + d)) as u128;
    let q: u8 = spec_quantize_to_byte(d as int, v[d as int]);
    let t: u8 = (7 - bit) as u8;
    lemma_morton_key_bits(v, bit as int, d as int);
    vstd::bits::lemma_u128_shr_is_div(key, s);
    vstd::bits::lemma_u8_shr_is_div(q, t);
    let ks: u128 = key >> s;
    let qs: u8 = q >> t;
    assert(ks & 1 == ks % 2) by (bit_vector);
    assert(qs & 1 == qs % 2) by (bit_vector);
    assert(ks == key as int / pow2(s as nat) as int);
    assert(qs == q as int / pow2(t as nat) as int);
}

/// A coordinate no larger gives a byte no larger.
proof fn lemma_quantize_ordered(d: int, x: i16, y: i16)
    requires
        x <= y,
    ensures
        spec_quantize_to_byte(d, x) <= spec_quantize_to_byte(d, y),
{
    if d == 5 || d == 6 {
        let cx = clamp(x + 10_000, 0, 20_000);
        let cy = clamp(y + 10_000, 0, 20_000);
        assert(cx * 255 + 10_000 <= cy * 255 + 10_000) by (nonlinear_arith)
            requires cx <= cy;
        vstd::arithmetic::div_mod::lemma_div_is_ordered(cx * 255 + 10_000, cy * 255 + 10_000, 20_000);
        assert((cy * 255 + 10_000) / 20_000 <= 255) by (nonlinear_arith)
            requires 0 <= cy <= 20_000;
        assert((cx * 255 + 10_000) / 20_000 >= 0) by (nonlinear_arith)
            requires 0 <= cx <= 20_000;
    } else {
        let cx = clamp(x as int, 0, 10_000);
        let cy = clamp(y as int, 0, 10_000);
        assert(cx * 255 + 5_000 <= cy * 255 + 5_000) by (nonlinear_arith)
            requires cx <= cy;
        vstd::arithmetic::div_mod::lemma_div_is_ordered(cx * 255 + 5_000, cy * 255 + 5_000, 10_000);
        assert((cy * 255 + 5_000) / 10_000 <= 255) by (nonlinear_arith)
            requires 0 <= cy <= 10_000;
        assert((cx * 255 + 5_000) / 10_000 >= 0) by (nonlinear_arith)
            requires 0 <= cx <= 10_000;
    }
}

/// The Morton key keeps the order of the coordinates: a vector no larger in
/// every dimension has a key no larger.
pub proof fn lemma_morton_key_monotone(v: Seq<i16>, w: Seq<i16>)
    requires
        forall|d: int| 0 <= d < 16 ==> #[trigger] v[d] <= w[d],
    ensures
        spec_morton_key(v) <= spec_morton_key(w),
{
    assert forall|d: int| 0 <= d < 16 implies #[trigger] key_byte(v, d) <= key_byte(w, d) by {
        assert(v[d] <= w[d]);
        lemma_quantize_ordered(d, v[d], w[d]);
    }
    lemma_key_prefix_order(v, w, 128);
}

fn quantize_normal(value: i16) -> (r: u8)
    ensures
        r == spec_quantize_normal(value),
{
    let clamped: u32 = if (value as i32) < 0 {
        0
    } else if (value as i32) > 10_000 {
        10_000
    } else {
        value as u32
    };
    ((clamped * 255 + 5_000) / 10_000) as u8
}

fn quantize_optional(value: i16) -> (r: u8)
    ensures
        r == spec_quantize_optional(value),
{
    let shifted: i32 = value as i32 + 10_000;
    let clamped: u32 = if shifted < 0 {
        0
    } else if shifted > 20_000 {
        20_000
    } else {
        shifted as u32
    };
    ((clamped * 255 + 10_000) / 20_000) as u8
}

/// The byte a coordinate contributes to the key.
pub fn quantize_to_byte(dimension: usize, value: i16) -> (r: u8)
    ensures
        r == spec_quantize_to_byte(dimension as int, value),
{
    if dimension == 5 || dimension == 6 {
        quantize_optional(value)
    } else {
        quantize_normal(value)
    }
}

proof fn lemma_key_prefix_bound(v: Seq<i16>, n: int)
    requires
        0 <= n,
    ensures
        0 <= key_prefix(v, n) < pow2(n as nat),
    decreases n,
{
    vstd::arithmetic::power2::lemma_pow2_pos(n as nat);
    if n > 0 {
        lemma_key_prefix_bound(v, n - 1);
        lemma_pow2_unfold(n as nat);
        assert(pow2(n as nat) == 2 * pow2((n - 1) as nat));
        let q = spec_quantize_to_byte((n - 1) % 16, v[(n - 1) % 16]) as int;
        let p = pow2((7 - (n - 1) / 16) as nat) as int;
        vstd::arithmetic::power2::lemma_pow2_pos((7 - (n - 1) / 16) as nat);
        assert(0 <= (q / p) % 2 < 2);
    }
}

proof fn lemma_pow2_127()
    ensures
        pow2(127) == 0x8000_0000_0000_0000_0000_0000_0000_0000,
{
    lemma2_to64();
    vstd::arithmetic::power2::lemma2_to64_rest();
    lemma_pow2_adds(63, 64);
    assert(pow2(63) * pow2(64) == 0x8000_0000_0000_0000_0000_0000_0000_0000);
}

/// Bit `shift` of a byte.
fn byte_bit(byte: u8, shift: u32) -> (r: u128)
    requires
        shift < 8,
    ensures
        r == (byte as int / pow2(shift as nat) as int) % 2,
{
    proof {
        lemma2_to64();
    }
    let p: u32 = if shift == 0 { 1 } else if shift == 1 { 2 } else if shift == 2 { 4 } else if shift == 3 {
        8
    } else if shift == 4 { 16 } else if shift == 5 { 32 } else if shift == 6 { 64 } else { 128 };
    ((byte as u32 / p) % 2) as u128
}

/// The Morton key of a vector.
pub fn morton_key(vector: &ReferenceVector) -> (r: u128)
    ensures
        r == spec_morton_key(vector@),
{
    let mut key: u128 = 0;
    let mut bit: usize = 0;
    while bit < 8
        invariant
            bit <= 8,
            key == key_prefix(vector@, 16 * bit as int),
        decreases 8 - bit,
    {
        let mut dimension: usize = 0;
        while dimension < 16
            invariant
                bit < 8,
                dimension <= 16,
                key == key_prefix(vector@, 16 * bit + dimension as int),
            decreases 16 - dimension,
        {
            let byte = quantize_to_byte(dimension, vector[dimension]);
            let b = byte_bit(byte, (7 - bit) as u32);
            proof {
                let n = 16 * bit + dimension as int;
                lemma_key_prefix_bound(vector@, n);
                lemma_pow2_127();
                if n < 127 {
                    lemma_pow2_strictly_increases(n as nat, 127);
                }
                assert(n % 16 == dimension as int);
                assert(n / 16 == bit as int);
            }
            key = key * 2 + b;
            dimension = dimension + 1;
        }
        bit = bit + 1;
    }
    key
}

/// A vector with its label and Morton key.
pub fn entry(vector: ReferenceVector, label: u8) -> (r: MortonEntry)
    ensures
        r.key == spec_morton_key(vector@),
        r.vector == vector,
        r.label == label,
{
    MortonEntry { key: morton_key(&vector), vector, label }
}


/// Entry `i` of a dataset: reference `i`, its fraud bit and its key.
pub open spec fn dataset_entry(dataset: ReferenceDataset, i: int) -> MortonEntry {
    MortonEntry {
        key: spec_morton_key(dataset.vectors@[i]@) as u128,
        vector: dataset.vectors@[i],
        label: if bit_at(dataset.fraud_bits@, i) { 1u8 } else { 0u8 },
    }
}

/// The entries of every reference of a dataset, in the dataset's order.
pub open spec fn dataset_entries(dataset: ReferenceDataset) -> Seq<MortonEntry> {
    Seq::new(dataset.vectors@.len(), |i: int| dataset_entry(dataset, i))
}

/// Keys ascend through `entries`.
pub open spec fn keys_ascend(entries: Seq<MortonEntry>) -> bool {
    forall|i: int, j: int| 0 <= i <= j < entries.len() ==> entries[i].key <= entries[j].key
}

/// `slice::sort_unstable_by_key` on entries, keyed by their Morton key:
/// afterwards the keys ascend and the entries are those from before. Where
/// entries with equal keys end up is not stated.
#[verifier::external_body]
fn sort_by_key(entries: &mut Vec<MortonEntry>)
    ensures
        final(entries)@.to_multiset() == old(entries)@.to_multiset(),
        keys_ascend(final(entries)@),
{
    entries.sort_unstable_by_key(|entry| entry.key);
}

/// The entries a Morton index is written from: one per reference of the
/// dataset, with its fraud bit as label, sorted by key.
pub fn morton_entries(dataset: &ReferenceDataset) -> (r: Vec<MortonEntry>)
    requires
        dataset.wf(),
    ensures
        r@.to_multiset() == dataset_entries(*dataset).to_multiset(),
        keys_ascend(r@),
{
    let n = dataset.len();
    let mut entries: Vec<MortonEntry> = Vec::new();
    let mut i: usize = 0;
    while i < n
        invariant
            dataset.wf(),
            n == dataset.vectors@.len(),
            i <= n,
            entries@ == dataset_entries(*dataset).subrange(0, i as int),
        decreases n - i,
    {
        let e = entry(dataset.vector_at(i), dataset.label_at(i));
        entries.push(e);
        assert(entries@ =~= dataset_entries(*dataset).subrange(0, i + 1));
        i = i + 1;
    }
    assert(entries@ =~= dataset_entries(*dataset));
    sort_by_key(&mut entries);
    entries
}

/// Why a Morton index file was refused.
#[derive(Debug, Clone, Copy, PartialEq, Eq, Structural)]
pub enum MortonError {
    InvalidMagic,
    UnsupportedVersion,
    InvalidLength,
}

impl MortonError {
    pub fn message(&self) -> (r: &'static str)
        ensures
            r@ == match self {
                MortonError::InvalidMagic => "invalid morton index magic"@,
                MortonError::UnsupportedVersion => "unsupported morton index version"@,
                MortonError::InvalidLength => "invalid morton index length"@,
            },
    {
        match self {
            MortonError::InvalidMagic => "invalid morton index magic",
            MortonError::UnsupportedVersion => "unsupported morton index version",
            MortonError::InvalidLength => "invalid morton index length",
        }
    }
}

/// How a Morton index file is judged: the entry count it declares, when it is well formed.
pub open spec fn spec_morton_count(b: Seq<u8>) -> Result<int, MortonError> {
    if b.len() < 20 || b.subrange(0, 8) != morton_magic_spec() {
        Err(MortonError::InvalidMagic)
    } else if u32_at(b, 8) != 2 {
        Err(MortonError::UnsupportedVersion)
    } else if b.len() != 20 + u64_at(b, 12) * 49 {
        Err(MortonError::InvalidLength)
    } else {
        Ok(u64_at(b, 12))
    }
}

/// Offset of entry `i`.
pub open spec fn entry_offset(i: int) -> int {
    20 + 49 * i
}

pub open spec fn entry_key(b: Seq<u8>, i: int) -> int {
    u128_at(b, entry_offset(i))
}

pub open spec fn entry_vector(b: Seq<u8>, i: int) -> Seq<i16> {
    Seq::new(16, |d: int| i16_at(b, entry_offset(i) + 16 + 2 * d) as i16)
}

pub open spec fn entry_label(b: Seq<u8>, i: int) -> u8 {
    b[entry_offset(i) + 48]
}

/// The sum of absolute coordinate differences over the first `n` dimensions.
pub open spec fn l1_prefix(a: Seq<i16>, b: Seq<i16>, n: int) -> int
    decreases n,
{
    if n <= 0 {
        0
    } else {
        let d = a[n - 1] - b[n - 1];
        l1_prefix(a, b, n - 1) + if d < 0 { -d } else { d }
    }
}

/// The L1 distance over all 16 dimensions.
pub open spec fn spec_l1_distance(a: Seq<i16>, b: Seq<i16>) -> int {
    l1_prefix(a, b, 16)
}

proof fn lemma_l1_bounds(a: Seq<i16>, b: Seq<i16>, n: int)
    requires
        0 <= n,
    ensures
        0 <= l1_prefix(a, b, n) <= n * 65535,
    decreases n,
{
    if n > 0 {
        lemma_l1_bounds(a, b, n - 1);
    }
}

/// The L1 distance between two vectors.
pub fn l1_distance(left: &ReferenceVector, right: &ReferenceVector) -> (r: u32)
    ensures
        r == spec_l1_distance(left@, right@),
{
    let mut sum: u32 = 0;
    let mut i: usize = 0;
    while i < 16
        invariant
            i <= 16,
            sum == l1_prefix(left@, right@, i as int),
        decreases 16 - i,
    {
        proof {
            lemma_l1_bounds(left@, right@, i as int);
        }
        let d: i32 = left[i] as i32 - right[i] as i32;
        let a: u32 = if d < 0 { (-d) as u32 } else { d as u32 };
        sum = sum + a;
        i = i + 1;
    }
    sum
}

/// Reads the entry at the start of `raw`.
pub fn decode_entry(raw: &[u8]) -> (r: MortonEntry)
    requires
        raw@.len() >= 49,
    ensures
        r.key == u128_at(raw@, 0),
        r.vector@ == Seq::new(16, |d: int| i16_at(raw@, 16 + 2 * d) as i16),
        r.label == raw@[48],
{
    let key = read_u128_le(raw, 0);
    let mut vector: ReferenceVector = [0; 16];
    let mut d: usize = 0;
    while d < 16
        invariant
            raw@.len() >= 49,
            d <= 16,
            forall|k: int| 0 <= k < d ==> vector@[k] == i16_at(raw@, 16 + 2 * k),
        decreases 16 - d,
    {
        vector[d] = read_i16_le(raw, 16 + 2 * d);
        d = d + 1;
    }
    assert(vector@ =~= Seq::new(16, |d: int| i16_at(raw@, 16 + 2 * d) as i16));
    MortonEntry { key, vector, label: raw[48] }
}

/// The little-endian bytes of coordinate `d`.
pub open spec fn coordinate_bytes(v: Seq<i16>) -> spec_fn(int) -> Seq<u8> {
    |d: int| le_bytes(i16_bits(v[d]), 2)
}

/// The little-endian bytes of the first `n` coordinates.
pub open spec fn vector_bytes(v: Seq<i16>, n: int) -> Seq<u8> {
    blocks(coordinate_bytes(v), n)
}

/// Reading the coordinates back from where a vector was written.
pub proof fn lemma_vector_window(s: Seq<u8>, p: int, v: Seq<i16>)
    requires
        v.len() == 16,
        window(s, p, vector_bytes(v, 16)),
    ensures
        Seq::new(16, |d: int| i16_at(s, p + 2 * d) as i16) == v,
        vector_bytes(v, 16).len() == 32,
{
    let f = coordinate_bytes(v);
    assert forall|k: int| 0 <= k < 16 implies #[trigger] f(k).len() == 2 by {
        lemma_le_bytes_len(i16_bits(v[k]), 2);
    }
    lemma_blocks_len(f, 16, 2);
    assert forall|d: int| 0 <= d < 16 implies i16_at(s, p + 2 * d) == v[d] by {
        lemma_blocks_window(f, 16, 2, d);
        lemma_window_nested(s, p, vector_bytes(v, 16), d * 2, f(d));
        lemma_i16_window(s, p + 2 * d, v[d]);
    }
    assert(Seq::new(16, |d: int| i16_at(s, p + 2 * d) as i16) =~= v);
}

/// Appends the little-endian bytes of a vector.
pub fn push_vector(out: &mut Vec<u8>, vector: &ReferenceVector)
    ensures
        final(out)@ == old(out)@ + vector_bytes(vector@, 16),
{
    let mut d: usize = 0;
    while d < 16
        invariant
            d <= 16,
            out@ == old(out)@ + vector_bytes(vector@, d as int),
        decreases 16 - d,
    {
        push_i16_le(out, vector[d]);
        proof {
            assert(old(out)@ + vector_bytes(vector@, d + 1) =~= old(out)@ + vector_bytes(vector@, d as int)
                + le_bytes(i16_bits(vector@[d as int]), 2));
        }
        d = d + 1;
    }
}

/// The bytes of one entry.
pub open spec fn entry_bytes(e: MortonEntry) -> Seq<u8> {
    le_bytes(e.key as nat, 16) + vector_bytes(e.vector@, 16) + seq![e.label]
}

/// The bytes of entry `k`.
pub open spec fn entry_block(entries: Seq<MortonEntry>) -> spec_fn(int) -> Seq<u8> {
    |k: int| entry_bytes(entries[k])
}

/// The bytes of the first `n` entries.
pub open spec fn entries_bytes(entries: Seq<MortonEntry>, n: int) -> Seq<u8> {
    blocks(entry_block(entries), n)
}

/// The bytes of a Morton index file holding `entries`.
pub open spec fn spec_morton_file(entries: Seq<MortonEntry>) -> Seq<u8> {
    morton_magic_spec() + le_bytes(2, 4) + le_bytes(entries.len(), 8) + entries_bytes(
        entries,
        entries.len() as int,
    )
}

/// Serializes entries into a Morton index file.
pub fn encode_morton(entries: &[MortonEntry]) -> (r: Vec<u8>)
    ensures
        r@ == spec_morton_file(entries@),
{
    let mut out: Vec<u8> = Vec::new();
    let magic = morton_magic();
    let mut i: usize = 0;
    while i < 8
        invariant
            i <= 8,
            magic@ == morton_magic_spec(),
            out@ == magic@.subrange(0, i as int),
        decreases 8 - i,
    {
        out.push(magic[i]);
        proof {
            assert(magic@.subrange(0, i + 1) =~= magic@.subrange(0, i as int).push(magic@[i as int]));
        }
        i = i + 1;
    }
    assert(magic@.subrange(0, 8) =~= magic@);
    push_u32_le(&mut out, MORTON_VERSION);
    push_u64_le(&mut out, entries.len() as u64);
    let ghost header = out@;
    let mut k: usize = 0;
    while k < entries.len()
        invariant
            k <= entries@.len(),
            header == morton_magic_spec() + le_bytes(2, 4) + le_bytes(entries@.len(), 8),
            out@ == header + entries_bytes(entries@, k as int),
        decreases entries@.len() - k,
    {
        let e = entries[k];
        push_u128_le(&mut out, e.key);
        push_vector(&mut out, &e.vector);
        out.push(e.label);
        proof {
            assert(out@ =~= header + entries_bytes(entries@, k + 1));
        }
        k = k + 1;
    }
    out
}


/// An entry reads back from where it was written.
proof fn lemma_entry_window(s: Seq<u8>, p: int, e: MortonEntry)
    requires
        window(s, p, entry_bytes(e)),
    ensures
        entry_bytes(e).len() == 49,
        u128_at(s, p) == e.key,
        Seq::new(16, |d: int| i16_at(s, p + 16 + 2 * d) as i16) == e.vector@,
        s[p + 48] == e.label,
{
    let k = le_bytes(e.key as nat, 16);
    let v = vector_bytes(e.vector@, 16);
    lemma_le_bytes_len(e.key as nat, 16);
    assert(v.subrange(0, v.len() as int) =~= v);
    lemma_vector_window(v, 0, e.vector@);
    lemma_window_concat(k, v);
    lemma_window_concat(k + v, seq![e.label]);
    lemma_window_nested(s, p, entry_bytes(e), 0, k + v);
    lemma_window_nested(s, p, k + v, 0, k);
    lemma_window_nested(s, p, k + v, 16, v);
    lemma_window_nested(s, p, entry_bytes(e), 48, seq![e.label]);
    lemma_u128_window(s, p, e.key as nat);
    lemma_vector_window(s, p + 16, e.vector@);
    lemma_window_byte(s, p + 48, seq![e.label], 0);
    assert(Seq::new(16, |d: int| i16_at(s, p + 16 + 2 * d) as i16) =~= Seq::new(
        16,
        |d: int| i16_at(s, (p + 16) + 2 * d) as i16,
    ));
}

/// A file written by `encode_morton` is accepted by `Morton::from_bytes` with
/// the same number of entries, and every entry reads back as it was written.
#[verifier::spinoff_prover]
pub proof fn lemma_morton_file_roundtrip(entries: Seq<MortonEntry>)
    requires
        entries.len() < 0x1_0000_0000_0000_0000,
    ensures
        spec_morton_count(spec_morton_file(entries)) == Ok::<int, MortonError>(entries.len() as int),
        forall|i: int|
            0 <= i < entries.len() ==> entry_key(spec_morton_file(entries), i) == #[trigger] entries[i].key
                && entry_vector(spec_morton_file(entries), i) == entries[i].vector@ && entry_label(
                spec_morton_file(entries),
                i,
            ) == entries[i].label,
{
    let n = entries.len() as int;
    let f = spec_morton_file(entries);
    let h1 = morton_magic_spec();
    let h2 = le_bytes(2, 4);
    let h3 = le_bytes(entries.len(), 8);
    let body = entries_bytes(entries, n);
    let eb = entry_block(entries);
    lemma_le_bytes_len(2, 4);
    lemma_le_bytes_len(entries.len(), 8);
    assert forall|k: int| 0 <= k < n implies #[trigger] eb(k).len() == 49 by {
        let x = entry_bytes(entries[k]);
        assert(x.subrange(0, x.len() as int) =~= x);
        lemma_entry_window(x, 0, entries[k]);
    }
    lemma_blocks_len(eb, n, 49);
    lemma_window_concat(h1 + h2 + h3, body);
    lemma_window_concat(h1 + h2, h3);
    lemma_window_concat(h1, h2);
    lemma_window_nested(f, 0, h1 + h2 + h3, 0, h1 + h2);
    lemma_window_nested(f, 0, h1 + h2, 0, h1);
    lemma_window_nested(f, 0, h1 + h2, 8, h2);
    lemma_window_nested(f, 0, h1 + h2 + h3, 12, h3);
    lemma_u32_window(f, 8, 2);
    lemma_u64_window(f, 12, entries.len());
    assert(f.subrange(0, 8) == h1);
    assert(f.len() == 20 + n * 49);
    assert forall|i: int| 0 <= i < n implies entry_key(f, i) == #[trigger] entries[i].key && entry_vector(f, i)
        == entries[i].vector@ && entry_label(f, i) == entries[i].label by {
        lemma_blocks_window(eb, n, 49, i);
        lemma_window_nested(f, 20, body, i * 49, eb(i));
        lemma_entry_window(f, 20 + 49 * i, entries[i]);
        assert(entry_vector(f, i) =~= Seq::new(16, |d: int| i16_at(f, 20 + 49 * i + 16 + 2 * d) as i16));
    }
}

/// The first 8 bytes are the Morton magic.
fn starts_with_morton_magic(bytes: &[u8]) -> (r: bool)
    requires
        8 <= bytes@.len(),
    ensures
        r == (bytes@.subrange(0, 8) == morton_magic_spec()),
{
    let magic = morton_magic();
    let mut i: usize = 0;
    while i < 8
        invariant
            i <= 8 <= bytes@.len(),
            magic@ == morton_magic_spec(),
            forall|j: int| 0 <= j < i ==> bytes@[j] == magic@[j],
        decreases 8 - i,
    {
        if bytes[i] != magic[i] {
            assert(bytes@.subrange(0, 8)[i as int] != morton_magic_spec()[i as int]);
            assert(bytes@.subrange(0, 8) != morton_magic_spec());
            return false;
        }
        i = i + 1;
    }
    assert(bytes@.subrange(0, 8) =~= morton_magic_spec());
    true
}

/// A Morton index file held in memory, searched `window` entries on each side.
pub struct Morton<'a> {
    pub bytes: &'a [u8],
    pub count: usize,
    pub window: usize,
}

/// The window searched around `position`: `position - window ..= position + window`, within the entries.
pub open spec fn window_range(position: int, window: int, count: int) -> (int, int) {
    let start = if position > window { position - window } else { 0 };
    let end = if position + window + 1 < count { position + window + 1 } else { count };
    (start, end)
}

/// What the best list holds: slots sorted by distance, the filled ones naming
/// distinct entries of `start..m` with their distance and label, the rest
/// empty, and every entry left out at least as far as the last slot.
pub open spec fn best_ok(
    b: Seq<u8>,
    vector: Seq<i16>,
    best: Seq<(u32, u8)>,
    positions: Seq<int>,
    start: int,
    m: int,
) -> bool {
    let filled = if m - start < 11 { m - start } else { 11 };
    &&& best.len() == 11
    &&& positions.len() == filled
    &&& forall|a: int, c: int| 0 <= a < c < 11 ==> best[a].0 <= best[c].0
    &&& forall|k: int|
        0 <= k < filled ==> start <= #[trigger] positions[k] < m && best[k].0 == spec_l1_distance(
            vector,
            entry_vector(b, positions[k]),
        ) && best[k].1 == entry_label(b, positions[k])
    &&& forall|k: int| filled <= k < 11 ==> #[trigger] best[k] == (u32::MAX, 0u8)
    &&& positions.no_duplicates()
    &&& forall|p: int|
        start <= p < m && !positions.contains(p) ==> best[10].0 <= #[trigger] spec_l1_distance(
            vector,
            entry_vector(b, p),
        )
}

/// Where a binary search over `left..right` settles for `key`: it halves the
/// range at its middle, going right of the middle when the middle's key is
/// below `key`.
pub open spec fn spec_lower_bound(b: Seq<u8>, key: int, left: int, right: int) -> int
    decreases right - left,
{
    if left >= right {
        left
    } else {
        let middle = left + (right - left) / 2;
        if entry_key(b, middle) < key {
            spec_lower_bound(b, key, middle + 1, right)
        } else {
            spec_lower_bound(b, key, left, middle)
        }
    }
}

/// The slot a distance `d` takes among the first `o` slots of a sorted list:
/// after every slot whose distance is not above `d`.
pub open spec fn slot_for(best: Seq<(u32, u8)>, d: u32, o: int) -> int
    decreases o,
{
    if o > 0 && d < best[o - 1].0 {
        slot_for(best, d, o - 1)
    } else {
        o
    }
}

/// The 11-slot list after offering an entry at distance `d`: unchanged unless
/// `d` is below the last slot's distance; else the entry takes its slot and
/// the last slot drops out.
pub open spec fn spec_offer(best: Seq<(u32, u8)>, d: u32, label: u8) -> Seq<(u32, u8)> {
    if d >= best[10].0 {
        best
    } else {
        let out = slot_for(best, d, 10);
        best.subrange(0, out).push((d, label)) + best.subrange(out, 10)
    }
}

/// The 11-slot list after offering entries `start..end` in order to an empty one.
pub open spec fn spec_window_top(b: Seq<u8>, vector: Seq<i16>, start: int, end: int) -> Seq<(u32, u8)>
    decreases end - start,
{
    if end <= start {
        Seq::new(11, |k: int| (u32::MAX, 0u8))
    } else {
        spec_offer(
            spec_window_top(b, vector, start, end - 1),
            spec_l1_distance(vector, entry_vector(b, end - 1)) as u32,
            entry_label(b, end - 1),
        )
    }
}

/// The 11-slot list `Morton::top_neighbors` gives for `vector`.
pub open spec fn spec_top_neighbors(m: Morton, vector: Seq<i16>) -> Seq<(u32, u8)> {
    let position = spec_lower_bound(m.bytes@, spec_morton_key(vector), 0, m.count as int);
    let range = window_range(position, m.window as int, m.count as int);
    spec_window_top(m.bytes@, vector, range.0, range.1)
}

/// `p` is where `key` would be inserted: the key before it is below `key`, the one at it is not.
pub open spec fn lower_bound_at(b: Seq<u8>, count: int, key: int, p: int) -> bool {
    &&& 0 <= p <= count
    &&& p > 0 ==> entry_key(b, p - 1) < key
    &&& p < count ==> entry_key(b, p) >= key
}

proof fn lemma_insert(
    b: Seq<u8>,
    vector: Seq<i16>,
    old_best: Seq<(u32, u8)>,
    new_best: Seq<(u32, u8)>,
    old_positions: Seq<int>,
    new_positions: Seq<int>,
    start: int,
    index: int,
    output: int,
    distance: u32,
    label: u8,
)
    requires
        start <= index,
        best_ok(b, vector, old_best, old_positions, start, index),
        distance == spec_l1_distance(vector, entry_vector(b, index)),
        distance <= 16 * 65535,
        label == entry_label(b, index),
        distance < old_best[10].0,
        0 <= output <= 10,
        output == 0 || distance >= old_best[output - 1].0,
        forall|k: int| output <= k < 10 ==> distance < #[trigger] old_best[k].0,
        new_best.len() == 11,
        forall|k: int| 0 <= k < output ==> new_best[k] == old_best[k],
        new_best[output] == (distance, label),
        forall|k: int| output < k <= 10 ==> new_best[k] == old_best[k - 1],
        new_positions == if index - start < 11 {
            old_positions.subrange(0, output).push(index) + old_positions.subrange(output, index - start)
        } else {
            old_positions.subrange(0, output).push(index) + old_positions.subrange(output, 10)
        },
    ensures
        best_ok(b, vector, new_best, new_positions, start, index + 1),
{
    let filled = if index - start < 11 { index - start } else { 11int };
    let nf = if index + 1 - start < 11 { index + 1 - start } else { 11int };
    if output > filled {
        assert(old_best[output - 1] == (u32::MAX, 0u8));
    }
    assert(output <= filled);
    let dropped = if filled == 11 { old_positions[10] } else { -1 };
    assert(new_positions.len() == nf);
    assert forall|k: int| 0 <= k < nf implies new_positions[k] == if k < output {
        old_positions[k]
    } else if k == output {
        index
    } else {
        old_positions[k - 1]
    } by {}
    assert forall|a: int, c: int| 0 <= a < c < 11 implies new_best[a].0 <= new_best[c].0 by {
        if c < output {
        } else if c == output {
            if a < output {
                assert(old_best[a].0 <= old_best[output - 1].0);
            }
        } else if a < output {
            assert(old_best[a].0 <= old_best[c - 1].0);
        } else if a == output {
        } else {
        }
    }
    assert forall|k: int|
        0 <= k < nf implies start <= #[trigger] new_positions[k] < index + 1 && new_best[k].0
        == spec_l1_distance(vector, entry_vector(b, new_positions[k])) && new_best[k].1 == entry_label(
        b,
        new_positions[k],
    ) by {
        if k < output {
            assert(new_positions[k] == old_positions[k]);
        } else if k == output {
        } else {
            assert(new_positions[k] == old_positions[k - 1]);
        }
    }
    assert forall|k: int| nf <= k < 11 implies #[trigger] new_best[k] == (u32::MAX, 0u8) by {
        assert(new_best[k] == old_best[k - 1]);
    }
    assert(new_positions.no_duplicates()) by {
        assert forall|x: int, y: int|
            0 <= x < nf && 0 <= y < nf && x != y implies new_positions[x] != new_positions[y] by {
            let ox = if x < output { x } else if x == output { -1 } else { x - 1 };
            let oy = if y < output { y } else if y == output { -1 } else { y - 1 };
            if ox >= 0 && oy >= 0 {
                assert(old_positions[ox] != old_positions[oy]);
            } else if ox >= 0 {
                assert(old_positions[ox] < index);
            } else if oy >= 0 {
                assert(old_positions[oy] < index);
            }
        }
    }
    assert(new_best[10].0 <= old_best[10].0) by {
        if output < 10 {
            assert(new_best[10] == old_best[9]);
        }
    }
    assert forall|p: int|
        start <= p < index + 1 && !new_positions.contains(p) implies new_best[10].0
        <= #[trigger] spec_l1_distance(vector, entry_vector(b, p)) by {
        if p == index {
            assert(new_positions[output] == index);
        } else if old_positions.contains(p) {
            let w = choose|w: int| 0 <= w < old_positions.len() && old_positions[w] == p;
            if w < output {
                assert(new_positions[w] == p);
            } else if w < nf - 1 || (filled < 11 && w < filled) {
                assert(new_positions[w + 1] == p);
            } else {
                assert(w == 10);
                assert(old_best[10].0 == spec_l1_distance(vector, entry_vector(b, p)));
            }
        } else {
        }
    }
}

/// `r` is a score `Morton::score` may give for `vector`: none on an empty index,
/// else the fast score of an 11-nearest list of the window around the query's
/// key (which of equally distant entries fill that list is left open).
pub open spec fn score_possible(m: Morton, vector: Seq<i16>, r: Option<u8>) -> bool {
    &&& m.count == 0 ==> r is None
    &&& m.count > 0 ==> exists|position: int, positions: Seq<int>, top: Seq<(u32, u8)>|
        lower_bound_at(m.bytes@, m.count as int, spec_morton_key(vector), position) && #[trigger] best_ok(
            m.bytes@,
            vector,
            top,
            positions,
            window_range(position, m.window as int, m.count as int).0,
            window_range(position, m.window as int, m.count as int).1,
        ) && r == spec_fast_score(top)
}

/// A fast score is all clear or all fraud.
pub proof fn lemma_score_level(m: Morton, vector: Seq<i16>, r: Option<u8>)
    requires
        score_possible(m, vector, r),
    ensures
        r is None || r == Some(0u8) || r == Some(5u8),
{
}

impl<'a> Morton<'a> {
    pub open spec fn wf(&self) -> bool {
        &&& self.bytes@.len() == 20 + self.count * 49
        &&& self.bytes@.len() <= usize::MAX
    }

    /// Checks the header and length of a Morton index file.
    pub fn from_bytes(bytes: &'a [u8], window: usize) -> (r: Result<Self, MortonError>)
        ensures
            match spec_morton_count(bytes@) {
                Ok(count) => r matches Ok(m) && m.bytes == bytes && m.count == count && m.window == window
                    && m.wf(),
                Err(e) => r matches Err(e2) && e2 == e,
            },
    {
        if bytes.len() < 20 || !starts_with_morton_magic(bytes) {
            return Err(MortonError::InvalidMagic);
        }
        let version = read_u32_le(bytes, 8);
        if version != MORTON_VERSION {
            return Err(MortonError::UnsupportedVersion);
        }
        let count = read_u64_le(bytes, 12);
        if 20 + count as u128 * 49 != bytes.len() as u128 {
            return Err(MortonError::InvalidLength);
        }
        Ok(Morton { bytes, count: count as usize, window })
    }

    /// The number of entries.
    pub fn len(&self) -> (r: usize)
        ensures
            r == self.count,
    {
        self.count
    }

    pub fn entry_at(&self, index: usize) -> (r: MortonEntry)
        requires
            self.wf(),
            index < self.count,
        ensures
            r.key == entry_key(self.bytes@, index as int),
            r.vector@ == entry_vector(self.bytes@, index as int),
            r.label == entry_label(self.bytes@, index as int),
    {
        let start = 20 + index * 49;
        let raw = vstd::slice::slice_subrange(self.bytes, start, start + 49);
        let e = decode_entry(raw);
        assert(e.vector@ =~= entry_vector(self.bytes@, index as int));
        e
    }

    fn key_at(&self, index: usize) -> (r: u128)
        requires
            self.wf(),
            index < self.count,
        ensures
            r == entry_key(self.bytes@, index as int),
    {
        read_u128_le(self.bytes, 20 + index * 49)
    }

    /// The first position whose key is not below `key`, when the keys are sorted;
    /// in any case the key before the result is below `key` and the one at it is not.
    pub fn lower_bound(&self, key: u128) -> (r: usize)
        requires
            self.wf(),
        ensures
            r <= self.count,
            r > 0 ==> entry_key(self.bytes@, r - 1) < key,
            r < self.count ==> entry_key(self.bytes@, r as int) >= key,
            (forall|i: int, j: int|
                0 <= i <= j < self.count ==> entry_key(self.bytes@, i) <= entry_key(self.bytes@, j)) ==> (
            forall|i: int| 0 <= i < self.count ==> (entry_key(self.bytes@, i) < key <==> i < r)),
            r == spec_lower_bound(self.bytes@, key as int, 0, self.count as int),
    {
        let mut left: usize = 0;
        let mut right: usize = self.count;
        while left < right
            invariant
                self.wf(),
                left <= right <= self.count,
                spec_lower_bound(self.bytes@, key as int, left as int, right as int) == spec_lower_bound(
                    self.bytes@,
                    key as int,
                    0,
                    self.count as int,
                ),
                left > 0 ==> entry_key(self.bytes@, left - 1) < key,
                right < self.count ==> entry_key(self.bytes@, right as int) >= key,
            decreases right - left,
        {
            let middle = left + (right - left) / 2;
            if self.key_at(middle) < key {
                left = middle + 1;
            } else {
                right = middle;
            }
        }
        left
    }

    /// The 11 nearest entries by L1 distance within the window around the query's
    /// key, as `(distance, label)` pairs sorted by distance; empty slots are
    /// `(u32::MAX, 0)`.
    pub fn top_neighbors(&self, vector: &ReferenceVector) -> (r: [(u32, u8); 11])
        requires
            self.wf(),
        ensures
            self.count == 0 ==> forall|k: int| 0 <= k < 11 ==> #[trigger] r@[k] == (u32::MAX, 0u8),
            self.count > 0 ==> exists|position: int, positions: Seq<int>|
                lower_bound_at(self.bytes@, self.count as int, spec_morton_key(vector@), position)
                    && #[trigger] best_ok(
                    self.bytes@,
                    vector@,
                    r@,
                    positions,
                    window_range(position, self.window as int, self.count as int).0,
                    window_range(position, self.window as int, self.count as int).1,
                ),
            r@ == spec_top_neighbors(*self, vector@),
    {
        let mut best: [(u32, u8); 11] = [(u32::MAX, 0); 11];
        assert(best@ =~= spec_window_top(self.bytes@, vector@, 0, 0));
        if self.count == 0 {
            return best;
        }
        let key = morton_key(vector);
        let position = self.lower_bound(key);
        let start = if position > self.window { position - self.window } else { 0 };
        let end: usize = if (position as u128) + (self.window as u128) + 1 < self.count as u128 {
            position + self.window + 1
        } else {
            self.count
        };
        let ghost mut positions: Seq<int> = Seq::empty();
        assert(best_ok(self.bytes@, vector@, best@, positions, start as int, start as int));
        let mut index = start;
        assert(best@ =~= spec_window_top(self.bytes@, vector@, start as int, start as int));
        while index < end
            invariant
                self.wf(),
                start <= index <= end <= self.count,
                best_ok(self.bytes@, vector@, best@, positions, start as int, index as int),
                best@ == spec_window_top(self.bytes@, vector@, start as int, index as int),
            decreases end - index,
        {
            let e = self.entry_at(index);
            let distance = l1_distance(vector, &e.vector);
            proof {
                lemma_l1_bounds(vector@, e.vector@, 16);
            }
            if distance < best[10].0 {
                let ghost old_best = best@;
                let ghost old_positions = positions;
                let mut output: usize = 10;
                while output > 0 && distance < best[output - 1].0
                    invariant
                        output <= 10,
                        slot_for(old_best, distance, output as int) == slot_for(old_best, distance, 10),
                        best@.len() == 11,
                        forall|k: int| 0 <= k < output ==> best@[k] == old_best[k],
                        best@[output as int] == old_best[output as int],
                        forall|k: int| output < k <= 10 ==> best@[k] == old_best[k - 1],
                        forall|k: int| output <= k < 10 ==> distance < #[trigger] old_best[k].0,
                    decreases output,
                {
                    best[output] = best[output - 1];
                    output = output - 1;
                }
                best[output] = (distance, e.label);
                proof {
                    assert(slot_for(old_best, distance, output as int) == output);
                    assert(best@ =~= spec_offer(old_best, distance, e.label));
                    let filled = if index - start < 11 { index - start } else { 11int };
                    let new_positions = if filled < 11 {
                        old_positions.subrange(0, output as int).push(index as int) + old_positions.subrange(
                            output as int,
                            filled,
                        )
                    } else {
                        old_positions.subrange(0, output as int).push(index as int) + old_positions.subrange(
                            output as int,
                            10,
                        )
                    };
                    lemma_insert(
                        self.bytes@,
                        vector@,
                        old_best,
                        best@,
                        old_positions,
                        new_positions,
                        start as int,
                        index as int,
                        output as int,
                        distance,
                        e.label,
                    );
                    positions = new_positions;
                }
            } else {
                proof {
                    assert(best_ok(self.bytes@, vector@, best@, positions, start as int, index + 1)) by {
                        let filled = if index - start < 11 { index - start } else { 11int };
                        if filled < 11 {
                            assert(best@[10] == (u32::MAX, 0u8));
                        }
                    }
                }
            }
            index = index + 1;
        }
        assert(lower_bound_at(self.bytes@, self.count as int, spec_morton_key(vector@), position as int));
        assert(best@ == spec_top_neighbors(*self, vector@));
        assert(best_ok(
            self.bytes@,
            vector@,
            best@,
            positions,
            window_range(position as int, self.window as int, self.count as int).0,
            window_range(position as int, self.window as int, self.count as int).1,
        ));
        best
    }

}


/// How many of the first `n` slots carry label 1.
pub open spec fn frauds_in(top: Seq<(u32, u8)>, n: int) -> int
    decreases n,
{
    if n <= 0 { 0 } else { frauds_in(top, n - 1) + if top[n - 1].1 == 1 { 1int } else { 0int } }
}

/// The fast decision on the 11 nearest: undecided when the eleventh lies farther
/// than `FAST_D11_LIMIT`; otherwise a score of 0 fifths when none is a fraud,
/// 5 fifths when all are, undecided when they disagree.
pub open spec fn spec_fast_score(top: Seq<(u32, u8)>) -> Option<u8> {
    if top[10].0 > 5_000 {
        None
    } else if frauds_in(top, 11) == 0 {
        Some(0u8)
    } else if frauds_in(top, 11) == 11 {
        Some(5u8)
    } else {
        None
    }
}

/// The number of slots labelled as fraud.
pub fn top_frauds(top: &[(u32, u8); 11]) -> (r: usize)
    ensures
        r == frauds_in(top@, 11),
{
    let mut count: usize = 0;
    let mut i: usize = 0;
    while i < 11
        invariant
            i <= 11,
            count == frauds_in(top@, i as int),
            count <= i,
        decreases 11 - i,
    {
        if top[i].1 == 1 {
            count = count + 1;
        }
        i = i + 1;
    }
    count
}

impl<'a> Morton<'a> {
    /// A fraud score in fifths (0 or 5) when the window's 11 nearest are close and
    /// agree; `None` otherwise.
    pub fn score(&self, vector: &ReferenceVector) -> (r: Option<u8>)
        requires
            self.wf(),
        ensures
            score_possible(*self, vector@, r),
            r == if self.count == 0 { None } else { spec_fast_score(spec_top_neighbors(*self, vector@)) },
    {
        let top = self.top_neighbors(vector);
        let distance = top[10].0;
        if distance > FAST_D11_LIMIT {
            return None;
        }
        let frauds = top_frauds(&top);
        if frauds == 0 {
            Some(0)
        } else if frauds == FAST_K {
            Some(5)
        } else {
            None
        }
    }
}

/// Where `slot_for` puts a distance: after every slot of `0..o` not above it,
/// before every slot of that range above it.
proof fn lemma_slot_for(best: Seq<(u32, u8)>, d: u32, o: int)
    requires
        0 <= o <= 10,
        best.len() == 11,
        forall|a: int, c: int| 0 <= a < c < 11 ==> best[a].0 <= best[c].0,
    ensures
        0 <= slot_for(best, d, o) <= o,
        slot_for(best, d, o) == 0 || d >= best[slot_for(best, d, o) - 1].0,
        forall|k: int| slot_for(best, d, o) <= k < o ==> d < #[trigger] best[k].0,
    decreases o,
{
    if o > 0 && d < best[o - 1].0 {
        lemma_slot_for(best, d, o - 1);
    }
}

/// The list built by offering the entries `start..end` one by one holds the
/// nearest of them, sorted, each with its true distance and label.
proof fn lemma_window_top_ok(b: Seq<u8>, vector: Seq<i16>, start: int, end: int) -> (positions: Seq<int>)
    requires
        start <= end,
    ensures
        best_ok(b, vector, spec_window_top(b, vector, start, end), positions, start, end),
    decreases end - start,
{
    if end == start {
        let positions = Seq::<int>::empty();
        assert(best_ok(b, vector, spec_window_top(b, vector, start, end), positions, start, end));
        positions
    } else {
        let index = end - 1;
        let old_positions = lemma_window_top_ok(b, vector, start, index);
        let old_best = spec_window_top(b, vector, start, index);
        lemma_l1_bounds(vector, entry_vector(b, index), 16);
        let dist = spec_l1_distance(vector, entry_vector(b, index));
        let distance = dist as u32;
        assert(distance == dist);
        let label = entry_label(b, index);
        let new_best = spec_window_top(b, vector, start, end);
        assert(new_best == spec_offer(old_best, distance, label));
        if distance >= old_best[10].0 {
            let filled = if index - start < 11 { index - start } else { 11int };
            if filled < 11 {
                assert(old_best[10] == (u32::MAX, 0u8));
            }
            assert(best_ok(b, vector, new_best, old_positions, start, end));
            old_positions
        } else {
            lemma_slot_for(old_best, distance, 10);
            let output = slot_for(old_best, distance, 10);
            assert(new_best =~= old_best.subrange(0, output).push((distance, label)) + old_best.subrange(
                output,
                10,
            ));
            assert forall|k: int| 0 <= k < output implies new_best[k] == old_best[k] by {}
            assert(new_best[output] == (distance, label));
            assert forall|k: int| output < k <= 10 implies new_best[k] == old_best[k - 1] by {}
            let new_positions = if index - start < 11 {
                old_positions.subrange(0, output).push(index) + old_positions.subrange(output, index - start)
            } else {
                old_positions.subrange(0, output).push(index) + old_positions.subrange(output, 10)
            };
            lemma_insert(
                b,
                vector,
                old_best,
                new_best,
                old_positions,
                new_positions,
                start,
                index,
                output,
                distance,
                label,
            );
            new_positions
        }
    }
}

/// The binary search settles on a place the key fits: the key before it is
/// below `key`, the one at it is not.
proof fn lemma_lower_bound_fits(b: Seq<u8>, key: int, left: int, right: int, count: int)
    requires
        0 <= left <= right <= count,
        left > 0 ==> entry_key(b, left - 1) < key,
        right < count ==> entry_key(b, right) >= key,
    ensures
        lower_bound_at(b, count, key, spec_lower_bound(b, key, left, right)),
    decreases right - left,
{
    if left < right {
        let middle = left + (right - left) / 2;
        if entry_key(b, middle) < key {
            lemma_lower_bound_fits(b, key, middle + 1, right, count);
        } else {
            lemma_lower_bound_fits(b, key, left, middle, count);
        }
    }
}

/// The neighbours `Morton::top_neighbors` gives are the nearest of every entry
/// lying within `window` places of the query key's position, on both sides:
/// the position `p` is where the key fits among the entries' keys; each
/// filled slot names a distinct entry of `p - window ..= p + window` with its
/// L1 distance and label; every other entry of that stretch, before or after
/// `p`, lies at least as far as the eleventh slot; unfilled slots (fewer than
/// 11 entries in the stretch) are `(u32::MAX, 0)`.
pub proof fn lemma_top_neighbors_window(m: Morton, vector: Seq<i16>)
    ensures
        ({
            let b = m.bytes@;
            let count = m.count as int;
            let w = m.window as int;
            let p = spec_lower_bound(b, spec_morton_key(vector), 0, count);
            let top = spec_top_neighbors(m, vector);
            &&& lower_bound_at(b, count, spec_morton_key(vector), p)
            &&& top.len() == 11
            &&& forall|a: int, c: int| 0 <= a < c < 11 ==> top[a].0 <= top[c].0
            &&& exists|positions: Seq<int>|
                {
                    &&& positions.no_duplicates()
                    &&& positions.len() <= 11
                    &&& forall|k: int|
                        0 <= k < positions.len() ==> 0 <= #[trigger] positions[k] < count && p - w
                            <= positions[k] <= p + w && top[k].0 == spec_l1_distance(
                            vector,
                            entry_vector(b, positions[k]),
                        ) && top[k].1 == entry_label(b, positions[k])
                    &&& forall|k: int| positions.len() <= k < 11 ==> #[trigger] top[k] == (u32::MAX, 0u8)
                    &&& forall|q: int|
                        0 <= q < count && p - w <= q <= p + w && !positions.contains(q) ==> top[10].0
                            <= #[trigger] spec_l1_distance(vector, entry_vector(b, q))
                }
        }),
{
    let b = m.bytes@;
    let count = m.count as int;
    let w = m.window as int;
    let key = spec_morton_key(vector);
    lemma_lower_bound_fits(b, key, 0, count, count);
    let p = spec_lower_bound(b, key, 0, count);
    let range = window_range(p, w, count);
    let positions = lemma_window_top_ok(b, vector, range.0, range.1);
    let top = spec_top_neighbors(m, vector);
    assert(top == spec_window_top(b, vector, range.0, range.1));
    assert(range.0 == if p - w > 0 { p - w } else { 0 });
    assert(range.1 == if p + w + 1 < count { p + w + 1 } else { count });
    assert forall|q: int|
        0 <= q < count && p - w <= q <= p + w && !positions.contains(q) implies top[10].0
        <= #[trigger] spec_l1_distance(vector, entry_vector(b, q)) by {
        assert(range.0 <= q < range.1);
    }
}

/// A fast score is given only when the 11 nearest entries of the window agree:
/// 0 fifths only when all 11 lie within `FAST_D11_LIMIT` and none is labelled
/// fraud, 5 fifths only when all 11 lie within it and every one is labelled
/// fraud; when the labels are mixed, the eleventh lies farther, or the index
/// is empty, there is no fast score.
pub proof fn lemma_fast_score_agreement(m: Morton, vector: Seq<i16>)
    ensures
        ({
            let top = spec_top_neighbors(m, vector);
            let r = if m.count == 0 { None } else { spec_fast_score(top) };
            &&& r == Some(0u8) <==> (m.count > 0 && top[10].0 <= 5_000 && forall|k: int|
                0 <= k < 11 ==> #[trigger] top[k].1 != 1)
            &&& r == Some(5u8) <==> (m.count > 0 && top[10].0 <= 5_000 && forall|k: int|
                0 <= k < 11 ==> #[trigger] top[k].1 == 1)
            &&& r is None <==> (m.count == 0 || top[10].0 > 5_000 || (exists|i: int, j: int|
                0 <= i < 11 && 0 <= j < 11 && #[trigger] top[i].1 == 1 && #[trigger] top[j].1 != 1))
            &&& r is Some ==> top[10].0 < u32::MAX
        }),
{
    let top = spec_top_neighbors(m, vector);
    lemma_top_neighbors_window(m, vector);
    lemma_frauds_count(top, 11);
    if exists|k: int| 0 <= k < 11 && #[trigger] top[k].1 == 1 {
        let i = choose|k: int| 0 <= k < 11 && #[trigger] top[k].1 == 1;
        lemma_frauds_positive(top, 11, i);
    }
    if exists|k: int| 0 <= k < 11 && #[trigger] top[k].1 != 1 {
        let j = choose|k: int| 0 <= k < 11 && #[trigger] top[k].1 != 1;
        lemma_frauds_short(top, 11, j);
    }
}

/// No slot labelled fraud among the first `n` makes the count 0, and all of
/// them labelled fraud makes it `n`.
proof fn lemma_frauds_count(top: Seq<(u32, u8)>, n: int)
    requires
        0 <= n <= top.len(),
    ensures
        (forall|k: int| 0 <= k < n ==> #[trigger] top[k].1 != 1) ==> frauds_in(top, n) == 0,
        (forall|k: int| 0 <= k < n ==> #[trigger] top[k].1 == 1) ==> frauds_in(top, n) == n,
        0 <= frauds_in(top, n) <= n,
    decreases n,
{
    if n > 0 {
        lemma_frauds_count(top, n - 1);
    }
}

/// A slot labelled fraud among the first `n` makes the count positive.
proof fn lemma_frauds_positive(top: Seq<(u32, u8)>, n: int, i: int)
    requires
        0 <= i < n <= top.len(),
        top[i].1 == 1,
    ensures
        frauds_in(top, n) > 0,
    decreases n,
{
    lemma_frauds_count(top, n - 1);
    if i < n - 1 {
        lemma_frauds_positive(top, n - 1, i);
    }
}

/// A slot not labelled fraud among the first `n` keeps the count below `n`.
proof fn lemma_frauds_short(top: Seq<(u32, u8)>, n: int, j: int)
    requires
        0 <= j < n <= top.len(),
        top[j].1 != 1,
    ensures
        frauds_in(top, n) < n,
    decreases n,
{
    lemma_frauds_count(top, n - 1);
    if j < n - 1 {
        lemma_frauds_short(top, n - 1, j);
    }
}

} // verus!
