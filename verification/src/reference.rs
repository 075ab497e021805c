//! The labelled reference vectors the indexes are built from, with one fraud
//! bit per reference packed eight to a byte.
use vstd::prelude::*;

use crate::ReferenceVector;

verus! {

/// The label of a reference as the source data writes it.
#[derive(Debug, Clone, Copy, PartialEq, Eq, Structural)]
pub enum JsonLabel {
    Legit,
    Fraud,
}

/// Bit `i % 8` of byte `i / 8`.
pub open spec fn bit_at(bits: Seq<u8>, i: int) -> bool {
    (bits[i / 8] as int / pow2_small(i % 8)) % 2 == 1
}

/// `2^k` for `k < 8`.
pub open spec fn pow2_small(k: int) -> int {
    if k == 0 { 1 } else if k == 1 { 2 } else if k == 2 { 4 } else if k == 3 { 8 } else if k == 4 { 16 } else if k
        == 5 { 32 } else if k == 6 { 64 } else { 128 }
}

/// The reference vectors and their fraud bits.
pub struct ReferenceDataset {
    pub vectors: Vec<ReferenceVector>,
    pub fraud_bits: Vec<u8>,
}

proof fn lemma_set_bit(byte: u8, k: u32, j: u32)
    requires
        k < 8,
        j < 8,
    ensures
        ((byte | (1u8 << k)) as int / pow2_small(j as int)) % 2 == if j == k {
            1
        } else {
            (byte as int / pow2_small(j as int)) % 2
        },
{
    assert(((byte | (1u8 << k)) >> j) & 1 == if j == k { 1u8 } else { (byte >> j) & 1 }) by (bit_vector)
        requires k < 8, j < 8;
    assert forall|x: u8| #[trigger] ((x >> j) & 1) as int == (x as int / pow2_small(j as int)) % 2 by {
        lemma_shift_bit(x, j);
    }
}

/// Bit `j` of `x`, read by a shift and a mask, is the bit `bit_at` names.
pub proof fn lemma_shift_bit(x: u8, j: u32)
    requires
        j < 8,
    ensures
        ((x >> j) & 1) as int == (x as int / pow2_small(j as int)) % 2,
{
    assert((x >> j) & 1 == (x >> j) % 2) by (bit_vector);
    if j == 0 {
        assert(x >> 0u32 == x) by (bit_vector);
    } else if j == 1 {
        assert(x >> 1u32 == x / 2) by (bit_vector);
    } else if j == 2 {
        assert(x >> 2u32 == x / 4) by (bit_vector);
    } else if j == 3 {
        assert(x >> 3u32 == x / 8) by (bit_vector);
    } else if j == 4 {
        assert(x >> 4u32 == x / 16) by (bit_vector);
    } else if j == 5 {
        assert(x >> 5u32 == x / 32) by (bit_vector);
    } else if j == 6 {
        assert(x >> 6u32 == x / 64) by (bit_vector);
    } else {
        assert(x >> 7u32 == x / 128) by (bit_vector);
    }
}

impl ReferenceDataset {
    pub open spec fn wf(&self) -> bool {
        self.fraud_bits@.len() * 8 >= self.vectors@.len()
    }

    /// The dataset of `vectors` labelled by `labels`, one bit per label.
    pub fn from_labelled(vectors: Vec<ReferenceVector>, labels: &[JsonLabel]) -> (r: Self)
        requires
            labels@.len() == vectors@.len(),
        ensures
            r.wf(),
            r.vectors@ == vectors@,
            r.fraud_bits@.len() == (vectors@.len() + 7) / 8,
            forall|i: int| 0 <= i < labels@.len() ==> bit_at(r.fraud_bits@, i) == (labels@[i] == JsonLabel::Fraud),
    {
        let n = labels.len();
        let byte_count = n / 8 + if n % 8 == 0 { 0 } else { 1 };
        let mut fraud_bits: Vec<u8> = Vec::new();
        let mut k: usize = 0;
        while k < byte_count
            invariant
                k <= byte_count,
                fraud_bits@.len() == k,
                forall|b: int| 0 <= b < k ==> fraud_bits@[b] == 0,
            decreases byte_count - k,
        {
            fraud_bits.push(0);
            k = k + 1;
        }
        let mut i: usize = 0;
        while i < n
            invariant
                n == labels@.len(),
                byte_count == n / 8 + if n % 8 == 0 { 0int } else { 1int },
                fraud_bits@.len() == byte_count,
                i <= n,
                forall|j: int| 0 <= j < i ==> bit_at(fraud_bits@, j) == (labels@[j] == JsonLabel::Fraud),
                forall|j: int| i <= j < 8 * byte_count ==> !bit_at(fraud_bits@, j),
            decreases n - i,
        {
            if labels[i] == JsonLabel::Fraud {
                let ghost before = fraud_bits@;
                let byte = fraud_bits[i / 8];
                let k = (i % 8) as u32;
                fraud_bits.set(i / 8, byte | (1u8 << k));
                proof {
                    assert forall|j: int| 0 <= j < 8 * byte_count implies #[trigger] bit_at(fraud_bits@, j) == if j == i {
                        true
                    } else {
                        bit_at(before, j)
                    } by {
                        if j / 8 == i / 8 {
                            lemma_set_bit(byte, k, (j % 8) as u32);
                        }
                    }
                }
            }
            i = i + 1;
        }
        ReferenceDataset { vectors, fraud_bits }
    }

    pub fn len(&self) -> (r: usize)
        ensures
            r == self.vectors@.len(),
    {
        self.vectors.len()
    }

    pub fn is_empty(&self) -> (r: bool)
        ensures
            r == (self.vectors@.len() == 0),
    {
        self.vectors.len() == 0
    }

    pub fn vector_at(&self, index: usize) -> (r: ReferenceVector)
        requires
            index < self.vectors@.len(),
        ensures
            r == self.vectors@[index as int],
    {
        self.vectors[index]
    }

    /// The fraud bit of reference `index`: 1 for fraud, 0 for legit.
    pub fn label_at(&self, index: usize) -> (r: u8)
        requires
            self.wf(),
            index < self.vectors@.len(),
        ensures
            r == if bit_at(self.fraud_bits@, index as int) { 1u8 } else { 0u8 },
    {
        let byte = self.fraud_bits[index / 8];
        let k = (index % 8) as u32;
        proof {
            lemma_shift_bit(byte, k);
            assert((byte >> k) & 1 <= 1) by (bit_vector);
        }
        (byte >> k) & 1
    }
}

} // verus!
