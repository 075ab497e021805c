//! The binary references file the IVF builds read: a magic, the reference
//! count, every quantized vector, then one fraud bit per reference.
use vstd::prelude::*;

use crate::ReferenceVector;
use crate::bytes::{
    blocks, i16_at, le_bytes, lemma_blocks_len, lemma_blocks_window, lemma_le_bytes_len, lemma_window_concat,
    lemma_window_nested, lemma_u64_window, push_u64_le, read_i16_le, read_u64_le, u64_at,
};
use crate::hnsw_file::vector_block;
use crate::http::push_bytes;
use crate::morton::{lemma_vector_window, push_vector, vector_bytes};
use crate::reference::{ReferenceDataset, bit_at, lemma_shift_bit};

verus! {

/// Bytes before the first vector: the magic and the count.
pub const REFERENCE_HEADER_LEN: usize = 16;

/// `R26REF01`.
pub open spec fn reference_magic_spec() -> Seq<u8> {
    seq![82u8, 50, 54, 82, 69, 70, 48, 49]
}

/// The length of a references file of `count` references.
pub open spec fn reference_file_len(count: int) -> int {
    16 + 32 * count + (count + 7) / 8
}

/// The references file of `vectors` with their fraud bits.
pub open spec fn spec_reference_file(vectors: Seq<ReferenceVector>, fraud_bits: Seq<u8>) -> Seq<u8> {
    reference_magic_spec() + le_bytes(vectors.len(), 8) + blocks(vector_block(vectors), vectors.len() as int)
        + fraud_bits
}

/// Why a references file was refused.
#[derive(Debug, Clone, Copy, PartialEq, Eq, Structural)]
pub enum ReferenceFileError {
    /// Shorter than the header.
    TooShort,
    /// The first 8 bytes are not the magic.
    BadMagic,
    /// The length does not match the count in the header.
    LengthMismatch { expected: u128, actual: usize },
}

/// How `ReferenceFile::from_bytes` judges a file: the reference count, or
/// why it is refused.
pub open spec fn spec_read_references(b: Seq<u8>) -> Result<int, ReferenceFileError> {
    if b.len() < 16 {
        Err(ReferenceFileError::TooShort)
    } else if b.subrange(0, 8) != reference_magic_spec() {
        Err(ReferenceFileError::BadMagic)
    } else if b.len() != reference_file_len(u64_at(b, 8)) {
        Err(
            ReferenceFileError::LengthMismatch {
                expected: reference_file_len(u64_at(b, 8)) as u128,
                actual: b.len() as usize,
            },
        )
    } else {
        Ok(u64_at(b, 8))
    }
}

/// The stored vector of reference `index`.
pub open spec fn stored_vector(b: Seq<u8>, index: int) -> Seq<i16> {
    Seq::new(16, |d: int| i16_at(b, 16 + 32 * index + 2 * d) as i16)
}

/// The fraud bytes of a file of `count` references.
pub open spec fn stored_fraud_bits(b: Seq<u8>, count: int) -> Seq<u8> {
    b.subrange(16 + 32 * count, b.len() as int)
}

/// Writes the references file of a dataset.
pub fn encode_reference_file(vectors: &[ReferenceVector], fraud_bits: &[u8]) -> (r: Vec<u8>)
    ensures
        r@ == spec_reference_file(vectors@, fraud_bits@),
{
    let mut out: Vec<u8> = Vec::new();
    let magic: [u8; 8] = [82, 50, 54, 82, 69, 70, 48, 49];
    assert(magic@ =~= reference_magic_spec());
    push_bytes(&mut out, &magic);
    push_u64_le(&mut out, vectors.len() as u64);
    let ghost header = out@;
    let mut k: usize = 0;
    while k < vectors.len()
        invariant
            k <= vectors@.len(),
            out@ == header + blocks(vector_block(vectors@), k as int),
        decreases vectors@.len() - k,
    {
        let vector = vectors[k];
        push_vector(&mut out, &vector);
        proof {
            assert(out@ =~= header + blocks(vector_block(vectors@), k + 1));
        }
        k = k + 1;
    }
    push_bytes(&mut out, fraud_bits);
    assert(out@ =~= spec_reference_file(vectors@, fraud_bits@));
    out
}

/// A references file checked against its header.
pub struct ReferenceFile<'a> {
    pub bytes: &'a [u8],
    pub count: usize,
}

impl<'a> ReferenceFile<'a> {
    pub open spec fn wf(&self) -> bool {
        spec_read_references(self.bytes@) == Ok::<int, ReferenceFileError>(self.count as int)
    }

    /// Checks the magic and that the length matches the count.
    pub fn from_bytes(bytes: &'a [u8]) -> (r: Result<Self, ReferenceFileError>)
        ensures
            match spec_read_references(bytes@) {
                Ok(count) => r matches Ok(file) && file.bytes@ == bytes@ && file.count == count && file.wf(),
                Err(e) => r == Err::<Self, ReferenceFileError>(e),
            },
    {
        if bytes.len() < 16 {
            return Err(ReferenceFileError::TooShort);
        }
        let magic: [u8; 8] = [82, 50, 54, 82, 69, 70, 48, 49];
        let mut i: usize = 0;
        while i < 8
            invariant
                i <= 8,
                16 <= bytes@.len(),
                magic@ == reference_magic_spec(),
                forall|j: int| 0 <= j < i ==> bytes@[j] == magic@[j],
            decreases 8 - i,
        {
            if bytes[i] != magic[i] {
                assert(bytes@.subrange(0, 8)[i as int] != reference_magic_spec()[i as int]);
                assert(bytes@.subrange(0, 8) != reference_magic_spec());
                return Err(ReferenceFileError::BadMagic);
            }
            i = i + 1;
        }
        assert(bytes@.subrange(0, 8) =~= reference_magic_spec());
        let count = read_u64_le(bytes, 8);
        let expected: u128 = 16 + 32 * count as u128 + (count as u128 + 7) / 8;
        if expected != bytes.len() as u128 {
            return Err(ReferenceFileError::LengthMismatch { expected, actual: bytes.len() });
        }
        Ok(ReferenceFile { bytes, count: count as usize })
    }

    pub fn len(&self) -> (r: usize)
        ensures
            r == self.count,
    {
        self.count
    }

    /// The stored vector of reference `index`.
    pub fn vector_at(&self, index: usize) -> (r: ReferenceVector)
        requires
            self.wf(),
            index < self.count,
        ensures
            r@ == stored_vector(self.bytes@, index as int),
    {
        let total = self.bytes.len();
        assert(total == reference_file_len(self.count as int));
        let offset = 16 + index * 32;
        let mut v: ReferenceVector = [0; 16];
        let mut d: usize = 0;
        while d < 16
            invariant
                self.wf(),
                index < self.count,
                offset == 16 + index * 32,
                total == self.bytes@.len(),
                total == reference_file_len(self.count as int),
                d <= 16,
                forall|k: int| 0 <= k < d ==> v@[k] == i16_at(self.bytes@, offset + 2 * k),
            decreases 16 - d,
        {
            v[d] = read_i16_le(self.bytes, offset + 2 * d);
            d = d + 1;
        }
        assert(v@ =~= stored_vector(self.bytes@, index as int));
        v
    }

    /// Whether reference `index` is labelled fraud.
    pub fn is_fraud(&self, index: usize) -> (r: bool)
        requires
            self.wf(),
            index < self.count,
        ensures
            r == bit_at(stored_fraud_bits(self.bytes@, self.count as int), index as int),
    {
        let total = self.bytes.len();
        assert(total == reference_file_len(self.count as int));
        let fraud_offset = 16 + self.count * 32;
        let byte = self.bytes[fraud_offset + index / 8];
        let k = (index % 8) as u32;
        proof {
            lemma_shift_bit(byte, k);
        }
        (byte >> k) & 1 == 1
    }

    /// Every vector and the fraud bytes, as a dataset.
    pub fn to_dataset(&self) -> (r: ReferenceDataset)
        requires
            self.wf(),
        ensures
            r.wf(),
            r.vectors@.len() == self.count,
            forall|i: int| 0 <= i < self.count ==> #[trigger] r.vectors@[i]@ == stored_vector(self.bytes@, i),
            r.fraud_bits@ == stored_fraud_bits(self.bytes@, self.count as int),
    {
        let mut vectors: Vec<ReferenceVector> = Vec::new();
        let mut i: usize = 0;
        while i < self.count
            invariant
                self.wf(),
                i <= self.count,
                vectors@.len() == i,
                forall|j: int| 0 <= j < i ==> #[trigger] vectors@[j]@ == stored_vector(self.bytes@, j),
            decreases self.count - i,
        {
            vectors.push(self.vector_at(i));
            i = i + 1;
        }
        let total = self.bytes.len();
        assert(total == reference_file_len(self.count as int));
        let fraud_offset = 16 + self.count * 32;
        let mut fraud_bits: Vec<u8> = Vec::new();
        let mut j: usize = fraud_offset;
        while j < self.bytes.len()
            invariant
                self.wf(),
                fraud_offset == 16 + self.count * 32,
                fraud_offset <= j <= self.bytes@.len(),
                fraud_bits@ == self.bytes@.subrange(fraud_offset as int, j as int),
            decreases self.bytes@.len() - j,
        {
            fraud_bits.push(self.bytes[j]);
            proof {
                assert(fraud_bits@ =~= self.bytes@.subrange(fraud_offset as int, j + 1));
            }
            j = j + 1;
        }
        ReferenceDataset { vectors, fraud_bits }
    }
}

/// A references file written for some vectors and their fraud bits (one bit
/// per vector, rounded up to whole bytes) is accepted with their count, and
/// every vector and fraud byte reads back as it was written.
pub proof fn lemma_reference_file_roundtrip(vectors: Seq<ReferenceVector>, fraud_bits: Seq<u8>)
    requires
        vectors.len() < 0x1_0000_0000_0000_0000,
        fraud_bits.len() == (vectors.len() + 7) / 8,
    ensures
        ({
            let f = spec_reference_file(vectors, fraud_bits);
            let n = vectors.len() as int;
            &&& spec_read_references(f) == Ok::<int, ReferenceFileError>(n)
            &&& forall|i: int| 0 <= i < n ==> #[trigger] stored_vector(f, i) == vectors[i]@
            &&& stored_fraud_bits(f, n) == fraud_bits
        }),
{
    let n = vectors.len() as int;
    let f = spec_reference_file(vectors, fraud_bits);
    let m = reference_magic_spec();
    let c = le_bytes(vectors.len(), 8);
    let vb = vector_block(vectors);
    let body = blocks(vb, n);
    lemma_le_bytes_len(vectors.len(), 8);
    assert forall|k: int| 0 <= k < n implies #[trigger] vb(k).len() == 32 by {
        assert(vector_bytes(vectors[k]@, 16).subrange(0, vector_bytes(vectors[k]@, 16).len() as int)
            =~= vector_bytes(vectors[k]@, 16));
        lemma_vector_window(vector_bytes(vectors[k]@, 16), 0, vectors[k]@);
    }
    lemma_blocks_len(vb, n, 32);
    assert(f.len() == reference_file_len(n));
    lemma_window_concat(m + c + body, fraud_bits);
    lemma_window_concat(m + c, body);
    lemma_window_concat(m, c);
    lemma_window_nested(f, 0, m + c + body, 0, m + c);
    lemma_window_nested(f, 0, m + c, 8, c);
    lemma_u64_window(f, 8, vectors.len());
    lemma_window_nested(f, 0, m + c, 0, m);
    lemma_window_nested(f, 0, m + c + body, 16, body);
    assert(f.subrange(0, 8) == m);
    assert forall|i: int| 0 <= i < n implies #[trigger] stored_vector(f, i) == vectors[i]@ by {
        lemma_blocks_window(vb, n, 32, i);
        lemma_window_nested(f, 16, body, i * 32, vb(i));
        lemma_vector_window(f, 16 + 32 * i, vectors[i]@);
        assert(stored_vector(f, i) =~= Seq::new(16, |d: int| i16_at(f, 16 + 32 * i + 2 * d) as i16));
    }
    assert(stored_fraud_bits(f, n) =~= fraud_bits);
}

} // verus!
