//! The integer side of RaBitQ approximate nearest-neighbour search: distance
//! metric kinds, errors, the shape checks of index building and querying,
//! and quantized subvectors as packed sign bits.
use vstd::prelude::*;
use crate::bits::{bit_of, hamming_words, min_len, pack_sign_bits, words_for, hamming_distance_words};

verus! {

#[verifier::external_type_specification]
#[verifier::external_body]
pub struct ExIoError(std::io::Error);

/// Distance metric for nearest neighbour search.
#[derive(Debug, Clone, Copy, PartialEq, Eq, Structural)]
pub enum DistanceMetric {
    /// Euclidean (L2) distance: sqrt(sum((a_i - b_i)^2))
    Euclidean,
    /// Cosine distance: 1 - (a . b) / (||a|| * ||b||)
    Cosine,
    /// Inner product (negative for max similarity): -a . b
    InnerProduct,
}

impl DistanceMetric {
    /// Whether lower values indicate more similar vectors; every metric here
    /// is oriented so that they do.
    pub fn lower_is_better(&self) -> (r: bool)
        ensures
            r,
    {
        true
    }
}

/// Errors that can occur during RaBitQ operations.
#[derive(Debug)]
pub enum RaBitQError {
    /// The input vectors have inconsistent dimensions.
    DimensionMismatch { expected: usize, got: usize },
    /// No vectors were provided for indexing.
    EmptyVectorSet,
    /// The number of subvectors doesn't evenly divide the dimension.
    InvalidSubvectorCount { dim: usize, num_subvectors: usize },
    /// The requested k exceeds the number of indexed vectors.
    KTooLarge { k: usize, num_vectors: usize },
    /// Serialization or deserialization error.
    SerializationError(String),
    /// IO error during persistence operations.
    IoError(std::io::Error),
    /// Invalid vector (e.g., zero norm for cosine similarity).
    InvalidVector(String),
}

/// Result type for RaBitQ operations.
pub type Result<T> = core::result::Result<T, RaBitQError>;

/// The first position whose length differs from the first length, if any.
pub open spec fn first_mismatch(lens: Seq<usize>) -> Option<int>
    decreases lens.len(),
{
    if lens.len() == 0 {
        None
    } else {
        first_mismatch_from(lens, 0)
    }
}

/// The first position at or after `i` whose length differs from `lens[0]`.
pub open spec fn first_mismatch_from(lens: Seq<usize>, i: int) -> Option<int>
    decreases lens.len() - i,
{
    if i >= lens.len() || i < 0 {
        None
    } else if lens[i] != lens[0] {
        Some(i)
    } else {
        first_mismatch_from(lens, i + 1)
    }
}

/// How `RaBitQIndex::build` judges the shape of its input: the lengths of
/// the vectors in order and the number of subvectors. On success, the
/// dimension and the subvector dimension.
pub open spec fn build_shape(lens: Seq<usize>, num_subvectors: usize) -> core::result::Result<
    (usize, usize),
    RaBitQError,
> {
    if lens.len() == 0 {
        Err(RaBitQError::EmptyVectorSet)
    } else if let Some(i) = first_mismatch(lens) {
        Err(RaBitQError::DimensionMismatch { expected: lens[0], got: lens[i] })
    } else if num_subvectors == 0 || lens[0] % num_subvectors != 0 {
        Err(RaBitQError::InvalidSubvectorCount { dim: lens[0], num_subvectors })
    } else {
        Ok((lens[0], (lens[0] / num_subvectors) as usize))
    }
}

/// Shape checks of index building: the set must be non-empty, all vectors
/// as long as the first, and the subvector count must divide the dimension
/// (a count of zero divides nothing).
pub fn check_build_shape(vector_lens: &[usize], num_subvectors: usize) -> (res: Result<
    (usize, usize),
>)
    ensures
        res == build_shape(vector_lens@, num_subvectors),
{
    if vector_lens.len() == 0 {
        return Err(RaBitQError::EmptyVectorSet);
    }
    let dim = vector_lens[0];
    let mut i: usize = 0;
    while i < vector_lens.len()
        invariant
            dim == vector_lens[0],
            vector_lens.len() > 0,
            i <= vector_lens.len(),
            first_mismatch(vector_lens@) == first_mismatch_from(vector_lens@, i as int),
        decreases vector_lens.len() - i,
    {
        if vector_lens[i] != dim {
            return Err(RaBitQError::DimensionMismatch { expected: dim, got: vector_lens[i] });
        }
        i += 1;
    }
    if num_subvectors == 0 || dim % num_subvectors != 0 {
        return Err(RaBitQError::InvalidSubvectorCount { dim, num_subvectors });
    }
    Ok((dim, dim / num_subvectors))
}

/// How `RaBitQIndex::query` judges its arguments.
pub open spec fn query_check(query_len: usize, dim: usize, k: usize, num_vectors: usize) -> core::result::Result<
    (),
    RaBitQError,
> {
    if query_len != dim {
        Err(RaBitQError::DimensionMismatch { expected: dim, got: query_len })
    } else if k > num_vectors {
        Err(RaBitQError::KTooLarge { k, num_vectors })
    } else {
        Ok(())
    }
}

/// Argument checks of a query: the query must have the index's dimension
/// and at most as many neighbours as there are vectors may be asked for.
pub fn check_query(query_len: usize, dim: usize, k: usize, num_vectors: usize) -> (res: Result<()>)
    ensures
        res == query_check(query_len, dim, k, num_vectors),
{
    if query_len != dim {
        return Err(RaBitQError::DimensionMismatch { expected: dim, got: query_len });
    }
    if k > num_vectors {
        return Err(RaBitQError::KTooLarge { k, num_vectors });
    }
    Ok(())
}

/// A quantized subvector: one sign bit per dimension.
#[derive(Debug, Clone)]
pub struct SubvectorQuantized {
    /// Quantized bits for this subvector.
    pub bits: Vec<u64>,
    /// Dimension of this subvector.
    pub subdim: usize,
}

impl SubvectorQuantized {
    /// Build a quantized subvector from the sign flags of its rotated values
    /// (`true` where the value is non-negative).
    pub fn from_sign_flags(signs: &[bool]) -> (q: SubvectorQuantized)
        ensures
            q.subdim == signs.len(),
            q.bits.len() == words_for(signs.len() as int),
            forall|i: int| 0 <= i < signs.len() ==> #[trigger] bit_of(q.bits@, i) == signs[i],
            forall|i: int| signs.len() <= i < 64 * q.bits.len() ==> !#[trigger] bit_of(q.bits@, i),
    {
        let bits = pack_sign_bits(signs);
        SubvectorQuantized { bits, subdim: signs.len() }
    }

    /// Hamming distance to another subvector, over the words both have.
    pub fn hamming_distance(&self, other: &SubvectorQuantized) -> (r: u32)
        requires
            hamming_words(self.bits@, other.bits@, min_len(self.bits.len() as int, other.bits.len() as int))
                <= u32::MAX,
        ensures
            r == hamming_words(self.bits@, other.bits@, min_len(self.bits.len() as int, other.bits.len() as int)),
    {
        hamming_distance_words(self.bits.as_slice(), other.bits.as_slice())
    }
}

} // verus!
