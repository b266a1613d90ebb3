//! Deterministic mock embeddings: the integer part of the embedding of a text.
//!
//! Each coordinate of a mock embedding comes from a 31-bit seed: the text's bytes are
//! hashed with FNV-1a, and coordinate `i` takes the top bits of a linear-congruential
//! step from `hash + i`. Scaling the seeds to `[-1, 1]` and normalising the vector are
//! floating-point steps that the caller takes.

use vstd::prelude::*;
use vstd::string::StringSliceAdditionalSpecFns;
use vstd::wrapping::u64_specs::{wrapping_add, wrapping_mul};

verus! {

/// FNV-1a offset basis.
pub const FNV_OFFSET: u64 = 14695981039346656037;

/// FNV-1a prime.
pub const FNV_PRIME: u64 = 1099511628211;

/// Multiplier of the per-coordinate step.
pub const SEED_MUL: u64 = 6364136223846793005;

/// Increment of the per-coordinate step.
pub const SEED_ADD: u64 = 1442695040888963407;

/// FNV-1a hash of a byte string.
pub open spec fn fnv1a(bytes: Seq<u8>) -> u64
    decreases bytes.len(),
{
    if bytes.len() == 0 {
        FNV_OFFSET
    } else {
        wrapping_mul(fnv1a(bytes.drop_last()) ^ (bytes.last() as u64), FNV_PRIME)
    }
}

/// Seed of coordinate `i` for a text whose hash is `hash`.
pub open spec fn coordinate_seed(hash: u64, i: u64) -> u32 {
    (wrapping_add(wrapping_mul(wrapping_add(hash, i), SEED_MUL), SEED_ADD) >> 33u64) as u32
}

/// Seeds of all `dims` coordinates of the embedding of a text with the given bytes.
pub open spec fn embedding_seeds(bytes: Seq<u8>, dims: nat) -> Seq<u32> {
    Seq::new(dims, |i: int| coordinate_seed(fnv1a(bytes), i as u64))
}

/// Mock embedding provider: deterministic vectors of a fixed dimension.
pub struct MockEmbeddings {
    dimensions: usize,
}

/// FNV-1a hash of `bytes`.
pub fn fnv1a_hash(bytes: &[u8]) -> (h: u64)
    ensures
        h == fnv1a(bytes@),
{
    let mut hash: u64 = FNV_OFFSET;
    let mut i: usize = 0;
    while i < bytes.len()
        invariant
            i <= bytes@.len(),
            hash == fnv1a(bytes@.take(i as int)),
        decreases bytes@.len() - i,
    {
        assert(bytes@.take(i + 1).drop_last() =~= bytes@.take(i as int));
        hash = (hash ^ (bytes[i] as u64)).wrapping_mul(FNV_PRIME);
        i = i + 1;
    }
    assert(bytes@.take(bytes@.len() as int) =~= bytes@);
    hash
}

impl MockEmbeddings {
    /// The dimension of the vectors.
    pub closed spec fn dims(&self) -> usize {
        self.dimensions
    }

    /// A provider of vectors of `dimensions` coordinates.
    pub fn new(dimensions: usize) -> (r: Self)
        ensures
            r.dims() == dimensions,
    {
        MockEmbeddings { dimensions }
    }

    /// The dimension of the vectors.
    pub fn dimensions(&self) -> (r: usize)
        ensures
            r == self.dims(),
    {
        self.dimensions
    }

    /// Name of the embedding model.
    pub fn model_name(&self) -> (r: &'static str)
        ensures
            r@ == "mock-embeddings-v1"@,
    {
        "mock-embeddings-v1"
    }

    /// Seeds of the coordinates of the embedding of `text`: a function of the text's
    /// UTF-8 bytes and the dimension alone.
    pub fn embedding_seeds(&self, text: &str) -> (r: Vec<u32>)
        ensures
            r@ == embedding_seeds(text.spec_bytes(), self.dims() as nat),
    {
        let hash = fnv1a_hash(text.as_bytes());
        let mut r: Vec<u32> = Vec::new();
        let mut i: usize = 0;
        while i < self.dimensions
            invariant
                i <= self.dims(),
                hash == fnv1a(text.spec_bytes()),
                r@.len() == i,
                forall|j: int| 0 <= j < i ==> r@[j] == #[trigger] embedding_seeds(text.spec_bytes(), self.dims() as nat)[j],
            decreases self.dims() - i,
        {
            let seed = hash.wrapping_add(i as u64).wrapping_mul(SEED_MUL).wrapping_add(SEED_ADD);
            let v = seed >> 33u64;
            assert(v <= u32::MAX) by (bit_vector)
                requires
                    v == seed >> 33u64,
            ;
            r.push(v as u32);
            i = i + 1;
        }
        assert(r@ =~= embedding_seeds(text.spec_bytes(), self.dims() as nat));
        r
    }

    /// Seeds of the embeddings of `texts`, one per text, in order.
    pub fn embed_seeds(&self, texts: &Vec<String>) -> (r: Vec<Vec<u32>>)
        ensures
            r@.len() == texts@.len(),
            forall|i: int| 0 <= i < texts@.len() ==>
                (#[trigger] r@[i])@ == embedding_seeds(vstd::utf8::encode_utf8(texts@[i]@), self.dims() as nat),
    {
        let mut r: Vec<Vec<u32>> = Vec::new();
        let mut i: usize = 0;
        while i < texts.len()
            invariant
                i <= texts@.len(),
                r@.len() == i,
                forall|j: int| 0 <= j < i ==>
                    (#[trigger] r@[j])@ == embedding_seeds(vstd::utf8::encode_utf8(texts@[j]@), self.dims() as nat),
            decreases texts@.len() - i,
        {
            let seeds = self.embedding_seeds(texts[i].as_str());
            r.push(seeds);
            i = i + 1;
        }
        r
    }
}

/// Mock embeddings are deterministic: the seeds of a text depend on its bytes and the
/// dimension alone, so equal texts get equal seeds from every provider of that
/// dimension and on every call, and each embedding has exactly `dims` coordinates.
pub proof fn law_embeddings_deterministic(a: Seq<u8>, b: Seq<u8>, dims: nat)
    requires
        a == b,
    ensures
        embedding_seeds(a, dims) == embedding_seeds(b, dims),
        embedding_seeds(a, dims).len() == dims,
{
}

/// FNV-1a folds the bytes from first to last: the hash of no bytes is the offset basis,
/// and one more byte at the end is xored into the hash so far, which is then
/// multiplied (wrapping) by the prime.
pub proof fn law_fnv1a_folds_bytes_in_order(bytes: Seq<u8>, b: u8)
    ensures
        fnv1a(Seq::empty()) == FNV_OFFSET,
        fnv1a(bytes.push(b)) == wrapping_mul(fnv1a(bytes) ^ (b as u64), FNV_PRIME),
{
    assert(bytes.push(b).drop_last() =~= bytes);
}

} // verus!
