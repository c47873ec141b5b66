//! Packed sign-bit codes of quantized vectors: packing, bit access,
//! population counts and Hamming distances.
use vstd::prelude::*;

verus! {

/// Number of one bits of `x`.
pub open spec fn pop64(x: u64) -> nat
    decreases x,
{
    if x == 0 {
        0
    } else {
        (x % 2) as nat + pop64(x / 2)
    }
}

/// Bit `i` of a code packed into 64-bit words, least significant bit first.
pub open spec fn bit_of(words: Seq<u64>, i: int) -> bool {
    (words[i / 64] >> ((i % 64) as u64)) & 1 == 1
}

/// Total number of one bits in the first `k` words.
pub open spec fn popcount_words(words: Seq<u64>, k: int) -> nat
    decreases k,
{
    if k <= 0 {
        0
    } else {
        popcount_words(words, k - 1) + pop64(words[k - 1])
    }
}

/// Number of differing bits between the first `k` words of `a` and `b`.
pub open spec fn hamming_words(a: Seq<u64>, b: Seq<u64>, k: int) -> nat
    decreases k,
{
    if k <= 0 {
        0
    } else {
        hamming_words(a, b, k - 1) + pop64(a[k - 1] ^ b[k - 1])
    }
}

/// Hamming distance does not depend on the order of the two codes.
pub proof fn lemma_hamming_symmetric(a: Seq<u64>, b: Seq<u64>, k: int)
    ensures
        hamming_words(a, b, k) == hamming_words(b, a, k),
    decreases k,
{
    if k > 0 {
        lemma_hamming_symmetric(a, b, k - 1);
        let x = a[k - 1];
        let y = b[k - 1];
        assert(x ^ y == y ^ x) by (bit_vector);
    }
}

/// A code is at Hamming distance zero from itself.
pub proof fn lemma_hamming_self_zero(a: Seq<u64>, k: int)
    ensures
        hamming_words(a, a, k) == 0,
    decreases k,
{
    if k > 0 {
        lemma_hamming_self_zero(a, k - 1);
        let x = a[k - 1];
        assert(x ^ x == 0) by (bit_vector);
    }
}

/// Number of words that hold `dim` bits.
pub open spec fn words_for(dim: int) -> int {
    (dim + 63) / 64
}

proof fn lemma_pop64_step(x: u64)
    ensures
        x != 0 ==> pop64(x) == (x & 1) as nat + pop64(x >> 1),
        x >> 1 < x || x == 0,
{
    assert(x & 1 == x % 2) by (bit_vector);
    assert(x >> 1 == x / 2) by (bit_vector);
}

proof fn lemma_pop64_bound(x: u64, k: nat)
    requires
        k <= 64,
        k < 64 ==> x < (1u64 << k as u64),
    ensures
        pop64(x) <= k,
    decreases k,
{
    if x != 0 {
        assert(x / 2 == x >> 1) by (bit_vector);
        if k == 0 {
            assert(x < (1u64 << 0u64) ==> x == 0) by (bit_vector);
        } else if k == 64 {
            assert(x >> 1 < (1u64 << 63u64)) by (bit_vector);
            lemma_pop64_bound(x / 2, 63);
        } else {
            let kk = k as u64;
            assert(0 < kk < 64 && x < (1u64 << kk) ==> (x >> 1) < (1u64 << (kk - 1) as u64))
                by (bit_vector);
            lemma_pop64_bound(x / 2, (k - 1) as nat);
        }
    }
}

/// Number of one bits in a 64-bit word.
pub fn count_ones_u64(x: u64) -> (r: u32)
    ensures
        r == pop64(x),
        r <= 64,
{
    proof {
        lemma_pop64_bound(x, 64);
    }
    let mut v = x;
    let mut c: u32 = 0;
    while v != 0
        invariant
            c + pop64(v) == pop64(x),
            pop64(x) <= 64,
        decreases v,
    {
        proof {
            lemma_pop64_step(v);
        }
        c = c + (v & 1) as u32;
        v = v >> 1;
    }
    c
}

proof fn lemma_set_bit(x: u64, b: u64, k: u64)
    requires
        b < 64,
        k < 64,
    ensures
        ((x | (1u64 << b)) >> k) & 1 == if k == b {
            1u64
        } else {
            (x >> k) & 1
        },
{
    assert(b < 64 && k < 64 ==> ((x | (1u64 << b)) >> k) & 1 == if k == b {
        1u64
    } else {
        (x >> k) & 1
    }) by (bit_vector);
}

proof fn lemma_zero_bits(k: u64)
    requires
        k < 64,
    ensures
        (0u64 >> k) & 1 == 0,
{
    assert((0u64 >> k) & 1 == 0) by (bit_vector);
}

/// Pack sign flags into 64-bit words: bit `i` is set exactly when
/// `signs[i]` holds; the unused high bits of the last word stay clear.
pub fn pack_sign_bits(signs: &[bool]) -> (bits: Vec<u64>)
    ensures
        bits.len() == words_for(signs.len() as int),
        forall|i: int| 0 <= i < signs.len() ==> #[trigger] bit_of(bits@, i) == signs[i],
        forall|i: int| signs.len() <= i < 64 * bits.len() ==> !#[trigger] bit_of(bits@, i),
{
    let dim = signs.len();
    let num_words = dim / 64 + if dim % 64 == 0 {
        0
    } else {
        1
    };
    assert(num_words == words_for(dim as int));
    let mut bits: Vec<u64> = vec![0u64; num_words];
    assert forall|i: int| 0 <= i < 64 * num_words implies !#[trigger] bit_of(bits@, i) by {
        lemma_zero_bits((i % 64) as u64);
    }
    let mut i: usize = 0;
    while i < dim
        invariant
            dim == signs.len(),
            num_words == words_for(dim as int),
            bits.len() == num_words,
            i <= dim,
            forall|j: int| 0 <= j < i ==> #[trigger] bit_of(bits@, j) == signs[j],
            forall|j: int| i <= j < 64 * num_words ==> !#[trigger] bit_of(bits@, j),
        decreases dim - i,
    {
        if signs[i] {
            let word_idx = i / 64;
            let bit_idx = (i % 64) as u64;
            let ghost before = bits@;
            bits.set(word_idx, bits[word_idx] | (1u64 << bit_idx));
            assert forall|j: int| 0 <= j < 64 * num_words implies #[trigger] bit_of(bits@, j) == (
            if j == i {
                true
            } else {
                bit_of(before, j)
            }) by {
                lemma_set_bit(before[word_idx as int], bit_idx, (j % 64) as u64);
            }
        }
        i += 1;
    }
    bits
}

/// Read bit `idx` of a packed code.
pub fn get_bit(bits: &[u64], idx: usize) -> (r: bool)
    requires
        idx / 64 < bits.len(),
    ensures
        r == bit_of(bits@, idx as int),
{
    let word_idx = idx / 64;
    let bit_idx = (idx % 64) as u64;
    (bits[word_idx] >> bit_idx) & 1 == 1
}

/// Number of one bits over all words of a code.
pub fn popcount(bits: &[u64]) -> (r: u32)
    requires
        popcount_words(bits@, bits.len() as int) <= u32::MAX,
    ensures
        r == popcount_words(bits@, bits.len() as int),
{
    let mut total: u32 = 0;
    let mut i: usize = 0;
    while i < bits.len()
        invariant
            i <= bits.len(),
            total == popcount_words(bits@, i as int),
            popcount_words(bits@, bits.len() as int) <= u32::MAX,
        decreases bits.len() - i,
    {
        proof {
            lemma_popcount_words_mono(bits@, i as int + 1, bits.len() as int);
        }
        total = total + count_ones_u64(bits[i]);
        i += 1;
    }
    total
}

proof fn lemma_popcount_words_mono(w: Seq<u64>, k: int, m: int)
    requires
        k <= m,
    ensures
        popcount_words(w, k) <= popcount_words(w, m),
    decreases m - k,
{
    if k < m {
        lemma_popcount_words_mono(w, k, m - 1);
    }
}

proof fn lemma_hamming_words_mono(a: Seq<u64>, b: Seq<u64>, k: int, m: int)
    requires
        k <= m,
    ensures
        hamming_words(a, b, k) <= hamming_words(a, b, m),
    decreases m - k,
{
    if k < m {
        lemma_hamming_words_mono(a, b, k, m - 1);
    }
}

proof fn lemma_hamming_words_bound(a: Seq<u64>, b: Seq<u64>, k: int)
    requires
        k >= 0,
    ensures
        hamming_words(a, b, k) <= 64 * k,
    decreases k,
{
    if k > 0 {
        lemma_hamming_words_bound(a, b, k - 1);
        lemma_pop64_bound(a[k - 1] ^ b[k - 1], 64);
    }
}

/// The shorter of two lengths.
pub open spec fn min_len(a: int, b: int) -> int {
    if a < b {
        a
    } else {
        b
    }
}

/// Hamming distance over the words both codes have.
pub fn hamming_distance_words(a: &[u64], b: &[u64]) -> (r: u32)
    requires
        hamming_words(a@, b@, min_len(a.len() as int, b.len() as int)) <= u32::MAX,
    ensures
        r == hamming_words(a@, b@, min_len(a.len() as int, b.len() as int)),
{
    let m = if a.len() < b.len() {
        a.len()
    } else {
        b.len()
    };
    let mut total: u32 = 0;
    let mut i: usize = 0;
    while i < m
        invariant
            m == min_len(a.len() as int, b.len() as int),
            i <= m,
            total == hamming_words(a@, b@, i as int),
            hamming_words(a@, b@, m as int) <= u32::MAX,
        decreases m - i,
    {
        proof {
            lemma_hamming_words_mono(a@, b@, i as int + 1, m as int);
        }
        total = total + count_ones_u64(a[i] ^ b[i]);
        i += 1;
    }
    total
}

/// Hamming distance between two equally long codes, counted four words at a
/// time with the remaining words after; the count is reported modulo 2^32.
pub fn simd_hamming_distance(a: &[u64], b: &[u64]) -> (r: u32)
    requires
        a.len() == b.len(),
        a.len() <= usize::MAX / 64,
    ensures
        r == hamming_words(a@, b@, a.len() as int) % 0x1_0000_0000,
{
    let n = a.len();
    let lanes: usize = 4;
    let chunks = n / lanes;
    let mut total: u64 = 0;
    proof {
        lemma_hamming_words_bound(a@, b@, n as int);
    }
    let mut i: usize = 0;
    while i < chunks
        invariant
            n == a.len(),
            n == b.len(),
            n <= usize::MAX / 64,
            chunks == n / 4,
            lanes == 4,
            i <= chunks,
            total == hamming_words(a@, b@, 4 * i as int),
            hamming_words(a@, b@, n as int) <= 64 * n,
        decreases chunks - i,
    {
        let offset = i * lanes;
        let mut j: usize = 0;
        while j < lanes
            invariant
                n == a.len(),
                n == b.len(),
                n <= usize::MAX / 64,
                lanes == 4,
                offset == 4 * i,
                i < chunks,
                chunks == n / 4,
                j <= lanes,
                total == hamming_words(a@, b@, offset + j),
                hamming_words(a@, b@, n as int) <= 64 * n,
            decreases lanes - j,
        {
            proof {
                lemma_hamming_words_mono(a@, b@, offset + j + 1, n as int);
            }
            total = total + count_ones_u64(a[offset + j] ^ b[offset + j]) as u64;
            j += 1;
        }
        i += 1;
    }
    let mut k: usize = chunks * lanes;
    while k < n
        invariant
            n == a.len(),
            n == b.len(),
            n <= usize::MAX / 64,
            k <= n,
            total == hamming_words(a@, b@, k as int),
            hamming_words(a@, b@, n as int) <= 64 * n,
        decreases n - k,
    {
        proof {
            lemma_hamming_words_mono(a@, b@, k as int + 1, n as int);
        }
        total = total + count_ones_u64(a[k] ^ b[k]) as u64;
        k += 1;
    }
    assert(total as u32 == total % 0x1_0000_0000) by (bit_vector);
    #[verifier::truncate]
    (total as u32)
}

/// On two codes of the same length whose distance fits in 32 bits, the
/// lane-wise count of `simd_hamming_distance` and the word-by-word count of
/// `hamming_distance_words` agree.
pub proof fn lemma_simd_hamming_matches(a: Seq<u64>, b: Seq<u64>)
    requires
        a.len() == b.len(),
        hamming_words(a, b, a.len() as int) <= u32::MAX,
    ensures
        hamming_words(a, b, a.len() as int) % 0x1_0000_0000 == hamming_words(
            a,
            b,
            min_len(a.len() as int, b.len() as int),
        ),
{
}

} // verus!
