use seqsearch::bits::{
    count_ones_u64, get_bit, hamming_distance_words, pack_sign_bits, popcount, simd_hamming_distance,
};
use seqsearch::rabitq::{check_build_shape, check_query, DistanceMetric, RaBitQError, SubvectorQuantized};

fn signs(v: &[f32]) -> Vec<bool> {
    v.iter().map(|x| *x >= 0.0).collect()
}

#[test]
fn test_simd_hamming_distance() {
    let a = vec![0xFFFFFFFF_00000000u64, 0x0F0F0F0F_0F0F0F0Fu64];
    let b = vec![0x00000000_FFFFFFFFu64, 0xF0F0F0F0_F0F0F0F0u64];
    let simd_result = simd_hamming_distance(&a, &b);
    assert_eq!(simd_result, 128);
}

#[test]
fn test_quantize_signs() {
    let v = vec![1.0f32, -2.0, 3.0, -4.0, 0.0, -0.1, 0.1, -0.5];
    let bits = pack_sign_bits(&signs(&v));
    assert!(get_bit(&bits, 0));
    assert!(!get_bit(&bits, 1));
    assert!(get_bit(&bits, 2));
    assert!(!get_bit(&bits, 3));
    assert!(get_bit(&bits, 4));
    assert!(!get_bit(&bits, 5));
    assert!(get_bit(&bits, 6));
    assert!(!get_bit(&bits, 7));
}

#[test]
fn test_hamming_distance() {
    let v1 = vec![1.0f32, 1.0, 1.0, 1.0];
    let v2 = vec![1.0f32, -1.0, 1.0, -1.0];
    let q1 = pack_sign_bits(&signs(&v1));
    let q2 = pack_sign_bits(&signs(&v2));
    assert_eq!(hamming_distance_words(&q1, &q2), 2);
}

#[test]
fn hamming_distance_is_symmetric_and_zero_on_itself() {
    let a = vec![0xdead_beef_u64, 7, u64::MAX];
    let b = vec![0x1234_5678_u64, 0, 1];
    assert_eq!(hamming_distance_words(&a, &b), hamming_distance_words(&b, &a));
    assert_eq!(hamming_distance_words(&a, &a), 0);
    assert_eq!(simd_hamming_distance(&a, &a), 0);
}

#[test]
fn test_popcount() {
    let v = vec![1.0f32, -1.0, 1.0, -1.0, 1.0, -1.0, 1.0, -1.0];
    let bits = pack_sign_bits(&signs(&v));
    assert_eq!(popcount(&bits), 4);
}

#[test]
fn simd_hamming_counts_remainder_words() {
    let a = vec![u64::MAX, 0, 1, 3, 7];
    let b = vec![0, 0, 0, 0, 0];
    assert_eq!(simd_hamming_distance(&a, &b), 64 + 0 + 1 + 2 + 3);
}

#[test]
fn count_ones_values() {
    assert_eq!(count_ones_u64(0), 0);
    assert_eq!(count_ones_u64(u64::MAX), 64);
    assert_eq!(count_ones_u64(0b1011), 3);
}

#[test]
fn pack_sign_bits_spans_words() {
    let mut s = vec![false; 130];
    s[0] = true;
    s[64] = true;
    s[129] = true;
    let bits = pack_sign_bits(&s);
    assert_eq!(bits, vec![1u64, 1u64, 2u64]);
}

#[test]
fn subvector_hamming_distance() {
    let a = SubvectorQuantized::from_sign_flags(&[true, false, true, true]);
    let b = SubvectorQuantized::from_sign_flags(&[false, false, true, false]);
    assert_eq!(a.subdim, 4);
    assert_eq!(a.hamming_distance(&b), 2);
}

#[test]
fn metrics_prefer_lower_values() {
    assert!(DistanceMetric::Euclidean.lower_is_better());
    assert!(DistanceMetric::Cosine.lower_is_better());
    assert!(DistanceMetric::InnerProduct.lower_is_better());
}

#[test]
fn build_shape_errors() {
    assert!(matches!(check_build_shape(&[], 4), Err(RaBitQError::EmptyVectorSet)));
    assert!(matches!(
        check_build_shape(&[8, 8, 7], 4),
        Err(RaBitQError::DimensionMismatch { expected: 8, got: 7 })
    ));
    assert!(matches!(
        check_build_shape(&[10, 10], 4),
        Err(RaBitQError::InvalidSubvectorCount { dim: 10, num_subvectors: 4 })
    ));
    assert!(matches!(check_build_shape(&[64, 64], 4), Ok((64, 16))));
}

#[test]
fn build_shape_zero_subvectors_is_an_error() {
    assert!(matches!(
        check_build_shape(&[64, 64], 0),
        Err(RaBitQError::InvalidSubvectorCount { dim: 64, num_subvectors: 0 })
    ));
    assert!(matches!(check_build_shape(&[], 0), Err(RaBitQError::EmptyVectorSet)));
}

#[test]
fn query_checks() {
    assert!(matches!(
        check_query(32, 64, 10, 100),
        Err(RaBitQError::DimensionMismatch { expected: 64, got: 32 })
    ));
    assert!(matches!(check_query(64, 64, 101, 100), Err(RaBitQError::KTooLarge { k: 101, num_vectors: 100 })));
    assert!(check_query(64, 64, 10, 100).is_ok());
}
