use semsearch::similarity::{cosine_similarity, MAX_DIMENSION, SCORE_SCALE};

#[test]
fn cosine_of_orthogonal_vectors_is_zero() {
    assert_eq!(cosine_similarity(&[1, 0], &[0, 1]), 0);
}

#[test]
fn cosine_of_vector_with_itself_is_one() {
    assert_eq!(cosine_similarity(&[1, 2], &[1, 2]), SCORE_SCALE);
    assert_eq!(cosine_similarity(&[3, 4], &[3, 4]), 1000000);
    assert_eq!(cosine_similarity(&[-7, 32767, -32768], &[-7, 32767, -32768]), SCORE_SCALE);
}

#[test]
fn cosine_is_symmetric() {
    assert_eq!(cosine_similarity(&[3, 4], &[4, 3]), cosine_similarity(&[4, 3], &[3, 4]));
    assert_eq!(cosine_similarity(&[1, 2, 3], &[-3, 0, 2]), cosine_similarity(&[-3, 0, 2], &[1, 2, 3]));
}

#[test]
fn cosine_with_zero_vector_is_zero() {
    assert_eq!(cosine_similarity(&[0, 0], &[1, 2]), 0);
    assert_eq!(cosine_similarity(&[1, 2], &[0, 0]), 0);
    assert_eq!(cosine_similarity(&[], &[]), 0);
}

#[test]
fn cosine_exact_values() {
    assert_eq!(cosine_similarity(&[3, 4], &[4, 3]), 960000);
    assert_eq!(cosine_similarity(&[1, 1], &[1, 0]), 707106);
    assert_eq!(cosine_similarity(&[2, 1], &[1, 2]), 800000);
    assert_eq!(cosine_similarity(&[1, 0], &[-1, 0]), -1000000);
    assert_eq!(cosine_similarity(&[10000, 0], &[9000, 1000]), 993883);
}

#[test]
fn cosine_at_largest_dimension() {
    let a = vec![-32768i16; MAX_DIMENSION];
    let b = vec![32767i16; MAX_DIMENSION];
    assert_eq!(cosine_similarity(&a, &a), SCORE_SCALE);
    assert_eq!(cosine_similarity(&a, &b), -SCORE_SCALE);
}
