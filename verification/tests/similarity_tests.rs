use exam_dedup::similarity::cosine_similarity;
use exam_dedup::resolver::{is_duplicate_pair, similarity_score};

#[test]
fn cosine_of_vector_with_itself_is_one() {
    let a: Vec<i64> = vec![1234, 5678, 9101];
    assert_eq!(cosine_similarity(&a, &a), 10000);
    let b: Vec<i64> = vec![-7, 0, 3];
    assert_eq!(cosine_similarity(&b, &b), 10000);
}

#[test]
fn cosine_is_symmetric() {
    let a: Vec<i64> = vec![3000, 4000];
    let b: Vec<i64> = vec![-3000, 4000];
    let ab = cosine_similarity(&a, &b);
    let ba = cosine_similarity(&b, &a);
    assert_eq!(ab, ba);
    assert_eq!(ab, 2800);
}

#[test]
fn cosine_with_zero_vector_is_zero() {
    let z: Vec<i64> = vec![0, 0];
    let a: Vec<i64> = vec![1, 2];
    assert_eq!(cosine_similarity(&z, &a), 0);
    assert_eq!(cosine_similarity(&a, &z), 0);
    assert_eq!(cosine_similarity(&z, &z), 0);
}

#[test]
fn cosine_exact_on_three_four_five_triple() {
    let a: Vec<i64> = vec![10000, 0];
    let b: Vec<i64> = vec![6000, 8000];
    assert_eq!(cosine_similarity(&a, &b), 6000);
}

#[test]
fn cosine_orthogonal_and_opposite() {
    let a: Vec<i64> = vec![5, 0];
    let b: Vec<i64> = vec![0, 7];
    let c: Vec<i64> = vec![-5, 0];
    assert_eq!(cosine_similarity(&a, &b), 0);
    assert_eq!(cosine_similarity(&a, &c), -10000);
}

#[test]
fn duplicate_classification_is_strictly_above_threshold() {
    // threshold 0.5: a pair at (0.5, 0.9) is not a duplicate, (0.51, 0.51) is.
    assert!(!is_duplicate_pair(5000, 9000, 5000));
    assert!(is_duplicate_pair(5100, 5100, 5000));
    assert!(!is_duplicate_pair(9000, 5000, 5000));
    assert!(!is_duplicate_pair(5000, 5000, 5000));
}

#[test]
fn score_is_the_mean_of_both_similarities() {
    assert_eq!(similarity_score(6000, 4000), 5000);
    assert_eq!(similarity_score(6000, 2800), 4400);
    assert_eq!(similarity_score(-10000, 10000), 0);
    assert_eq!(similarity_score(10000, 10000), 10000);
}

#[test]
fn score_is_symmetric() {
    assert_eq!(similarity_score(6000, 2800), similarity_score(2800, 6000));
    assert_eq!(similarity_score(-300, 700), similarity_score(700, -300));
}
