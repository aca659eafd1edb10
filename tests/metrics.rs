use collab_filter::metrics::{Engine, KNNMetric};
use collab_filter::ratings::RatingVector;
use collab_filter::ratio::Score;

fn rv(entries: &[(u64, u8)]) -> RatingVector {
    RatingVector::new(entries.to_vec()).expect("sorted entries")
}

fn frac(neg: bool, num: u128, den: u128) -> Score {
    Score { neg, num, den }
}

fn pair() -> (RatingVector, RatingVector) {
    (rv(&[(1, 5), (2, 3), (3, 4)]), rv(&[(1, 4), (2, 1), (4, 2)]))
}

#[test]
fn rating_vector_rejects_unsorted_or_repeated_items() {
    assert!(RatingVector::new(vec![(2, 1), (1, 1)]).is_none());
    assert!(RatingVector::new(vec![(1, 1), (1, 2)]).is_none());
    assert!(RatingVector::new(vec![]).is_some());
    let v = rv(&[(3, 7), (9, 2)]);
    assert_eq!(v.get(9), Some(2));
    assert_eq!(v.get(4), None);
}

#[test]
fn minkowski_family_values() {
    let e = Engine::new();
    let (a, b) = pair();
    assert_eq!(e.manhattan_distance_between(&a, &b), frac(false, 3, 1));
    assert_eq!(e.euclidean_distance_between(&a, &b), frac(false, 5, 1));
    assert_eq!(e.minkowski_distance_between(&a, &b, 3), frac(false, 9, 1));
}

#[test]
fn minkowski_grades_one_and_two_are_manhattan_and_euclidean() {
    let e = Engine::new();
    let (a, b) = pair();
    assert_eq!(e.minkowski_distance_between(&a, &b, 1), e.manhattan_distance_between(&a, &b));
    assert_eq!(e.minkowski_distance_between(&a, &b, 2), e.euclidean_distance_between(&a, &b));
    let c = rv(&[(1, 200), (5, 7)]);
    assert_eq!(e.minkowski_distance_between(&a, &c, 1), e.manhattan_distance_between(&a, &c));
    assert_eq!(e.minkowski_distance_between(&a, &c, 2), e.euclidean_distance_between(&a, &c));
}

#[test]
fn largest_grade_does_not_overflow() {
    let e = Engine::new();
    let a = rv(&[(1, 255), (2, 0)]);
    let b = rv(&[(1, 0), (2, 255)]);
    let s = e.minkowski_distance_between(&a, &b, 12);
    assert_eq!(s.num, 2 * 255u128.pow(12));
}

#[test]
fn pearson_and_cosine_values() {
    let e = Engine::new();
    let (a, b) = pair();
    // Two common points always correlate perfectly: r = 6 / sqrt(4 * 9) = 1.
    assert_eq!(e.pearson_correlation_between(&a, &b), Some(frac(false, 36, 36)));
    // Cosine over the common items: 23 / sqrt(34 * 17), squared.
    assert_eq!(e.cosine_similarity_between(&a, &b), Some(frac(false, 529, 578)));
    let c = rv(&[(1, 1), (2, 2), (3, 3)]);
    let d = rv(&[(1, 3), (2, 2), (3, 1)]);
    let r = e.pearson_correlation_between(&c, &d).expect("defined");
    assert!(r.neg);
    assert_eq!(r.num, r.den);
}

#[test]
fn pearson_of_identical_constant_vectors_is_undefined() {
    let e = Engine::new();
    let a = rv(&[(1, 3), (2, 3), (3, 3)]);
    assert_eq!(e.pearson_correlation_between(&a, &a.clone()), None);
    let single = rv(&[(1, 4)]);
    assert_eq!(e.pearson_correlation_between(&single, &single.clone()), None);
}

#[test]
fn undefined_when_nothing_in_common() {
    let e = Engine::new();
    let a = rv(&[(1, 3)]);
    let b = rv(&[(2, 3)]);
    assert_eq!(e.cosine_similarity_between(&a, &b), None);
    assert_eq!(e.pearson_correlation_between(&a, &b), None);
    assert_eq!(e.manhattan_distance_between(&a, &b), frac(false, 0, 1));
    let empty = RatingVector::empty();
    assert_eq!(e.jaccard_index_between(&empty, &empty.clone()), None);
    assert_eq!(e.jaccard_distance_between(&empty, &empty.clone()), None);
}

#[test]
fn jaccard_values_add_up_to_one() {
    let e = Engine::new();
    let (a, b) = pair();
    let i = e.jaccard_index_between(&a, &b).expect("defined");
    let d = e.jaccard_distance_between(&a, &b).expect("defined");
    assert_eq!(i, frac(false, 2, 4));
    assert_eq!(d, frac(false, 2, 4));
    let c = rv(&[(1, 1), (7, 1), (8, 1)]);
    let i = e.jaccard_index_between(&a, &c).expect("defined");
    let d = e.jaccard_distance_between(&a, &c).expect("defined");
    assert_eq!((i.num, i.den), (1, 5));
    assert_eq!(i.num * d.den + d.num * i.den, i.den * d.den);
}

#[test]
fn every_metric_is_symmetric() {
    let e = Engine::new();
    let (a, b) = pair();
    let c = rv(&[(2, 9), (3, 1), (4, 4), (6, 2)]);
    let metrics = [
        KNNMetric::Manhattan,
        KNNMetric::Euclidean,
        KNNMetric::Minkowski(3),
        KNNMetric::Pearson,
        KNNMetric::Cosine,
        KNNMetric::JaccardDistance,
        KNNMetric::JaccardIndex,
    ];
    for m in metrics.iter() {
        assert_eq!(e.score_between(&a, &b, m), e.score_between(&b, &a, m));
        assert_eq!(e.score_between(&a, &c, m), e.score_between(&c, &a, m));
        assert_eq!(e.score_between(&b, &c, m), e.score_between(&c, &b, m));
    }
}

#[test]
fn score_comparison_is_exact() {
    let a = frac(false, 1, 3);
    let b = frac(false, 333333333333, 1000000000000);
    assert_eq!(a.compare(&b), 1);
    assert_eq!(b.compare(&a), -1);
    assert_eq!(frac(false, 2, 4).compare(&frac(false, 1, 2)), 0);
    assert_eq!(frac(true, 1, 2).compare(&frac(false, 0, 1)), -1);
    assert_eq!(frac(true, 0, 2).compare(&frac(false, 0, 1)), 0);
    assert_eq!(frac(true, 1, 2).compare(&frac(true, 1, 3)), -1);
    let big = u128::MAX;
    assert_eq!(frac(false, big, big - 1).compare(&frac(false, big - 1, big - 2)), -1);
}
