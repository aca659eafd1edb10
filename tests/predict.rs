use collab_filter::predict::{predict_rating, recommend, WeightedNeighbor};
use collab_filter::ratings::RatingVector;
use collab_filter::ratio::Score;
use collab_filter::topk::PairDist;

fn rv(entries: &[(u64, u8)]) -> RatingVector {
    RatingVector::new(entries.to_vec()).expect("sorted entries")
}

fn nb(id: u64, weight: Option<i32>, entries: &[(u64, u8)]) -> WeightedNeighbor {
    WeightedNeighbor { id, weight, ratings: rv(entries) }
}

fn neighbors() -> Vec<WeightedNeighbor> {
    vec![
        nb(1, Some(2), &[(10, 4), (12, 2)]),
        nb(2, Some(1), &[(10, 1)]),
        nb(3, None, &[(10, 5), (13, 5)]),
        nb(4, Some(3), &[(11, 5)]),
    ]
}

fn value(s: Score) -> f64 {
    let v = s.num as f64 / s.den as f64;
    if s.neg { -v } else { v }
}

#[test]
fn prediction_is_weighted_average_of_raters() {
    let p = predict_rating(&neighbors(), 10).unwrap();
    // (4 * 2 + 1 * 1) / (2 + 1); the neighbour without a weight is left out.
    assert_eq!(value(p), 3.0);
    assert_eq!(value(predict_rating(&neighbors(), 11).unwrap()), 5.0);
}

#[test]
fn prediction_without_raters_is_undefined() {
    assert_eq!(predict_rating(&neighbors(), 99), None);
    assert_eq!(predict_rating(&neighbors(), 13), None);
    assert_eq!(predict_rating(&vec![], 10), None);
}

#[test]
fn prediction_with_negative_and_cancelling_weights() {
    let ns = vec![nb(1, Some(-2), &[(1, 4)]), nb(2, Some(-1), &[(1, 1)])];
    let p = predict_rating(&ns, 1).unwrap();
    assert!(p.den > 0);
    assert_eq!(value(p), 3.0);
    let cancel = vec![nb(1, Some(2), &[(1, 4)]), nb(2, Some(-2), &[(1, 1)])];
    assert_eq!(predict_rating(&cancel, 1), None);
}

#[test]
fn recommendations_rank_unrated_items_by_raw_score() {
    let target = rv(&[(10, 3)]);
    let r = recommend(&neighbors(), &target, 5);
    let expect = vec![
        PairDist { id: 11, value: Score { neg: false, num: 15, den: 1 } },
        PairDist { id: 12, value: Score { neg: false, num: 4, den: 1 } },
    ];
    assert_eq!(r, expect);
    let top = recommend(&neighbors(), &target, 1);
    assert_eq!(top, vec![expect[0]]);
    assert!(recommend(&neighbors(), &target, 0).is_empty());
}

#[test]
fn recommendation_ties_go_to_smaller_item() {
    let ns = vec![nb(1, Some(1), &[(5, 2), (6, 2)]), nb(2, Some(-1), &[(7, 3)])];
    let r = recommend(&ns, &RatingVector::empty(), 3);
    assert_eq!(r.iter().map(|p| p.id).collect::<Vec<_>>(), vec![5, 6, 7]);
    assert!(r[2].value.neg);
}
