use collab_filter::knn::{Auxiliar, KnnError, UserRatings};
use collab_filter::metrics::{Engine, KNNMetric, Polarity};
use collab_filter::ratings::RatingVector;
use collab_filter::ratio::Score;
use collab_filter::topk::{PairDist, TopKSelector};

fn rv(entries: &[(u64, u8)]) -> RatingVector {
    RatingVector::new(entries.to_vec()).expect("sorted entries")
}

fn user(id: u64, entries: &[(u64, u8)]) -> UserRatings {
    UserRatings { id, ratings: rv(entries) }
}

fn pd(id: u64, num: u128) -> PairDist {
    PairDist { id, value: Score { neg: false, num, den: 1 } }
}

fn corpus() -> Vec<UserRatings> {
    vec![
        user(1, &[(1, 5), (2, 3), (3, 4), (4, 1)]),
        user(2, &[(1, 4), (2, 3), (3, 4), (4, 1)]),
        user(3, &[(1, 1), (2, 5), (4, 2)]),
        user(4, &[(1, 4), (2, 4), (3, 4), (4, 3)]),
        user(5, &[(1, 5), (2, 4), (3, 5), (4, 3)]),
        user(6, &[(1, 2), (3, 1)]),
        user(7, &[(5, 4)]),
    ]
}

#[test]
fn euclidean_scenario_orders_nearest_first() {
    let data = vec![
        user(1, &[(1, 5), (2, 3)]),
        user(2, &[(1, 4), (2, 3)]),
        user(3, &[(1, 1), (2, 5)]),
    ];
    let e = Engine::new();
    let r = e.k_nearest_neighbors(2, 1, &data[0].ratings, &data, &KNNMetric::Euclidean).unwrap();
    assert_eq!(r.iter().map(|p| p.id).collect::<Vec<_>>(), vec![2, 3]);
    // The scores are squared distances: sqrt(1) = 1 and sqrt(20) ≈ 4.47.
    assert_eq!(r[0].value, Score { neg: false, num: 1, den: 1 });
    assert_eq!(r[1].value, Score { neg: false, num: 20, den: 1 });
    assert!(((r[1].value.num as f64).sqrt() - 4.47).abs() < 0.01);
}

#[test]
fn target_is_not_its_own_neighbour() {
    let data = corpus();
    let e = Engine::new();
    let r = e.k_nearest_neighbors(10, 1, &data[0].ratings, &data, &KNNMetric::Manhattan).unwrap();
    assert_eq!(r.len(), 6);
    assert!(r.iter().all(|p| p.id != 1));
    // User 7 shares no item with the target: distance 0, ranked first.
    assert_eq!(r[0], pd(7, 0));
    assert_eq!(r[1], pd(2, 1));
}

#[test]
fn absent_target_changes_nothing() {
    let data = corpus();
    let e = Engine::new();
    let target = rv(&[(1, 5), (2, 3)]);
    let r = e.k_nearest_neighbors(3, 99, &target, &data, &KNNMetric::Manhattan).unwrap();
    assert_eq!(r.len(), 3);
}

#[test]
fn undefined_scores_are_left_out() {
    let data = vec![
        user(1, &[(1, 5), (2, 3), (3, 1)]),
        user(2, &[(1, 3), (2, 3), (3, 3)]),
        user(3, &[(1, 4), (2, 2), (3, 1)]),
        user(4, &[(9, 4)]),
    ];
    let e = Engine::new();
    let r = e.k_nearest_neighbors(5, 1, &data[0].ratings, &data, &KNNMetric::Pearson).unwrap();
    assert_eq!(r.iter().map(|p| p.id).collect::<Vec<_>>(), vec![3]);
}

#[test]
fn similarities_rank_largest_first() {
    let data = corpus();
    let e = Engine::new();
    let r = e.k_nearest_neighbors(3, 1, &data[0].ratings, &data, &KNNMetric::JaccardIndex).unwrap();
    assert_eq!(r.len(), 3);
    assert_eq!(r[0].id, 2);
    assert_eq!((r[0].value.num, r[0].value.den), (4, 4));
    for w in r.windows(2) {
        assert!(w[0].value.compare(&w[1].value) >= 0);
    }
}

#[test]
fn invalid_parameters_are_rejected() {
    let data = corpus();
    let e = Engine::new();
    let t = &data[0].ratings;
    assert_eq!(e.k_nearest_neighbors(0, 1, t, &data, &KNNMetric::Manhattan), Err(KnnError::InvalidK));
    assert_eq!(e.k_nearest_neighbors(-3, 1, t, &data, &KNNMetric::Cosine), Err(KnnError::InvalidK));
    assert_eq!(
        e.k_nearest_neighbors(2, 1, t, &data, &KNNMetric::Minkowski(0)),
        Err(KnnError::InvalidGrade)
    );
    assert_eq!(
        e.k_nearest_neighbors(2, 1, t, &data, &KNNMetric::Minkowski(13)),
        Err(KnnError::InvalidGrade)
    );
    let a = Auxiliar::new();
    assert_eq!(a.merge_heap_results_for_knn(0, &vec![], &vec![], &KNNMetric::Manhattan), Err(KnnError::InvalidK));
}

#[test]
fn result_never_exceeds_k_or_candidates() {
    let data = corpus();
    let e = Engine::new();
    for k in 1..10 {
        let r = e.k_nearest_neighbors(k, 1, &data[0].ratings, &data, &KNNMetric::Euclidean).unwrap();
        assert_eq!(r.len(), std::cmp::min(k as usize, 6));
        let all = e.k_nearest_neighbors(10, 1, &data[0].ratings, &data, &KNNMetric::Euclidean).unwrap();
        // Every kept neighbour beats every one left out.
        for kept in &r {
            for other in all.iter().skip(r.len()) {
                assert!(kept.value.compare(&other.value) <= 0);
                assert!(!r.contains(other));
            }
        }
    }
}

fn fold_chunks(k: i32, chunks: &[Vec<UserRatings>], target: &RatingVector, metric: KNNMetric) -> Vec<PairDist> {
    let e = Engine::new();
    let a = Auxiliar::new();
    let mut running = Vec::new();
    for chunk in chunks {
        let part = e.k_nearest_neighbors(k, 1, target, chunk, &metric).unwrap();
        running = a.merge_heap_results_for_knn(k, &running, &part, &metric).unwrap();
    }
    running
}

#[test]
fn chunked_search_equals_whole_search() {
    let data = corpus();
    let target = data[0].ratings.clone();
    let e = Engine::new();
    let metrics = [
        KNNMetric::Manhattan,
        KNNMetric::Euclidean,
        KNNMetric::Minkowski(3),
        KNNMetric::Pearson,
        KNNMetric::Cosine,
        KNNMetric::JaccardDistance,
        KNNMetric::JaccardIndex,
    ];
    for m in metrics.iter() {
        for k in 1..5 {
            let whole = e.k_nearest_neighbors(k, 1, &target, &data, m).unwrap();
            for size in 1..data.len() {
                let chunks: Vec<Vec<UserRatings>> = data.chunks(size).map(|c| c.to_vec()).collect();
                assert_eq!(fold_chunks(k, &chunks, &target, *m), whole);
                let mut reversed = chunks.clone();
                reversed.reverse();
                assert_eq!(fold_chunks(k, &reversed, &target, *m), whole);
            }
        }
    }
}

#[test]
fn merge_keeps_best_of_both_lists() {
    let a = Auxiliar::new();
    let first = vec![pd(1, 1), pd(3, 5), pd(5, 9)];
    let second = vec![pd(2, 2), pd(4, 5), pd(6, 7)];
    let r = a.merge_max_heap(4, &first, &second);
    assert_eq!(r, vec![pd(1, 1), pd(2, 2), pd(3, 5), pd(4, 5)]);
    let firstmax = vec![pd(5, 9), pd(3, 5), pd(1, 1)];
    let secondmax = vec![pd(6, 7), pd(4, 5), pd(2, 2)];
    let r = a.merge_min_heap(3, &firstmax, &secondmax);
    assert_eq!(r, vec![pd(5, 9), pd(6, 7), pd(3, 5)]);
    let r = a.merge_heap_results_for_knn(10, &first, &vec![], &KNNMetric::Manhattan).unwrap();
    assert_eq!(r, first);
}

#[test]
fn selector_keeps_k_best() {
    let mut s = TopKSelector::new(3, Polarity::Minimize);
    for (id, v) in [(1u64, 8u128), (2, 3), (3, 9), (4, 1), (5, 3), (6, 7)] {
        s.offer(pd(id, v));
    }
    assert_eq!(s.into_sorted(), vec![pd(4, 1), pd(2, 3), pd(5, 3)]);
    let mut s = TopKSelector::new(2, Polarity::Maximize);
    for (id, v) in [(1u64, 8u128), (2, 3), (3, 9)] {
        s.offer(pd(id, v));
    }
    assert_eq!(s.into_sorted(), vec![pd(3, 9), pd(1, 8)]);
    let mut s = TopKSelector::new(0, Polarity::Maximize);
    s.offer(pd(1, 1));
    assert!(s.into_sorted().is_empty());
}
