use collab_filter::knn::UserRatings;
use collab_filter::ratings::RatingVector;
use collab_filter::ratio::Score;
use collab_filter::similarity::{get_similarity_between, get_similarity_matrix, LookupError};

fn user(id: u64, entries: &[(u64, u8)]) -> UserRatings {
    UserRatings { id, ratings: RatingVector::new(entries.to_vec()).expect("sorted entries") }
}

#[test]
fn adjusted_cosine_of_opposed_items() {
    let data = vec![user(1, &[(10, 5), (20, 3)]), user(2, &[(10, 4), (20, 1)])];
    let (order, matrix) = get_similarity_matrix(&data);
    assert_eq!(order, vec![10, 20]);
    // Deviations: user 1 gives +1000 / -1000, user 2 gives +1500 / -1500.
    let sq: u128 = 3_250_000 * 3_250_000;
    assert_eq!(matrix[0][1], Some(Score { neg: true, num: sq, den: sq }));
    assert_eq!(matrix[0][0], Some(Score { neg: false, num: sq, den: sq }));
    assert_eq!(matrix[1][0], None);
    let s = get_similarity_between(&order, &matrix, 20, 10).unwrap().unwrap();
    assert!(s.neg);
    assert_eq!(s.num, s.den);
    assert_eq!(get_similarity_between(&order, &matrix, 10, 20), get_similarity_between(&order, &matrix, 20, 10));
}

#[test]
fn items_without_common_raters_have_no_similarity() {
    let data = vec![user(1, &[(1, 5), (2, 1)]), user(2, &[(3, 3), (4, 1)])];
    let (order, matrix) = get_similarity_matrix(&data);
    assert_eq!(order, vec![1, 2, 3, 4]);
    assert_eq!(get_similarity_between(&order, &matrix, 1, 3), Ok(None));
    assert_eq!(get_similarity_between(&order, &matrix, 4, 2), Ok(None));
    assert!(get_similarity_between(&order, &matrix, 1, 2).unwrap().is_some());
}

#[test]
fn deviations_round_away_from_zero() {
    // User 1 has mean 5/3: deviations -667, +334, +334 (thousandths).
    // User 2 has mean 2: deviations 0, -1000, +1000.
    let data = vec![user(1, &[(1, 1), (2, 2), (3, 2)]), user(2, &[(1, 2), (2, 1), (3, 3)])];
    let (order, matrix) = get_similarity_matrix(&data);
    assert_eq!(order, vec![1, 2, 3]);
    // Item 1 against item 2: user 1 gives (-667, 334), user 2 (0, -1000).
    let xy: i128 = -667 * 334;
    let xx: u128 = 667 * 667;
    let yy: u128 = 334 * 334 + 1000 * 1000;
    let cell = matrix[0][1].unwrap();
    assert_eq!(cell, Score { neg: true, num: (xy * xy) as u128, den: xx * yy });
}

#[test]
fn tiny_deviations_are_not_lost() {
    // 1000 ratings of 2 and one of 3: each 2 lies 1/1001 below the mean.
    let mut entries: Vec<(u64, u8)> = (1..=1000).map(|i| (i, 2)).collect();
    entries.push((1001, 3));
    let data = vec![UserRatings { id: 1, ratings: RatingVector::new(entries).unwrap() }];
    let (order, matrix) = get_similarity_matrix(&data);
    assert_eq!(order.len(), 1001);
    let diagonal = matrix[0][0].expect("a rater deviates from its mean");
    assert!(!diagonal.neg);
    assert_eq!(diagonal.num, diagonal.den);
    // Items 1 and 2 deviate alike: similarity exactly 1.
    let pair = get_similarity_between(&order, &matrix, 2, 1).unwrap().unwrap();
    assert_eq!(pair.num, pair.den);
    // Item 1 against item 1001: deviations -1 and +1000 thousandths, opposed.
    assert!(matrix[0][1000].unwrap().neg);
}

#[test]
fn self_similarity_is_one_when_a_rater_deviates() {
    let data = vec![user(1, &[(1, 5), (2, 3), (3, 4)]), user(2, &[(1, 2), (3, 4)])];
    let (order, matrix) = get_similarity_matrix(&data);
    for i in 0..order.len() {
        let d = matrix[i][i].unwrap();
        assert!(!d.neg);
        assert_eq!(d.num, d.den);
    }
    // A user whose ratings all equal its mean leaves the item undefined.
    let flat = vec![user(1, &[(1, 4), (2, 4)])];
    let (_, matrix) = get_similarity_matrix(&flat);
    assert_eq!(matrix[0][0], None);
}

#[test]
fn unknown_items_are_reported() {
    let data = vec![user(1, &[(1, 5), (2, 1)])];
    let (order, matrix) = get_similarity_matrix(&data);
    assert_eq!(get_similarity_between(&order, &matrix, 7, 1), Err(LookupError::FirstItemNotFound));
    assert_eq!(get_similarity_between(&order, &matrix, 1, 7), Err(LookupError::SecondItemNotFound));
}

#[test]
fn empty_corpus_gives_empty_matrix() {
    let (order, matrix) = get_similarity_matrix(&vec![]);
    assert!(order.is_empty());
    assert!(matrix.is_empty());
}
