use collab_filter::books::{BookItem, BookUser};
use collab_filter::ratings::RatingVector;
use collab_filter::item::Item;
use collab_filter::movielens::SMovieLensItem;
use collab_filter::movies::MovieItem;

#[test]
fn book_item_keeps_extra_fields() {
    let b = BookItem::create(
        String::from("0002005018"),
        String::from("Clara Callan"),
        String::from("Richard Bruce Wright"),
        String::from("2001"),
        String::from("HarperFlamingo Canada"),
    );
    assert_eq!(b.id(), "0002005018");
    assert_eq!(b.name(), "Clara Callan");
    let d = b.data();
    assert_eq!(d.len(), 3);
    assert_eq!(d[0], (String::from("Author"), String::from("Richard Bruce Wright")));
    assert_eq!(d[1], (String::from("Publication Year"), String::from("2001")));
    assert_eq!(d[2], (String::from("Publisher"), String::from("HarperFlamingo Canada")));
}

#[test]
fn movielens_item_keeps_genres() {
    let m = SMovieLensItem::create(2, String::from("Jumanji (1995)"), String::from("Adventure|Children|Fantasy"));
    assert_eq!(m.id(), 2);
    assert_eq!(m.name(), "Jumanji (1995)");
    assert_eq!(m.data(), vec![(String::from("Genres"), String::from("Adventure|Children|Fantasy"))]);
}

#[test]
fn movie_item_has_no_extra_fields() {
    let m = MovieItem { id: 3, name: String::from("Avatar") };
    assert_eq!(m.id(), 3);
    assert_eq!(m.name(), "Avatar");
    assert!(m.data().is_empty());
}

#[test]
fn book_user_keeps_city_and_age() {
    let ratings = RatingVector::new(vec![(1, 8), (4, 5)]).unwrap();
    let u = BookUser::create(2, ratings, String::from("stockton, california, usa"), Some(18));
    assert_eq!(u.id, 2);
    assert_eq!(u.ratings.get(4), Some(5));
    assert_eq!(
        u.extra_data,
        vec![
            (String::from("City"), String::from("stockton, california, usa")),
            (String::from("Age"), String::from("18")),
        ]
    );
    let v = BookUser::create(3, RatingVector::empty(), String::from("porto, portugal"), None);
    assert_eq!(v.extra_data, vec![(String::from("City"), String::from("porto, portugal"))]);
}
