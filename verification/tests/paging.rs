use north_pole::paging::{paginate, Pages};

fn names(list: &[&str]) -> Vec<String> {
    list.iter().map(|s| s.to_string()).collect()
}

fn ten() -> Vec<String> {
    names(&["Ava", "Caleb", "Mia", "Owen", "Lily", "Ethan", "Zoe", "Nolan", "Harper", "Lucas"])
}

#[test]
fn without_split_the_window_is_flat() {
    assert_eq!(paginate(&ten(), 0, None, None), Pages::Flat(ten()));
    assert_eq!(paginate(&ten(), 3, Some(5), None), Pages::Flat(names(&["Owen", "Lily", "Ethan", "Zoe", "Nolan"])));
    assert_eq!(paginate(&ten(), 8, Some(5), None), Pages::Flat(names(&["Harper", "Lucas"])));
    assert_eq!(paginate(&ten(), 10, None, None), Pages::Flat(vec![]));
    assert_eq!(paginate(&ten(), usize::MAX, Some(usize::MAX), None), Pages::Flat(vec![]));
    assert_eq!(paginate(&ten(), 2, Some(0), None), Pages::Flat(vec![]));
    assert_eq!(paginate(&ten(), 9, Some(usize::MAX), None), Pages::Flat(names(&["Lucas"])));
}

#[test]
fn with_split_the_window_is_cut_into_pages() {
    assert_eq!(
        paginate(&ten(), 0, None, Some(4)),
        Pages::Split(vec![
            names(&["Ava", "Caleb", "Mia", "Owen"]),
            names(&["Lily", "Ethan", "Zoe", "Nolan"]),
            names(&["Harper", "Lucas"]),
        ])
    );
    assert_eq!(
        paginate(&ten(), 1, Some(4), Some(2)),
        Pages::Split(vec![names(&["Caleb", "Mia"]), names(&["Owen", "Lily"])])
    );
    assert_eq!(paginate(&ten(), 0, Some(0), Some(3)), Pages::Split(vec![]));
    assert_eq!(paginate(&ten(), 0, Some(2), Some(usize::MAX)), Pages::Split(vec![names(&["Ava", "Caleb"])]));
}

#[test]
fn the_number_of_pages_goes_by_the_limit() {
    // five items are asked for, two are there: three pages all the same
    assert_eq!(
        paginate(&ten(), 8, Some(5), Some(2)),
        Pages::Split(vec![names(&["Harper", "Lucas"]), vec![], vec![]])
    );
    // without a limit the length of the list is the limit
    assert_eq!(
        paginate(&ten(), 7, None, Some(5)),
        Pages::Split(vec![names(&["Nolan", "Harper", "Lucas"]), vec![]])
    );
    assert_eq!(paginate(&ten(), 20, Some(3), Some(1)), Pages::Split(vec![vec![], vec![], vec![]]));
}
