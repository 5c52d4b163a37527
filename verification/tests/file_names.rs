use stamps_native::file_names::pair_dates;

#[test]
fn date_pair_is_found_after_a_prefix() {
    assert_eq!(pair_dates(b"IFG_20200101_20200113.diff"), Some(4));
}

#[test]
fn first_complete_date_pair_wins() {
    assert_eq!(pair_dates(b"20200101-20200113_20200125_20200206"), Some(9));
}

#[test]
fn names_without_a_date_pair_give_none() {
    assert_eq!(pair_dates(b"no_dates_here"), None);
    assert_eq!(pair_dates(b"2020010_20200113x"), None);
    assert_eq!(pair_dates(b"short"), None);
}
