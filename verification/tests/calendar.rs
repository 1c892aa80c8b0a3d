use gentleman_manager::calendar::{civil_from_days, file_timestamp, iso_timestamp, now_iso_timestamp};

#[test]
fn epoch_day_is_new_year_1970() {
    assert_eq!(civil_from_days(0), (1970, 1, 1));
}

#[test]
fn leap_day_of_2000() {
    assert_eq!(civil_from_days(11016), (2000, 2, 29));
}

#[test]
fn leap_day_of_2024() {
    assert_eq!(civil_from_days(19782), (2024, 2, 29));
}

#[test]
fn last_day_of_2099() {
    assert_eq!(civil_from_days(47481), (2099, 12, 31));
}

#[test]
fn iso_timestamp_matches_js_format() {
    assert_eq!(iso_timestamp(1716944461, 5), "2024-05-29T01:01:01.005Z");
    assert_eq!(iso_timestamp(0, 0), "1970-01-01T00:00:00.000Z");
}

#[test]
fn file_timestamp_uses_underscores() {
    assert_eq!(file_timestamp(4102444799), "2099_12_31_23_59_59");
}

#[test]
fn now_timestamp_has_iso_shape() {
    let t = now_iso_timestamp();
    assert_eq!(t.len(), 24);
    assert!(t.ends_with('Z'));
}
