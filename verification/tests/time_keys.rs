use video_merger::scan::{build_instant, ScanError};
use video_merger::time::{civil_fields_valid, is_bucket_dir_name, parse_bucket_key, render_bucket_key, render_date_key};

#[test]
fn bucket_key_parses_into_fields() {
    assert_eq!(parse_bucket_key("2024031007"), Some((2024, 3, 10, 7)));
}

#[test]
fn bucket_key_round_trips() {
    let (y, mo, d, h) = parse_bucket_key("2024031007").unwrap();
    assert_eq!(render_bucket_key(y, mo, d, h), "2024031007");
    let (y, mo, d, h) = parse_bucket_key("0001020304").unwrap();
    assert_eq!(render_bucket_key(y, mo, d, h), "0001020304");
}

#[test]
fn bucket_key_rejects_wrong_shapes() {
    assert_eq!(parse_bucket_key("202403100"), None);
    assert_eq!(parse_bucket_key("20240310071"), None);
    assert_eq!(parse_bucket_key("20240310a7"), None);
    assert_eq!(parse_bucket_key(""), None);
    assert!(is_bucket_dir_name("2024031007"));
    assert!(!is_bucket_dir_name("stuff"));
}

#[test]
fn render_zero_pads() {
    assert_eq!(render_bucket_key(1, 2, 3, 4), "0001020304");
    assert_eq!(render_date_key(987, 12, 31), "09871231");
}

#[test]
fn civil_validity_follows_the_calendar() {
    assert!(civil_fields_valid(2024, 2, 29, 0, 0, 0));
    assert!(!civil_fields_valid(2023, 2, 29, 0, 0, 0));
    assert!(civil_fields_valid(2000, 2, 29, 23, 59, 59));
    assert!(!civil_fields_valid(1900, 2, 29, 0, 0, 0));
    assert!(!civil_fields_valid(2024, 13, 1, 0, 0, 0));
    assert!(!civil_fields_valid(2024, 0, 1, 0, 0, 0));
    assert!(!civil_fields_valid(2024, 4, 31, 0, 0, 0));
    assert!(!civil_fields_valid(2024, 3, 10, 24, 0, 0));
    assert!(!civil_fields_valid(2024, 3, 10, 7, 60, 0));
    assert!(!civil_fields_valid(2024, 3, 10, 7, 0, 60));
}

#[test]
fn instants_encode_the_civil_time() {
    assert_eq!(build_instant("2024031007", 30, 15), Ok(20240310073015));
    assert_eq!(build_instant("2024031007", 5, 2), Ok(20240310070502));
}

#[test]
fn instant_errors_name_their_cause() {
    assert_eq!(build_instant("2024139912", 0, 0), Err(ScanError::Timestamp));
    assert_eq!(build_instant("2024031007", 99, 0), Err(ScanError::Timestamp));
    assert_eq!(build_instant("2024031025", 0, 0), Err(ScanError::Timestamp));
    assert_eq!(build_instant("abc", 0, 0), Err(ScanError::BucketFormat));
    assert_eq!(build_instant("202403100", 0, 0), Err(ScanError::BucketFormat));
}

#[test]
fn instants_order_chronologically() {
    let early = build_instant("2024031007", 5, 2).unwrap();
    let mid = build_instant("2024031007", 7, 0).unwrap();
    let late = build_instant("2024031007", 30, 15).unwrap();
    let next_hour = build_instant("2024031008", 0, 0).unwrap();
    assert!(early < mid && mid < late && late < next_hour);
}
