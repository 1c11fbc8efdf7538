use ride_range::event::{
    classify_kind, convert_record, convert_records, parse_distance, parse_u64, RawRecord,
    RecordError, RideKind,
};
use ride_range::CalendarMonth;

fn record(ride_type: &str, ride_start: &str, ride_distance: Option<&str>) -> RawRecord {
    RawRecord {
        ride_type: Some(ride_type.as_bytes().to_vec()),
        ride_start: Some(ride_start.as_bytes().to_vec()),
        ride_distance: ride_distance.map(|d| d.as_bytes().to_vec()),
    }
}

#[test]
fn trip_record_is_read_with_its_month() {
    // 2023-01-01T00:00:00Z; +05:30 keeps it inside 2023-01.
    let rec = record("trip", "1672531200", Some("12"));
    let ev = convert_record(&rec).expect("well-formed");
    assert_eq!(ev.kind, RideKind::Trip);
    assert_eq!(ev.month, CalendarMonth { year: 2023, month: 1 });
    assert_eq!(ev.distance, 12);
}

#[test]
fn offset_shifts_month_forward_at_year_end() {
    // 2022-12-31T19:00:00Z is already 2023-01-01T00:30 at +05:30.
    let rec = record("trip", "1672513200", Some("1"));
    let ev = convert_record(&rec).expect("well-formed");
    assert_eq!(ev.month, CalendarMonth { year: 2023, month: 1 });
}

#[test]
fn utc_month_kept_when_offset_does_not_cross() {
    // 2023-06-15T12:00:00Z stays in 2023-06 at +05:30.
    let rec = record("trip", "1686830400", Some("3"));
    let ev = convert_record(&rec).expect("well-formed");
    assert_eq!(ev.month, CalendarMonth { year: 2023, month: 6 });
}

#[test]
fn charging_record_needs_no_distance() {
    let rec = RawRecord {
        ride_type: Some(b"charging".to_vec()),
        ride_start: Some(b"1672531200".to_vec()),
        ride_distance: None,
    };
    let ev = convert_record(&rec).expect("well-formed");
    assert_eq!(ev.kind, RideKind::Charging);
    assert_eq!(ev.distance, 0);
}

#[test]
fn missing_ride_type_is_a_defect() {
    let rec = RawRecord {
        ride_type: None,
        ride_start: Some(b"1672531200".to_vec()),
        ride_distance: None,
    };
    assert_eq!(convert_record(&rec).unwrap_err(), RecordError::MissingRideType);
}

#[test]
fn missing_ride_start_is_a_defect() {
    let rec = RawRecord {
        ride_type: Some(b"trip".to_vec()),
        ride_start: None,
        ride_distance: Some(b"5".to_vec()),
    };
    assert_eq!(convert_record(&rec).unwrap_err(), RecordError::MissingRideStart);
}

#[test]
fn unreadable_ride_start_is_a_defect() {
    let rec = record("trip", "not-a-number", Some("5"));
    assert_eq!(convert_record(&rec).unwrap_err(), RecordError::BadRideStart);
}

#[test]
fn far_future_ride_start_is_a_defect() {
    let rec = record("other", "253402300800", None);
    assert_eq!(convert_record(&rec).unwrap_err(), RecordError::TimestampOutOfRange);
}

#[test]
fn trip_without_distance_is_a_defect() {
    let rec = RawRecord {
        ride_type: Some(b"trip".to_vec()),
        ride_start: Some(b"1672531200".to_vec()),
        ride_distance: None,
    };
    assert_eq!(convert_record(&rec).unwrap_err(), RecordError::MissingDistance);
}

#[test]
fn unreadable_distance_counts_as_zero() {
    let rec = record("trip", "1672531200", Some("12.5mm"));
    let ev = convert_record(&rec).expect("well-formed");
    assert_eq!(ev.distance, 0);
}

#[test]
fn batch_conversion_stops_at_first_defect() {
    let recs = vec![
        record("trip", "1672531200", Some("4")),
        record("trip", "oops", Some("4")),
        record("trip", "1672531200", Some("9")),
    ];
    assert_eq!(convert_records(&recs).unwrap_err(), RecordError::BadRideStart);

    let good = vec![
        record("trip", "1672531200", Some("4")),
        record("charging", "1672531300", None),
    ];
    let evs = convert_records(&good).expect("all well-formed");
    assert_eq!(evs.len(), 2);
    assert_eq!(evs[0].distance, 4);
    assert_eq!(evs[1].kind, RideKind::Charging);
}

#[test]
fn ride_type_names_are_exact() {
    assert_eq!(classify_kind(&b"trip".to_vec()), RideKind::Trip);
    assert_eq!(classify_kind(&b"charging".to_vec()), RideKind::Charging);
    assert_eq!(classify_kind(&b"Trip".to_vec()), RideKind::Other);
    assert_eq!(classify_kind(&b"tripp".to_vec()), RideKind::Other);
    assert_eq!(classify_kind(&b"".to_vec()), RideKind::Other);
}

#[test]
fn unsigned_parsing_follows_the_standard_parser() {
    assert_eq!(parse_u64(b"123"), Some(123));
    assert_eq!(parse_u64(b"+42"), Some(42));
    assert_eq!(parse_u64(b"0"), Some(0));
    assert_eq!(parse_u64(b""), None);
    assert_eq!(parse_u64(b"+"), None);
    assert_eq!(parse_u64(b"12a"), None);
    assert_eq!(parse_u64(b"-3"), None);
    assert_eq!(parse_u64(b"18446744073709551615"), Some(u64::MAX));
    assert_eq!(parse_u64(b"18446744073709551616"), None);
    assert_eq!(parse_u64(b"00000000000000000000007"), Some(7));
}

#[test]
fn distance_parsing_never_fails() {
    assert_eq!(parse_distance(b"15"), 15);
    assert_eq!(parse_distance(b"abc"), 0);
    assert_eq!(parse_distance(b""), 0);
    assert_eq!(parse_distance(b"12.5"), 0);
}
