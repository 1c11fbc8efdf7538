use ride_range::devices::{parse_device_list, split_devices};
use ride_range::{format_month, parse_month_filter, CalendarMonth};

#[test]
fn well_formed_filter_parses() {
    assert_eq!(parse_month_filter(b"2023-07"), CalendarMonth { year: 2023, month: 7 });
    assert_eq!(parse_month_filter(b"2024-12"), CalendarMonth { year: 2024, month: 12 });
    assert_eq!(parse_month_filter(b"0001-09"), CalendarMonth { year: 1, month: 9 });
}

#[test]
fn malformed_filter_matches_nothing() {
    let unmatchable = CalendarMonth { year: 0, month: 0 };
    assert_eq!(parse_month_filter(b""), unmatchable);
    assert_eq!(parse_month_filter(b"2023-7"), unmatchable);
    assert_eq!(parse_month_filter(b"2023/07"), unmatchable);
    assert_eq!(parse_month_filter(b"23-07"), unmatchable);
    assert_eq!(parse_month_filter(b"2023-077"), unmatchable);
    assert_eq!(parse_month_filter(b"garbage"), unmatchable);
}

#[test]
fn months_render_zero_padded() {
    assert_eq!(format_month(&CalendarMonth { year: 2023, month: 1 }), b"2023-01".to_vec());
    assert_eq!(format_month(&CalendarMonth { year: 2024, month: 12 }), b"2024-12".to_vec());
    assert_eq!(format_month(&CalendarMonth { year: 7, month: 3 }), b"0007-03".to_vec());
}

#[test]
fn month_rendering_round_trips() {
    let m = CalendarMonth { year: 2023, month: 11 };
    assert_eq!(parse_month_filter(&format_month(&m)), m);
}

#[test]
fn device_list_splits_on_commas() {
    assert_eq!(split_devices(b"a,b,c"), vec![b"a".to_vec(), b"b".to_vec(), b"c".to_vec()]);
    assert_eq!(split_devices(b"abc"), vec![b"abc".to_vec()]);
    assert_eq!(
        split_devices(b"a,,b"),
        vec![b"a".to_vec(), Vec::<u8>::new(), b"b".to_vec()]
    );
    assert_eq!(split_devices(b"a,"), vec![b"a".to_vec(), Vec::<u8>::new()]);
}

#[test]
fn missing_configuration_is_the_soft_error() {
    assert!(parse_device_list(b"").is_none());
    assert!(parse_device_list(b"only-one").is_some());
}
