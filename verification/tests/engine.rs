use ride_range::event::{RideEvent, RideKind};
use ride_range::segment::{segment_device, total_distance_fits, MonthlyRange};
use ride_range::CalendarMonth;

fn month(year: u32, month: u32) -> CalendarMonth {
    CalendarMonth { year, month }
}

fn trip(year: u32, m: u32, distance: u64) -> RideEvent {
    RideEvent { kind: RideKind::Trip, month: month(year, m), distance }
}

fn charging(year: u32, m: u32) -> RideEvent {
    RideEvent { kind: RideKind::Charging, month: month(year, m), distance: 0 }
}

fn other(year: u32, m: u32) -> RideEvent {
    RideEvent { kind: RideKind::Other, month: month(year, m), distance: 0 }
}

fn lookup(entries: &[MonthlyRange], m: CalendarMonth) -> Option<u64> {
    entries.iter().find(|e| e.month == m).map(|e| e.max_distance)
}

#[test]
fn two_trips_same_month_accumulate() {
    let events = vec![trip(2023, 1, 10), trip(2023, 1, 5)];
    let (monthly, yearly) = segment_device(&events, None);
    assert_eq!(monthly.len(), 1);
    assert_eq!(lookup(&monthly, month(2023, 1)), Some(15));
    assert_eq!(yearly, 15);
}

#[test]
fn charging_splits_segments_max_not_sum() {
    let events = vec![
        trip(2023, 2, 10),
        charging(2023, 2),
        trip(2023, 2, 20),
        charging(2023, 2),
    ];
    let (monthly, yearly) = segment_device(&events, None);
    assert_eq!(monthly.len(), 1);
    assert_eq!(lookup(&monthly, month(2023, 2)), Some(20));
    assert_eq!(yearly, 20);
}

#[test]
fn month_boundary_flushes_before_new_month() {
    let events = vec![trip(2023, 1, 8), trip(2023, 2, 12)];
    let (monthly, yearly) = segment_device(&events, None);
    assert_eq!(monthly.len(), 2);
    assert_eq!(lookup(&monthly, month(2023, 1)), Some(8));
    assert_eq!(lookup(&monthly, month(2023, 2)), Some(12));
    // No charging between the months: the yearly accumulator runs on.
    assert_eq!(yearly, 20);
}

#[test]
fn open_trip_at_end_of_stream_still_counts() {
    let events = vec![charging(2024, 6), trip(2024, 6, 42)];
    let (monthly, yearly) = segment_device(&events, None);
    assert_eq!(lookup(&monthly, month(2024, 6)), Some(42));
    assert_eq!(yearly, 42);
}

#[test]
fn years_outside_gate_are_invisible() {
    let events = vec![
        trip(2022, 12, 100),
        trip(2023, 3, 7),
        trip(2025, 1, 500),
        charging(2021, 5),
    ];
    let (monthly, yearly) = segment_device(&events, None);
    assert_eq!(monthly.len(), 1);
    assert_eq!(lookup(&monthly, month(2023, 3)), Some(7));
    assert_eq!(lookup(&monthly, month(2022, 12)), None);
    assert_eq!(lookup(&monthly, month(2025, 1)), None);
    assert_eq!(yearly, 7);
}

#[test]
fn month_filter_keeps_only_that_month() {
    let events = vec![trip(2023, 7, 11), charging(2023, 7), trip(2023, 8, 99)];
    let filter = Some(ride_range::parse_month_filter(b"2023-07"));
    let (monthly, _) = segment_device(&events, filter);
    assert_eq!(monthly.len(), 1);
    assert_eq!(lookup(&monthly, month(2023, 7)), Some(11));
    assert_eq!(lookup(&monthly, month(2023, 8)), None);
}

#[test]
fn unmatchable_filter_yields_no_months() {
    let events = vec![trip(2023, 7, 11)];
    // A malformed filter matches nothing, as an unmatchable string does.
    let filter = Some(ride_range::parse_month_filter(b"2023-7"));
    let (monthly, yearly) = segment_device(&events, filter);
    assert_eq!(monthly.len(), 0);
    assert_eq!(yearly, 0);
}

#[test]
fn charging_without_prior_trip_is_noop() {
    let events = vec![charging(2023, 4), charging(2023, 4), trip(2023, 4, 3)];
    let (monthly, yearly) = segment_device(&events, None);
    assert_eq!(lookup(&monthly, month(2023, 4)), Some(3));
    assert_eq!(yearly, 3);
}

#[test]
fn other_events_are_transparent() {
    let events = vec![trip(2023, 5, 4), other(2023, 5), trip(2023, 5, 6), charging(2023, 5)];
    let (monthly, yearly) = segment_device(&events, None);
    // The run of trips around the transparent event stays one segment.
    assert_eq!(lookup(&monthly, month(2023, 5)), Some(10));
    assert_eq!(yearly, 10);
}

#[test]
fn no_qualifying_events_yearly_zero_no_monthly() {
    let events = vec![trip(2020, 1, 9)];
    let (monthly, yearly) = segment_device(&events, None);
    assert_eq!(monthly.len(), 0);
    assert_eq!(yearly, 0);
}

#[test]
fn month_with_only_charging_gets_zero_entry() {
    let events = vec![charging(2023, 1), trip(2023, 2, 5)];
    let (monthly, _) = segment_device(&events, None);
    assert_eq!(lookup(&monthly, month(2023, 1)), Some(0));
    assert_eq!(lookup(&monthly, month(2023, 2)), Some(5));
}

#[test]
fn distance_sum_fits_check() {
    let small = vec![trip(2023, 1, 10)];
    assert!(total_distance_fits(&small));
    let big = vec![trip(2023, 1, u64::MAX), trip(2023, 1, 1)];
    assert!(!total_distance_fits(&big));
}
