use ride_range::event::{RideEvent, RideKind};
use ride_range::store::{build_response, process_device, AggregateStore};
use ride_range::CalendarMonth;

fn month(year: u32, month: u32) -> CalendarMonth {
    CalendarMonth { year, month }
}

fn trip(year: u32, m: u32, distance: u64) -> RideEvent {
    RideEvent { kind: RideKind::Trip, month: month(year, m), distance }
}

fn monthly_value(store: &AggregateStore, dev: &[u8], m: CalendarMonth) -> Option<u64> {
    store
        .monthly
        .iter()
        .find(|e| e.device.as_slice() == dev && e.month == m)
        .map(|e| e.max_distance)
}

fn yearly_value(store: &AggregateStore, dev: &[u8]) -> Option<u64> {
    store.yearly.iter().find(|e| e.device.as_slice() == dev).map(|e| e.max_distance)
}

#[test]
fn upsert_same_value_twice_is_one_upsert() {
    let dev = b"dev-1".to_vec();
    let mut store = AggregateStore::new();
    store.upsert_monthly(&dev, month(2023, 1), 5);
    store.upsert_monthly(&dev, month(2023, 1), 5);
    assert_eq!(store.monthly.len(), 1);
    assert_eq!(monthly_value(&store, b"dev-1", month(2023, 1)), Some(5));
}

#[test]
fn upsert_keeps_larger_value_either_order() {
    let dev = b"dev-1".to_vec();
    let mut up = AggregateStore::new();
    up.upsert_monthly(&dev, month(2023, 1), 3);
    up.upsert_monthly(&dev, month(2023, 1), 7);
    assert_eq!(monthly_value(&up, b"dev-1", month(2023, 1)), Some(7));

    let mut down = AggregateStore::new();
    down.upsert_monthly(&dev, month(2023, 1), 7);
    down.upsert_monthly(&dev, month(2023, 1), 3);
    assert_eq!(monthly_value(&down, b"dev-1", month(2023, 1)), Some(7));
}

#[test]
fn upsert_distinct_keys_do_not_collide() {
    let a = b"a".to_vec();
    let b = b"b".to_vec();
    let mut store = AggregateStore::new();
    store.upsert_monthly(&a, month(2023, 1), 4);
    store.upsert_monthly(&b, month(2023, 1), 9);
    store.upsert_monthly(&a, month(2023, 2), 6);
    assert_eq!(store.monthly.len(), 3);
    assert_eq!(monthly_value(&store, b"a", month(2023, 1)), Some(4));
    assert_eq!(monthly_value(&store, b"b", month(2023, 1)), Some(9));
    assert_eq!(monthly_value(&store, b"a", month(2023, 2)), Some(6));
}

#[test]
fn yearly_upsert_keeps_larger() {
    let dev = b"x".to_vec();
    let mut store = AggregateStore::new();
    store.upsert_yearly(&dev, 12);
    store.upsert_yearly(&dev, 8);
    assert_eq!(yearly_value(&store, b"x", ), Some(12));
}

#[test]
fn process_device_records_monthly_and_yearly() {
    let dev = b"imei-1".to_vec();
    let events = vec![trip(2023, 1, 10), trip(2023, 1, 5)];
    let mut store = AggregateStore::new();
    process_device(&mut store, &dev, &events, None);
    assert_eq!(monthly_value(&store, b"imei-1", month(2023, 1)), Some(15));
    assert_eq!(yearly_value(&store, b"imei-1"), Some(15));
}

#[test]
fn process_device_with_no_events_still_records_yearly_zero() {
    let dev = b"quiet".to_vec();
    let events: Vec<RideEvent> = Vec::new();
    let mut store = AggregateStore::new();
    process_device(&mut store, &dev, &events, None);
    assert_eq!(store.monthly.len(), 0);
    assert_eq!(yearly_value(&store, b"quiet"), Some(0));
}

#[test]
fn duplicate_device_merges_by_max() {
    let dev = b"dup".to_vec();
    let first = vec![trip(2023, 3, 10)];
    let second = vec![trip(2023, 3, 4)];
    let mut store = AggregateStore::new();
    process_device(&mut store, &dev, &first, None);
    process_device(&mut store, &dev, &second, None);
    assert_eq!(store.monthly.len(), 1);
    assert_eq!(monthly_value(&store, b"dup", month(2023, 3)), Some(10));
    assert_eq!(yearly_value(&store, b"dup"), Some(10));
}

#[test]
fn response_renders_month_keys() {
    let dev = b"imei-9".to_vec();
    let events = vec![trip(2024, 11, 77)];
    let mut store = AggregateStore::new();
    process_device(&mut store, &dev, &events, None);
    let entries = build_response(&store).expect("months in range");
    assert_eq!(entries.len(), 1);
    assert_eq!(entries[0].imei, b"imei-9".to_vec());
    assert_eq!(entries[0].ride_month, b"2024-11".to_vec());
    assert_eq!(entries[0].total_range, 77);
}

#[test]
fn empty_device_list_is_rejected_before_any_work() {
    // An empty configuration yields the soft error path: nothing to fetch,
    // nothing stored.
    assert!(ride_range::devices::parse_device_list(b"").is_none());
    let some = ride_range::devices::parse_device_list(b"a,b").expect("non-empty");
    assert_eq!(some, vec![b"a".to_vec(), b"b".to_vec()]);
}
