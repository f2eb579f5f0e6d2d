use monitoring_backend::instant::Instant;
use monitoring_backend::models::{DataEntry, MetricName, MetricValue, PlantMetricInsert, SortOrder};
use monitoring_backend::store::{MetricStore, StorageError};

fn at(year: u32, month: u32, day: u32, hour: u32, minute: u32, second: u32) -> Instant {
    Instant::new(year, month, day, hour, minute, second)
}

fn reading(temperature: f32, humidity: f32, light: i32, soil_moisture: i32) -> PlantMetricInsert {
    PlantMetricInsert {
        temperature: temperature.to_bits(),
        humidity: humidity.to_bits(),
        light,
        soil_moisture,
    }
}

#[test]
fn insert_assigns_ids_and_reads_back() {
    let mut store = MetricStore::new();
    let now = at(2024, 1, 1, 0, 0, 0);
    let input = reading(20.0, 50.0, 100, 300);
    let rec = store.insert(&input, now).unwrap();
    assert_eq!(rec.id, 1);
    assert_eq!(rec.recorded_at, now);
    assert_eq!(rec.temperature, Some(20.0f32.to_bits()));
    assert_eq!(rec.humidity, Some(50.0f32.to_bits()));
    assert_eq!(rec.light, Some(100));
    assert_eq!(rec.soil_moisture, Some(300));
    assert_eq!(store.get_by_id(1), Some(rec));
    assert_eq!(store.get_by_id(2), None);
    let rec2 = store.insert(&reading(21.0, 55.0, 110, 310), at(2024, 1, 2, 0, 0, 0)).unwrap();
    assert_eq!(rec2.id, 2);
}

#[test]
fn get_at_time_returns_first_match() {
    let mut store = MetricStore::new();
    let t = at(2024, 1, 1, 12, 0, 0);
    let a = store.insert(&reading(1.0, 2.0, 3, 4), t).unwrap();
    let _b = store.insert(&reading(5.0, 6.0, 7, 8), t).unwrap();
    let found = store.get_at_time(&t).unwrap();
    assert_eq!(found, a);
    assert_eq!(store.get_at_time(&at(2024, 1, 1, 12, 0, 1)), None);
}

#[test]
fn delete_by_id_removes_exactly_one() {
    let mut store = MetricStore::new();
    let rec = store.insert(&reading(1.0, 2.0, 3, 4), at(2024, 1, 1, 0, 0, 0)).unwrap();
    assert!(store.delete_by_id(rec.id));
    assert_eq!(store.get_by_id(rec.id), None);
    assert!(!store.delete_by_id(rec.id));
}

#[test]
fn before_or_at_time_is_inclusive() {
    let mut store = MetricStore::new();
    let t1 = at(2024, 1, 1, 0, 0, 0);
    let t2 = at(2024, 1, 2, 0, 0, 0);
    let a = store.insert(&reading(1.0, 2.0, 3, 4), t1).unwrap();
    let b = store.insert(&reading(5.0, 6.0, 7, 8), t2).unwrap();
    assert_eq!(store.get_before_or_at_time(&t1), vec![a]);
    assert_eq!(store.get_before_or_at_time(&t2), vec![a, b]);
    assert_eq!(store.get_before_or_at_time(&at(2023, 12, 31, 23, 59, 59)), vec![]);
}

#[test]
fn backdated_insert_keeps_series_sorted() {
    let mut store = MetricStore::new();
    store.insert(&reading(2.0, 0.0, 0, 0), at(2024, 1, 2, 0, 0, 0)).unwrap();
    store.insert(&reading(1.0, 0.0, 0, 0), at(2024, 1, 1, 0, 0, 0)).unwrap();
    let series = store.get_all_non_null(MetricName::Temperature, SortOrder::Ascending);
    assert_eq!(
        series,
        vec![
            DataEntry { time: at(2024, 1, 1, 0, 0, 0), data: MetricValue::Real(1.0f32.to_bits()) },
            DataEntry { time: at(2024, 1, 2, 0, 0, 0), data: MetricValue::Real(2.0f32.to_bits()) },
        ]
    );
}

#[test]
fn equal_timestamps_keep_insertion_order() {
    let mut store = MetricStore::new();
    let t = at(2024, 1, 1, 0, 0, 0);
    store.insert(&reading(1.0, 0.0, 0, 0), t).unwrap();
    store.insert(&reading(2.0, 0.0, 0, 0), t).unwrap();
    let series = store.get_all_non_null(MetricName::Temperature, SortOrder::Ascending);
    assert_eq!(series[0].data, MetricValue::Real(1.0f32.to_bits()));
    assert_eq!(series[1].data, MetricValue::Real(2.0f32.to_bits()));
}

#[test]
fn insert_fails_when_id_space_is_exhausted() {
    let mut store = MetricStore::with_next_id(i32::MAX);
    let r = store.insert(&reading(1.0, 2.0, 3, 4), at(2024, 1, 1, 0, 0, 0));
    assert_eq!(r, Err(StorageError));
    assert_eq!(store.get_by_id(i32::MAX), None);
}

#[test]
fn delete_before_or_at_time_partitions_rows() {
    let mut store = MetricStore::new();
    let t1 = at(2024, 1, 1, 0, 0, 0);
    let t2 = at(2024, 1, 2, 0, 0, 0);
    let t3 = at(2024, 1, 3, 0, 0, 0);
    let a = store.insert(&reading(1.0, 2.0, 3, 4), t1).unwrap();
    let b = store.insert(&reading(5.0, 6.0, 7, 8), t2).unwrap();
    let c = store.insert(&reading(9.0, 10.0, 11, 12), t3).unwrap();
    let removed = store.delete_before_or_at_time(&t2);
    assert_eq!(removed, vec![a, b]);
    assert_eq!(store.get_before_or_at_time(&t2), vec![]);
    assert_eq!(store.get_by_id(c.id), Some(c));
}
