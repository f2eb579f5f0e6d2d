use monitoring_backend::codec::TimeFormatError;
use monitoring_backend::facade::{
    create_metric, delete_before_time, delete_by_id, read_at_time, read_before_time, read_bundle,
    read_by_id, read_series,
};
use monitoring_backend::instant::Instant;
use monitoring_backend::models::{
    DataEntry, MetricName, MetricSelection, MetricValue, PlantMetricInsert, SortOrder,
};
use monitoring_backend::store::MetricStore;

fn at(year: u32, month: u32, day: u32, hour: u32, minute: u32, second: u32) -> Instant {
    Instant::new(year, month, day, hour, minute, second)
}

fn reading(temperature: f32, humidity: f32, light: i32, soil_moisture: i32) -> PlantMetricInsert {
    PlantMetricInsert {
        temperature: temperature.to_bits(),
        humidity: humidity.to_bits(),
        light,
        soil_moisture,
    }
}

/// The two readings shared by the scenario tests: one at the start of
/// 2024-01-01, one a day later.
fn scenario_store() -> MetricStore {
    let mut store = MetricStore::new();
    create_metric(&mut store, &reading(20.0, 50.0, 100, 300), at(2024, 1, 1, 0, 0, 0)).unwrap();
    create_metric(&mut store, &reading(21.0, 55.0, 110, 310), at(2024, 1, 2, 0, 0, 0)).unwrap();
    store
}

#[test]
fn insert_then_read_returns_equal_record() {
    let mut store = MetricStore::new();
    let now = at(2024, 5, 6, 7, 8, 9);
    let input = reading(19.5, 48.0, 90, 280);
    let rec = create_metric(&mut store, &input, now).unwrap();
    let found = read_by_id(&store, rec.id).unwrap();
    assert_eq!(found, rec);
    assert_eq!(found.recorded_at, now);
    assert_eq!(found.temperature, Some(19.5f32.to_bits()));
    assert_eq!(found.humidity, Some(48.0f32.to_bits()));
    assert_eq!(found.light, Some(90));
    assert_eq!(found.soil_moisture, Some(280));
}

#[test]
fn scenario_temperature_series_ascending() {
    let store = scenario_store();
    let series = read_series(&store, MetricName::Temperature, SortOrder::Ascending, None).unwrap();
    assert_eq!(
        series,
        vec![
            DataEntry { time: at(2024, 1, 1, 0, 0, 0), data: MetricValue::Real(20.0f32.to_bits()) },
            DataEntry { time: at(2024, 1, 2, 0, 0, 0), data: MetricValue::Real(21.0f32.to_bits()) },
        ]
    );
}

#[test]
fn scenario_delete_before_noon_removes_first_day() {
    let mut store = scenario_store();
    let removed = delete_before_time(&mut store, "2024-01-01T12:00:00Z").unwrap();
    assert_eq!(removed, vec!["2024-01-01T00:00:00Z".to_string()]);
    let series = read_series(&store, MetricName::Temperature, SortOrder::Ascending, None).unwrap();
    assert_eq!(
        series,
        vec![DataEntry {
            time: at(2024, 1, 2, 0, 0, 0),
            data: MetricValue::Real(21.0f32.to_bits())
        }]
    );
}

#[test]
fn delete_before_time_leaves_nothing_behind_the_cutoff() {
    let mut store = scenario_store();
    let removed = delete_before_time(&mut store, "2024-01-01T12:00:00Z").unwrap();
    assert_eq!(removed.len(), 1);
    let left = read_before_time(&store, "2024-01-01T12:00:00Z").unwrap();
    assert_eq!(left, vec![]);
}

#[test]
fn bundle_omits_unrequested_metrics() {
    let store = scenario_store();
    let sel = MetricSelection {
        temperature: true,
        humidity: false,
        light: false,
        soil_moisture: false,
    };
    let bundle = read_bundle(&store, &sel, SortOrder::Ascending);
    assert!(bundle.temperature.is_some());
    assert!(bundle.humidity.is_none());
    assert!(bundle.light.is_none());
    assert!(bundle.soil_moisture.is_none());
    let temp = bundle.temperature.unwrap();
    assert_eq!(temp.len(), 2);
    assert_eq!(temp[0].data, MetricValue::Real(20.0f32.to_bits()));
}

#[test]
fn bundle_requested_metric_on_empty_store_is_present_and_empty() {
    let store = MetricStore::new();
    let sel = MetricSelection {
        temperature: true,
        humidity: true,
        light: false,
        soil_moisture: false,
    };
    let bundle = read_bundle(&store, &sel, SortOrder::Ascending);
    assert_eq!(bundle.temperature, Some(vec![]));
    assert_eq!(bundle.humidity, Some(vec![]));
    assert!(bundle.light.is_none());
    assert!(bundle.soil_moisture.is_none());
}

#[test]
fn series_descending_is_non_increasing() {
    let store = scenario_store();
    let series = read_series(&store, MetricName::Temperature, SortOrder::Descending, None).unwrap();
    assert_eq!(series.len(), 2);
    assert_eq!(series[0].time, at(2024, 1, 2, 0, 0, 0));
    assert_eq!(series[1].time, at(2024, 1, 1, 0, 0, 0));
}

#[test]
fn after_cursor_excludes_the_cursor_instant() {
    let store = scenario_store();
    let series = read_series(
        &store,
        MetricName::Temperature,
        SortOrder::Ascending,
        Some("2024-01-01T00:00:00Z"),
    )
    .unwrap();
    assert_eq!(
        series,
        vec![DataEntry {
            time: at(2024, 1, 2, 0, 0, 0),
            data: MetricValue::Real(21.0f32.to_bits())
        }]
    );
}

#[test]
fn after_cursor_past_everything_yields_empty_series() {
    let store = scenario_store();
    let series = read_series(
        &store,
        MetricName::Temperature,
        SortOrder::Ascending,
        Some("2024-01-02T00:00:00Z"),
    )
    .unwrap();
    assert_eq!(series, vec![]);
}

#[test]
fn malformed_time_strings_are_client_errors() {
    let mut store = scenario_store();
    assert_eq!(read_at_time(&store, "yesterday"), Err(TimeFormatError));
    assert_eq!(read_before_time(&store, "2024-01-01"), Err(TimeFormatError));
    assert_eq!(
        read_series(&store, MetricName::Light, SortOrder::Ascending, Some("12:00")),
        Err(TimeFormatError)
    );
    assert_eq!(delete_before_time(&mut store, "2024-01-99T00:00:00Z"), Err(TimeFormatError));
    // The failed delete changed nothing.
    assert_eq!(read_before_time(&store, "2024-01-02T00:00:00Z").unwrap().len(), 2);
}

#[test]
fn read_at_time_finds_exact_instant_only() {
    let store = scenario_store();
    let hit = read_at_time(&store, "2024-01-01T00:00:00Z").unwrap();
    assert!(hit.is_some());
    assert_eq!(hit.unwrap().temperature, Some(20.0f32.to_bits()));
    let miss = read_at_time(&store, "2024-01-01T00:00:01Z").unwrap();
    assert!(miss.is_none());
}

#[test]
fn facade_delete_by_id_reports_whether_a_row_matched() {
    let mut store = MetricStore::new();
    let rec = create_metric(&mut store, &reading(1.0, 2.0, 3, 4), at(2024, 1, 1, 0, 0, 0)).unwrap();
    assert!(delete_by_id(&mut store, rec.id));
    assert!(!delete_by_id(&mut store, rec.id));
    assert_eq!(read_by_id(&store, rec.id), None);
}

#[test]
fn integer_metrics_flow_through_series() {
    let store = scenario_store();
    let light = read_series(&store, MetricName::Light, SortOrder::Ascending, None).unwrap();
    assert_eq!(light[0].data, MetricValue::Integer(100));
    assert_eq!(light[1].data, MetricValue::Integer(110));
    let soil = read_series(&store, MetricName::SoilMoisture, SortOrder::Descending, None).unwrap();
    assert_eq!(soil[0].data, MetricValue::Integer(310));
    assert_eq!(soil[1].data, MetricValue::Integer(300));
}
