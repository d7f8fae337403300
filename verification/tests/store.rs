//! Tests of the table engine: insert, query, update, capacity, and the
//! fault sweep.

use rusty_timeseries::codec::Record;
use rusty_timeseries::sweep::SweepConfig;
use rusty_timeseries::table::Table;
use rusty_timeseries::StoreError;
use rusty_timeseries::TABLE_MAX_ROWS;

fn text(s: &str) -> Vec<u8> {
    s.as_bytes().to_vec()
}

fn record(sensor: &str, ts: &str, value: f64, flag: Option<u8>, id: &str) -> Record {
    Record {
        sensor_name: text(sensor),
        timestamp: text(ts),
        value_bits: value.to_bits(),
        fc1_flag: flag,
        timeseries_id: text(id),
    }
}

#[test]
fn test_insert_and_query_timeseries_data_by_id() {
    let mut table = Table::new();

    let data = record(
        "Sensor1",
        "2024-08-28T12:00:00Z",
        22.5,
        Some(1),
        "8f541ba4-c437-43ba-ba1d-5c946583fe54",
    );

    assert!(table.insert_timeseries_data(&data).is_ok());

    let results = table
        .query_timeseries_data_by_id(
            &text("8f541ba4-c437-43ba-ba1d-5c946583fe54"),
            &text("2024-08-28T12:00:00Z"),
            &text("2024-08-28T12:01:00Z"),
        )
        .unwrap();
    assert_eq!(results.len(), 1);
    assert_eq!(results[0].sensor_name, data.sensor_name);
    assert_eq!(f64::from_bits(results[0].value_bits), 22.5);
    assert_eq!(results[0].fc1_flag, data.fc1_flag);
    // The 36-byte series id is wider than its 32-byte field: the store
    // keeps (and returns) its truncation.
    assert_eq!(
        results[0].timeseries_id,
        text(&"8f541ba4-c437-43ba-ba1d-5c946583fe54"[..32])
    );
}

#[test]
fn test_insert_when_table_is_full() {
    let mut table = Table::new();

    for _ in 0..TABLE_MAX_ROWS {
        let data = record(
            "Sensor1",
            "2024-08-28T12:00:00Z",
            22.5,
            Some(1),
            "8f541ba4-c437-43ba-ba1d-5c946583fe54",
        );
        assert!(table.insert_timeseries_data(&data).is_ok());
    }

    let data = record(
        "Sensor1",
        "2024-08-28T12:00:00Z",
        22.5,
        Some(1),
        "8f541ba4-c437-43ba-ba1d-5c946583fe54",
    );
    let res = table.insert_timeseries_data(&data);
    assert!(res.is_err());
    assert_eq!(res.unwrap_err(), StoreError::CapacityExceeded);
}

#[test]
fn test_query_empty_table() {
    let table = Table::new();
    let results = table
        .query_timeseries_data_by_id(
            &text("nonexistent_id"),
            &text("2024-08-28T12:00:00Z"),
            &text("2024-08-28T12:01:00Z"),
        )
        .unwrap();
    assert!(results.is_empty());
}

#[test]
fn test_simple_fault_detection() {
    let mut table = Table::new();

    let data = vec![
        record(
            "Sa_FanSpeed",
            "2024-08-28T12:00:00Z",
            0.8,
            None,
            "8f541ba4-c437-43ba-ba1d-5c946583fe54",
        ),
        record(
            "Sa_FanSpeed",
            "2024-08-28T12:01:00Z",
            0.9,
            None,
            "8f541ba4-c437-43ba-ba1d-5c946583fe54",
        ),
        record(
            "Sa_FanSpeed",
            "2024-08-28T12:02:00Z",
            1.0,
            None,
            "8f541ba4-c437-43ba-ba1d-5c946583fe54",
        ),
    ];

    for d in data {
        assert!(table.insert_timeseries_data(&d).is_ok());
    }

    let cfg = SweepConfig {
        timeseries_id: text("8f541ba4-c437-43ba-ba1d-5c946583fe54"),
        window_start: text("2024-08-28T12:00:00Z"),
        window_end: text("2024-08-28T12:05:00Z"),
        threshold_bits: 0.95f64.to_bits(),
    };
    assert!(table.fault_sweep(&cfg).is_ok());

    let results = table
        .query_timeseries_data_by_id(
            &text("8f541ba4-c437-43ba-ba1d-5c946583fe54"),
            &text("2024-08-28T12:00:00Z"),
            &text("2024-08-28T12:03:00Z"),
        )
        .unwrap();

    let fault_count = results.iter().filter(|r| r.fc1_flag == Some(1)).count();
    assert_eq!(fault_count, 1, "Expected one fault condition.");
    for r in &results {
        if f64::from_bits(r.value_bits) > 0.95 {
            assert_eq!(r.fc1_flag, Some(1));
        } else {
            assert_eq!(r.fc1_flag, None);
        }
    }
}

#[test]
fn test_query_filters_series_and_range() {
    let mut table = Table::new();
    let a1 = record("S1", "2024-01-01T00:00:00Z", 1.0, None, "series-a");
    let a2 = record("S1", "2024-01-02T00:00:00Z", 2.0, None, "series-a");
    let a3 = record("S1", "2024-01-03T00:00:00Z", 3.0, None, "series-a");
    let b1 = record("S2", "2024-01-02T00:00:00Z", 4.0, None, "series-b");
    for r in [&a1, &a2, &a3, &b1] {
        table.insert_timeseries_data(r).unwrap();
    }

    let results = table
        .query_timeseries_data_by_id(
            &text("series-a"),
            &text("2024-01-01T00:00:00Z"),
            &text("2024-01-02T00:00:00Z"),
        )
        .unwrap();
    assert_eq!(results.len(), 2);
    assert_eq!(results[0].timestamp, text("2024-01-01T00:00:00Z"));
    assert_eq!(results[1].timestamp, text("2024-01-02T00:00:00Z"));

    let none = table
        .query_timeseries_data_by_id(
            &text("series-a"),
            &text("2024-02-01T00:00:00Z"),
            &text("2024-02-28T00:00:00Z"),
        )
        .unwrap();
    assert!(none.is_empty());
}

#[test]
fn test_update_replaces_first_match_and_keeps_others() {
    let mut table = Table::new();
    let r1 = record("S1", "2024-01-01T00:00:00Z", 1.0, None, "series-a");
    let r2 = record("S1", "2024-01-02T00:00:00Z", 2.0, None, "series-a");
    table.insert_timeseries_data(&r1).unwrap();
    table.insert_timeseries_data(&r2).unwrap();

    let newer = record("S1-new", "2024-01-01T00:00:00Z", 9.5, Some(7), "series-a");
    assert!(table.update_timeseries_data(&newer).is_ok());

    let results = table
        .query_timeseries_data_by_id(
            &text("series-a"),
            &text("2024-01-01T00:00:00Z"),
            &text("2024-01-02T00:00:00Z"),
        )
        .unwrap();
    assert_eq!(results.len(), 2);
    assert_eq!(results[0].sensor_name, text("S1-new"));
    assert_eq!(f64::from_bits(results[0].value_bits), 9.5);
    assert_eq!(results[0].fc1_flag, Some(7));
    assert_eq!(results[1].sensor_name, text("S1"));
    assert_eq!(f64::from_bits(results[1].value_bits), 2.0);
    assert_eq!(results[1].fc1_flag, None);
}

#[test]
fn test_update_missing_returns_not_found() {
    let mut table = Table::new();
    let r1 = record("S1", "2024-01-01T00:00:00Z", 1.0, None, "series-a");
    table.insert_timeseries_data(&r1).unwrap();

    let missing = record("S1", "2024-01-09T00:00:00Z", 5.0, None, "series-a");
    let res = table.update_timeseries_data(&missing);
    assert_eq!(res.unwrap_err(), StoreError::NotFound);

    let results = table
        .query_timeseries_data_by_id(
            &text("series-a"),
            &text("2024-01-01T00:00:00Z"),
            &text("2024-01-09T00:00:00Z"),
        )
        .unwrap();
    assert_eq!(results.len(), 1);
    assert_eq!(f64::from_bits(results[0].value_bits), 1.0);
    assert_eq!(results[0].fc1_flag, None);
}
