//! Tests of the row codec, the comparison primitives, and the
//! byte-image persistence round trip.

use rusty_timeseries::codec::deserialize_row;
use rusty_timeseries::codec::serialize_row;
use rusty_timeseries::codec::Record;
use rusty_timeseries::order::bytes_lex_le;
use rusty_timeseries::order::f64_bits_gt_exec;
use rusty_timeseries::table::Table;
use rusty_timeseries::StoreError;
use rusty_timeseries::ROW_SIZE;

fn text(s: &str) -> Vec<u8> {
    s.as_bytes().to_vec()
}

fn record(sensor: &str, ts: &str, value: f64, flag: Option<u8>, id: &str) -> Record {
    Record {
        sensor_name: text(sensor),
        timestamp: text(ts),
        value_bits: value.to_bits(),
        fc1_flag: flag,
        timeseries_id: text(id),
    }
}

#[test]
fn test_codec_round_trip() {
    let r = record("Sensor1", "2024-08-28T12:00:00Z", 22.5, Some(1), "series-x");
    let block = serialize_row(&r);
    assert_eq!(block.len(), ROW_SIZE);
    let back = deserialize_row(&block).unwrap();
    assert_eq!(back.sensor_name, r.sensor_name);
    assert_eq!(back.timestamp, r.timestamp);
    assert_eq!(back.value_bits, r.value_bits);
    assert_eq!(f64::from_bits(back.value_bits), 22.5);
    assert_eq!(back.fc1_flag, r.fc1_flag);
    assert_eq!(back.timeseries_id, r.timeseries_id);
}

#[test]
fn test_codec_layout_exact() {
    let r = record("AB", "T1", 1.5, None, "id9");
    let block = serialize_row(&r);
    assert_eq!(block.len(), 105);
    // sensor_name: "AB" then zero padding to 32 bytes
    assert_eq!(block[0], b'A');
    assert_eq!(block[1], b'B');
    for i in 2..32 {
        assert_eq!(block[i], 0);
    }
    // timestamp: "T1" then zero padding
    assert_eq!(block[32], b'T');
    assert_eq!(block[33], b'1');
    for i in 34..64 {
        assert_eq!(block[i], 0);
    }
    // value: 1.5f64 little-endian (0x3FF8_0000_0000_0000)
    assert_eq!(&block[64..72], &[0, 0, 0, 0, 0, 0, 0xf8, 0x3f]);
    // absent flag stored as byte 0
    assert_eq!(block[72], 0);
    // series id
    assert_eq!(block[73], b'i');
    assert_eq!(block[74], b'd');
    assert_eq!(block[75], b'9');
    for i in 76..105 {
        assert_eq!(block[i], 0);
    }
}

#[test]
fn test_codec_truncates_long_text() {
    let long = "abcdefghijklmnopqrstuvwxyz0123456789"; // 36 bytes
    let r = record(long, "2024-08-28T12:00:00Z", 0.0, None, "s");
    let block = serialize_row(&r);
    let back = deserialize_row(&block).unwrap();
    assert_eq!(back.sensor_name, text(&long[..32]));
}

#[test]
fn test_codec_flag_zero_reads_back_absent() {
    let r = record("S", "T", 0.25, Some(0), "id");
    let block = serialize_row(&r);
    let back = deserialize_row(&block).unwrap();
    assert_eq!(back.fc1_flag, None);

    let r2 = record("S", "T", 0.25, Some(9), "id");
    let back2 = deserialize_row(&serialize_row(&r2)).unwrap();
    assert_eq!(back2.fc1_flag, Some(9));
}

#[test]
fn test_codec_rejects_invalid_text() {
    let r = record("Sensor1", "2024-08-28T12:00:00Z", 1.0, None, "id");
    let mut block = serialize_row(&r);
    block[3] = 0xff; // not valid UTF-8 inside the sensor name region
    let res = deserialize_row(&block);
    assert_eq!(res.unwrap_err(), StoreError::CorruptRecord);
}

#[test]
fn test_lex_compare() {
    let le = |a: &str, b: &str| bytes_lex_le(&text(a), &text(b));
    assert!(le("", ""));
    assert!(le("", "a"));
    assert!(!le("a", ""));
    assert!(le("abc", "abd"));
    assert!(!le("abd", "abc"));
    assert!(le("ab", "abc"));
    assert!(!le("abc", "ab"));
    assert!(le("2024-08-28T12:00:00Z", "2024-08-28T12:01:00Z"));
    assert!(le("2024-08-28T12:01:00Z", "2024-08-28T12:01:00Z"));
    assert!(!le("2024-08-28T12:02:00Z", "2024-08-28T12:01:00Z"));
}

#[test]
fn test_f64_bits_gt_matches_float_compare() {
    let cases: [(f64, f64); 12] = [
        (1.0, 0.95),
        (0.9, 0.95),
        (0.95, 0.95),
        (0.0, -0.0),
        (-0.0, 0.0),
        (-1.0, -2.0),
        (-2.0, -1.0),
        (1.0e300, 1.0),
        (f64::INFINITY, 1.0e300),
        (1.0, f64::NEG_INFINITY),
        (f64::NAN, 1.0),
        (1.0, f64::NAN),
    ];
    for (a, b) in cases {
        assert_eq!(f64_bits_gt_exec(a.to_bits(), b.to_bits()), a > b, "{} > {}", a, b);
    }
}

#[test]
fn test_persistence_round_trip_full_page() {
    let mut table = Table::new();
    for i in 0..39 {
        let ts = format!("2024-08-28T12:{:02}:00Z", i);
        let r = record("S", &ts, i as f64, None, "series-a");
        table.insert_timeseries_data(&r).unwrap();
    }
    let image = table.to_file_bytes();
    assert_eq!(image.len(), 4096);

    let reloaded = Table::from_file_bytes(&image).unwrap();
    let before = table
        .query_timeseries_data_by_id(&text("series-a"), &text(""), &text("~"))
        .unwrap();
    let after = reloaded
        .query_timeseries_data_by_id(&text("series-a"), &text(""), &text("~"))
        .unwrap();
    assert_eq!(before.len(), 39);
    assert_eq!(after.len(), 39);
    for (x, y) in before.iter().zip(after.iter()) {
        assert_eq!(x.sensor_name, y.sensor_name);
        assert_eq!(x.timestamp, y.timestamp);
        assert_eq!(x.value_bits, y.value_bits);
        assert_eq!(x.fc1_flag, y.fc1_flag);
        assert_eq!(x.timeseries_id, y.timeseries_id);
    }
}

#[test]
fn test_persistence_partial_page_keeps_records() {
    let mut table = Table::new();
    let r = record("S", "2024-08-28T12:00:00Z", 7.25, Some(3), "series-a");
    table.insert_timeseries_data(&r).unwrap();

    let image = table.to_file_bytes();
    assert_eq!(image.len(), 4096); // a whole page is flushed

    let reloaded = Table::from_file_bytes(&image).unwrap();
    let results = reloaded
        .query_timeseries_data_by_id(
            &text("series-a"),
            &text("2024-08-28T12:00:00Z"),
            &text("2024-08-28T12:00:00Z"),
        )
        .unwrap();
    assert_eq!(results.len(), 1);
    assert_eq!(results[0].sensor_name, text("S"));
    assert_eq!(f64::from_bits(results[0].value_bits), 7.25);
    assert_eq!(results[0].fc1_flag, Some(3));
}

#[test]
fn test_corrupt_stored_row_is_reported_not_guessed() {
    // A whole-page image whose first row's sensor-name region holds a
    // byte no UTF-8 text contains: loading succeeds (the lengths
    // agree), but any scan that decodes the row must stop and report.
    let mut image: Vec<u8> = vec![0u8; 4096];
    image[0] = 0xff;
    let mut table = Table::from_file_bytes(&image).unwrap();

    let res = table.query_timeseries_data_by_id(&text("any"), &text(""), &text("~"));
    assert_eq!(res.unwrap_err(), StoreError::CorruptRecord);

    let r = record("S", "T", 1.0, None, "id");
    let upd = table.update_timeseries_data(&r);
    assert_eq!(upd.unwrap_err(), StoreError::CorruptRecord);

    let cfg = rusty_timeseries::sweep::SweepConfig {
        timeseries_id: text("any"),
        window_start: text(""),
        window_end: text("~"),
        threshold_bits: 0.5f64.to_bits(),
    };
    let swept = table.fault_sweep(&cfg);
    assert_eq!(swept.unwrap_err(), StoreError::CorruptRecord);
}

#[test]
fn test_from_file_bytes_rejects_misaligned_image() {
    // 4095 bytes: implies 39 rows but holds no whole page.
    let image: Vec<u8> = vec![0u8; 4095];
    let res = Table::from_file_bytes(&image);
    assert_eq!(res.unwrap_err(), StoreError::CorruptRecord);

    // A few stray bytes: implies a row that no page backs.
    let image2: Vec<u8> = vec![0u8; 210];
    let res2 = Table::from_file_bytes(&image2);
    assert_eq!(res2.unwrap_err(), StoreError::CorruptRecord);

    // The empty file is a valid image of the empty table.
    let empty: Vec<u8> = Vec::new();
    let t = Table::from_file_bytes(&empty).unwrap();
    assert!(t
        .query_timeseries_data_by_id(&text("any"), &text(""), &text("~"))
        .unwrap()
        .is_empty());
}
