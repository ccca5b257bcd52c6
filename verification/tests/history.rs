use plato_history::{DataPoint, HistoryQuery, HistoryStore, TimeRange, TimeSeries};

fn dp(sensor: &str, value: f64, ts: u64) -> DataPoint {
    DataPoint::new(sensor, value.to_bits(), ts)
}

fn value(p: &DataPoint) -> f64 {
    f64::from_bits(p.value_bits)
}

#[test]
fn data_point_construction() {
    let p = dp("temp", 22.5, 1000);
    assert_eq!(p.sensor_id, "temp");
    assert!((value(&p) - 22.5).abs() < 1e-9);
    assert_eq!(p.timestamp, 1000);
}

#[test]
fn data_point_with_tags() {
    let p = dp("s1", 1.0, 0).with_tag("room", "kitchen");
    assert_eq!(p.tags.get("room").unwrap(), "kitchen");
}

#[test]
fn time_range_contains() {
    let tr = TimeRange::new(100, 200);
    assert!(tr.contains(100));
    assert!(tr.contains(150));
    assert!(tr.contains(200));
    assert!(!tr.contains(99));
    assert!(!tr.contains(201));
}

#[test]
fn time_range_duration() {
    let tr = TimeRange::new(1000, 5000);
    assert_eq!(tr.duration_ms(), 4000);
}

#[test]
fn insert_maintains_sort() {
    let mut ts = TimeSeries::new("s1");
    ts.insert(dp("s1", 3.0, 300));
    ts.insert(dp("s1", 1.0, 100));
    ts.insert(dp("s1", 2.0, 200));
    assert_eq!(ts.points[0].timestamp, 100);
    assert_eq!(ts.points[1].timestamp, 200);
    assert_eq!(ts.points[2].timestamp, 300);
}

#[test]
fn query_range_basic() {
    let mut ts = TimeSeries::new("s1");
    ts.insert(dp("s1", 1.0, 100));
    ts.insert(dp("s1", 2.0, 200));
    ts.insert(dp("s1", 3.0, 300));
    ts.insert(dp("s1", 4.0, 400));

    let query = HistoryQuery::new().in_range(150, 350);
    let results = ts.query_range(&query);
    assert_eq!(results.len(), 2);
}

#[test]
fn query_range_with_limit() {
    let mut ts = TimeSeries::new("s1");
    for i in 0..10 {
        ts.insert(dp("s1", i as f64, i * 100));
    }
    let query = HistoryQuery::new().limit(3);
    let results = ts.query_range(&query);
    assert_eq!(results.len(), 3);
}

#[test]
fn query_with_tag_filter() {
    let mut ts = TimeSeries::new("s1");
    ts.insert(dp("s1", 1.0, 100).with_tag("room", "kitchen"));
    ts.insert(dp("s1", 2.0, 200).with_tag("room", "bedroom"));
    ts.insert(dp("s1", 3.0, 300).with_tag("room", "kitchen"));

    let query = HistoryQuery::new().with_tag("room", "kitchen");
    let results = ts.query_range(&query);
    assert_eq!(results.len(), 2);
}

#[test]
fn latest_point() {
    let mut ts = TimeSeries::new("s1");
    ts.insert(dp("s1", 1.0, 100));
    ts.insert(dp("s1", 2.0, 300));
    ts.insert(dp("s1", 3.0, 200));
    let latest = ts.latest().unwrap();
    assert_eq!(latest.timestamp, 300);
    assert!((value(latest) - 2.0).abs() < 1e-9);
}

#[test]
fn latest_empty() {
    let ts = TimeSeries::new("s1");
    assert!(ts.latest().is_none());
}

#[test]
fn downsample() {
    let mut ts = TimeSeries::new("s1");
    for i in 0..100 {
        ts.insert(dp("s1", i as f64, i as u64 * 1000));
    }
    let downsampled = ts.downsample(10);
    assert_eq!(downsampled.len(), 10);
    assert_eq!(downsampled.sensor_id, "s1");
}

#[test]
fn downsample_larger_than_data() {
    let mut ts = TimeSeries::new("s1");
    ts.insert(dp("s1", 1.0, 100));
    ts.insert(dp("s1", 2.0, 200));
    let downsampled = ts.downsample(10);
    assert_eq!(downsampled.len(), 2);
}

#[test]
fn history_store_insert_and_query() {
    let mut store = HistoryStore::new();
    store.insert(dp("temp", 22.0, 1000));
    store.insert(dp("temp", 23.0, 2000));
    store.insert(dp("humidity", 55.0, 1500));

    let query = HistoryQuery::new().for_sensor("temp");
    let results = store.query_range(&query);
    assert_eq!(results.len(), 2);
}

#[test]
fn history_store_latest() {
    let mut store = HistoryStore::new();
    store.insert(dp("temp", 22.0, 1000));
    store.insert(dp("temp", 23.0, 2000));
    let latest = store.latest("temp").unwrap();
    assert!((value(latest) - 23.0).abs() < 1e-9);
}
