use plato_history::{Aggregation, DataPoint, HistoryQuery, HistoryStore, Tags, TimeRange, TimeSeries};

fn reading(sensor: &str, value: f64, ts: u64) -> DataPoint {
    DataPoint::new(sensor, value.to_bits(), ts)
}

fn stamps(points: &[DataPoint]) -> Vec<u64> {
    points.iter().map(|p| p.timestamp).collect()
}

fn values(points: &[&DataPoint]) -> Vec<f64> {
    points.iter().map(|p| f64::from_bits(p.value_bits)).collect()
}

fn series_of(sensor: &str, stamps: &[u64]) -> TimeSeries {
    let mut ts = TimeSeries::new(sensor);
    for (i, t) in stamps.iter().enumerate() {
        ts.insert(reading(sensor, i as f64, *t));
    }
    ts
}

#[test]
fn fresh_points_get_distinct_random_ids() {
    let a = reading("s", 1.0, 1);
    let b = reading("s", 1.0, 1);
    assert_ne!(a.id, b.id);
    let u = uuid::Uuid::from_u128(a.id);
    assert_eq!(u.get_version_num(), 4);
    assert_eq!(u.get_variant(), uuid::Variant::RFC4122);
    assert_eq!(u.as_u128(), a.id);
    assert_eq!((a.id >> 76) & 0xf, 4);
    assert_eq!((a.id >> 62) & 0x3, 2);
}

#[test]
fn point_value_bits_round_trip() {
    let p = reading("s", -3.25, 7);
    assert_eq!(f64::from_bits(p.value_bits), -3.25);
    assert!(p.tags.get("anything").is_none());
}

#[test]
fn with_tag_replaces_an_existing_tag() {
    let p = reading("s", 1.0, 0)
        .with_tag("room", "kitchen")
        .with_tag("floor", "1")
        .with_tag("room", "attic");
    assert_eq!(p.tags.get("room").unwrap(), "attic");
    assert_eq!(p.tags.get("floor").unwrap(), "1");
    assert_eq!(p.tags.entries().len(), 2);
}

#[test]
fn tags_insert_then_get() {
    let mut t = Tags::new();
    assert!(t.get("k").is_none());
    t.insert("k".to_string(), "v".to_string());
    assert_eq!(t.get("k").unwrap(), "v");
    let copy = t.clone();
    assert_eq!(copy.get("k").unwrap(), "v");
}

#[test]
fn time_range_edges() {
    let tr = TimeRange::new(5, 5);
    assert!(tr.contains(5));
    assert!(!tr.contains(4));
    assert!(!tr.contains(6));
    assert_eq!(tr.duration_ms(), 0);
    let inverted = TimeRange::new(10, 3);
    assert_eq!(inverted.duration_ms(), 0);
    assert!(!inverted.contains(5));
    assert_eq!(TimeRange::new(0, u64::MAX).duration_ms(), u64::MAX);
}

#[test]
fn query_builders_set_each_part() {
    let q = HistoryQuery::new();
    assert!(q.sensor_id.is_none() && q.time_range.is_none() && q.limit.is_none());
    assert!(q.tag_filters.entries().is_empty());
    let q = q.for_sensor("temp").in_range(1, 2).with_tag("a", "b").limit(4);
    assert_eq!(q.sensor_id.as_deref(), Some("temp"));
    assert_eq!(q.time_range, Some(TimeRange::new(1, 2)));
    assert_eq!(q.tag_filters.get("a").unwrap(), "b");
    assert_eq!(q.limit, Some(4));
    let d = HistoryQuery::default();
    assert!(d.sensor_id.is_none() && d.limit.is_none());
}

#[test]
fn matches_checks_every_filter() {
    let p = reading("temp", 1.0, 150).with_tag("room", "kitchen").with_tag("floor", "2");
    assert!(HistoryQuery::new().matches(&p));
    assert!(HistoryQuery::new().for_sensor("temp").matches(&p));
    assert!(!HistoryQuery::new().for_sensor("hum").matches(&p));
    assert!(HistoryQuery::new().in_range(150, 150).matches(&p));
    assert!(!HistoryQuery::new().in_range(151, 200).matches(&p));
    assert!(HistoryQuery::new().with_tag("room", "kitchen").matches(&p));
    assert!(!HistoryQuery::new().with_tag("room", "attic").matches(&p));
    assert!(!HistoryQuery::new().with_tag("wing", "east").matches(&p));
    assert!(HistoryQuery::new().with_tag("room", "kitchen").with_tag("floor", "2").matches(&p));
}

#[test]
fn insert_puts_a_point_before_equal_timestamps() {
    let mut ts = TimeSeries::new("s");
    ts.insert(reading("s", 1.0, 100));
    ts.insert(reading("s", 2.0, 200));
    ts.insert(reading("s", 3.0, 100));
    assert_eq!(stamps(&ts.points), vec![100, 100, 200]);
    assert_eq!(f64::from_bits(ts.points[0].value_bits), 3.0);
    assert_eq!(f64::from_bits(ts.points[1].value_bits), 1.0);
    assert!(ts.is_sorted());
}

#[test]
fn insert_keeps_every_reading_in_order() {
    let ts = series_of("s", &[50, 10, 40, 10, 30, 20, 60]);
    assert_eq!(stamps(&ts.points), vec![10, 10, 20, 30, 40, 50, 60]);
    assert_eq!(ts.len(), 7);
    assert!(!ts.is_empty());
    assert!(ts.is_sorted());
    assert!(ts.all_from(&"s".to_string()));
    assert!(!ts.all_from(&"t".to_string()));
}

#[test]
fn unfiltered_query_returns_everything_in_order() {
    let ts = series_of("s", &[3, 1, 2]);
    let all = ts.query_range(&HistoryQuery::new());
    let got: Vec<u64> = all.iter().map(|p| p.timestamp).collect();
    assert_eq!(got, vec![1, 2, 3]);
}

#[test]
fn query_applies_range_then_limit() {
    let ts = series_of("s", &[100, 200, 300, 400, 500]);
    let r = ts.query_range(&HistoryQuery::new().in_range(200, 500).limit(2));
    let got: Vec<u64> = r.iter().map(|p| p.timestamp).collect();
    assert_eq!(got, vec![200, 300]);
    let none = ts.query_range(&HistoryQuery::new().limit(0));
    assert!(none.is_empty());
    let wide = ts.query_range(&HistoryQuery::new().limit(99));
    assert_eq!(wide.len(), 5);
}

#[test]
fn latest_is_the_newest() {
    let ts = series_of("s", &[7, 9, 8]);
    assert_eq!(ts.latest().unwrap().timestamp, 9);
}

#[test]
fn downsample_takes_evenly_spaced_samples() {
    let ts = series_of("s", &[0, 1, 2, 3, 4, 5, 6, 7]);
    let d = ts.downsample(6);
    assert_eq!(d.len(), 6);
    assert_eq!(stamps(&d.points), vec![0, 1, 2, 4, 5, 6]);
    let d = ts.downsample(3);
    assert_eq!(stamps(&d.points), vec![0, 2, 5]);
    let d = ts.downsample(1);
    assert_eq!(stamps(&d.points), vec![0]);
    let d = ts.downsample(0);
    assert!(d.is_empty());
    let d = ts.downsample(8);
    assert_eq!(stamps(&d.points), stamps(&ts.points));
}

#[test]
fn downsample_keeps_readings_and_ids() {
    let ts = series_of("s", &[10, 20, 30, 40]);
    let d = ts.downsample(2);
    assert_eq!(d.sensor_id, "s");
    assert_eq!(d.points[0].id, ts.points[0].id);
    assert_eq!(d.points[1].id, ts.points[2].id);
    assert_eq!(d.points[1].value_bits, ts.points[2].value_bits);
}

#[test]
fn clone_of_series_is_equal() {
    let ts = series_of("s", &[3, 1, 2]);
    let c = ts.clone();
    assert_eq!(c.sensor_id, ts.sensor_id);
    assert_eq!(stamps(&c.points), stamps(&ts.points));
    assert_eq!(c.points[1].id, ts.points[1].id);
}

#[test]
fn store_files_points_by_sensor() {
    let mut store = HistoryStore::new();
    assert_eq!(store.sensor_count(), 0);
    store.insert(reading("temp", 1.0, 30));
    store.insert(reading("hum", 2.0, 10));
    store.insert(reading("temp", 3.0, 20));
    assert_eq!(store.sensor_count(), 2);
    assert_eq!(store.sensor_ids(), vec!["temp".to_string(), "hum".to_string()]);
    let temp = store.series("temp").unwrap();
    assert_eq!(temp.sensor_id, "temp");
    assert_eq!(stamps(&temp.points), vec![20, 30]);
    assert!(store.series("wind").is_none());
    assert!(store.latest("wind").is_none());
    assert!(store.downsample("wind", 3).is_none());
    assert_eq!(store.latest("hum").unwrap().timestamp, 10);
}

#[test]
fn store_query_without_sensor_walks_every_series() {
    let mut store = HistoryStore::default();
    store.insert(reading("temp", 1.0, 100));
    store.insert(reading("hum", 2.0, 150));
    store.insert(reading("temp", 3.0, 200));
    let all = store.query_range(&HistoryQuery::new());
    assert_eq!(values(&all), vec![1.0, 3.0, 2.0]);
    let ranged = store.query_range(&HistoryQuery::new().in_range(120, 250));
    assert_eq!(values(&ranged), vec![3.0, 2.0]);
    let limited = store.query_range(&HistoryQuery::new().limit(2));
    assert_eq!(values(&limited), vec![1.0, 3.0]);
    let named = store.query_range(&HistoryQuery::new().for_sensor("hum"));
    assert_eq!(values(&named), vec![2.0]);
    let unknown = store.query_range(&HistoryQuery::new().for_sensor("wind"));
    assert!(unknown.is_empty());
}

#[test]
fn store_downsample_and_clone() {
    let mut store = HistoryStore::new();
    for t in [5u64, 1, 4, 2, 3] {
        store.insert(reading("temp", t as f64, t));
    }
    let d = store.downsample("temp", 2).unwrap();
    assert_eq!(stamps(&d.points), vec![1, 3]);
    let copy = store.clone();
    assert_eq!(copy.sensor_count(), 1);
    assert_eq!(stamps(&copy.series("temp").unwrap().points), vec![1, 2, 3, 4, 5]);
}

#[test]
fn store_from_series_checks_its_shape() {
    let good = vec![series_of("a", &[1, 2]), series_of("b", &[3])];
    let store = HistoryStore::from_series(good).unwrap();
    assert_eq!(store.sensor_ids(), vec!["a".to_string(), "b".to_string()]);
    assert!(HistoryStore::from_series(vec![series_of("a", &[1]), series_of("a", &[2])]).is_none());
    let mut unsorted = series_of("a", &[1, 2]);
    unsorted.points.swap(0, 1);
    assert!(HistoryStore::from_series(vec![unsorted]).is_none());
    let mut foreign = series_of("a", &[1]);
    foreign.points.push(reading("b", 0.0, 2));
    assert!(HistoryStore::from_series(vec![foreign]).is_none());
    assert_eq!(HistoryStore::from_series(Vec::new()).unwrap().sensor_count(), 0);
}

#[test]
fn aggregation_variants_compare() {
    assert_eq!(Aggregation::Avg, Aggregation::Avg);
    assert_ne!(Aggregation::Min, Aggregation::Max);
    let a = Aggregation::Sum;
    let b = a;
    assert_eq!(a, b);
}

#[test]
fn query_clone_keeps_every_part() {
    let q = HistoryQuery::new().for_sensor("temp").in_range(3, 9).with_tag("a", "b").limit(2);
    let c = q.clone();
    assert_eq!(c.sensor_id.as_deref(), Some("temp"));
    assert_eq!(c.time_range, Some(TimeRange::new(3, 9)));
    assert_eq!(c.tag_filters.get("a").unwrap(), "b");
    assert_eq!(c.limit, Some(2));
    let p = reading("temp", 1.0, 5).with_tag("a", "b");
    assert_eq!(c.matches(&p), q.matches(&p));
}
