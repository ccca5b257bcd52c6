use vstd::prelude::*;

use crate::point::{DataPoint, PointModel};
use crate::range::TimeRange;
use crate::tags::Tags;

verus! {

/// A filter over readings: by sensor, by time range, by tags, and a cap on
/// how many results come back. Each part left unset lets every reading
/// through.
#[derive(Debug)]
pub struct HistoryQuery {
    pub sensor_id: Option<String>,
    pub time_range: Option<TimeRange>,
    pub tag_filters: Tags,
    pub limit: Option<usize>,
}

/// The functions by which a series of readings can be summarised.
#[derive(Debug, Clone, Copy, PartialEq, Eq, Structural)]
pub enum Aggregation {
    Min,
    Max,
    Avg,
    Sum,
}

impl HistoryQuery {
    /// Whether a reading passes every filter of the query.
    pub open spec fn admits(self, p: PointModel) -> bool {
        &&& (self.sensor_id matches Some(s) ==> p.sensor_id == s@)
        &&& (self.time_range matches Some(tr) ==> tr.spec_contains(p.timestamp))
        &&& self.tag_filters@.submap_of(p.tags)
    }

    /// The query that lets everything through.
    pub open spec fn is_unfiltered(self) -> bool {
        &&& self.sensor_id is None
        &&& self.time_range is None
        &&& self.tag_filters@ == Map::<Seq<char>, Seq<char>>::empty()
        &&& self.limit is None
    }

    pub fn new() -> (q: HistoryQuery)
        ensures
            q.is_unfiltered(),
    {
        HistoryQuery {
            sensor_id: None,
            time_range: None,
            tag_filters: Tags::new(),
            limit: None,
        }
    }

    pub fn for_sensor(self, sensor_id: &str) -> (q: HistoryQuery)
        ensures
            q.sensor_id matches Some(s) && s@ == sensor_id@,
            q.time_range == self.time_range,
            q.tag_filters@ == self.tag_filters@,
            q.limit == self.limit,
    {
        let mut q = self;
        q.sensor_id = Some(sensor_id.to_owned());
        q
    }

    pub fn in_range(self, start: u64, end: u64) -> (q: HistoryQuery)
        ensures
            q.time_range == Some(TimeRange { start, end }),
            q.sensor_id == self.sensor_id,
            q.tag_filters@ == self.tag_filters@,
            q.limit == self.limit,
    {
        let mut q = self;
        q.time_range = Some(TimeRange::new(start, end));
        q
    }

    pub fn with_tag(self, k: &str, v: &str) -> (q: HistoryQuery)
        ensures
            q.tag_filters@ == self.tag_filters@.insert(k@, v@),
            q.sensor_id == self.sensor_id,
            q.time_range == self.time_range,
            q.limit == self.limit,
    {
        let mut q = self;
        q.tag_filters.insert(k.to_owned(), v.to_owned());
        q
    }

    pub fn limit(self, n: usize) -> (q: HistoryQuery)
        ensures
            q.limit == Some(n),
            q.sensor_id == self.sensor_id,
            q.time_range == self.time_range,
            q.tag_filters@ == self.tag_filters@,
    {
        let mut q = self;
        q.limit = Some(n);
        q
    }

    /// Whether `dp` passes every filter of the query.
    pub fn matches(&self, dp: &DataPoint) -> (b: bool)
        ensures
            b == self.admits(dp@),
    {
        match &self.sensor_id {
            Some(sid) => {
                if dp.sensor_id != *sid {
                    return false;
                }
            },
            None => {},
        }
        match &self.time_range {
            Some(tr) => {
                if !tr.contains(dp.timestamp) {
                    return false;
                }
            },
            None => {},
        }
        self.tag_filters.is_submap_of(&dp.tags)
    }
}

impl Clone for HistoryQuery {
    /// A copy with the same filters and limit.
    fn clone(&self) -> (q: HistoryQuery)
        ensures
            q.sensor_id == self.sensor_id,
            q.time_range == self.time_range,
            q.tag_filters@ == self.tag_filters@,
            q.limit == self.limit,
    {
        let sensor_id = match &self.sensor_id {
            Some(s) => Some(s.clone()),
            None => None,
        };
        HistoryQuery {
            sensor_id,
            time_range: self.time_range,
            tag_filters: self.tag_filters.clone(),
            limit: self.limit,
        }
    }
}

impl Default for HistoryQuery {
    fn default() -> (q: HistoryQuery)
        ensures
            q.is_unfiltered(),
    {
        HistoryQuery::new()
    }
}

} // verus!
