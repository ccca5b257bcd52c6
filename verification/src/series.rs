use vstd::prelude::*;

use crate::point::{DataPoint, PointModel};
use crate::query::HistoryQuery;

verus! {

/// The readings of a list of data points, in order.
pub open spec fn models(s: Seq<DataPoint>) -> Seq<PointModel> {
    s.map_values(|p: DataPoint| p@)
}

/// The readings behind a list of borrowed data points, in order.
pub open spec fn ref_models(s: Seq<&DataPoint>) -> Seq<PointModel> {
    s.map_values(|p: &DataPoint| p@)
}

/// Timestamps never decrease along `s`.
pub open spec fn sorted_by_time(s: Seq<PointModel>) -> bool {
    forall|i: int, j: int| 0 <= i <= j < s.len() ==> #[trigger] s[i].timestamp <= #[trigger] s[j].timestamp
}

/// How many readings of `s` are strictly older than `t`: where a reading
/// stamped `t` goes in a sorted series.
pub open spec fn count_older(s: Seq<PointModel>, t: u64) -> nat
    decreases s.len(),
{
    if s.len() == 0 {
        0
    } else {
        count_older(s.drop_last(), t) + if s.last().timestamp < t { 1nat } else { 0nat }
    }
}

/// At most `limit` readings from the front of `s`.
pub open spec fn limited(s: Seq<PointModel>, limit: Option<usize>) -> Seq<PointModel> {
    match limit {
        Some(n) => if n < s.len() { s.take(n as int) } else { s },
        None => s,
    }
}

/// The readings of `s` that `q` admits, in order, cut to the query's limit.
pub open spec fn query_view(s: Seq<PointModel>, q: HistoryQuery) -> Seq<PointModel> {
    limited(s.filter(q.admits_fn()), q.limit)
}

/// The position of the `k`-th of `n` evenly spaced samples out of `len`.
pub open spec fn sample_index(k: int, len: int, n: int) -> int {
    k * len / n
}

/// At most `n` readings of `s`, evenly spaced, starting with the first.
pub open spec fn downsampled(s: Seq<PointModel>, n: nat) -> Seq<PointModel> {
    if n >= s.len() {
        s
    } else {
        Seq::new(n, |k: int| s[sample_index(k, s.len() as int, n as int)])
    }
}

/// At most all readings are older than a timestamp.
pub proof fn lemma_count_older_le(s: Seq<PointModel>, t: u64)
    ensures
        count_older(s, t) <= s.len(),
    decreases s.len(),
{
    if s.len() > 0 {
        lemma_count_older_le(s.drop_last(), t);
    }
}

/// `k * len / n` grows with `k` and stays below `len` for `k < n`.
pub(crate) proof fn lemma_sample_index(k1: int, k2: int, len: int, n: int)
    requires
        0 <= k1 <= k2 < n,
        n < len,
    ensures
        0 <= sample_index(k1, len, n) <= sample_index(k2, len, n) < len,
        k1 < k2 ==> sample_index(k1, len, n) < sample_index(k2, len, n),
{
    assert(0 <= k1 * len <= k2 * len) by (nonlinear_arith)
        requires
            0 <= k1 <= k2,
            0 < len,
    ;
    assert(k1 * len / n <= k2 * len / n) by (nonlinear_arith)
        requires
            0 <= k1 * len <= k2 * len,
            0 < n,
    ;
    assert(0 <= k1 * len / n) by (nonlinear_arith)
        requires
            0 <= k1 * len,
            0 < n,
    ;
    assert(k2 * len / n < len) by (nonlinear_arith)
        requires
            0 <= k2 < n,
            0 < len,
    ;
    if k1 < k2 {
        assert(k1 * len / n < k2 * len / n) by (nonlinear_arith)
            requires
                0 <= k1 < k2,
                n < len,
                0 < n,
        {
            assert(k2 * len - k1 * len >= len) by (nonlinear_arith)
                requires
                    k1 + 1 <= k2,
                    0 < len,
            ;
        }
    }
}

/// The readings of one sensor, kept in order of their timestamps.
#[derive(Debug)]
pub struct TimeSeries {
    pub sensor_id: String,
    pub points: Vec<DataPoint>,
}

impl HistoryQuery {
    /// The filter of the query, as a predicate on readings.
    pub open spec fn admits_fn(self) -> spec_fn(PointModel) -> bool {
        |p: PointModel| self.admits(p)
    }
}

impl TimeSeries {
    /// The readings of the series, in order.
    pub open spec fn readings(&self) -> Seq<PointModel> {
        models(self.points@)
    }

    /// The readings are in order of their timestamps.
    pub open spec fn wf(&self) -> bool {
        sorted_by_time(self.readings())
    }

    pub fn new(sensor_id: &str) -> (ts: TimeSeries)
        ensures
            ts.sensor_id@ == sensor_id@,
            ts.readings() == Seq::<PointModel>::empty(),
            ts.wf(),
    {
        let ts = TimeSeries { sensor_id: sensor_id.to_owned(), points: Vec::new() };
        assert(ts.readings() =~= Seq::<PointModel>::empty());
        ts
    }

    /// Inserts `dp` after every older reading and before the rest, so that
    /// a series in order stays in order.
    ///
    /// On a series that is out of order the place is some position of it.
    pub fn insert(&mut self, dp: DataPoint)
        ensures
            final(self).sensor_id == old(self).sensor_id,
            old(self).wf() ==> final(self).wf() && final(self).readings() == old(self).readings().insert(
                count_older(old(self).readings(), dp.timestamp) as int,
                dp@,
            ),
            exists|pos: int|
                0 <= pos <= old(self).readings().len() && final(self).readings()
                    == old(self).readings().insert(pos, dp@),
    {
        let ghost s0 = self.readings();
        let ghost sorted = self.wf();
        let t = dp.timestamp;
        let mut lo: usize = 0;
        let mut hi: usize = self.points.len();
        while lo < hi
            invariant
                lo <= hi <= self.points@.len(),
                s0 == self.readings(),
                sorted == sorted_by_time(s0),
                sorted ==> forall|i: int| 0 <= i < lo ==> #[trigger] s0[i].timestamp < t,
                sorted ==> forall|i: int| hi <= i < s0.len() ==> #[trigger] s0[i].timestamp >= t,
            decreases hi - lo,
        {
            let mid = lo + (hi - lo) / 2;
            if self.points[mid].timestamp < t {
                assert(s0[mid as int].timestamp < t);
                lo = mid + 1;
            } else {
                assert(s0[mid as int].timestamp >= t);
                hi = mid;
            }
        }
        proof {
            if sorted {
                crate::laws::lemma_count_older_splits(s0, t);
                let c = count_older(s0, t) as int;
                if c < lo {
                    assert(s0[c].timestamp >= t);
                } else if c > lo {
                    assert(s0[lo as int].timestamp < t);
                }
            }
        }
        let ghost d = dp@;
        self.points.insert(lo, dp);
        let ghost s1 = self.readings();
        assert(s1 =~= s0.insert(lo as int, d));
        proof {
            if sorted {
                crate::laws::law_insert_keeps_order_and_readings(s0, d);
            }
        }
    }

    /// The readings that `query` admits, in order, at most `query.limit`
    /// of them.
    pub fn query_range(&self, query: &HistoryQuery) -> (r: Vec<&DataPoint>)
        ensures
            ref_models(r@) == query_view(self.readings(), *query),
    {
        let ghost s = self.readings();
        let ghost pred = query.admits_fn();
        let mut results: Vec<&DataPoint> = Vec::new();
        let mut i: usize = 0;
        while i < self.points.len()
            invariant
                i <= self.points@.len(),
                s == self.readings(),
                pred == query.admits_fn(),
                ref_models(results@) == s.take(i as int).filter(pred),
            decreases self.points@.len() - i,
        {
            let p = &self.points[i];
            proof {
                assert(s.take(i + 1) =~= s.take(i as int).push(p@));
                s.take(i as int).lemma_filter_push(p@, pred);
            }
            let ghost before = results@;
            if query.matches(p) {
                results.push(p);
                assert(ref_models(results@) =~= ref_models(before).push(p@));
            }
            i = i + 1;
        }
        assert(s.take(i as int) =~= s);
        match query.limit {
            Some(n) => {
                if n < results.len() {
                    results.truncate(n);
                }
            },
            None => {},
        }
        results
    }

    /// The last reading: in a series in order, a newest one.
    pub fn latest(&self) -> (r: Option<&DataPoint>)
        ensures
            match r {
                Some(p) => self.readings().len() > 0 && p@ == self.readings().last(),
                None => self.readings().len() == 0,
            },
    {
        let n = self.points.len();
        if n == 0 {
            None
        } else {
            Some(&self.points[n - 1])
        }
    }

    /// At most `n` readings, evenly spaced: all of them when there are no
    /// more than `n`, else the `k`-th of the `n` samples is the reading at
    /// `k * len / n`.
    pub fn downsample(&self, n: usize) -> (r: TimeSeries)
        ensures
            r.sensor_id@ == self.sensor_id@,
            r.readings() == downsampled(self.readings(), n as nat),
            self.wf() ==> r.wf(),
    {
        let len = self.points.len();
        if n >= len {
            return self.clone();
        }
        let ghost s = self.readings();
        let mut sampled: Vec<DataPoint> = Vec::with_capacity(n);
        let mut k: usize = 0;
        while k < n
            invariant
                n < len,
                len == self.points@.len(),
                s == self.readings(),
                k <= n,
                sampled@.len() == k,
                forall|j: int| 0 <= j < k ==> #[trigger] models(sampled@)[j] == s[sample_index(j, len as int, n as int)],
            decreases n - k,
        {
            proof {
                lemma_sample_index(k as int, k as int, len as int, n as int);
            }
            let wide_k = k as u128;
            let wide_len = len as u128;
            assert(wide_k * wide_len < 0x1_0000_0000_0000_0000_0000_0000_0000_0000) by (nonlinear_arith)
                requires
                    wide_k < 0x1_0000_0000_0000_0000,
                    wide_len < 0x1_0000_0000_0000_0000,
            ;
            let idx = (wide_k * wide_len / (n as u128)) as usize;
            assert(idx == sample_index(k as int, len as int, n as int));
            let ghost before = sampled@;
            let copy = self.points[idx].clone();
            assert(copy@ == s[idx as int]);
            sampled.push(copy);
            proof {
                assert forall|j: int| 0 <= j < k + 1 implies #[trigger] models(sampled@)[j] == s[sample_index(j, len as int, n as int)] by {
                    if j < k {
                        assert(sampled@[j] == before[j]);
                        assert(models(before)[j] == s[sample_index(j, len as int, n as int)]);
                    } else {
                        assert(sampled@[j] == copy);
                    }
                }
            }
            k = k + 1;
        }
        let r = TimeSeries { sensor_id: self.sensor_id.clone(), points: sampled };
        assert(r.readings() =~= downsampled(s, n as nat));
        proof {
            if self.wf() {
                let t = r.readings();
                assert forall|i: int, j: int| 0 <= i <= j < t.len() implies #[trigger] t[i].timestamp
                    <= #[trigger] t[j].timestamp by {
                    lemma_sample_index(i, j, len as int, n as int);
                    let a = sample_index(i, len as int, n as int);
                    let b = sample_index(j, len as int, n as int);
                    assert(s[a].timestamp <= s[b].timestamp);
                }
            }
        }
        r
    }

    /// Whether the readings are in time order.
    pub fn is_sorted(&self) -> (b: bool)
        ensures
            b == self.wf(),
    {
        let ghost s = self.readings();
        let mut i: usize = 1;
        if self.points.len() == 0 {
            return true;
        }
        while i < self.points.len()
            invariant
                1 <= i <= self.points@.len(),
                s == self.readings(),
                sorted_by_time(s.take(i as int)),
            decreases self.points@.len() - i,
        {
            if self.points[i - 1].timestamp > self.points[i].timestamp {
                assert(s[i - 1].timestamp > s[i as int].timestamp);
                return false;
            }
            proof {
                let t = s.take(i + 1);
                assert forall|a: int, b: int| 0 <= a <= b < t.len() implies #[trigger] t[a].timestamp
                    <= #[trigger] t[b].timestamp by {
                    if b == i {
                        if a < i {
                            assert(s.take(i as int)[a].timestamp <= s.take(i as int)[i - 1].timestamp);
                        }
                    } else {
                        assert(s.take(i as int)[a] == t[a] && s.take(i as int)[b] == t[b]);
                    }
                }
            }
            i = i + 1;
        }
        assert(s.take(i as int) =~= s);
        true
    }

    /// Whether every reading comes from sensor `sensor_id`.
    pub fn all_from(&self, sensor_id: &String) -> (b: bool)
        ensures
            b == forall|j: int|
                0 <= j < self.readings().len() ==> #[trigger] self.readings()[j].sensor_id
                    == sensor_id@,
    {
        let mut i: usize = 0;
        while i < self.points.len()
            invariant
                i <= self.points@.len(),
                forall|j: int| 0 <= j < i ==> #[trigger] self.readings()[j].sensor_id == sensor_id@,
            decreases self.points@.len() - i,
        {
            if self.points[i].sensor_id != *sensor_id {
                assert(self.readings()[i as int].sensor_id != sensor_id@);
                return false;
            }
            i = i + 1;
        }
        true
    }

    pub fn len(&self) -> (n: usize)
        ensures
            n == self.readings().len(),
    {
        self.points.len()
    }

    pub fn is_empty(&self) -> (b: bool)
        ensures
            b == (self.readings().len() == 0),
    {
        self.points.len() == 0
    }
}

impl Clone for TimeSeries {
    fn clone(&self) -> (r: TimeSeries)
        ensures
            r.sensor_id == self.sensor_id,
            r.readings() == self.readings(),
    {
        let mut points: Vec<DataPoint> = Vec::with_capacity(self.points.len());
        let mut i: usize = 0;
        while i < self.points.len()
            invariant
                i <= self.points@.len(),
                points@.len() == i,
                forall|j: int| 0 <= j < i ==> #[trigger] models(points@)[j] == models(self.points@)[j],
            decreases self.points@.len() - i,
        {
            let ghost before = points@;
            let copy = self.points[i].clone();
            points.push(copy);
            proof {
                assert forall|j: int| 0 <= j < i + 1 implies #[trigger] models(points@)[j] == models(self.points@)[j] by {
                    if j < i {
                        assert(points@[j] == before[j]);
                        assert(models(before)[j] == models(self.points@)[j]);
                    } else {
                        assert(points@[j] == copy);
                    }
                }
            }
            i = i + 1;
        }
        let r = TimeSeries { sensor_id: self.sensor_id.clone(), points };
        assert(r.readings() =~= self.readings());
        r
    }
}

} // verus!
