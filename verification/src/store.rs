use vstd::prelude::*;

use crate::point::{DataPoint, PointModel};
use crate::query::HistoryQuery;
use crate::series::{
    count_older, downsampled, limited, query_view, ref_models, sorted_by_time, TimeSeries,
};

verus! {

/// Where the series of sensor `k` stands in `s`, if anywhere.
pub open spec fn has_sensor(s: Seq<TimeSeries>, k: Seq<char>) -> bool {
    exists|i: int| 0 <= i < s.len() && #[trigger] s[i].sensor_id@ == k
}

/// The position of the series of sensor `k` in `s`.
pub open spec fn sensor_index(s: Seq<TimeSeries>, k: Seq<char>) -> int {
    choose|i: int| 0 <= i < s.len() && #[trigger] s[i].sensor_id@ == k
}

/// No two series share a sensor.
pub open spec fn distinct_sensors(s: Seq<TimeSeries>) -> bool {
    forall|i: int, j: int|
        0 <= i < s.len() && 0 <= j < s.len() && i != j ==> #[trigger] s[i].sensor_id@
            != #[trigger] s[j].sensor_id@
}

/// Every series is in order and holds readings of its own sensor only.
pub open spec fn series_are_sound(s: Seq<TimeSeries>) -> bool {
    forall|i: int|
        #![trigger s[i]]
        0 <= i < s.len() ==> {
            &&& s[i].wf()
            &&& forall|j: int|
                0 <= j < s[i].readings().len() ==> #[trigger] s[i].readings()[j].sensor_id
                    == s[i].sensor_id@
        }
}

/// The readings that the series in `s` hold, by sensor.
pub open spec fn series_map(s: Seq<TimeSeries>) -> Map<Seq<char>, Seq<PointModel>> {
    Map::new(|k: Seq<char>| has_sensor(s, k), |k: Seq<char>| s[sensor_index(s, k)].readings())
}

/// The sensors of the series in `s`, in order.
pub open spec fn sensor_names(s: Seq<TimeSeries>) -> Seq<Seq<char>> {
    s.map_values(|t: TimeSeries| t.sensor_id@)
}

/// The readings of the sensors `names` that `q` admits, sensor after
/// sensor, each sensor's cut to the query's limit.
pub open spec fn query_all(
    names: Seq<Seq<char>>,
    data: Map<Seq<char>, Seq<PointModel>>,
    q: HistoryQuery,
) -> Seq<PointModel>
    decreases names.len(),
{
    if names.len() == 0 {
        Seq::empty()
    } else {
        query_all(names.drop_last(), data, q) + query_view(data[names.last()], q)
    }
}

/// The readings of each sensor once `d` is filed under its sensor, where
/// its timestamp puts it.
pub open spec fn filed(data: Map<Seq<char>, Seq<PointModel>>, d: PointModel) -> Map<
    Seq<char>,
    Seq<PointModel>,
> {
    let before = if data.contains_key(d.sensor_id) {
        data[d.sensor_id]
    } else {
        Seq::empty()
    };
    data.insert(d.sensor_id, before.insert(count_older(before, d.timestamp) as int, d))
}

/// The list of sensors once `k` has been seen.
pub open spec fn enlisted(names: Seq<Seq<char>>, k: Seq<char>) -> Seq<Seq<char>> {
    if names.contains(k) {
        names
    } else {
        names.push(k)
    }
}

/// What a query over the whole store answers: the admitted readings of the
/// query's sensor, or of every sensor in turn when it names none, cut to
/// the query's limit.
pub open spec fn store_query_view(
    names: Seq<Seq<char>>,
    data: Map<Seq<char>, Seq<PointModel>>,
    q: HistoryQuery,
) -> Seq<PointModel> {
    let gathered = match q.sensor_id {
        Some(sid) => if data.contains_key(sid@) {
            query_view(data[sid@], q)
        } else {
            Seq::empty()
        },
        None => query_all(names, data, q),
    };
    limited(gathered, q.limit)
}

/// A sensor is listed exactly when it has a series.
proof fn lemma_names_match(s: Seq<TimeSeries>, k: Seq<char>)
    ensures
        sensor_names(s).contains(k) == has_sensor(s, k),
{
    if has_sensor(s, k) {
        let i = sensor_index(s, k);
        assert(sensor_names(s)[i] == k);
    }
    if sensor_names(s).contains(k) {
        let i = choose|i: int| 0 <= i < sensor_names(s).len() && sensor_names(s)[i] == k;
        assert(s[i].sensor_id@ == k);
    }
}

proof fn lemma_sensor_index(s: Seq<TimeSeries>, i: int)
    requires
        distinct_sensors(s),
        0 <= i < s.len(),
    ensures
        has_sensor(s, s[i].sensor_id@),
        sensor_index(s, s[i].sensor_id@) == i,
{
    let k = s[i].sensor_id@;
    assert(has_sensor(s, k));
    let j = sensor_index(s, k);
    assert(s[j].sensor_id@ == k);
}

/// Replacing a series by one of the same sensor, in order and sound, keeps
/// the list sound and changes that sensor's readings alone.
proof fn lemma_replace_series(s0: Seq<TimeSeries>, s1: Seq<TimeSeries>, i: int)
    requires
        distinct_sensors(s0),
        series_are_sound(s0),
        0 <= i < s0.len(),
        s1.len() == s0.len(),
        forall|j: int| 0 <= j < s0.len() && j != i ==> #[trigger] s1[j] == s0[j],
        s1[i].sensor_id@ == s0[i].sensor_id@,
        s1[i].wf(),
        forall|j: int|
            0 <= j < s1[i].readings().len() ==> #[trigger] s1[i].readings()[j].sensor_id
                == s1[i].sensor_id@,
    ensures
        distinct_sensors(s1),
        series_are_sound(s1),
        sensor_names(s1) == sensor_names(s0),
        series_map(s1) == series_map(s0).insert(s0[i].sensor_id@, s1[i].readings()),
{
    let k = s0[i].sensor_id@;
    assert forall|a: int, b: int| 0 <= a < s1.len() && 0 <= b < s1.len() && a != b implies
        #[trigger] s1[a].sensor_id@ != #[trigger] s1[b].sensor_id@ by {
        assert(s0[a].sensor_id@ != s0[b].sensor_id@);
    }
    assert forall|a: int| #![trigger s1[a]] 0 <= a < s1.len() implies {
        &&& s1[a].wf()
        &&& forall|j: int|
            0 <= j < s1[a].readings().len() ==> #[trigger] s1[a].readings()[j].sensor_id
                == s1[a].sensor_id@
    } by {
        if a != i {
            assert(s0[a] == s1[a]);
        }
    }
    assert(sensor_names(s1) =~= sensor_names(s0)) by {
        assert forall|a: int| 0 <= a < s1.len() implies sensor_names(s1)[a] == sensor_names(s0)[a] by {
            if a != i {
                assert(s0[a] == s1[a]);
            }
        }
    }
    assert forall|x: Seq<char>| #[trigger] has_sensor(s1, x) == has_sensor(s0, x) by {
        if has_sensor(s0, x) {
            let j = sensor_index(s0, x);
            assert(s1[j].sensor_id@ == x);
        }
        if has_sensor(s1, x) {
            let j = sensor_index(s1, x);
            assert(s0[j].sensor_id@ == x);
        }
    }
    assert(series_map(s1) =~= series_map(s0).insert(k, s1[i].readings())) by {
        assert forall|x: Seq<char>| #[trigger] has_sensor(s1, x) implies series_map(s1)[x]
            == series_map(s0).insert(k, s1[i].readings())[x] by {
            let j = sensor_index(s1, x);
            lemma_sensor_index(s1, j);
            lemma_sensor_index(s0, j);
            if j != i {
                assert(s0[j] == s1[j]);
            }
        }
        lemma_sensor_index(s0, i);
    }
}

/// Appending a sound series of a new sensor keeps the list sound and adds
/// that sensor's readings.
proof fn lemma_add_series(s0: Seq<TimeSeries>, s1: Seq<TimeSeries>)
    requires
        distinct_sensors(s0),
        series_are_sound(s0),
        s1.len() == s0.len() + 1,
        forall|j: int| 0 <= j < s0.len() ==> #[trigger] s1[j] == s0[j],
        !has_sensor(s0, s1[s0.len() as int].sensor_id@),
        s1[s0.len() as int].wf(),
        forall|j: int|
            0 <= j < s1[s0.len() as int].readings().len() ==> #[trigger] s1[s0.len() as int].readings()[j].sensor_id
                == s1[s0.len() as int].sensor_id@,
    ensures
        distinct_sensors(s1),
        series_are_sound(s1),
        sensor_names(s1) == sensor_names(s0).push(s1[s0.len() as int].sensor_id@),
        series_map(s1) == series_map(s0).insert(
            s1[s0.len() as int].sensor_id@,
            s1[s0.len() as int].readings(),
        ),
{
    let n = s0.len() as int;
    let k = s1[n].sensor_id@;
    assert forall|a: int, b: int| 0 <= a < s1.len() && 0 <= b < s1.len() && a != b implies
        #[trigger] s1[a].sensor_id@ != #[trigger] s1[b].sensor_id@ by {
        if a < n && b < n {
            assert(s0[a].sensor_id@ != s0[b].sensor_id@);
        } else if a < n {
            assert(s0[a] == s1[a]);
        } else {
            assert(s0[b] == s1[b]);
        }
    }
    assert forall|a: int| #![trigger s1[a]] 0 <= a < s1.len() implies {
        &&& s1[a].wf()
        &&& forall|j: int|
            0 <= j < s1[a].readings().len() ==> #[trigger] s1[a].readings()[j].sensor_id
                == s1[a].sensor_id@
    } by {
        if a < n {
            assert(s0[a] == s1[a]);
        }
    }
    assert(sensor_names(s1) =~= sensor_names(s0).push(k)) by {
        assert forall|a: int| 0 <= a < n implies sensor_names(s1)[a] == sensor_names(s0)[a] by {
            assert(s0[a] == s1[a]);
        }
    }
    assert forall|x: Seq<char>| #[trigger] has_sensor(s1, x) == (has_sensor(s0, x) || x == k) by {
        if has_sensor(s0, x) {
            let j = sensor_index(s0, x);
            assert(s1[j].sensor_id@ == x);
        }
        if has_sensor(s1, x) {
            let j = sensor_index(s1, x);
            if j < n {
                assert(s0[j].sensor_id@ == x);
            }
        }
        if x == k {
            assert(s1[n].sensor_id@ == x);
        }
    }
    assert(series_map(s1) =~= series_map(s0).insert(k, s1[n].readings())) by {
        assert forall|x: Seq<char>| #[trigger] has_sensor(s1, x) implies series_map(s1)[x]
            == series_map(s0).insert(k, s1[n].readings())[x] by {
            let j = sensor_index(s1, x);
            lemma_sensor_index(s1, j);
            if j < n {
                assert(s0[j] == s1[j]);
                lemma_sensor_index(s0, j);
            }
        }
    }
}

/// Readings of many sensors, one time series per sensor.
#[derive(Debug)]
pub struct HistoryStore {
    series: Vec<TimeSeries>,
}

impl HistoryStore {
    /// One series per sensor, each in order and holding only its own
    /// sensor's readings. This holds of every store; a proof obtains it
    /// with `use_type_invariant`.
    #[verifier::type_invariant]
    pub closed spec fn wf(&self) -> bool {
        &&& distinct_sensors(self.series@)
        &&& series_are_sound(self.series@)
    }

    /// The sensors that have a series, in the order they were first seen.
    pub closed spec fn sensors(&self) -> Seq<Seq<char>> {
        sensor_names(self.series@)
    }

    /// The readings of each sensor, in order of their timestamps.
    pub closed spec fn contents(&self) -> Map<Seq<char>, Seq<PointModel>> {
        series_map(self.series@)
    }

    pub fn new() -> (st: HistoryStore)
        ensures
            st.sensors() == Seq::<Seq<char>>::empty(),
            st.contents() == Map::<Seq<char>, Seq<PointModel>>::empty(),
    {
        let st = HistoryStore { series: Vec::new() };
        assert(st.sensors() =~= Seq::<Seq<char>>::empty());
        assert(st.contents() =~= Map::<Seq<char>, Seq<PointModel>>::empty());
        st
    }

    /// The position of the series of sensor `key`.
    fn find(&self, key: &String) -> (r: Option<usize>)
        requires
            self.wf(),
        ensures
            match r {
                Some(i) => i < self.series@.len() && self.series@[i as int].sensor_id@ == key@
                    && sensor_index(self.series@, key@) == i && self.contents().contains_key(key@)
                    && self.contents()[key@] == self.series@[i as int].readings(),
                None => !self.contents().contains_key(key@),
            },
    {
        let mut i: usize = 0;
        while i < self.series.len()
            invariant
                i <= self.series@.len(),
                self.wf(),
                forall|j: int| 0 <= j < i ==> #[trigger] self.series@[j].sensor_id@ != key@,
            decreases self.series@.len() - i,
        {
            if self.series[i].sensor_id == *key {
                proof {
                    lemma_sensor_index(self.series@, i as int);
                }
                return Some(i);
            }
            i = i + 1;
        }
        None
    }

    /// Files `dp` under its sensor: into that sensor's series where its
    /// timestamp puts it, or into a new series when the sensor is new.
    pub fn insert(&mut self, dp: DataPoint)
        ensures
            final(self).sensors() == enlisted(old(self).sensors(), dp.sensor_id@),
            final(self).contents() == filed(old(self).contents(), dp@),
    {
        proof {
            use_type_invariant(&*self);
        }
        let ghost k = dp.sensor_id@;
        let ghost d = dp@;
        let ghost s0 = self.series@;
        let key = dp.sensor_id.clone();
        let found = self.find(&key);
        let mut list: Vec<TimeSeries> = Vec::new();
        std::mem::swap(&mut list, &mut self.series);
        match found {
            Some(i) => {
                proof {
                    assert(s0[i as int].wf());
                }
                list[i].insert(dp);
                let ghost s1 = list@;
                proof {
                    let r0 = s0[i as int].readings();
                    let r1 = s1[i as int].readings();
                    crate::series::lemma_count_older_le(r0, d.timestamp);
                    assert(r1 == r0.insert(count_older(r0, d.timestamp) as int, d));
                    assert forall|j: int| 0 <= j < r1.len() implies #[trigger] r1[j].sensor_id == k by {
                        let pos = count_older(r0, d.timestamp) as int;
                        if j < pos {
                            assert(r1[j] == r0[j]);
                        } else if j > pos {
                            assert(r1[j] == r0[j - 1]);
                        }
                    }
                    lemma_replace_series(s0, s1, i as int);
                    lemma_names_match(s0, k);
                }
            },
            None => {
                let mut ts = TimeSeries::new(key.as_str());
                ts.insert(dp);
                list.push(ts);
                let ghost s1 = list@;
                proof {
                    let r1 = s1[s0.len() as int].readings();
                    assert(r1 =~= seq![d]);
                    assert forall|j: int| 0 <= j < r1.len() implies #[trigger] r1[j].sensor_id == k by {}
                    lemma_add_series(s0, s1);
                    lemma_names_match(s0, k);
                    assert(Seq::<PointModel>::empty().insert(0, d) =~= seq![d]);
                }
            },
        }
        self.series = list;
    }

    /// The readings that `query` admits, across the store.
    pub fn query_range(&self, query: &HistoryQuery) -> (r: Vec<&DataPoint>)
        ensures
            ref_models(r@) == store_query_view(self.sensors(), self.contents(), *query),
    {
        proof {
            use_type_invariant(self);
        }
        let ghost s = self.series@;
        let mut results: Vec<&DataPoint> = Vec::new();
        match &query.sensor_id {
            Some(sid) => {
                match self.find(sid) {
                    Some(i) => {
                        let mut part = self.series[i].query_range(query);
                        results.append(&mut part);
                        assert(ref_models(results@) =~= query_view(self.contents()[sid@], *query));
                    },
                    None => {
                        assert(ref_models(results@) =~= Seq::<PointModel>::empty());
                    },
                }
            },
            None => {
                let mut i: usize = 0;
                while i < self.series.len()
                    invariant
                        i <= self.series@.len(),
                        s == self.series@,
                        self.wf(),
                        ref_models(results@) == query_all(sensor_names(s).take(i as int), series_map(s), *query),
                    decreases self.series@.len() - i,
                {
                    let ghost before = results@;
                    let mut part = self.series[i].query_range(query);
                    let ghost added = part@;
                    results.append(&mut part);
                    proof {
                        let names = sensor_names(s);
                        assert(names.take(i + 1).drop_last() =~= names.take(i as int));
                        assert(names.take(i + 1).last() == s[i as int].sensor_id@);
                        lemma_sensor_index(s, i as int);
                        assert(ref_models(results@) =~= ref_models(before) + ref_models(added));
                    }
                    i = i + 1;
                }
                assert(sensor_names(s).take(i as int) =~= sensor_names(s));
            },
        }
        match query.limit {
            Some(n) => {
                if n < results.len() {
                    results.truncate(n);
                }
            },
            None => {},
        }
        results
    }

    /// The newest reading of sensor `sensor_id`.
    pub fn latest(&self, sensor_id: &str) -> (r: Option<&DataPoint>)
        ensures
            match r {
                Some(p) => self.contents().contains_key(sensor_id@)
                    && self.contents()[sensor_id@].len() > 0
                    && p@ == self.contents()[sensor_id@].last(),
                None => !self.contents().contains_key(sensor_id@)
                    || self.contents()[sensor_id@].len() == 0,
            },
    {
        proof {
            use_type_invariant(self);
        }
        let key = sensor_id.to_owned();
        match self.find(&key) {
            Some(i) => self.series[i].latest(),
            None => None,
        }
    }

    /// Sensor `sensor_id`'s series downsampled to at most `n` readings.
    pub fn downsample(&self, sensor_id: &str, n: usize) -> (r: Option<TimeSeries>)
        ensures
            match r {
                Some(ts) => self.contents().contains_key(sensor_id@) && ts.sensor_id@ == sensor_id@
                    && ts.readings() == downsampled(self.contents()[sensor_id@], n as nat),
                None => !self.contents().contains_key(sensor_id@),
            },
    {
        proof {
            use_type_invariant(self);
        }
        let key = sensor_id.to_owned();
        match self.find(&key) {
            Some(i) => Some(self.series[i].downsample(n)),
            None => None,
        }
    }

    /// The series of sensor `sensor_id`.
    pub fn series(&self, sensor_id: &str) -> (r: Option<&TimeSeries>)
        ensures
            match r {
                Some(ts) => self.contents().contains_key(sensor_id@) && ts.sensor_id@ == sensor_id@
                    && ts.readings() == self.contents()[sensor_id@],
                None => !self.contents().contains_key(sensor_id@),
            },
    {
        proof {
            use_type_invariant(self);
        }
        let key = sensor_id.to_owned();
        match self.find(&key) {
            Some(i) => Some(&self.series[i]),
            None => None,
        }
    }

    /// How many sensors have a series.
    pub fn sensor_count(&self) -> (n: usize)
        ensures
            n == self.sensors().len(),
    {
        self.series.len()
    }

    /// The sensors that have a series, in the order they were first seen.
    pub fn sensor_ids(&self) -> (r: Vec<String>)
        ensures
            r@.map_values(|x: String| x@) == self.sensors(),
    {
        proof {
            use_type_invariant(self);
        }
        let mut ids: Vec<String> = Vec::with_capacity(self.series.len());
        let mut i: usize = 0;
        while i < self.series.len()
            invariant
                i <= self.series@.len(),
                ids@.len() == i,
                forall|j: int| 0 <= j < i ==> #[trigger] ids@[j]@ == self.series@[j].sensor_id@,
            decreases self.series@.len() - i,
        {
            ids.push(self.series[i].sensor_id.clone());
            i = i + 1;
        }
        assert(ids@.map_values(|x: String| x@) =~= self.sensors());
        ids
    }

    /// A store made of the given series, if they are one per sensor, each
    /// in time order and holding only its own sensor's readings.
    pub fn from_series(list: Vec<TimeSeries>) -> (r: Option<HistoryStore>)
        ensures
            r is Some <==> distinct_sensors(list@) && series_are_sound(list@),
            r matches Some(st) ==> st.sensors() == sensor_names(list@) && st.contents()
                == series_map(list@),
    {
        let mut i: usize = 0;
        while i < list.len()
            invariant
                i <= list@.len(),
                forall|a: int, b: int|
                    0 <= a < i && 0 <= b < list@.len() && a != b ==> #[trigger] list@[a].sensor_id@
                        != #[trigger] list@[b].sensor_id@,
                forall|a: int|
                    #![trigger list@[a]]
                    0 <= a < i ==> {
                        &&& list@[a].wf()
                        &&& forall|j: int|
                            0 <= j < list@[a].readings().len()
                                ==> #[trigger] list@[a].readings()[j].sensor_id == list@[a].sensor_id@
                    },
            decreases list@.len() - i,
        {
            let mut j: usize = 0;
            while j < list.len()
                invariant
                    i < list@.len(),
                    j <= list@.len(),
                    forall|b: int|
                        0 <= b < j && b != i ==> #[trigger] list@[b].sensor_id@ != list@[i as int].sensor_id@,
                decreases list@.len() - j,
            {
                if j != i && list[j].sensor_id == list[i].sensor_id {
                    proof {
                        assert(list@[i as int].sensor_id@ == list@[j as int].sensor_id@);
                    }
                    return None;
                }
                j = j + 1;
            }
            if !list[i].is_sorted() || !list[i].all_from(&list[i].sensor_id) {
                return None;
            }
            proof {
                assert forall|a: int, b: int|
                    0 <= a < i + 1 && 0 <= b < list@.len() && a != b implies #[trigger] list@[a].sensor_id@
                        != #[trigger] list@[b].sensor_id@ by {
                    if a == i {
                        assert(list@[b].sensor_id@ != list@[i as int].sensor_id@);
                    }
                }
            }
            i = i + 1;
        }
        Some(HistoryStore { series: list })
    }
}

impl Default for HistoryStore {
    fn default() -> (st: HistoryStore)
        ensures
            st.sensors() == Seq::<Seq<char>>::empty(),
            st.contents() == Map::<Seq<char>, Seq<PointModel>>::empty(),
    {
        HistoryStore::new()
    }
}

impl Clone for HistoryStore {
    /// A copy with the same sensors and readings.
    fn clone(&self) -> (r: HistoryStore)
        ensures
            r.sensors() == self.sensors(),
            r.contents() == self.contents(),
    {
        proof {
            use_type_invariant(self);
        }
        let ghost s = self.series@;
        let mut copies: Vec<TimeSeries> = Vec::with_capacity(self.series.len());
        let mut i: usize = 0;
        while i < self.series.len()
            invariant
                i <= self.series@.len(),
                s == self.series@,
                copies@.len() == i,
                forall|j: int|
                    #![trigger copies@[j]]
                    0 <= j < i ==> copies@[j].sensor_id == s[j].sensor_id && copies@[j].readings()
                        == s[j].readings(),
            decreases self.series@.len() - i,
        {
            copies.push(self.series[i].clone());
            i = i + 1;
        }
        let ghost c = copies@;
        assert(sensor_names(c) =~= sensor_names(s));
        proof {
            assert forall|a: int, b: int| 0 <= a < c.len() && 0 <= b < c.len() && a != b implies
                #[trigger] c[a].sensor_id@ != #[trigger] c[b].sensor_id@ by {
                assert(c[a].sensor_id == s[a].sensor_id && c[b].sensor_id == s[b].sensor_id);
                assert(s[a].sensor_id@ != s[b].sensor_id@);
            }
            assert forall|a: int| #![trigger c[a]] 0 <= a < c.len() implies {
                &&& c[a].wf()
                &&& forall|j: int|
                    0 <= j < c[a].readings().len() ==> #[trigger] c[a].readings()[j].sensor_id
                        == c[a].sensor_id@
            } by {
                assert(s[a].wf());
            }
            assert forall|x: Seq<char>| #[trigger] has_sensor(c, x) == has_sensor(s, x) by {
                if has_sensor(s, x) {
                    let j = sensor_index(s, x);
                    assert(c[j].sensor_id == s[j].sensor_id);
                }
                if has_sensor(c, x) {
                    let j = sensor_index(c, x);
                    assert(c[j].sensor_id == s[j].sensor_id);
                }
            }
            assert(series_map(c) =~= series_map(s)) by {
                assert forall|x: Seq<char>| #[trigger] has_sensor(c, x) implies series_map(c)[x]
                    == series_map(s)[x] by {
                    let j = sensor_index(c, x);
                    lemma_sensor_index(c, j);
                    assert(c[j].sensor_id == s[j].sensor_id);
                    lemma_sensor_index(s, j);
                }
            }
        }
        HistoryStore { series: copies }
    }
}

/// In a store (whose invariant a proof obtains with `use_type_invariant`)
/// no sensor is listed twice, a sensor has readings
/// exactly when it is listed, so that there are as many series as sensors,
/// and each sensor's readings are in time order and carry its name.
pub proof fn lemma_store_shape(st: &HistoryStore)
    requires
        st.wf(),
    ensures
        st.sensors().no_duplicates(),
        forall|k: Seq<char>| #[trigger] st.contents().contains_key(k) == st.sensors().contains(k),
        st.contents().dom() == st.sensors().to_set(),
        st.contents().dom().len() == st.sensors().len(),
        forall|k: Seq<char>| #[trigger]
            st.contents().contains_key(k) ==> sorted_by_time(st.contents()[k]),
        forall|k: Seq<char>, j: int|
            st.contents().contains_key(k) && 0 <= j < st.contents()[k].len()
                ==> #[trigger] st.contents()[k][j].sensor_id == k,
{
    let s = st.series@;
    let names = sensor_names(s);
    assert forall|a: int, b: int| 0 <= a < names.len() && 0 <= b < names.len() && a != b implies
        names[a] != names[b] by {
        assert(s[a].sensor_id@ != s[b].sensor_id@);
    }
    assert forall|k: Seq<char>| #[trigger] st.contents().contains_key(k) == st.sensors().contains(k) by {
        lemma_names_match(s, k);
    }
    assert(st.contents().dom() =~= st.sensors().to_set());
    names.unique_seq_to_set();
    assert forall|k: Seq<char>| #[trigger] st.contents().contains_key(k) implies sorted_by_time(st.contents()[k]) by {
        let i = sensor_index(s, k);
        assert(s[i].wf());
    }
    assert forall|k: Seq<char>, j: int|
        st.contents().contains_key(k) && 0 <= j < st.contents()[k].len()
            implies #[trigger] st.contents()[k][j].sensor_id == k by {
        let i = sensor_index(s, k);
        assert(s[i].readings()[j].sensor_id == s[i].sensor_id@);
    }
}

} // verus!
