//! What filtering and querying answer, stated in terms of the readings and
//! the query's parts themselves.
use vstd::prelude::*;

use crate::point::PointModel;
use crate::query::HistoryQuery;
use crate::range::TimeRange;
use crate::series::{limited, query_view};
use crate::store::{query_all, store_query_view};

verus! {

broadcast use vstd::seq_lib::group_seq_properties;

/// How many readings of `s` pass every filter of `q`.
pub open spec fn count_admitted(s: Seq<PointModel>, q: HistoryQuery) -> nat
    decreases s.len(),
{
    if s.len() == 0 {
        0
    } else {
        count_admitted(s.drop_last(), q) + if q.admits(s.last()) { 1nat } else { 0nat }
    }
}

/// How many readings of the sensors `names` pass every filter of `q`.
pub open spec fn total_admitted(
    names: Seq<Seq<char>>,
    data: Map<Seq<char>, Seq<PointModel>>,
    q: HistoryQuery,
) -> nat
    decreases names.len(),
{
    if names.len() == 0 {
        0
    } else {
        total_admitted(names.drop_last(), data, q) + count_admitted(data[names.last()], q)
    }
}

/// `n`, or the limit when there is one and it is smaller.
pub open spec fn capped(n: nat, limit: Option<usize>) -> nat {
    match limit {
        Some(l) => if (l as nat) < n { l as nat } else { n },
        None => n,
    }
}

/// The sum over `names` of each sensor's admitted readings, each cut to
/// the limit.
spec fn capped_total(
    names: Seq<Seq<char>>,
    data: Map<Seq<char>, Seq<PointModel>>,
    q: HistoryQuery,
) -> nat
    decreases names.len(),
{
    if names.len() == 0 {
        0
    } else {
        capped_total(names.drop_last(), data, q) + capped(count_admitted(data[names.last()], q), q.limit)
    }
}

/// A range contains a timestamp exactly when the timestamp lies between its
/// ends, both included, compared as whole numbers: any timestamp past the
/// end, or before the start, is outside.
pub proof fn law_contains_compares_whole_timestamps(r: TimeRange, ts: u64)
    ensures
        r.spec_contains(ts) <==> (r.start as int) <= (ts as int) && (ts as int) <= (r.end as int),
        (ts as int) > (r.end as int) ==> !r.spec_contains(ts),
        (ts as int) < (r.start as int) ==> !r.spec_contains(ts),
        r.spec_duration() == if (r.end as int) >= (r.start as int) {
            (r.end as int) - (r.start as int)
        } else {
            0int
        },
{
}

/// A query admits a reading exactly when the reading passes each filter on
/// its own: it comes from the named sensor, if one is named; its timestamp
/// lies in the range, if one is set, whether or not a sensor is named; and
/// it carries every tag filter's name with that filter's value.
pub proof fn law_admits_means_every_filter(q: HistoryQuery, p: PointModel)
    ensures
        q.admits(p) ==> (q.sensor_id matches Some(s) ==> p.sensor_id == s@),
        q.admits(p) ==> (q.time_range matches Some(tr) ==> (tr.start as int) <= (p.timestamp as int)
            && (p.timestamp as int) <= (tr.end as int)),
        q.admits(p) ==> forall|k: Seq<char>|
            #[trigger] q.tag_filters@.contains_key(k) ==> p.tags.contains_key(k) && p.tags[k]
                == q.tag_filters@[k],
        ((q.sensor_id matches Some(s) ==> p.sensor_id == s@) && (q.time_range matches Some(tr) ==> (
        tr.start as int) <= (p.timestamp as int) && (p.timestamp as int) <= (tr.end as int))
            && forall|k: Seq<char>|
            #[trigger] q.tag_filters@.contains_key(k) ==> p.tags.contains_key(k) && p.tags[k]
                == q.tag_filters@[k]) ==> q.admits(p),
{
    if q.admits(p) {
        assert forall|k: Seq<char>| #[trigger] q.tag_filters@.contains_key(k) implies p.tags.contains_key(k)
            && p.tags[k] == q.tag_filters@[k] by {
            assert(q.tag_filters@.dom().contains(k));
        }
    }
}

/// Filtering by a query keeps as many readings as the query admits.
proof fn lemma_filter_counts(s: Seq<PointModel>, q: HistoryQuery)
    ensures
        s.filter(q.admits_fn()).len() == count_admitted(s, q),
    decreases s.len(),
{
    reveal(Seq::filter);
    if s.len() > 0 {
        lemma_filter_counts(s.drop_last(), q);
    }
}

/// A query over one series answers the first `min(limit, m)` of the `m`
/// readings that pass every filter, in the series' order: the limit counts
/// only readings that pass, so `limit(n)` gives `n` readings whenever at
/// least `n` pass.
pub proof fn law_series_query_is_first_admitted(s: Seq<PointModel>, q: HistoryQuery)
    ensures
        query_view(s, q).len() == capped(count_admitted(s, q), q.limit),
        forall|j: int|
            0 <= j < query_view(s, q).len() ==> #[trigger] query_view(s, q)[j] == s.filter(
                q.admits_fn(),
            )[j],
        q.limit is Some && (q.limit.unwrap() as nat) <= count_admitted(s, q) ==> query_view(s, q).len()
            == q.limit.unwrap() as nat,
{
    lemma_filter_counts(s, q);
}

/// Each sensor's capped count is at most its whole count, and the sum of
/// capped counts falls short of the limit only where nothing was capped.
proof fn lemma_capped_total(
    names: Seq<Seq<char>>,
    data: Map<Seq<char>, Seq<PointModel>>,
    q: HistoryQuery,
)
    ensures
        capped_total(names, data, q) <= total_admitted(names, data, q),
        q.limit is None ==> capped_total(names, data, q) == total_admitted(names, data, q),
        q.limit matches Some(l) && capped_total(names, data, q) < (l as nat) ==> capped_total(
            names,
            data,
            q,
        ) == total_admitted(names, data, q),
        forall|a: int|
            0 <= a < names.len() ==> count_admitted(data[#[trigger] names[a]], q) <= total_admitted(
                names,
                data,
                q,
            ),
    decreases names.len(),
{
    if names.len() > 0 {
        let init = names.drop_last();
        lemma_capped_total(init, data, q);
        assert forall|a: int| 0 <= a < names.len() implies count_admitted(data[#[trigger] names[a]], q)
            <= total_admitted(names, data, q) by {
            if a < init.len() {
                assert(init[a] == names[a]);
            }
        }
    }
}

/// Gathering every sensor's query answer gives the sum of their capped
/// counts, and holds every admitted reading of a sensor whose admitted
/// readings fit within the limit.
proof fn lemma_query_all_gathers(
    names: Seq<Seq<char>>,
    data: Map<Seq<char>, Seq<PointModel>>,
    q: HistoryQuery,
)
    ensures
        query_all(names, data, q).len() == capped_total(names, data, q),
        forall|a: int, i: int|
            0 <= a < names.len() && 0 <= i < data[names[a]].len() && q.admits(data[names[a]][i])
                && capped(count_admitted(data[names[a]], q), q.limit) == count_admitted(
                data[names[a]],
                q,
            ) ==> query_all(names, data, q).contains(#[trigger] data[names[a]][i]),
    decreases names.len(),
{
    if names.len() > 0 {
        let init = names.drop_last();
        let x = names.last();
        lemma_query_all_gathers(init, data, q);
        lemma_filter_counts(data[x], q);
        let head = query_all(init, data, q);
        let tail = query_view(data[x], q);
        assert(query_all(names, data, q) == head + tail);
        assert forall|a: int, i: int|
            0 <= a < names.len() && 0 <= i < data[names[a]].len() && q.admits(data[names[a]][i])
                && capped(count_admitted(data[names[a]], q), q.limit) == count_admitted(
                data[names[a]],
                q,
            ) implies (head + tail).contains(#[trigger] data[names[a]][i]) by {
            let e = data[names[a]][i];
            if a < init.len() {
                assert(init[a] == names[a]);
                assert(head.contains(e));
                let k = choose|k: int| 0 <= k < head.len() && head[k] == e;
                assert((head + tail)[k] == e);
            } else {
                assert(names[a] == x);
                let f = data[x].filter(q.admits_fn());
                data[x].lemma_filter_contains(q.admits_fn(), i);
                assert(tail == f);
                let k = choose|k: int| 0 <= k < f.len() && f[k] == e;
                assert((head + tail)[head.len() + k] == e);
            }
        }
    }
}

/// A store query that names a sensor answers the first `min(limit, m)` of
/// the `m` readings of that sensor that pass every filter, in order, and
/// nothing when the sensor is unknown.
pub proof fn law_named_store_query_counts(
    names: Seq<Seq<char>>,
    data: Map<Seq<char>, Seq<PointModel>>,
    q: HistoryQuery,
)
    requires
        q.sensor_id is Some,
    ensures
        ({
            let k = q.sensor_id.unwrap()@;
            let r = store_query_view(names, data, q);
            &&& data.contains_key(k) ==> r.len() == capped(count_admitted(data[k], q), q.limit)
            &&& data.contains_key(k) ==> forall|j: int|
                0 <= j < r.len() ==> #[trigger] r[j] == data[k].filter(q.admits_fn())[j]
            &&& !data.contains_key(k) ==> r.len() == 0
        }),
{
    let k = q.sensor_id.unwrap()@;
    if data.contains_key(k) {
        law_series_query_is_first_admitted(data[k], q);
        let v = query_view(data[k], q);
        assert(limited(v, q.limit) == v);
    }
}

/// A store query that names no sensor answers `min(limit, T)` readings,
/// where `T` counts the readings of every sensor that pass the query's
/// filters; when they all fit within the limit, every one of them is
/// answered.
pub proof fn law_unnamed_store_query_counts(
    names: Seq<Seq<char>>,
    data: Map<Seq<char>, Seq<PointModel>>,
    q: HistoryQuery,
)
    requires
        q.sensor_id is None,
    ensures
        store_query_view(names, data, q).len() == capped(total_admitted(names, data, q), q.limit),
        capped(total_admitted(names, data, q), q.limit) == total_admitted(names, data, q)
            ==> forall|a: int, i: int|
            0 <= a < names.len() && 0 <= i < data[names[a]].len() && q.admits(data[names[a]][i])
                ==> store_query_view(names, data, q).contains(#[trigger] data[names[a]][i]),
{
    lemma_capped_total(names, data, q);
    lemma_query_all_gathers(names, data, q);
    let g = query_all(names, data, q);
    assert(store_query_view(names, data, q) == limited(g, q.limit));
    if capped(total_admitted(names, data, q), q.limit) == total_admitted(names, data, q) {
        assert(limited(g, q.limit) == g);
        assert forall|a: int, i: int|
            0 <= a < names.len() && 0 <= i < data[names[a]].len() && q.admits(data[names[a]][i])
                implies store_query_view(names, data, q).contains(#[trigger] data[names[a]][i]) by {
            assert(count_admitted(data[names[a]], q) <= total_admitted(names, data, q));
            assert(capped(count_admitted(data[names[a]], q), q.limit) == count_admitted(
                data[names[a]],
                q,
            ));
        }
    }
}

} // verus!
