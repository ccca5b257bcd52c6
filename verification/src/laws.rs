//! Properties of the library that span its operations, stated over the
//! models that the operations' contracts use.
use vstd::prelude::*;

use crate::point::PointModel;
use crate::query::HistoryQuery;
use crate::series::{count_older, downsampled, limited, query_view, sample_index, sorted_by_time};
use crate::store::{filed, lemma_store_shape, query_all, store_query_view, HistoryStore};

verus! {

broadcast use vstd::seq_lib::group_seq_properties;

/// In a series in time order, the readings older than `t` are exactly the
/// first `count_older(s, t)` ones.
pub proof fn lemma_count_older_splits(s: Seq<PointModel>, t: u64)
    requires
        sorted_by_time(s),
    ensures
        count_older(s, t) <= s.len(),
        forall|i: int| 0 <= i < count_older(s, t) ==> #[trigger] s[i].timestamp < t,
        forall|i: int| count_older(s, t) <= i < s.len() ==> #[trigger] s[i].timestamp >= t,
    decreases s.len(),
{
    if s.len() > 0 {
        let d = s.drop_last();
        assert(sorted_by_time(d)) by {
            assert forall|i: int, j: int| 0 <= i <= j < d.len() implies #[trigger] d[i].timestamp
                <= #[trigger] d[j].timestamp by {
                assert(d[i] == s[i] && d[j] == s[j]);
            }
        }
        lemma_count_older_splits(d, t);
        let c = count_older(d, t);
        if s.last().timestamp < t {
            if c < d.len() {
                assert(d[c as int] == s[c as int]);
                assert(s[c as int].timestamp <= s[s.len() - 1].timestamp);
            }
            assert forall|i: int| 0 <= i < count_older(s, t) implies #[trigger] s[i].timestamp < t by {
                if i < d.len() {
                    assert(d[i] == s[i]);
                }
            }
        } else {
            assert forall|i: int| 0 <= i < count_older(s, t) implies #[trigger] s[i].timestamp < t by {
                assert(d[i] == s[i]);
            }
            assert forall|i: int| count_older(s, t) <= i < s.len() implies #[trigger] s[i].timestamp >= t by {
                if i < d.len() {
                    assert(d[i] == s[i]);
                }
            }
        }
    }
}

/// Inserting a reading where its timestamp puts it keeps a series in
/// time order, and the series then holds exactly its old readings and the
/// new one: every reading before the new one is strictly older, every one
/// after it is not older, so it goes before readings of equal timestamp.
pub proof fn law_insert_keeps_order_and_readings(s: Seq<PointModel>, d: PointModel)
    requires
        sorted_by_time(s),
    ensures
        count_older(s, d.timestamp) <= s.len(),
        s.insert(count_older(s, d.timestamp) as int, d)[count_older(s, d.timestamp) as int] == d,
        forall|i: int|
            0 <= i < count_older(s, d.timestamp) ==> (#[trigger] s.insert(
                count_older(s, d.timestamp) as int,
                d,
            )[i]).timestamp < d.timestamp,
        forall|i: int|
            count_older(s, d.timestamp) < i <= s.len() ==> (#[trigger] s.insert(
                count_older(s, d.timestamp) as int,
                d,
            )[i]).timestamp >= d.timestamp,
        sorted_by_time(s.insert(count_older(s, d.timestamp) as int, d)),
        s.insert(count_older(s, d.timestamp) as int, d).to_multiset() == s.to_multiset().insert(d),
{
    lemma_count_older_splits(s, d.timestamp);
    let pos = count_older(s, d.timestamp) as int;
    let s1 = s.insert(pos, d);
    assert forall|i: int, j: int| 0 <= i <= j < s1.len() implies #[trigger] s1[i].timestamp
        <= #[trigger] s1[j].timestamp by {
        if j < pos {
        } else if j == pos {
            if i < pos {
                assert(s1[i] == s[i]);
            }
        } else if i < pos {
            assert(s1[i] == s[i] && s1[j] == s[j - 1]);
        } else if i == pos {
            assert(s1[j] == s[j - 1]);
        } else {
            assert(s1[i] == s[i - 1] && s1[j] == s[j - 1]);
        }
    }
    vstd::seq_lib::to_multiset_insert(s, pos, d);
}

/// In a series in time order the last reading is a newest one.
pub proof fn law_last_is_newest(s: Seq<PointModel>)
    requires
        sorted_by_time(s),
        s.len() > 0,
    ensures
        forall|i: int| 0 <= i < s.len() ==> #[trigger] s[i].timestamp <= s.last().timestamp,
{
    assert forall|i: int| 0 <= i < s.len() implies #[trigger] s[i].timestamp <= s.last().timestamp by {
        assert(s[i].timestamp <= s[s.len() - 1].timestamp);
    }
}

/// Filtering keeps the readings that pass, and keeps them in time order.
proof fn lemma_filter_keeps_order(s: Seq<PointModel>, p: spec_fn(PointModel) -> bool)
    requires
        sorted_by_time(s),
    ensures
        sorted_by_time(s.filter(p)),
    decreases s.len(),
{
    reveal(Seq::filter);
    if s.len() > 0 {
        let d = s.drop_last();
        assert(sorted_by_time(d)) by {
            assert forall|i: int, j: int| 0 <= i <= j < d.len() implies #[trigger] d[i].timestamp
                <= #[trigger] d[j].timestamp by {
                assert(d[i] == s[i] && d[j] == s[j]);
            }
        }
        lemma_filter_keeps_order(d, p);
        let f = d.filter(p);
        if p(s.last()) {
            let g = f.push(s.last());
            assert forall|i: int, j: int| 0 <= i <= j < g.len() implies #[trigger] g[i].timestamp
                <= #[trigger] g[j].timestamp by {
                if j == f.len() {
                    if i < f.len() {
                        assert(f.contains(f[i]));
                        d.lemma_filter_contains_rev(p, f[i]);
                        let k = choose|k: int| 0 <= k < d.len() && d[k] == f[i];
                        assert(s[k] == d[k]);
                        assert(s[k].timestamp <= s[s.len() - 1].timestamp);
                    }
                } else {
                    assert(g[i] == f[i] && g[j] == f[j]);
                }
            }
        }
    }
}

/// A filter that lets everything through keeps every reading.
proof fn lemma_filter_all(s: Seq<PointModel>, p: spec_fn(PointModel) -> bool)
    requires
        forall|x: PointModel| #[trigger] p(x),
    ensures
        s.filter(p) == s,
    decreases s.len(),
{
    reveal(Seq::filter);
    if s.len() > 0 {
        lemma_filter_all(s.drop_last(), p);
        assert(s.drop_last().push(s.last()) =~= s);
    }
}

/// An unfiltered query gives back every reading of a series, in order.
pub proof fn law_unfiltered_query_returns_all(s: Seq<PointModel>, q: HistoryQuery)
    requires
        q.is_unfiltered(),
    ensures
        query_view(s, q) == s,
{
    assert forall|x: PointModel| #[trigger] (q.admits_fn())(x) by {
        assert(q.tag_filters@.submap_of(x.tags));
    }
    lemma_filter_all(s, q.admits_fn());
}

/// Every reading that a query returns passes its filters and is one of the
/// series' readings; there are no more of them than the limit; and they
/// come in time order when the series is in order.
pub proof fn law_query_results(s: Seq<PointModel>, q: HistoryQuery)
    ensures
        forall|i: int| 0 <= i < query_view(s, q).len() ==> q.admits(#[trigger] query_view(s, q)[i]),
        forall|i: int| 0 <= i < query_view(s, q).len() ==> s.contains(#[trigger] query_view(s, q)[i]),
        query_view(s, q).len() <= s.len(),
        q.limit matches Some(n) ==> query_view(s, q).len() <= n,
        sorted_by_time(s) ==> sorted_by_time(query_view(s, q)),
{
    let f = s.filter(q.admits_fn());
    let r = query_view(s, q);
    s.lemma_filter_len(q.admits_fn());
    assert forall|i: int| 0 <= i < r.len() implies q.admits(#[trigger] r[i]) && s.contains(r[i]) by {
        assert(r[i] == f[i]);
        s.lemma_filter_pred(q.admits_fn(), i);
        assert(f.contains(f[i]));
        s.lemma_filter_contains_rev(q.admits_fn(), f[i]);
    }
    if sorted_by_time(s) {
        lemma_filter_keeps_order(s, q.admits_fn());
        assert forall|i: int, j: int| 0 <= i <= j < r.len() implies #[trigger] r[i].timestamp
            <= #[trigger] r[j].timestamp by {
            assert(r[i] == f[i] && r[j] == f[j]);
        }
    }
}

/// Downsampling to `n` keeps `min(n, len)` readings, each one a reading of
/// the series, starting with the first, in the series' order; it keeps
/// everything when `n` is at least the length.
pub proof fn law_downsample(s: Seq<PointModel>, n: nat)
    ensures
        downsampled(s, n).len() == if n < s.len() { n } else { s.len() },
        n >= s.len() ==> downsampled(s, n) == s,
        forall|i: int| 0 <= i < downsampled(s, n).len() ==> s.contains(#[trigger] downsampled(s, n)[i]),
        n > 0 && s.len() > 0 ==> downsampled(s, n)[0] == s[0],
        n < s.len() ==> forall|k: int|
            0 <= k < n ==> #[trigger] downsampled(s, n)[k] == s[(k * s.len()) / (n as int)],
        sorted_by_time(s) ==> sorted_by_time(downsampled(s, n)),
{
    if n < s.len() {
        let r = downsampled(s, n);
        assert forall|i: int| 0 <= i < r.len() implies s.contains(#[trigger] r[i]) by {
            crate::series::lemma_sample_index(i, i, s.len() as int, n as int);
            assert(s[sample_index(i, s.len() as int, n as int)] == r[i]);
        }
        if n > 0 {
            assert(sample_index(0, s.len() as int, n as int) == 0);
        }

        if sorted_by_time(s) {
            assert forall|i: int, j: int| 0 <= i <= j < r.len() implies #[trigger] r[i].timestamp
                <= #[trigger] r[j].timestamp by {
                crate::series::lemma_sample_index(i, j, s.len() as int, n as int);
            }
        }
    }
}

/// Filing a reading under its sensor adds exactly that reading to the
/// sensor's readings, in time order when they were, and leaves every other
/// sensor as it was.
pub proof fn law_filing_a_reading(data: Map<Seq<char>, Seq<PointModel>>, d: PointModel)
    ensures
        ({
            let k = d.sensor_id;
            let before = if data.contains_key(k) { data[k] } else { Seq::empty() };
            &&& filed(data, d).contains_key(k)
            &&& filed(data, d)[k].contains(d)
            &&& filed(data, d)[k].len() == before.len() + 1
            &&& filed(data, d)[k].to_multiset() == before.to_multiset().insert(d)
            &&& (sorted_by_time(before) ==> sorted_by_time(filed(data, d)[k]))
            &&& forall|x: Seq<char>| x != k ==> (#[trigger] filed(data, d).contains_key(x) == data.contains_key(x))
            &&& forall|x: Seq<char>| x != k && data.contains_key(x) ==> #[trigger] filed(data, d)[x] == data[x]
        }),
{
    let k = d.sensor_id;
    let before = if data.contains_key(k) { data[k] } else { Seq::empty() };
    let pos = count_older(before, d.timestamp) as int;
    if sorted_by_time(before) {
        law_insert_keeps_order_and_readings(before, d);
    }
    crate::series::lemma_count_older_le(before, d.timestamp);
    vstd::seq_lib::to_multiset_insert(before, pos, d);
    let after = before.insert(pos, d);
    assert(after[pos] == d);
}


/// A filter that lets nothing through keeps nothing.
proof fn lemma_filter_none(s: Seq<PointModel>, p: spec_fn(PointModel) -> bool)
    requires
        forall|i: int| 0 <= i < s.len() ==> !p(#[trigger] s[i]),
    ensures
        s.filter(p) == Seq::<PointModel>::empty(),
    decreases s.len(),
{
    reveal(Seq::filter);
    if s.len() > 0 {
        let d = s.drop_last();
        assert forall|i: int| 0 <= i < d.len() implies !p(#[trigger] d[i]) by {
            assert(d[i] == s[i]);
        }
        lemma_filter_none(d, p);
    }
}

/// Across sensors whose readings carry their own names, a query naming
/// sensor `sid` finds that sensor's readings and nobody else's.
proof fn lemma_query_all_named(
    names: Seq<Seq<char>>,
    data: Map<Seq<char>, Seq<PointModel>>,
    q: HistoryQuery,
    sid: Seq<char>,
)
    requires
        names.no_duplicates(),
        forall|i: int| 0 <= i < names.len() ==> data.contains_key(#[trigger] names[i]),
        forall|k: Seq<char>, j: int|
            data.contains_key(k) && 0 <= j < data[k].len() ==> #[trigger] data[k][j].sensor_id == k,
        q.sensor_id matches Some(s) && s@ == sid,
    ensures
        query_all(names, data, q) == if names.contains(sid) {
            query_view(data[sid], q)
        } else {
            Seq::<PointModel>::empty()
        },
    decreases names.len(),
{
    if names.len() > 0 {
        let init = names.drop_last();
        let x = names.last();
        assert(init.no_duplicates()) by {
            assert forall|a: int, b: int| 0 <= a < init.len() && 0 <= b < init.len() && a != b implies
                init[a] != init[b] by {
                assert(init[a] == names[a] && init[b] == names[b]);
            }
        }
        assert forall|i: int| 0 <= i < init.len() implies data.contains_key(#[trigger] init[i]) by {
            assert(init[i] == names[i]);
        }
        lemma_query_all_named(init, data, q, sid);
        assert(data.contains_key(names[names.len() - 1]));
        if x == sid {
            assert(!init.contains(sid)) by {
                if init.contains(sid) {
                    let a = choose|a: int| 0 <= a < init.len() && init[a] == sid;
                    assert(names[a] == names[names.len() - 1]);
                }
            }
            assert(names.contains(sid)) by {
                assert(names[names.len() - 1] == sid);
            }
        } else {
            let rs = data[x];
            assert forall|i: int| 0 <= i < rs.len() implies !(q.admits_fn())(#[trigger] rs[i]) by {
                assert(rs[i].sensor_id == x);
            }
            lemma_filter_none(rs, q.admits_fn());
            assert(names.contains(sid) == init.contains(sid)) by {
                if names.contains(sid) {
                    let a = choose|a: int| 0 <= a < names.len() && names[a] == sid;
                    assert(init[a] == sid);
                }
                if init.contains(sid) {
                    let a = choose|a: int| 0 <= a < init.len() && init[a] == sid;
                    assert(names[a] == sid);
                }
            }
            assert(query_view(rs, q) =~= Seq::<PointModel>::empty());
        }
        assert(query_all(names, data, q) == query_all(init, data, q) + query_view(data[x], q));
    }
}

/// Every reading gathered across sensors passes the query's filters.
proof fn lemma_query_all_admitted(
    names: Seq<Seq<char>>,
    data: Map<Seq<char>, Seq<PointModel>>,
    q: HistoryQuery,
)
    ensures
        forall|i: int|
            0 <= i < query_all(names, data, q).len() ==> q.admits(#[trigger] query_all(names, data, q)[i]),
    decreases names.len(),
{
    if names.len() > 0 {
        let init = names.drop_last();
        lemma_query_all_admitted(init, data, q);
        law_query_results(data[names.last()], q);
        let a = query_all(init, data, q);
        let b = query_view(data[names.last()], q);
        assert forall|i: int| 0 <= i < (a + b).len() implies q.admits(#[trigger] (a + b)[i]) by {
            if i < a.len() {
                assert((a + b)[i] == a[i]);
            } else {
                assert((a + b)[i] == b[i - a.len()]);
            }
        }
    }
}

/// Every reading that a store query returns passes the query's filters,
/// and there are no more of them than the query's limit.
pub proof fn law_store_query_results(
    names: Seq<Seq<char>>,
    data: Map<Seq<char>, Seq<PointModel>>,
    q: HistoryQuery,
)
    ensures
        forall|i: int|
            0 <= i < store_query_view(names, data, q).len() ==> q.admits(
                #[trigger] store_query_view(names, data, q)[i],
            ),
        q.limit matches Some(n) ==> store_query_view(names, data, q).len() <= n,
{
    let gathered = match q.sensor_id {
        Some(sid) => if data.contains_key(sid@) {
            query_view(data[sid@], q)
        } else {
            Seq::<PointModel>::empty()
        },
        None => query_all(names, data, q),
    };
    match q.sensor_id {
        Some(sid) => {
            if data.contains_key(sid@) {
                law_query_results(data[sid@], q);
            }
        },
        None => {
            lemma_query_all_admitted(names, data, q);
        },
    }
    let r = store_query_view(names, data, q);
    assert(r == limited(gathered, q.limit));
    assert forall|i: int| 0 <= i < r.len() implies q.admits(#[trigger] r[i]) by {
        assert(r[i] == gathered[i]);
    }
}

/// A query that names a sensor answers what the same query answers when
/// every sensor of the store is searched in turn: no other sensor's
/// readings pass its sensor filter.
pub proof fn law_named_query_searches_one_series(st: &HistoryStore, q: HistoryQuery)
    requires
        st.wf(),
        q.sensor_id is Some,
    ensures
        store_query_view(st.sensors(), st.contents(), q) == limited(
            query_all(st.sensors(), st.contents(), q),
            q.limit,
        ),
{
    lemma_store_shape(st);
    let sid = q.sensor_id.unwrap()@;
    assert forall|i: int| 0 <= i < st.sensors().len() implies st.contents().contains_key(
        #[trigger] st.sensors()[i],
    ) by {
        assert(st.sensors().contains(st.sensors()[i]));
    }
    lemma_query_all_named(st.sensors(), st.contents(), q, sid);
    assert(limited(Seq::<PointModel>::empty(), q.limit) =~= Seq::<PointModel>::empty());
}

} // verus!
