# plato-history

Historical storage of sensor readings as time series, verified with Verus.

A `HistoryStore` files each `DataPoint` under its sensor in a `TimeSeries`
that is kept sorted by timestamp. Queries filter by sensor, time range and
tags and may cap the number of results; series can be downsampled to at most
`n` evenly spaced readings.

Layout:

- `src/range.rs`: `TimeRange`, a closed interval of timestamps.
- `src/tags.rs`: `Tags`, a string map kept as pairs with distinct names.
- `src/point.rs`: `DataPoint`; readings are carried as the bit pattern of
  their binary64 encoding, and identifiers are random version-4 UUIDs from
  `uuid`, held as 128-bit values.
- `src/query.rs`: `HistoryQuery` and its filter, `Aggregation`.
- `src/series.rs`: `TimeSeries`: sorted insertion, queries, downsampling.
- `src/store.rs`: `HistoryStore`, one series per sensor.
- `src/laws.rs`: properties that span the operations, proved over the models
  that the contracts use.
- `app/`: serde forms of the types and the aggregations (minimum, maximum,
  sum, mean), which compute with floating-point values.
