//! Historical storage of sensor readings as time series, with range
//! queries, tag filters, limits and even downsampling.

pub mod range;
pub mod tags;
pub mod point;
pub mod query;
pub mod series;
pub mod store;
pub mod laws;
pub mod query_laws;

pub use point::DataPoint;
pub use query::{Aggregation, HistoryQuery};
pub use range::TimeRange;
pub use series::TimeSeries;
pub use store::HistoryStore;
pub use tags::Tags;
