//! Combine weighted intervals into the unique minimal collection of disjoint
//! intervals whose weight on each part is the sum of the input weights over it.

mod base_interval;
mod combine_intervals;
mod interval;
mod interval_collection;
mod intfloat;
pub mod laws;
pub mod weights;

pub use crate::base_interval::{spans, BaseInterval, Span};
pub use crate::interval::{views, Interval, WeightedSpan};
pub use crate::intfloat::IntFloat;
pub use crate::interval_collection::{
    chained, counted, covered, quotient, set_runs, value_at, walk, CollectionError,
    IntervalCollection,
};
pub use crate::combine_intervals::{combine_as_set, combine_intervals};
