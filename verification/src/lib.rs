//! Tree-bin sort: a distribution-aware sort that samples its input, fits a
//! piecewise-linear map from values to bins, distributes the elements over the
//! bins in one pass, and refines every bin that is still too large.
//!
//! The whole of it is verified, down to the calls into `rand` that draw the
//! sample: [`sort::tbsort`] returns its range sorted and otherwise unchanged,
//! whatever numbers are drawn.

pub mod binner;
pub mod clamp;
pub mod direct;
pub mod mapper;
pub mod order;
pub mod sampler;
pub mod search;
pub mod sizing;
pub mod sort;
pub mod source;

pub use clamp::myclamp;
pub use search::search;
pub use sort::{tbsort, tbsort_with, SortError};
pub use source::RandomSource;
