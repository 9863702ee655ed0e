//! Descriptive statistics over an immutable sequence of bytes.
//!
//! The core is a selection engine that finds the k-th smallest value in an
//! unsorted `&[u8]` without sorting, mutating, or copying the input: it
//! repeatedly sweeps for the smallest value strictly greater than a
//! previous-value sentinel, accumulating occurrence counts until the wanted
//! rank is covered.  On top of that sit the order-statistic finder, the fused
//! two-rank traversal that the median needs, and an exact summation for the
//! mean.  The floating-point layer (mean, median, population standard
//! deviation, and Pearson's second skewness coefficient) lives outside the
//! verified library and only divides, averages, and takes an approximate
//! square root of the values computed here.

pub mod counts;
pub mod order;
pub mod select;
pub mod totals;

pub use order::kth_ind;
pub use order::median_pair;
pub use select::next_min;
pub use totals::total;
