//! Merging of half-open intervals over any totally ordered bound type.
//!
//! [`merge`] folds a collection of intervals, one at a time, into a sorted
//! accumulator of pairwise disjoint intervals. Its contract states the result
//! of that fold for every input, and for inputs whose intervals are all
//! non-empty it states that the result is the one reduced form of the input.
pub mod interval;
pub mod laws;
pub mod merger;
pub mod order;
pub mod reduced;
pub mod rollup;
pub mod upkeep;

pub use merger::merge;
