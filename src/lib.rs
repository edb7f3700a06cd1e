//! Derived unit conversions over a graph of known conversion facts.
//!
//! Rates are exact rationals: a conversion fact "1 `from` is `rate` `to`"
//! becomes a pair of weighted edges, and a query folds the weights of a path
//! found by breadth-first search into the query's value.

pub mod conversion;
pub mod graph;
pub mod ratio;
pub mod search;
