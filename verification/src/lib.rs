//! Free-text lookup over a small product catalog, with weighted
//! "related product" recommendations.
//!
//! The crate is made of
//!
//! - `tokenizer`: the normalization of a text and its splitting into terms;
//! - `index`: the inverted index, from terms to the identifiers of the
//!   records that hold them, with boolean-AND queries (`lists` holds the
//!   work on lists of identifiers that a query needs);
//! - `cache`: the bounded, recency-ordered cache of query answers;
//! - `graph`: the weighted, undirected graph of related records, and
//!   `ranking`, the order in which a node's neighbours are recommended;
//! - `scalar`: weights and prices, held by their bit patterns;
//! - `engine`: tokenizer, index, cache and attribute filters as one search;
//! - `catalog`: the graph of a catalog under an edge rule;
//! - `model`: the records.
//!
//! Every function carries a contract over a mathematical model of the data
//! it works on.

pub mod cache;
pub mod catalog;
pub mod engine;
pub mod graph;
pub mod index;
pub mod lists;
pub mod model;
pub mod ranking;
pub mod scalar;
pub mod tokenizer;
