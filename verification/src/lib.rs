//! A verified term-search engine over a place-name gazetteer.
//!
//! The library holds the whole serving-time pipeline: an inverted index over
//! immutable segments, a query parser sharing the index's term normalization,
//! a term-frequency scorer, a bounded top-K collector with deterministic
//! tie-breaking, a document store, and the service that orchestrates them.
//! Index construction is an offline concern: a snapshot arrives as data and
//! is read-only for its whole life.

pub mod index;
pub mod json;
pub mod laws;
pub mod service;
pub mod store;
pub mod text;
pub mod topk;
