//! A fixed-capacity key-value cache with least-recently-used eviction.
//!
//! The cache keeps its entries in an arena addressed by slot numbers. A hash
//! index maps each key to its slot, and a doubly linked recency order, whose
//! links are slot numbers as well, runs from the most recently used entry to
//! the least recently used one. Every operation is specified against a
//! sequence of key-value pairs in recency order.

pub mod model;
pub mod cache;
pub mod laws;
