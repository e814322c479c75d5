//! A library for one-shot content placement: given caches with a shared
//! capacity, items with sizes, endpoints with link latencies, and observed
//! request volumes, it decides which items each cache should store so that
//! the latency saved across all requests is as large as possible, using a
//! family of greedy heuristics.
//!
//! Every algorithm here is specified by a mathematical model and verified
//! against it: the packing invariant of the caches, the gain model, the
//! ordering of placement attempts, and the text parser and serializer.

pub mod algo;
pub mod amend;
pub mod model;
pub mod order;
pub mod output;
pub mod pack;
pub mod parser;
pub mod types;
