//! Test coverage of an HTTP API: which of the endpoints that an OpenAPI
//! document declares were exercised by the traffic that was observed.
//!
//! The crate holds the matching of templated paths, the grouping rules, the
//! evaluation of coverage and the comparison of endpoint lists, together with
//! the reading of the configuration, of OpenAPI documents and of the access
//! log that feed them. Every function states what it computes, and Verus
//! proves that it does.

pub mod config;
pub mod evaluator;
pub mod models;
pub mod parser;
pub mod utils;
