//! Query engine and catalog ingestion rules of a personal study tracker.
//!
//! The store and the catalog service live outside this crate. The functions
//! here take the rows that were read and hand back the rows to write, each
//! with a contract over a mathematical model of its arguments.

pub mod catalog;
pub mod ingest;
pub mod join;
pub mod models;
pub mod query;
pub mod ranges;
pub mod rearrange;
pub mod text;
