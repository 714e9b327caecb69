//! Commit-graph layout: orders a set of commit records children-first,
//! assigns each a rendering lane, and encodes the result as a little-endian
//! byte buffer for a graph renderer.

pub mod commit_index;
pub mod schedule;
pub mod lanes;
pub mod float_bits;
pub mod encode;
pub mod layout;
pub mod models;
pub mod branches;
pub mod fetch;
pub mod files;
