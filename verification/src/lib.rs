//! Renders infrastructure change plans as human-readable diff reports.
//!
//! The crate models plan attribute values as recursive trees, applies a
//! sensitivity mask that replaces protected leaves with an opaque marker,
//! classifies per-resource lifecycle actions, and renders deterministic,
//! line-oriented diffs of before/after snapshots.

pub mod strings;
pub mod tf;
pub mod template;
pub mod types;
pub mod utils;
