//! A map of cities joined by routes, built in one pass from route records.
//!
//! Cities live in one owned collection and routes refer to them by handle
//! (an index into that collection), so the map holds no borrowed references.

pub mod map;
pub mod registry;
