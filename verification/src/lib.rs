//! Backward search for numbers with large multiplicative persistence.
//!
//! Starting from single-digit seeds, the search repeatedly rewrites a number
//! as a product of single-digit factors, reads each ordered factor sequence as
//! a new (longer) decimal number, and explores the resulting frontier in
//! priority order, tracking the deepest chain found so far.

pub mod factor;
pub mod scheduler;
pub mod tracker;
pub mod search;
