//! Verified engine for planning the cheapest sequence of anvil-style merge
//! operations over a set of items and enchantment books.
//!
//! The crate models pieces (items and books), the cost of combining two
//! pieces, a branch-and-bound search over merge orders with dead-state
//! memoization, and a plain-text report of the winning merge order.

pub mod cost;
pub mod piece;
pub mod search;
pub mod report;
