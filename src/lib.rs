//! A simulated heap allocator over a fixed-size byte arena.
//!
//! The allocator tracks occupied and freed regions as block records kept in a
//! table sorted by start offset, reuses freed space first-fit, merges adjacent
//! free regions, and reports usage.

pub mod table;
pub mod arena;
pub mod allocator;
pub mod report;
pub mod laws;
