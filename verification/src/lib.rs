//! An interactive incremental-search selector core: a query buffer, a fuzzy
//! ranking step over a fixed candidate set, and a selection cursor with
//! wraparound movement that stays consistent as the result list changes size.

pub mod paths;
pub mod rank;
pub mod state;
