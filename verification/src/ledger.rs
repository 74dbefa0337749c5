//! The ledger of regions and gift orders, and the queries over it.

pub mod keys;
pub mod laws;
pub mod model;
pub mod query;
pub mod records;
pub mod store;
pub mod tally;
