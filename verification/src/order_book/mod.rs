//! A book that records what happens in it, with iceberg and stop orders.

pub mod book;
pub mod history;
pub mod laws;
pub mod model;
pub mod promises;
pub mod replay;
pub mod soundness;
pub mod waiting;

pub use book::OrderBook;
