//! A book that reports its trades on a channel and can cancel orders.

pub mod accounts;
pub mod book;
pub mod history;
pub mod index;
pub mod laws;
pub mod model;
pub mod promises;
pub mod renumbering;
pub mod soundness;
pub mod tape;

pub use book::OrderBook;
