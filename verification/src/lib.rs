//! Price-time priority order books.
//!
//! Two books share the same order, level and side types.
//!
//! * [`order_book::OrderBook`] takes ready-made orders, keeps iceberg and stop
//!   orders, and records what happens in an event log.
//! * [`exchange::OrderBook`] validates its input, reports every trade on a
//!   channel, answers depth queries and cancels resting orders.

pub mod book_side;
pub mod clock;
pub mod event;
pub mod events;
pub mod exchange;
pub mod iceberg;
pub mod ladder;
pub mod order;
pub mod order_book;
pub mod price_level;
pub mod stop_order;
pub mod tally;
pub mod types;

pub use book_side::BookSide;
pub use event::{EventStore, OrderEvent};
pub use iceberg::IcebergOrder;
pub use order::{Order, OrderType, Side};
pub use order_book::OrderBook;
pub use price_level::PriceLevel;
pub use stop_order::StopOrder;
