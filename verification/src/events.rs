//! What a trade looks like from outside.

use crate::types::{OrderId, Price, Quantity};
use vstd::prelude::*;

verus! {

/// One trade between an incoming order and a resting one.
#[derive(Debug, Clone, Copy, PartialEq, Eq, Structural)]
pub struct Trade {
    /// The incoming order.
    pub taker_order_id: OrderId,
    /// The resting order.
    pub maker_order_id: OrderId,
    /// The price of the resting order.
    pub price: Price,
    /// The quantity that changed hands.
    pub quantity: Quantity,
    /// When the trade took place, in milliseconds since the Unix epoch.
    pub timestamp: u64,
}

} // verus!
