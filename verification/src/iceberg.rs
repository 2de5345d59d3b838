//! Iceberg orders.

use crate::order::{OrderId, Price, Quantity, Side};
use vstd::prelude::*;

verus! {

/// An order of which only a slice is visible at any time.
#[derive(Debug, Clone, Copy, PartialEq, Eq, Structural)]
pub struct IcebergOrder {
    pub id: OrderId,
    pub side: Side,
    pub price: Price,
    /// Quantity of the whole order.
    pub total_quantity: Quantity,
    /// Size of a visible slice.
    pub visible_quantity: Quantity,
    /// Quantity not revealed yet.
    pub remaining: Quantity,
}

} // verus!
