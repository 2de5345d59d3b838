//! Stop orders.

use crate::order::{OrderId, Price, Quantity, Side};
use vstd::prelude::*;

verus! {

/// A market order that waits for the last trade price to reach its trigger.
#[derive(Debug, Clone, Copy, PartialEq, Eq, Structural)]
pub struct StopOrder {
    pub id: OrderId,
    pub side: Side,
    pub trigger_price: Price,
    pub quantity: Quantity,
}

impl StopOrder {
    /// Whether a trade at `price` sets this order off: a stop to buy goes off
    /// at or above its trigger, a stop to sell at or below it.
    pub open spec fn goes_off_at(self, price: Price) -> bool {
        match self.side {
            Side::Bid => price >= self.trigger_price,
            Side::Ask => price <= self.trigger_price,
        }
    }

    /// Whether a trade at `price` sets this order off.
    pub fn is_triggered_by(&self, price: Price) -> (r: bool)
        ensures
            r == self.goes_off_at(price),
            self.side is Bid ==> r == (price >= self.trigger_price),
            self.side is Ask ==> r == (price <= self.trigger_price),
    {
        match self.side {
            Side::Bid => price >= self.trigger_price,
            Side::Ask => price <= self.trigger_price,
        }
    }
}

/// Law: a stop to buy goes off once the price has risen to its trigger or
/// beyond, a stop to sell once it has fallen to its trigger or beyond.
pub proof fn law_stop_goes_off_at_its_trigger_and_beyond(stop: StopOrder, price: Price)
    ensures
        stop.side is Bid ==> (stop.goes_off_at(price) <==> stop.trigger_price <= price),
        stop.side is Ask ==> (stop.goes_off_at(price) <==> price <= stop.trigger_price),
        forall|further: Price|
            stop.goes_off_at(price) && (stop.side is Bid && further >= price || stop.side is Ask
                && further <= price) ==> #[trigger] stop.goes_off_at(further),
{
}

} // verus!
