//! The event log of a book.

use crate::order::{Order, OrderId, Quantity};
use vstd::prelude::*;

verus! {

/// Something that happened in a book.
#[derive(Debug, Clone, Copy, PartialEq, Eq, Structural)]
pub enum OrderEvent {
    /// An order came in, as it was then.
    OrderPlaced(Order),
    /// An order traded and some of it is left.
    OrderPartiallyFilled { id: OrderId, filled: Quantity },
    /// Nothing of an order is left.
    OrderFullyFilled(OrderId),
    /// An order was withdrawn.
    OrderCancelled(OrderId),
    /// A new slice of an iceberg order became visible.
    IcebergRevealed(OrderId, Quantity),
    /// A stop order was set off.
    StopTriggered(OrderId),
}

/// The events of a book, oldest first.
pub struct EventStore {
    pub events: Vec<OrderEvent>,
}

impl View for EventStore {
    type V = Seq<OrderEvent>;

    open spec fn view(&self) -> Seq<OrderEvent> {
        self.events@
    }
}

impl EventStore {
    /// An empty log.
    pub fn new() -> (store: Self)
        ensures
            store@ == Seq::<OrderEvent>::empty(),
    {
        Self { events: Vec::new() }
    }

    /// Adds an event at the end of the log.
    pub fn append(&mut self, event: OrderEvent)
        ensures
            final(self)@ == old(self)@.push(event),
    {
        self.events.push(event);
    }
}

} // verus!
