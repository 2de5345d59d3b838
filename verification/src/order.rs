//! A single order.

use crate::clock::now_nanos;
use vstd::prelude::*;

pub use crate::types::{OrderId, OrderStatus, OrderType, Price, Quantity, Side};

verus! {

/// An order. Its identity, side, kind, price and time stamp never change;
/// its remaining quantity and status do, as it is filled or cancelled.
#[derive(Debug, Clone, Copy, PartialEq, Eq, Structural)]
pub struct Order {
    /// Unique order identifier.
    pub order_id: OrderId,
    /// Buying or selling.
    pub side: Side,
    /// Limit or market.
    pub order_type: OrderType,
    /// Limit price.
    pub price: Price,
    /// Quantity the order was created with.
    pub original_quantity: Quantity,
    /// Quantity still to be traded.
    pub remaining_quantity: Quantity,
    /// Where the order is in its life.
    pub status: OrderStatus,
    /// When the order was created, in nanoseconds since the Unix epoch.
    pub timestamp: u64,
}

/// The smaller one of two quantities.
pub open spec fn min_quantity(a: Quantity, b: Quantity) -> Quantity {
    if a <= b {
        a
    } else {
        b
    }
}

impl Order {
    /// Whether the order can still trade.
    pub open spec fn tradable(self) -> bool {
        self.status == OrderStatus::Active || self.status == OrderStatus::PartiallyFilled
    }

    /// The order after a request to fill `quantity` of it. An order with
    /// nothing left stays as it is.
    pub open spec fn filled_by(self, quantity: Quantity) -> Order {
        if self.remaining_quantity == 0 {
            self
        } else {
            let left = (self.remaining_quantity - min_quantity(self.remaining_quantity, quantity))
                as u64;
            Order {
                remaining_quantity: left,
                status: if left == 0 {
                    OrderStatus::Filled
                } else {
                    OrderStatus::PartiallyFilled
                },
                ..self
            }
        }
    }

    /// The order without its time stamp.
    pub open spec fn unstamped(self) -> Order {
        Order { timestamp: 0, ..self }
    }

    /// A fresh order, created at a given moment.
    pub open spec fn fresh(
        order_id: OrderId,
        side: Side,
        order_type: OrderType,
        price: Price,
        quantity: Quantity,
        timestamp: u64,
    ) -> Order {
        Order {
            order_id,
            side,
            order_type,
            price,
            original_quantity: quantity,
            remaining_quantity: quantity,
            status: OrderStatus::Active,
            timestamp,
        }
    }

    /// Creates an order that was placed at `timestamp`.
    pub fn new_at(
        order_id: OrderId,
        side: Side,
        order_type: OrderType,
        price: Price,
        quantity: Quantity,
        timestamp: u64,
    ) -> (order: Self)
        ensures
            order == Order::fresh(order_id, side, order_type, price, quantity, timestamp),
    {
        Self {
            order_id,
            side,
            order_type,
            price,
            original_quantity: quantity,
            remaining_quantity: quantity,
            status: OrderStatus::Active,
            timestamp,
        }
    }

    /// Creates an order now.
    pub fn new(
        order_id: OrderId,
        side: Side,
        order_type: OrderType,
        price: Price,
        quantity: Quantity,
    ) -> (order: Self)
        ensures
            order == Order::fresh(order_id, side, order_type, price, quantity, order.timestamp),
    {
        let timestamp: u64 = now_nanos();
        Order::new_at(order_id, side, order_type, price, quantity, timestamp)
    }

    /// The quantity still to be traded.
    pub fn get_remaining_quantity(&self) -> (r: Quantity)
        ensures
            r == self.remaining_quantity,
    {
        self.remaining_quantity
    }

    /// The current status.
    pub fn get_status(&self) -> (r: OrderStatus)
        ensures
            r == self.status,
    {
        self.status
    }

    /// Fills up to `quantity` of the order and returns how much was filled,
    /// which is less than asked for where less remains.
    pub fn fill(&mut self, quantity: Quantity) -> (filled: Quantity)
        ensures
            *final(self) == old(self).filled_by(quantity),
            filled == min_quantity(old(self).remaining_quantity, quantity),
            filled + final(self).remaining_quantity == old(self).remaining_quantity,
            filled <= quantity,
            filled < quantity ==> final(self).remaining_quantity == 0,
    {
        let current: u64 = self.remaining_quantity;
        if current == 0 {
            return 0;
        }
        let fill_amount: u64 = if current <= quantity {
            current
        } else {
            quantity
        };
        let new_remaining: u64 = current - fill_amount;
        self.remaining_quantity = new_remaining;
        if new_remaining == 0 {
            self.status = OrderStatus::Filled;
        } else {
            self.status = OrderStatus::PartiallyFilled;
        }
        fill_amount
    }

    /// Cancels the order. Returns whether it was still open; an order that is
    /// filled or cancelled already stays as it is.
    pub fn cancel(&mut self) -> (cancelled: bool)
        ensures
            cancelled == old(self).tradable(),
            cancelled <==> !(old(self).status is Filled) && !(old(self).status is Cancelled),
            cancelled ==> *final(self) == (Order { status: OrderStatus::Cancelled, ..*old(self) }),
            !cancelled ==> *final(self) == *old(self),
    {
        if self.status == OrderStatus::Filled || self.status == OrderStatus::Cancelled {
            return false;
        }
        self.status = OrderStatus::Cancelled;
        true
    }

    /// Whether the order can still trade, being neither filled nor cancelled.
    pub fn is_active(&self) -> (r: bool)
        ensures
            r == self.tradable(),
            r <==> self.status is Active || self.status is PartiallyFilled,
    {
        let status = self.get_status();
        status == OrderStatus::Active || status == OrderStatus::PartiallyFilled
    }
}

/// Law: a fill takes from the remaining quantity exactly what it reports, and
/// touches nothing but the remaining quantity and the status.
pub proof fn law_fill_conserves_quantity(order: Order, quantity: Quantity)
    ensures
        order.filled_by(quantity).remaining_quantity + min_quantity(
            order.remaining_quantity,
            quantity,
        ) == order.remaining_quantity,
        order.filled_by(quantity) == (Order {
            remaining_quantity: order.filled_by(quantity).remaining_quantity,
            status: order.filled_by(quantity).status,
            ..order
        }),
{
}

/// Law: two fills in a row amount to one fill of both quantities together.
pub proof fn law_fills_add_up(order: Order, a: Quantity, b: Quantity)
    requires
        a + b <= u64::MAX,
    ensures
        order.filled_by(a).filled_by(b) == order.filled_by((a + b) as u64),
        min_quantity(order.remaining_quantity, a) + min_quantity(
            order.filled_by(a).remaining_quantity,
            b,
        ) == min_quantity(order.remaining_quantity, (a + b) as u64),
{
}

/// Law: an order with something left is `Filled` after a fill exactly if
/// nothing is left then, and a filled-up order yields nothing more.
pub proof fn law_filled_means_nothing_left(order: Order, quantity: Quantity)
    requires
        order.remaining_quantity > 0,
    ensures
        order.filled_by(quantity).status == OrderStatus::Filled <==> order.filled_by(
            quantity,
        ).remaining_quantity == 0,
        order.filled_by(quantity).status == OrderStatus::Filled <==> quantity
            >= order.remaining_quantity,
        order.filled_by(quantity).remaining_quantity == 0 ==> forall|more: Quantity|
            #[trigger] order.filled_by(quantity).filled_by(more) == order.filled_by(quantity),
{
}

/// Law: an order that is made has what it is made with, and all of its quantity
/// is left.
pub proof fn law_new_order_is_whole(
    order_id: OrderId,
    side: Side,
    order_type: OrderType,
    price: Price,
    quantity: Quantity,
    timestamp: u64,
)
    ensures
        ({
            let order = Order::fresh(order_id, side, order_type, price, quantity, timestamp);
            &&& order.order_id == order_id
            &&& order.side == side
            &&& order.order_type == order_type
            &&& order.price == price
            &&& order.original_quantity == quantity
            &&& order.remaining_quantity == quantity
            &&& order.status is Active
            &&& order.timestamp == timestamp
            &&& order.tradable()
        }),
{
}

/// Law: the smaller one of two quantities is one of them, and no more than
/// either.
pub proof fn law_smaller_quantity(a: Quantity, b: Quantity)
    ensures
        min_quantity(a, b) == a || min_quantity(a, b) == b,
        min_quantity(a, b) <= a,
        min_quantity(a, b) <= b,
{
}

/// Law: a fill takes all that is asked for, as long as the order has it. What is
/// left is the difference, or nothing; and only an order that is neither filled
/// nor cancelled is open.
pub proof fn law_fill_takes_what_is_there(order: Order, quantity: Quantity)
    ensures
        quantity <= order.remaining_quantity ==> order.filled_by(quantity).remaining_quantity
            == order.remaining_quantity - quantity,
        quantity >= order.remaining_quantity ==> order.filled_by(quantity).remaining_quantity == 0,
        0 < quantity < order.remaining_quantity ==> order.filled_by(
            quantity,
        ).status is PartiallyFilled,
        0 < order.remaining_quantity <= quantity ==> order.filled_by(quantity).status is Filled,
        order.tradable() <==> !(order.status is Filled) && !(order.status is Cancelled),
{
}

} // verus!
