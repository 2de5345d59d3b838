//! The vocabulary of the crate: identifiers, prices, sides, states, errors.

use vstd::prelude::*;

verus! {

/// Identifies an order; a book never hands out the same one twice.
pub type OrderId = u64;

/// A price, as a fixed-point integer.
pub type Price = u64;

/// A quantity of the traded asset.
pub type Quantity = u64;

/// The side of the book an order rests on.
#[derive(Debug, Clone, Copy, PartialEq, Eq, Structural)]
pub enum Side {
    Bid,
    Ask,
}

#[allow(non_upper_case_globals)]
impl Side {
    /// An order to buy rests among the bids.
    pub const Buy: Side = Side::Bid;

    /// An order to sell rests among the asks.
    pub const Sell: Side = Side::Ask;
}

impl Side {
    /// The side that an order of this side trades with.
    pub open spec fn other(self) -> Side {
        match self {
            Side::Bid => Side::Ask,
            Side::Ask => Side::Bid,
        }
    }

    /// Whether, among orders resting on this side, price `a` is served before
    /// price `b`: the higher one of two bids, the lower one of two asks.
    pub open spec fn prefers(self, a: Price, b: Price) -> bool {
        match self {
            Side::Bid => a > b,
            Side::Ask => a < b,
        }
    }

    /// Whether an incoming order of this side, limited to `limit`, may trade
    /// with an order that rests at `resting`.
    pub open spec fn accepts(self, limit: Price, resting: Price) -> bool {
        match self {
            Side::Bid => limit >= resting,
            Side::Ask => limit <= resting,
        }
    }

    /// The side that an order of this side trades with.
    pub fn opposite(self) -> (r: Side)
        ensures
            r == self.other(),
            r != self,
    {
        match self {
            Side::Bid => Side::Ask,
            Side::Ask => Side::Bid,
        }
    }

    /// Whether an incoming order of this side and limit reaches `resting`.
    pub fn reaches(self, limit: Price, resting: Price) -> (r: bool)
        ensures
            r == self.accepts(limit, resting),
            self is Bid ==> r == (resting <= limit),
            self is Ask ==> r == (resting >= limit),
    {
        match self {
            Side::Bid => limit >= resting,
            Side::Ask => limit <= resting,
        }
    }
}

/// Whether an order waits at its limit or trades at once at any price.
#[derive(Debug, Clone, Copy, PartialEq, Eq, Structural)]
pub enum OrderType {
    Limit,
    Market,
}

/// Where an order is in its life.
#[derive(Debug, Clone, Copy, PartialEq, Eq, Structural)]
pub enum OrderStatus {
    Active,
    PartiallyFilled,
    Filled,
    Cancelled,
}

impl OrderStatus {
    /// The byte that encodes this status.
    pub open spec fn code(self) -> u8 {
        match self {
            OrderStatus::Active => 0,
            OrderStatus::PartiallyFilled => 1,
            OrderStatus::Filled => 2,
            OrderStatus::Cancelled => 3,
        }
    }

    /// The status that a byte encodes; a byte that encodes none reads as `Active`.
    pub open spec fn decode(code: u8) -> OrderStatus {
        if code == 1 {
            OrderStatus::PartiallyFilled
        } else if code == 2 {
            OrderStatus::Filled
        } else if code == 3 {
            OrderStatus::Cancelled
        } else {
            OrderStatus::Active
        }
    }
}

impl From<u8> for OrderStatus {
    fn from(value: u8) -> (r: Self) {
        match value {
            0 => OrderStatus::Active,
            1 => OrderStatus::PartiallyFilled,
            2 => OrderStatus::Filled,
            3 => OrderStatus::Cancelled,
            _ => OrderStatus::Active,
        }
    }
}

impl vstd::std_specs::convert::FromSpecImpl<u8> for OrderStatus {
    open spec fn obeys_from_spec() -> bool {
        true
    }

    open spec fn from_spec(value: u8) -> Self {
        OrderStatus::decode(value)
    }
}

/// Law: decoding the byte of a status gives the status back.
pub proof fn law_status_code_round_trip(status: OrderStatus)
    ensures
        OrderStatus::decode(status.code()) == status,
{
}

/// Why a request to a book was refused.
#[derive(Debug, Clone, Copy, PartialEq, Eq, Structural)]
pub enum OrderBookError {
    /// No such order is known.
    OrderNotFound(OrderId),
    /// The price is not one an order can have.
    InvalidPrice(Price),
    /// The quantity is not one an order can have.
    InvalidQuantity(Quantity),
    /// The order is no longer open.
    AlreadyCancelled(OrderId),
    /// There is nothing to trade with.
    EmptyBook,
}

/// Law: the two sides face each other. Those who buy are among the bids, those
/// who sell among the asks.
pub proof fn law_sides_face_each_other(side: Side)
    ensures
        side.other() != side,
        side.other().other() == side,
        Side::Buy == Side::Bid,
        Side::Sell == Side::Ask,
{
}

/// Law: a limit is a bound on the price. Who buys pays at most the limit, who
/// sells gets at least the limit.
pub proof fn law_limit_bounds_the_price(limit: Price, resting: Price)
    ensures
        Side::Bid.accepts(limit, resting) <==> resting <= limit,
        Side::Ask.accepts(limit, resting) <==> limit <= resting,
{
}

/// Law: among bids the higher price goes first, among asks the lower one.
pub proof fn law_better_price_goes_first(a: Price, b: Price)
    ensures
        Side::Bid.prefers(a, b) <==> b < a,
        Side::Ask.prefers(a, b) <==> a < b,
{
}

/// Law: the bytes 0 to 3 encode the four states of an order, and every other
/// byte reads as an active one.
pub proof fn law_status_bytes(code: u8, status: OrderStatus)
    ensures
        OrderStatus::decode(code) is PartiallyFilled <==> code == 1,
        OrderStatus::decode(code) is Filled <==> code == 2,
        OrderStatus::decode(code) is Cancelled <==> code == 3,
        OrderStatus::decode(code) is Active <==> code == 0 || code > 3,
        status.code() <= 3,
{
}

} // verus!
