//! What the exchange book is, and what its operations do, as mathematics.

use super::index::Entry;
use super::tape::Fill;
use crate::book_side::level_at;
use crate::ladder::{ladder, reachable};
use crate::order::{min_quantity, Order};
use crate::price_level::{wrapped_difference, Level};
use crate::types::{
    OrderBookError, OrderId, OrderStatus, OrderType, Price, Quantity, Side,
};
use vstd::prelude::*;

verus! {

/// The state of a book.
#[verifier::ext_equal]
pub struct Book {
    pub bids: Map<Price, Level>,
    pub asks: Map<Price, Level>,
    /// Every order that ever came to rest and was not cancelled.
    pub index: Map<OrderId, Entry>,
    /// The id that the next order gets.
    pub next_order_id: OrderId,
}

impl Book {
    /// The book before the first order.
    pub open spec fn empty() -> Book {
        Book { bids: Map::empty(), asks: Map::empty(), index: Map::empty(), next_order_id: 1 }
    }

    /// The levels of one side.
    pub open spec fn side(self, side: Side) -> Map<Price, Level> {
        match side {
            Side::Bid => self.bids,
            Side::Ask => self.asks,
        }
    }

    /// The book with other levels on one side.
    pub open spec fn with_side(self, side: Side, levels: Map<Price, Level>) -> Book {
        match side {
            Side::Bid => Book { bids: levels, ..self },
            Side::Ask => Book { asks: levels, ..self },
        }
    }
}

/// An incoming order on its way through the queue of one level.
#[verifier::ext_equal]
pub struct LevelSweep {
    pub level: Level,
    pub index: Map<OrderId, Entry>,
    pub taker: Order,
    pub fills: Seq<Fill>,
}

impl LevelSweep {
    /// Whether the incoming order is done with this level.
    pub open spec fn done(self) -> bool {
        self.taker.remaining_quantity == 0 || self.level.orders.len() == 0
    }

    /// The incoming order meets the order at the front of the queue.
    ///
    /// An order that cannot trade any more is dropped. With any other one the
    /// incoming order trades as much as both have left; a resting order of
    /// which something is left keeps its place.
    pub open spec fn step(self) -> LevelSweep {
        let maker = self.level.orders[0];
        let rest = self.level.orders.drop_first();
        if !maker.tradable() {
            LevelSweep {
                level: Level {
                    orders: rest,
                    total_quantity: wrapped_difference(
                        self.level.total_quantity,
                        maker.remaining_quantity,
                    ),
                    ..self.level
                },
                ..self
            }
        } else if maker.remaining_quantity == 0 {
            LevelSweep { level: Level { orders: rest, ..self.level }, ..self }
        } else {
            let quantity = min_quantity(
                maker.remaining_quantity,
                self.taker.remaining_quantity,
            );
            let met = maker.filled_by(quantity);
            LevelSweep {
                level: Level {
                    orders: if met.remaining_quantity > 0 {
                        seq![met] + rest
                    } else {
                        rest
                    },
                    total_quantity: wrapped_difference(self.level.total_quantity, quantity),
                    ..self.level
                },
                index: self.index.insert(maker.order_id, (maker.side, maker.price, met.status)),
                taker: self.taker.filled_by(quantity),
                fills: self.fills.push(
                    Fill {
                        taker_order_id: self.taker.order_id,
                        maker_order_id: maker.order_id,
                        price: self.level.price,
                        quantity,
                    },
                ),
            }
        }
    }

    /// The incoming order goes through the queue until it is done with it.
    pub open spec fn run(self) -> LevelSweep
        decreases self.level.orders.len(), self.taker.remaining_quantity,
    {
        if self.done() {
            self
        } else {
            self.step().run()
        }
    }
}

/// An incoming order on its way through the levels of the other side.
#[verifier::ext_equal]
pub struct SideSweep {
    pub levels: Map<Price, Level>,
    pub index: Map<OrderId, Entry>,
    pub taker: Order,
    pub fills: Seq<Fill>,
}

impl SideSweep {
    /// The incoming order goes through the level at `price`. A level that is
    /// empty afterwards disappears.
    pub open spec fn visit(self, price: Price) -> SideSweep {
        if self.levels.contains_key(price) {
            let swept = LevelSweep {
                level: self.levels[price],
                index: self.index,
                taker: self.taker,
                fills: self.fills,
            }.run();
            SideSweep {
                levels: if swept.level.orders.len() == 0 {
                    self.levels.remove(price)
                } else {
                    self.levels.insert(price, swept.level)
                },
                index: swept.index,
                taker: swept.taker,
                fills: swept.fills,
            }
        } else {
            self
        }
    }

    /// The incoming order visits the prices in turn until nothing of it is
    /// left.
    pub open spec fn visit_all(self, prices: Seq<Price>) -> SideSweep
        decreases prices.len(),
    {
        if prices.len() == 0 || self.taker.remaining_quantity == 0 {
            self
        } else {
            self.visit(prices[0]).visit_all(prices.drop_first())
        }
    }

    /// The incoming order goes through the prices that its limit accepts, the
    /// best one first.
    pub open spec fn run(self, limit: Option<Price>) -> SideSweep {
        let side = self.taker.side.other();
        self.visit_all(ladder(reachable(self.levels.dom(), side, limit), side))
    }
}

impl Book {
    /// How `taker` fares when it comes in.
    pub open spec fn sweep(self, taker: Order, limit: Option<Price>) -> SideSweep {
        SideSweep {
            levels: self.side(taker.side.other()),
            index: self.index,
            taker,
            fills: Seq::empty(),
        }.run(limit)
    }

    /// The book after a sweep, without the incoming order.
    pub open spec fn swept(self, sweep: SideSweep) -> Book {
        Book { index: sweep.index, ..self.with_side(sweep.taker.side.other(), sweep.levels) }
    }

    /// The book after `order` came to rest in it.
    pub open spec fn rested(self, order: Order) -> Book {
        Book {
            index: self.index.insert(order.order_id, (order.side, order.price, order.status)),
            ..self.with_side(
                order.side,
                self.side(order.side).insert(
                    order.price,
                    level_at(self.side(order.side), order.price).pushed(order),
                ),
            )
        }
    }

    /// The book that has handed out one more order id.
    pub open spec fn numbered(self) -> Book {
        Book { next_order_id: (self.next_order_id + 1) as u64, ..self }
    }

    /// The limit order that the book would number next.
    pub open spec fn limit_order(
        self,
        side: Side,
        price: Price,
        quantity: Quantity,
        timestamp: u64,
    ) -> Order {
        Order::fresh(self.next_order_id, side, OrderType::Limit, price, quantity, timestamp)
    }

    /// The market order that the book would number next.
    pub open spec fn market_order(self, side: Side, quantity: Quantity, timestamp: u64) -> Order {
        Order::fresh(self.next_order_id, side, OrderType::Market, 0, quantity, timestamp)
    }

    /// How a limit order fares when it comes in: it trades at prices that are
    /// no worse than its own.
    pub open spec fn limit_sweep(
        self,
        side: Side,
        price: Price,
        quantity: Quantity,
        timestamp: u64,
    ) -> SideSweep {
        self.sweep(self.limit_order(side, price, quantity, timestamp), Some(price))
    }

    /// How a market order fares when it comes in: it trades at any price.
    pub open spec fn market_sweep(
        self,
        side: Side,
        quantity: Quantity,
        timestamp: u64,
    ) -> SideSweep {
        self.sweep(self.market_order(side, quantity, timestamp), None)
    }

    /// The book after a limit order: what is left of the order rests.
    pub open spec fn after_limit(
        self,
        side: Side,
        price: Price,
        quantity: Quantity,
        timestamp: u64,
    ) -> Book {
        let sweep = self.limit_sweep(side, price, quantity, timestamp);
        let book = self.numbered().swept(sweep);
        if sweep.taker.remaining_quantity > 0 {
            book.rested(sweep.taker)
        } else {
            book
        }
    }

    /// The book after a market order: what is left of the order is dropped.
    pub open spec fn after_market(self, side: Side, quantity: Quantity, timestamp: u64) -> Book {
        self.numbered().swept(self.market_sweep(side, quantity, timestamp))
    }

    /// Whether order `order_id` rests at `price` on `side`.
    pub open spec fn rests(self, side: Side, price: Price, order_id: OrderId) -> bool {
        self.side(side).contains_key(price) && self.side(side)[price].holds(order_id)
    }

    /// Whether order `order_id` can be cancelled.
    pub open spec fn cancellable(self, order_id: OrderId) -> bool {
        self.index.contains_key(order_id) && self.index[order_id].2 != OrderStatus::Filled
    }

    /// The book after the order at position `i` of the queue at `price` on
    /// `side` was cancelled. A level that is empty afterwards disappears.
    pub open spec fn withdrawn(self, side: Side, price: Price, i: int) -> Book {
        let level = self.side(side)[price];
        Book {
            index: self.index.remove(level.orders[i].order_id),
            ..self.with_side(
                side,
                if level.orders.len() == 1 {
                    self.side(side).remove(price)
                } else {
                    self.side(side).insert(price, level.removed(i))
                },
            )
        }
    }

    /// What a request to cancel order `order_id` is answered.
    pub open spec fn cancel_answer(self, order_id: OrderId) -> Result<Quantity, OrderBookError> {
        if !self.index.contains_key(order_id) {
            Err(OrderBookError::OrderNotFound(order_id))
        } else if self.index[order_id].2 == OrderStatus::Filled {
            Err(OrderBookError::AlreadyCancelled(order_id))
        } else {
            let (side, price, _) = self.index[order_id];
            let level = self.side(side)[price];
            Ok(level.orders[level.place_of(order_id)].remaining_quantity)
        }
    }

    /// The book after a request to cancel order `order_id`.
    pub open spec fn after_cancel(self, order_id: OrderId) -> Book {
        if self.cancellable(order_id) {
            let (side, price, _) = self.index[order_id];
            self.withdrawn(side, price, self.side(side)[price].place_of(order_id))
        } else {
            self
        }
    }
}

} // verus!
