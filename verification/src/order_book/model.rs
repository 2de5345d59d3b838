//! What the event-recording book is, and what its operations do, as mathematics.
//!
//! Operations that stamp orders with the time take the readings of the clock
//! as a sequence, from which they use up one reading for each order they make.

use crate::book_side::level_at;
use crate::event::OrderEvent;
use crate::iceberg::IcebergOrder;
use crate::ladder::best;
use crate::order::{min_quantity, Order};
use crate::price_level::Level;
use crate::stop_order::StopOrder;
use crate::types::{OrderId, OrderType, Price, Quantity, Side};
use vstd::prelude::*;

verus! {

/// What orders trade in.
#[verifier::ext_equal]
pub struct Market {
    pub bids: Map<Price, Level>,
    pub asks: Map<Price, Level>,
    /// What happened so far, oldest first.
    pub events: Seq<OrderEvent>,
    /// The iceberg orders, with what is still hidden of them.
    pub icebergs: Map<OrderId, IcebergOrder>,
    /// The price of the last trade.
    pub last_trade_price: Option<Price>,
}

impl Market {
    /// The levels of one side.
    pub open spec fn side(self, side: Side) -> Map<Price, Level> {
        match side {
            Side::Bid => self.bids,
            Side::Ask => self.asks,
        }
    }

    /// The market with other levels on one side.
    pub open spec fn with_side(self, side: Side, levels: Map<Price, Level>) -> Market {
        match side {
            Side::Bid => Market { bids: levels, ..self },
            Side::Ask => Market { asks: levels, ..self },
        }
    }

    /// The market in which one more thing has happened.
    pub open spec fn recording(self, event: OrderEvent) -> Market {
        Market { events: self.events.push(event), ..self }
    }

    /// The market with another queue at `price` on `side`. A level without
    /// orders disappears.
    pub open spec fn with_queue(self, side: Side, price: Price, orders: Seq<Order>) -> Market {
        self.with_side(
            side,
            if orders.len() == 0 {
                self.side(side).remove(price)
            } else {
                self.side(side).insert(price, Level { orders, ..self.side(side)[price] })
            },
        )
    }

    /// The market in which `order` rests.
    pub open spec fn with_resting(self, order: Order) -> Market {
        self.with_side(
            order.side,
            self.side(order.side).insert(
                order.price,
                level_at(self.side(order.side), order.price).pushed(order),
            ),
        )
    }
}

/// The next reading of the clock.
pub open spec fn reading(clock: Seq<u64>) -> u64 {
    if clock.len() > 0 {
        clock[0]
    } else {
        0
    }
}

/// An incoming order on its way through the market.
#[verifier::ext_equal]
pub struct Matching {
    pub market: Market,
    pub taker: Order,
    pub clock: Seq<u64>,
}

impl Matching {
    /// The best price of the other side.
    pub open spec fn best_price(self) -> Option<Price> {
        best(self.market.side(self.taker.side.other()).dom(), self.taker.side.other())
    }

    /// The orders at the best price of the other side.
    pub open spec fn best_queue(self) -> Seq<Order> {
        self.market.side(self.taker.side.other())[self.best_price()->0].orders
    }

    /// Whether something of the incoming order is left, and the order at the
    /// front of the best level of the other side will trade with it.
    pub open spec fn ready(self) -> bool {
        &&& self.taker.remaining_quantity > 0
        &&& self.best_price() is Some
        &&& self.taker.side.accepts(self.taker.price, self.best_price()->0)
        &&& self.best_queue().len() > 0
        &&& self.best_queue()[0].remaining_quantity > 0
    }

    /// One trade: between the incoming order and the one at the front of the
    /// best level, of as much as both have left.
    ///
    /// A resting order of which something is left keeps its place. A filled
    /// one leaves; if it was a slice of an iceberg order of which something is
    /// hidden, the next slice joins the same queue at its end.
    pub open spec fn step(self) -> Matching {
        let side = self.taker.side.other();
        let price = self.best_price()->0;
        let resting = self.best_queue()[0];
        let rest = self.best_queue().drop_first();
        let quantity = min_quantity(resting.remaining_quantity, self.taker.remaining_quantity);
        let met = resting.filled_by(quantity);
        let traded = Market { last_trade_price: Some(price), ..self.market };
        let taker = self.taker.filled_by(quantity);
        let id = resting.order_id;
        if met.remaining_quantity > 0 {
            Matching {
                market: traded.recording(
                    OrderEvent::OrderPartiallyFilled { id, filled: quantity },
                ).with_queue(side, price, seq![met] + rest),
                taker,
                ..self
            }
        } else {
            let filled = traded.recording(OrderEvent::OrderFullyFilled(id));
            if filled.icebergs.contains_key(id) && filled.icebergs[id].remaining > 0 {
                let iceberg = filled.icebergs[id];
                let slice = min_quantity(iceberg.visible_quantity, iceberg.remaining);
                let refill = Order::fresh(
                    id,
                    resting.side,
                    OrderType::Limit,
                    resting.price,
                    slice,
                    reading(self.clock),
                );
                Matching {
                    market: Market {
                        icebergs: filled.icebergs.insert(
                            id,
                            IcebergOrder { remaining: (iceberg.remaining - slice) as u64, ..iceberg },
                        ),
                        ..filled.recording(OrderEvent::IcebergRevealed(id, slice)).with_queue(
                            side,
                            price,
                            rest.push(refill),
                        )
                    },
                    taker,
                    clock: self.clock.drop_first(),
                }
            } else {
                Matching { market: filled.with_queue(side, price, rest), taker, ..self }
            }
        }
    }

    /// The incoming order trades as long as it can.
    pub open spec fn run(self) -> Matching
        decreases self.taker.remaining_quantity,
    {
        if self.ready() {
            self.step().run()
        } else {
            self
        }
    }

    /// How much of the incoming order has traded.
    pub open spec fn filled(self) -> Quantity {
        (self.taker.original_quantity - self.taker.remaining_quantity) as u64
    }

    /// What becomes of the incoming order once it has traded: what is left of
    /// a limit order rests, what is left of a market order is dropped.
    pub open spec fn settle(self) -> Matching {
        let id = self.taker.order_id;
        if self.taker.remaining_quantity > 0 {
            let told = if self.filled() > 0 {
                self.market.recording(
                    OrderEvent::OrderPartiallyFilled { id, filled: self.filled() },
                )
            } else {
                self.market
            };
            Matching {
                market: if self.taker.order_type == OrderType::Limit {
                    told.with_resting(self.taker)
                } else {
                    told
                },
                ..self
            }
        } else {
            Matching { market: self.market.recording(OrderEvent::OrderFullyFilled(id)), ..self }
        }
    }
}

impl Market {
    /// An order comes in.
    pub open spec fn matched(self, order: Order, clock: Seq<u64>) -> Matching {
        Matching { market: self, taker: order, clock }.run().settle()
    }

    /// Whether what is left of `order` in the end will be no more than the
    /// quantity it was created with, whatever the clock reads.
    pub open spec fn accounts_for(self, order: Order) -> bool {
        ||| order.remaining_quantity <= order.original_quantity
        ||| forall|clock: Seq<u64>|
            (#[trigger] self.matched(order, clock)).taker.remaining_quantity
                <= order.original_quantity
    }
}

/// The market order that a stop order turns into, at a given moment.
pub open spec fn market_order_of(stop: StopOrder, timestamp: u64) -> Order {
    Order::fresh(
        stop.id,
        stop.side,
        OrderType::Market,
        match stop.side {
            Side::Bid => u64::MAX,
            Side::Ask => 0,
        },
        stop.quantity,
        timestamp,
    )
}

/// A market with the stop orders that wait in it, as time goes by.
#[verifier::ext_equal]
pub struct Floor {
    pub market: Market,
    pub stops: Seq<StopOrder>,
    pub clock: Seq<u64>,
}

/// Those of the stop orders that a trade at `price` sets off.
pub open spec fn set_off(stops: Seq<StopOrder>, price: Price) -> Seq<StopOrder> {
    stops.filter(|stop: StopOrder| stop.goes_off_at(price))
}

/// Those of the stop orders that wait on after a trade at `price`.
pub open spec fn still_waiting(stops: Seq<StopOrder>, price: Price) -> Seq<StopOrder> {
    stops.filter(|stop: StopOrder| !stop.goes_off_at(price))
}

impl Floor {
    /// A stop order is set off and trades as a market order.
    pub open spec fn fire(self, stop: StopOrder) -> Floor {
        let told = self.market.recording(OrderEvent::StopTriggered(stop.id));
        let after = told.matched(
            market_order_of(stop, reading(self.clock)),
            self.clock.drop_first(),
        );
        Floor { market: after.market, clock: after.clock, ..self }
    }

    /// Stop orders are set off one after the other.
    pub open spec fn fire_all(self, stops: Seq<StopOrder>) -> Floor
        decreases stops.len(),
    {
        if stops.len() == 0 {
            self
        } else {
            self.fire(stops[0]).fire_all(stops.drop_first())
        }
    }

    /// All stop orders that the last trade price sets off are set off, in the
    /// order in which they came; then those that the last trade price sets off
    /// now; and so on.
    pub open spec fn check_stops(self) -> Floor
        decreases self.stops.len(),
    {
        match self.market.last_trade_price {
            Some(price) => {
                let hit = set_off(self.stops, price);
                let rest = still_waiting(self.stops, price);
                if hit.len() > 0 {
                    proof {
                        lemma_stops_part(self.stops, price);
                        lemma_fire_all_keeps_stops(Floor { stops: rest, ..self }, hit);
                    }
                    Floor { stops: rest, ..self }.fire_all(hit).check_stops()
                } else {
                    self
                }
            },
            None => self,
        }
    }
}

/// Each stop order is either set off or waits on.
pub proof fn lemma_stops_part(stops: Seq<StopOrder>, price: Price)
    ensures
        set_off(stops, price).len() + still_waiting(stops, price).len() == stops.len(),
    decreases stops.len(),
{
    reveal(Seq::filter);
    if stops.len() > 0 {
        lemma_stops_part(stops.drop_last(), price);
    }
}

/// Where no stop order is set off, all of them wait on.
pub proof fn lemma_none_set_off(stops: Seq<StopOrder>, price: Price)
    requires
        set_off(stops, price).len() == 0,
    ensures
        still_waiting(stops, price) == stops,
    decreases stops.len(),
{
    reveal(Seq::filter);
    if stops.len() > 0 {
        lemma_none_set_off(stops.drop_last(), price);
        assert(stops.drop_last().push(stops.last()) =~= stops);
    }
}

/// Setting stop orders off leaves the waiting ones alone.
pub proof fn lemma_fire_all_keeps_stops(floor: Floor, stops: Seq<StopOrder>)
    ensures
        floor.fire_all(stops).stops == floor.stops,
    decreases stops.len(),
{
    if stops.len() > 0 {
        lemma_fire_all_keeps_stops(floor.fire(stops[0]), stops.drop_first());
    }
}

/// The state of a book.
#[verifier::ext_equal]
pub struct Book {
    pub market: Market,
    /// The stop orders that wait, in the order in which they came.
    pub stops: Seq<StopOrder>,
    /// The id that the next order gets.
    pub next_order_id: OrderId,
}

impl Book {
    /// The book before the first order.
    pub open spec fn empty() -> Book {
        Book {
            market: Market {
                bids: Map::empty(),
                asks: Map::empty(),
                events: Seq::empty(),
                icebergs: Map::empty(),
                last_trade_price: None,
            },
            stops: Seq::empty(),
            next_order_id: 1,
        }
    }

    /// The book that has handed out one more order id.
    pub open spec fn numbered(self) -> Book {
        Book { next_order_id: (self.next_order_id + 1) as u64, ..self }
    }

    /// How a numbered order fares when it comes in.
    pub open spec fn arrival(self, order: Order, clock: Seq<u64>) -> Matching {
        self.market.recording(OrderEvent::OrderPlaced(order)).matched(order, clock)
    }

    /// The market after a numbered order came in, with the stop orders of which
    /// some may have to be set off.
    pub open spec fn floor_after(self, order: Order, clock: Seq<u64>) -> Floor {
        let matching = self.arrival(order, clock);
        Floor { market: matching.market, stops: self.stops, clock: matching.clock }
    }

    /// The book after a numbered order came in: the order trades, and stop
    /// orders that this sets off trade too.
    pub open spec fn after_arrival(self, order: Order, clock: Seq<u64>) -> Book {
        let floor = self.floor_after(order, clock).check_stops();
        Book { market: floor.market, stops: floor.stops, ..self }
    }

    /// A submitted order under the id that the book gives it.
    pub open spec fn adopt(self, order: Order) -> Order {
        Order { order_id: self.next_order_id, ..order }
    }

    /// Whether what is left of a limit order in the end will be no more than
    /// the quantity it was created with. It is so for every order of which no
    /// more remains than it was created with.
    pub open spec fn accounts_for(self, order: Order) -> bool {
        ||| order.remaining_quantity <= order.original_quantity
        ||| forall|clock: Seq<u64>|
            #[trigger] self.left_of_limit(order, clock) <= order.original_quantity
    }

    /// The book after a limit order.
    pub open spec fn after_limit(self, order: Order, clock: Seq<u64>) -> Book {
        self.numbered().after_arrival(self.adopt(order), clock)
    }

    /// What is left of a limit order.
    pub open spec fn left_of_limit(self, order: Order, clock: Seq<u64>) -> Quantity {
        self.arrival(self.adopt(order), clock).taker.remaining_quantity
    }

    /// The first slice of an iceberg order.
    pub open spec fn first_slice(self, iceberg: IcebergOrder, timestamp: u64) -> Order {
        Order::fresh(
            self.next_order_id,
            iceberg.side,
            OrderType::Limit,
            iceberg.price,
            min_quantity(iceberg.visible_quantity, iceberg.remaining),
            timestamp,
        )
    }

    /// The book that knows an iceberg order, the first slice of which is about
    /// to come in.
    pub open spec fn hiding(self, iceberg: IcebergOrder) -> Book {
        let slice = min_quantity(iceberg.visible_quantity, iceberg.remaining);
        Book {
            market: Market {
                icebergs: self.market.icebergs.insert(
                    self.next_order_id,
                    IcebergOrder {
                        id: self.next_order_id,
                        remaining: (iceberg.remaining - slice) as u64,
                        ..iceberg
                    },
                ),
                ..self.market
            },
            ..self
        }
    }

    /// The book after an iceberg order.
    pub open spec fn after_iceberg(self, iceberg: IcebergOrder, clock: Seq<u64>) -> Book {
        self.hiding(iceberg).numbered().after_arrival(
            self.first_slice(iceberg, reading(clock)),
            clock.drop_first(),
        )
    }

    /// What is left of the first slice of an iceberg order.
    pub open spec fn left_of_iceberg(self, iceberg: IcebergOrder, clock: Seq<u64>) -> Quantity {
        self.hiding(iceberg).arrival(
            self.first_slice(iceberg, reading(clock)),
            clock.drop_first(),
        ).taker.remaining_quantity
    }

    /// The book after a stop order.
    pub open spec fn after_stop(self, stop: StopOrder) -> Book {
        Book {
            stops: self.stops.push(StopOrder { id: self.next_order_id, ..stop }),
            ..self.numbered()
        }
    }
}

} // verus!
