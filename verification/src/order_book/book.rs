//! The event-recording book itself.

use super::laws::law_ids_are_new;
use super::model::{
    lemma_none_set_off, lemma_stops_part, market_order_of, reading, set_off, still_waiting, Book,
    Floor, Market, Matching,
};
use super::promises::{law_caller_is_told_what_is_left, lemma_none_due_after, none_due};
use super::soundness::{
    lemma_best_is_one, lemma_matched_keeps_well_formed, lemma_recording_keeps_well_formed,
    lemma_run_keeps_sound, lemma_same_levels_keep_well_formed,
    lemma_step_keeps_sound, lemma_stops_stay_numbered, numbered_below,
};
use crate::book_side::BookSide;
use crate::event::{EventStore, OrderEvent};
use crate::iceberg::IcebergOrder;
use crate::ladder::{best, is_best, lemma_best_is};
use crate::order::{Order, OrderId, OrderType, Price, Quantity, Side};
use crate::price_level::PriceLevel;
use crate::stop_order::StopOrder;
use std::collections::HashMap;
use vstd::prelude::*;

verus! {

/// A book of limit, iceberg and stop orders with price-time priority.
pub struct OrderBook {
    bids: BookSide,
    asks: BookSide,
    next_order_id: OrderId,
    /// What happened so far.
    pub event_store: EventStore,
    iceberg_meta: HashMap<OrderId, IcebergOrder>,
    stop_orders: Vec<StopOrder>,
    last_trade_price: Option<Price>,
}

impl View for OrderBook {
    type V = Book;

    closed spec fn view(&self) -> Book {
        Book {
            market: Market {
                bids: self.bids@,
                asks: self.asks@,
                events: self.event_store@,
                icebergs: self.iceberg_meta@,
                last_trade_price: self.last_trade_price,
            },
            stops: self.stop_orders@,
            next_order_id: self.next_order_id,
        }
    }
}

/// Whether `then` follows `start` after the readings `readings` of the clock,
/// whatever the clock reads later.
spec fn follows(start: Matching, then: Matching, readings: Seq<u64>) -> bool {
    forall|later: Seq<u64>|
        (Matching { clock: #[trigger] (readings + later), ..start }).run() == (Matching {
            clock: later,
            ..then
        }).run()
}

/// The same, if one more trade leads on to `next`, for which the clock is read
/// as often as `ticks` says.
proof fn lemma_follows_on(
    start: Matching,
    then: Matching,
    next: Matching,
    readings: Seq<u64>,
    ticks: Seq<u64>,
)
    requires
        follows(start, then, readings),
        then.ready(),
        forall|later: Seq<u64>|
            (Matching { clock: #[trigger] (ticks + later), ..then }).step() == (Matching {
                clock: later,
                ..next
            }),
    ensures
        follows(start, next, readings + ticks),
{
    assert forall|later: Seq<u64>|
        (Matching { clock: #[trigger] ((readings + ticks) + later), ..start }).run() == (Matching {
            clock: later,
            ..next
        }).run() by {
        assert((readings + ticks) + later =~= readings + (ticks + later));
        let here = Matching { clock: ticks + later, ..then };
        assert(here.ready());
        assert(here.run() == here.step().run());
    }
}

impl OrderBook {
    /// An empty book.
    pub fn new() -> (book: Self)
        ensures
            book@ == Book::empty(),
            book@.well_formed(),
    {
        let book = Self {
            bids: BookSide::new(),
            asks: BookSide::new(),
            next_order_id: 1,
            event_store: EventStore::new(),
            iceberg_meta: HashMap::new(),
            stop_orders: Vec::new(),
            last_trade_price: None,
        };
        assert(book@ =~= Book::empty());
        book
    }

    /// What happened so far.
    pub fn events(&self) -> (store: &EventStore)
        ensures
            store@ == self@.market.events,
    {
        &self.event_store
    }

    /// Whether there is an id left for another order.
    pub fn has_ids_left(&self) -> (r: bool)
        ensures
            r == (self@.next_order_id < u64::MAX),
    {
        self.next_order_id < u64::MAX
    }

    /// Hands out the next order id.
    fn assign_id(&mut self) -> (id: OrderId)
        requires
            old(self)@.next_order_id < u64::MAX,
        ensures
            id == old(self)@.next_order_id,
            final(self)@ == old(self)@.numbered(),
    {
        let id: u64 = self.next_order_id;
        self.next_order_id = id + 1;
        id
    }

    /// Lets the incoming order trade with the orders of one level.
    ///
    /// The level stands at `price`, the best price of the side that the order
    /// trades with, and was taken off that side.
    fn trade_at(
        &mut self,
        order: &mut Order,
        level: &mut PriceLevel,
        price: Price,
        Ghost(start): Ghost<Matching>,
        Ghost(now): Ghost<Matching>,
        Ghost(readings): Ghost<Seq<u64>>,
    ) -> (r: (Ghost<Matching>, Ghost<Seq<u64>>))
        requires
            follows(start, now, readings),
            now.market.sound(old(self)@.next_order_id),
            now.taker == *old(order),
            now.ready(),
            now.best_price() == Some(price),
            old(level)@ == now.market.side(now.taker.side.other())[price],
            old(self)@.market == now.market.with_side(
                now.taker.side.other(),
                now.market.side(now.taker.side.other()).remove(price),
            ),
        ensures
            ({
                let (Ghost(then), Ghost(read)) = r;
                let side = now.taker.side.other();
                &&& follows(start, then, read)
                &&& then.market.sound(old(self)@.next_order_id)
                &&& then.taker == *final(order)
                &&& then.taker.side == now.taker.side
                &&& then.taker.remaining_quantity < now.taker.remaining_quantity
                &&& final(self)@.market == then.market.with_side(
                    side,
                    then.market.side(side).remove(price),
                )
                &&& final(level)@.orders.len() > 0 <==> then.market.side(side).contains_key(price)
                &&& final(level)@.orders.len() > 0 ==> then.market.side(side)[price]
                    == final(level)@
            }),
            final(self)@.stops == old(self)@.stops,
            final(self)@.next_order_id == old(self)@.next_order_id,
    {
        let ghost side = now.taker.side.other();
        let ghost others = now.market.side(side).dom().remove(price);
        let ghost mut then = now;
        let ghost mut read = readings;
        proof {
            lemma_best_is_one(now.market.side(side).dom(), side);
            assert(others.insert(price) =~= now.market.side(side).dom());
        }
        while order.get_remaining_quantity() > 0 && !level.is_empty()
            invariant
                follows(start, then, read),
                then.market.sound(old(self)@.next_order_id),
                then.taker == *order,
                side == now.taker.side.other(),
                then.taker.side == now.taker.side,
                then.taker.price == now.taker.price,
                now.taker.side.accepts(now.taker.price, price),
                is_best(others.insert(price), side, price),
                !others.contains(price),
                level@.orders.len() > 0 ==> then.market.side(side).dom() == others.insert(price),
                level@.orders.len() > 0 ==> then.market.side(side)[price] == level@,
                level@.orders.len() == 0 ==> !then.market.side(side).contains_key(price),
                self@.market == then.market.with_side(side, then.market.side(side).remove(price)),
                self@.stops == old(self)@.stops,
                self@.next_order_id == old(self)@.next_order_id,
                then.taker.remaining_quantity < now.taker.remaining_quantity || then == now,
                now.ready(),
                now.best_queue().len() > 0,
                then == now ==> level@.orders.len() > 0,
            decreases then.taker.remaining_quantity,
        {
            let ghost next_id = self@.next_order_id;
            proof {
                lemma_best_is(then.market.side(side).dom(), side, price);
                assert(then.market.side(side).contains_key(price));
                assert(then.market.level_fits(level@, side, price, next_id));
                assert(then.market.order_fits(level@.orders[0], side, price, next_id));
                assert(then.best_queue() == level@.orders);
                assert(then.ready());
                lemma_step_keeps_sound(then, next_id);
            }
            let ghost queue = level@.orders;
            let ghost mut ticks: Seq<u64> = Seq::empty();
            if let Some(mut resting) = level.pop_front() {
                let resting_remaining: u64 = resting.get_remaining_quantity();
                let taker_remaining: u64 = order.get_remaining_quantity();
                let traded: u64 = if resting_remaining <= taker_remaining {
                    resting_remaining
                } else {
                    taker_remaining
                };
                let resting_filled: u64 = resting.fill(traded);
                let _taker_filled: u64 = order.fill(resting_filled);
                self.last_trade_price = Some(price);
                if resting.get_remaining_quantity() > 0 {
                    self.event_store.append(
                        OrderEvent::OrderPartiallyFilled {
                            id: resting.order_id,
                            filled: resting_filled,
                        },
                    );
                    level.orders.push_front(resting);
                } else {
                    self.event_store.append(OrderEvent::OrderFullyFilled(resting.order_id));
                    let meta: Option<IcebergOrder> = match self.iceberg_meta.get(
                        &resting.order_id,
                    ) {
                        Some(meta) => Some(*meta),
                        None => None,
                    };
                    if let Some(mut meta) = meta {
                        if meta.remaining > 0 {
                            let new_visible: u64 = if meta.visible_quantity <= meta.remaining {
                                meta.visible_quantity
                            } else {
                                meta.remaining
                            };
                            meta.remaining = meta.remaining - new_visible;
                            self.iceberg_meta.insert(resting.order_id, meta);
                            let refill = Order::new(
                                resting.order_id,
                                resting.side,
                                OrderType::Limit,
                                resting.price,
                                new_visible,
                            );
                            proof {
                                ticks = seq![refill.timestamp];
                            }
                            level.orders.push_back(refill);
                            self.event_store.append(
                                OrderEvent::IcebergRevealed(resting.order_id, new_visible),
                            );
                        }
                    }
                }
            }
            proof {
                let next = Matching {
                    market: self@.market.with_side(
                        side,
                        if level@.orders.len() == 0 {
                            self@.market.side(side)
                        } else {
                            self@.market.side(side).insert(price, level@)
                        },
                    ),
                    taker: *order,
                    clock: then.clock,
                };
                assert forall|later: Seq<u64>|
                    (Matching { clock: #[trigger] (ticks + later), ..then }).step() == (Matching {
                        clock: later,
                        ..next
                    }) by {
                    let stepped = (Matching { clock: ticks + later, ..then }).step();
                    assert((ticks + later).drop_first() =~= later || ticks.len() == 0);
                    assert(ticks.len() == 0 ==> ticks + later =~= later);
                    assert(stepped.market.bids =~= next.market.bids);
                    assert(stepped.market.asks =~= next.market.asks);
                    assert(stepped.market.icebergs =~= next.market.icebergs);
                    assert(stepped.market.events =~= next.market.events);
                    assert(stepped.market =~= next.market);
                    assert(stepped.clock =~= later);
                }
                lemma_follows_on(start, then, next, read, ticks);
                lemma_step_keeps_sound(then, next_id);
                let erased = (Matching { clock: ticks + Seq::<u64>::empty(), ..then }).step();
                lemma_step_keeps_sound(
                    Matching { clock: ticks + Seq::<u64>::empty(), ..then },
                    next_id,
                );
                assert(erased.market == next.market);
                read = read + ticks;
                then = next;
                assert(self@.market =~= then.market.with_side(
                    side,
                    then.market.side(side).remove(price),
                ));
            }
        }
        (Ghost(then), Ghost(read))
    }

    /// The best price of one side.
    fn best_price(&self, side: Side) -> (r: Option<Price>)
        ensures
            r == best(self@.market.side(side).dom(), side),
    {
        match side {
            Side::Bid => self.bids.best_price(side),
            Side::Ask => self.asks.best_price(side),
        }
    }

    /// Takes the level at `price` off one side.
    fn take_level(&mut self, side: Side, price: Price) -> (level: Option<PriceLevel>)
        ensures
            final(self)@.market == old(self)@.market.with_side(
                side,
                old(self)@.market.side(side).remove(price),
            ),
            final(self)@.stops == old(self)@.stops,
            final(self)@.next_order_id == old(self)@.next_order_id,
            match level {
                Some(level) => {
                    &&& old(self)@.market.side(side).contains_key(price)
                    &&& level@ == old(self)@.market.side(side)[price]
                },
                None => !old(self)@.market.side(side).contains_key(price),
            },
    {
        match side {
            Side::Bid => self.bids.take_level(price),
            Side::Ask => self.asks.take_level(price),
        }
    }

    /// Puts a level back at `price` on one side, unless nothing rests on it.
    fn put_back_level(&mut self, side: Side, price: Price, level: PriceLevel)
        requires
            !old(self)@.market.side(side).contains_key(price),
        ensures
            final(self)@.market == if level@.orders.len() == 0 {
                old(self)@.market
            } else {
                old(self)@.market.with_side(
                    side,
                    old(self)@.market.side(side).insert(price, level@),
                )
            },
            final(self)@.stops == old(self)@.stops,
            final(self)@.next_order_id == old(self)@.next_order_id,
    {
        match side {
            Side::Bid => {
                self.bids.put_level(price, level);
                self.bids.remove_level_if_empty(price);
            },
            Side::Ask => {
                self.asks.put_level(price, level);
                self.asks.remove_level_if_empty(price);
            },
        }
        proof {
            let before = old(self)@.market.side(side);
            assert(before.insert(price, level@).remove(price) =~= before);
            assert(old(self)@.market.with_side(side, before) =~= old(self)@.market);
        }
    }

    /// Lets an order come in, and returns what is left of it and how the clock
    /// read meanwhile.
    fn match_order(&mut self, order: Order) -> (r: (Quantity, Ghost<Seq<u64>>))
        requires
            old(self)@.market.well_formed(old(self)@.next_order_id),
            old(self)@.market.accounts_for(order),
            order.order_id < old(self)@.next_order_id,
            order.order_type == OrderType::Limit ==> !old(self)@.market.rests(order.order_id),
            order.order_type == OrderType::Limit && old(self)@.market.icebergs.contains_key(
                order.order_id,
            ) ==> order.remaining_quantity
                <= old(self)@.market.icebergs[order.order_id].visible_quantity,
        ensures
            forall|later: Seq<u64>|
                {
                    let after = #[trigger] old(self)@.market.matched(order, r.1@ + later);
                    &&& after.market == final(self)@.market
                    &&& after.clock == later
                    &&& after.taker.remaining_quantity == r.0
                },
            final(self)@.market.well_formed(old(self)@.next_order_id),
            final(self)@.stops == old(self)@.stops,
            final(self)@.next_order_id == old(self)@.next_order_id,
    {
        let mut order = order;
        let opposite = order.side.opposite();
        let initial_quantity: u64 = order.original_quantity;
        let ghost begun = order;
        let ghost start = Matching { market: self@.market, taker: order, clock: Seq::empty() };
        let ghost mut now = start;
        let ghost mut readings: Seq<u64> = Seq::empty();
        proof {
            assert forall|later: Seq<u64>|
                (Matching { clock: #[trigger] (readings + later), ..start }).run() == (Matching {
                    clock: later,
                    ..now
                }).run() by {
                assert(readings + later =~= later);
            }
            lemma_run_keeps_sound(start, self@.next_order_id);
        }
        loop
            invariant
                follows(start, now, readings),
                now.market.sound(old(self)@.next_order_id),
                now.taker == order,
                now.taker.side == begun.side,
                opposite == begun.side.other(),
                self@.market == now.market,
                self@.stops == old(self)@.stops,
                self@.next_order_id == old(self)@.next_order_id,
            ensures
                !now.ready(),
            decreases now.taker.remaining_quantity,
        {
            if order.get_remaining_quantity() == 0 {
                break;
            }
            let best_price: Price = match self.best_price(opposite) {
                Some(price) => price,
                None => break,
            };
            if !order.side.reaches(order.price, best_price) {
                break;
            }
            proof {
                lemma_best_is_one(now.market.side(opposite).dom(), opposite);
                assert(now.market.side(opposite).contains_key(best_price));
                let level = now.market.side(opposite)[best_price];
                assert(now.market.level_fits(level, opposite, best_price, self@.next_order_id));
                assert(now.market.order_fits(
                    level.orders[0],
                    opposite,
                    best_price,
                    self@.next_order_id,
                ));
            }
            if let Some(mut level) = self.take_level(opposite, best_price) {
                let (then, read) = self.trade_at(
                    &mut order,
                    &mut level,
                    best_price,
                    Ghost(start),
                    Ghost(now),
                    Ghost(readings),
                );
                self.put_back_level(opposite, best_price, level);
                proof {
                    now = then@;
                    readings = read@;
                    assert(self@.market =~= now.market) by {
                        let levels = now.market.side(opposite);
                        if level@.orders.len() == 0 {
                            assert(levels.remove(best_price) =~= levels);
                        } else {
                            assert(levels.remove(best_price).insert(best_price, level@) =~= levels);
                        }
                    }
                }
            }
        }
        let taker_remaining: u64 = order.get_remaining_quantity();
        proof {
            assert forall|later: Seq<u64>| old(self)@.market.matched(
                begun,
                #[trigger] (readings + later),
            ) == (Matching { clock: later, ..now }).settle() by {
                assert((Matching { clock: later, ..now }).run() == (Matching {
                    clock: later,
                    ..now
                }));
            }
            let none = Seq::<u64>::empty();
            lemma_matched_keeps_well_formed(
                old(self)@.market,
                begun,
                readings + none,
                old(self)@.next_order_id,
            );
            lemma_run_keeps_sound(
                Matching { clock: readings + none, ..start },
                old(self)@.next_order_id,
            );
            assert(old(self)@.market.matched(begun, readings + none).taker.remaining_quantity
                == taker_remaining);
        }
        let filled: u64 = initial_quantity - taker_remaining;
        if taker_remaining > 0 {
            if filled > 0 {
                self.event_store.append(
                    OrderEvent::OrderPartiallyFilled { id: order.order_id, filled },
                );
            }
            if order.order_type == OrderType::Limit {
                match order.side {
                    Side::Bid => self.bids.insert(order),
                    Side::Ask => self.asks.insert(order),
                }
            }
        } else {
            self.event_store.append(OrderEvent::OrderFullyFilled(order.order_id));
        }
        proof {
            assert forall|later: Seq<u64>|
                {
                    let after = #[trigger] old(self)@.market.matched(begun, readings + later);
                    &&& after.market == self@.market
                    &&& after.clock == later
                    &&& after.taker.remaining_quantity == taker_remaining
                } by {
                let after = old(self)@.market.matched(begun, readings + later);
                assert(after == (Matching { clock: later, ..now }).settle());
                assert(after.market =~= self@.market);
            }
        }
        (taker_remaining, Ghost(readings))
    }

    /// Takes those stop orders out that a trade at `price` sets off.
    fn take_triggered(&mut self, price: Price) -> (triggered: Vec<StopOrder>)
        ensures
            triggered@ == set_off(old(self)@.stops, price),
            final(self)@ == (Book { stops: still_waiting(old(self)@.stops, price), ..old(self)@ }),
    {
        let mut triggered: Vec<StopOrder> = Vec::new();
        let mut waiting: Vec<StopOrder> = Vec::new();
        let mut i: usize = 0;
        let ghost stops = self.stop_orders@;
        proof {
            reveal(Seq::filter);
        }
        while i < self.stop_orders.len()
            invariant
                i <= stops.len(),
                *self == *old(self),
                stops == self.stop_orders@,
                triggered@ == set_off(stops.take(i as int), price),
                waiting@ == still_waiting(stops.take(i as int), price),
            decreases stops.len() - i,
        {
            let stop: StopOrder = self.stop_orders[i];
            proof {
                reveal(Seq::filter);
                assert(stops.take(i + 1).drop_last() =~= stops.take(i as int));
                assert(stops.take(i + 1).last() == stop);
            }
            if stop.is_triggered_by(price) {
                triggered.push(stop);
            } else {
                waiting.push(stop);
            }
            i += 1;
        }
        assert(stops.take(i as int) =~= stops);
        self.stop_orders = waiting;
        triggered
    }

    /// Sets off a stop order that was taken out, and returns how the clock
    /// read meanwhile.
    fn fire(&mut self, stop: StopOrder) -> (readings: Ghost<Seq<u64>>)
        requires
            old(self)@.well_formed(),
            stop.id < old(self)@.next_order_id,
        ensures
            forall|later: Seq<u64>|
                (Floor {
                    market: old(self)@.market,
                    stops: old(self)@.stops,
                    clock: #[trigger] (readings@ + later),
                }).fire(stop) == (Floor {
                    market: final(self)@.market,
                    stops: final(self)@.stops,
                    clock: later,
                }),
            final(self)@.well_formed(),
            final(self)@.stops == old(self)@.stops,
            final(self)@.next_order_id == old(self)@.next_order_id,
    {
        proof {
            lemma_recording_keeps_well_formed(
                self@.market,
                OrderEvent::StopTriggered(stop.id),
                self@.next_order_id,
            );
        }
        self.event_store.append(OrderEvent::StopTriggered(stop.id));
        let ghost told = old(self)@.market.recording(OrderEvent::StopTriggered(stop.id));
        assert(self@.market =~= told);
        let order = Order::new(
            stop.id,
            stop.side,
            OrderType::Market,
            match stop.side {
                Side::Bid => Price::MAX,
                Side::Ask => 0,
            },
            stop.quantity,
        );
        let (_left, readings) = self.match_order(order);
        let ghost all = seq![order.timestamp] + readings@;
        proof {
            assert forall|later: Seq<u64>|
                (Floor {
                    market: old(self)@.market,
                    stops: old(self)@.stops,
                    clock: #[trigger] (all + later),
                }).fire(stop) == (Floor {
                    market: self@.market,
                    stops: self@.stops,
                    clock: later,
                }) by {
                assert((all + later).drop_first() =~= readings@ + later);
                assert(order == market_order_of(stop, reading(all + later)));
                let after = told.matched(order, readings@ + later);
                assert(after.market == self@.market);
            }
        }
        Ghost(all)
    }

    /// Sets off the stop orders that the last trade price sets off, until
    /// there are none, and returns how the clock read meanwhile.
    fn check_stop_orders(&mut self) -> (r: Ghost<Seq<u64>>)
        requires
            old(self)@.well_formed(),
        ensures
            forall|later: Seq<u64>|
                (Floor {
                    market: old(self)@.market,
                    stops: old(self)@.stops,
                    clock: #[trigger] (r@ + later),
                }).check_stops() == (Floor {
                    market: final(self)@.market,
                    stops: final(self)@.stops,
                    clock: later,
                }),
            final(self)@.well_formed(),
            final(self)@.next_order_id == old(self)@.next_order_id,
    {
        let ghost start = Floor {
            market: self@.market,
            stops: self@.stops,
            clock: Seq::empty(),
        };
        let ghost next_id = self@.next_order_id;
        let ghost mut readings: Seq<u64> = Seq::empty();
        proof {
            assert forall|later: Seq<u64>|
                (Floor { clock: #[trigger] (readings + later), ..start }).check_stops() == (Floor {
                    market: self@.market,
                    stops: self@.stops,
                    clock: later,
                }).check_stops() by {
                assert(readings + later =~= later);
            }
        }
        loop
            invariant
                self@.well_formed(),
                self@.next_order_id == next_id,
                next_id == old(self)@.next_order_id,
                start.market == old(self)@.market,
                start.stops == old(self)@.stops,
                forall|later: Seq<u64>|
                    (Floor { clock: #[trigger] (readings + later), ..start }).check_stops() == (
                    Floor {
                        market: self@.market,
                        stops: self@.stops,
                        clock: later,
                    }).check_stops(),
            decreases self@.stops.len(),
        {
            let price: Price = match self.last_trade_price {
                Some(price) => price,
                None => {
                    return Ghost(readings);
                },
            };
            let ghost before = self@;
            let triggered = self.take_triggered(price);
            proof {
                lemma_stops_part(before.stops, price);
                lemma_stops_stay_numbered(before.stops, price, next_id);
            }
            if triggered.len() == 0 {
                proof {
                    lemma_none_set_off(before.stops, price);
                    assert(self@ =~= before);
                }
                return Ghost(readings);
            }
            let ghost rest = self@.stops;
            let ghost hit = triggered@;
            let ghost floor = Floor {
                market: before.market,
                stops: rest,
                clock: Seq::empty(),
            };
            let mut i: usize = 0;
            let ghost mut read: Seq<u64> = Seq::empty();
            proof {
                assert forall|later: Seq<u64>|
                    (Floor { clock: #[trigger] (read + later), ..floor }).fire_all(hit) == (Floor {
                        market: self@.market,
                        stops: self@.stops,
                        clock: later,
                    }).fire_all(hit.skip(0)) by {
                    assert(read + later =~= later);
                    assert(hit.skip(0) =~= hit);
                }
            }
            while i < triggered.len()
                invariant
                    i <= hit.len(),
                    hit == triggered@,
                    self@.well_formed(),
                    self@.next_order_id == next_id,
                    self@.stops == rest,
                    numbered_below(hit, next_id),
                    forall|later: Seq<u64>|
                        (Floor { clock: #[trigger] (read + later), ..floor }).fire_all(hit) == (
                        Floor {
                            market: self@.market,
                            stops: self@.stops,
                            clock: later,
                        }).fire_all(hit.skip(i as int)),
                decreases hit.len() - i,
            {
                let stop: StopOrder = triggered[i];
                let ghost here = self@;
                let ticks = self.fire(stop);
                proof {
                    assert(hit.skip(i as int).drop_first() =~= hit.skip(i + 1));
                    assert forall|later: Seq<u64>|
                        (Floor { clock: #[trigger] ((read + ticks@) + later), ..floor }).fire_all(
                            hit,
                        ) == (Floor {
                            market: self@.market,
                            stops: self@.stops,
                            clock: later,
                        }).fire_all(hit.skip(i + 1)) by {
                        assert((read + ticks@) + later =~= read + (ticks@ + later));
                        let now = Floor {
                            market: here.market,
                            stops: here.stops,
                            clock: ticks@ + later,
                        };
                        assert(now.fire_all(hit.skip(i as int)) == now.fire(stop).fire_all(
                            hit.skip(i + 1),
                        ));
                    }
                    read = read + ticks@;
                }
                i += 1;
            }
            proof {
                assert forall|later: Seq<u64>|
                    (Floor { clock: #[trigger] ((readings + read) + later), ..start }).check_stops()
                        == (Floor {
                        market: self@.market,
                        stops: self@.stops,
                        clock: later,
                    }).check_stops() by {
                    assert((readings + read) + later =~= readings + (read + later));
                    let now = Floor {
                        market: before.market,
                        stops: before.stops,
                        clock: read + later,
                    };
                    let gone = Floor { clock: read + later, ..floor };
                    assert(now.check_stops() == gone.fire_all(hit).check_stops());
                    assert(hit.skip(i as int) =~= Seq::empty());
                }
                readings = readings + read;
            }
        }
    }

    /// Lets a numbered order come in, then checks the stop orders. Returns
    /// what is left of the order and how the clock read meanwhile.
    fn enter(&mut self, order: Order) -> (r: (Quantity, Ghost<Seq<u64>>))
        requires
            old(self)@.well_formed(),
            old(self)@.market.recording(OrderEvent::OrderPlaced(order)).accounts_for(order),
            order.order_id < old(self)@.next_order_id,
            !old(self)@.market.rests(order.order_id),
            old(self)@.market.icebergs.contains_key(order.order_id) ==> order.remaining_quantity
                <= old(self)@.market.icebergs[order.order_id].visible_quantity,
        ensures
            final(self)@.well_formed(),
            final(self)@ == old(self)@.after_arrival(order, r.1@),
            r.0 == old(self)@.arrival(order, r.1@).taker.remaining_quantity,
    {
        let ghost told = old(self)@.market.recording(OrderEvent::OrderPlaced(order));
        proof {
            lemma_recording_keeps_well_formed(
                self@.market,
                OrderEvent::OrderPlaced(order),
                self@.next_order_id,
            );
        }
        self.event_store.append(OrderEvent::OrderPlaced(order));
        assert(self@.market =~= told);
        let (remaining, first) = self.match_order(order);
        let ghost matched = self@;
        let second = self.check_stop_orders();
        let ghost readings = first@ + second@;
        proof {
            let none = Seq::<u64>::empty();
            assert(readings =~= first@ + second@);
            assert(second@ + none =~= second@);
            let after = told.matched(order, first@ + second@);
            assert(after.market == matched.market);
            let floor = Floor {
                market: matched.market,
                stops: matched.stops,
                clock: second@ + none,
            };
            assert(floor.check_stops() == (Floor {
                market: self@.market,
                stops: self@.stops,
                clock: none,
            }));
            assert(self@ =~= old(self)@.after_arrival(order, readings));
        }
        (remaining, Ghost(readings))
    }

    /// Submits a limit order, and returns what is left of it.
    ///
    /// The order gets the next id of the book. It trades with what rests at
    /// its price or a better one, the best price first and first come, first
    /// served within a price. What is left of it rests in the book. Then the
    /// stop orders are set off that the last trade price sets off.
    pub fn submit_limit_order(&mut self, order: Order) -> (remaining: Quantity)
        requires
            old(self)@.well_formed(),
            old(self)@.next_order_id < u64::MAX,
            old(self)@.accounts_for(order),
        ensures
            final(self)@.well_formed(),
            exists|clock: Seq<u64>|
                {
                    &&& final(self)@ == #[trigger] old(self)@.after_limit(order, clock)
                    &&& remaining == old(self)@.left_of_limit(order, clock)
                },
            ({
                let offer = old(self)@.market.on_offer(order.side, order.price);
                &&& offer >= order.remaining_quantity ==> remaining == 0
                &&& offer < order.remaining_quantity ==> remaining + offer
                    == order.remaining_quantity
            }),
            none_due(final(self)@.stops, final(self)@.market.last_trade_price),
            final(self)@.next_order_id == old(self)@.next_order_id + 1,
    {
        let mut order = order;
        let ghost given = order;
        let ghost before = self@;
        order.order_id = self.assign_id();
        proof {
            law_ids_are_new(before);
            lemma_same_levels_keep_well_formed(
                before.market,
                before.market,
                before.next_order_id,
                self@.next_order_id,
            );
            assert(order == before.adopt(given));
            let told = before.market.recording(OrderEvent::OrderPlaced(order));
            if order.remaining_quantity > order.original_quantity {
                assert forall|clock: Seq<u64>|
                    (#[trigger] told.matched(order, clock)).taker.remaining_quantity
                        <= order.original_quantity by {
                    assert(before.left_of_limit(given, clock) <= given.original_quantity);
                }
            }
        }
        let (remaining, readings) = self.enter(order);
        proof {
            let none = IcebergOrder {
                id: 0,
                side: given.side,
                price: 0,
                total_quantity: 0,
                visible_quantity: 0,
                remaining: 0,
            };
            assert(self@ == before.after_limit(given, readings@));
            law_caller_is_told_what_is_left(before, given, none, readings@);
            lemma_none_due_after(before, given, none, readings@);
        }
        remaining
    }

    /// Submits an iceberg order, and returns what is left of its first slice.
    ///
    /// The order gets the next id of the book. A first slice, no larger than
    /// the visible quantity, comes in as a limit order; the rest stays hidden.
    pub fn submit_iceberg_order(&mut self, iceberg: IcebergOrder) -> (remaining: Quantity)
        requires
            old(self)@.well_formed(),
            old(self)@.next_order_id < u64::MAX,
        ensures
            final(self)@.well_formed(),
            exists|clock: Seq<u64>|
                {
                    &&& final(self)@ == #[trigger] old(self)@.after_iceberg(iceberg, clock)
                    &&& remaining == old(self)@.left_of_iceberg(iceberg, clock)
                },
            ({
                let offer = old(self)@.market.on_offer(iceberg.side, iceberg.price);
                let slice = if iceberg.visible_quantity < iceberg.remaining {
                    iceberg.visible_quantity
                } else {
                    iceberg.remaining
                };
                &&& offer >= slice ==> remaining == 0
                &&& offer < slice ==> remaining + offer == slice
            }),
            none_due(final(self)@.stops, final(self)@.market.last_trade_price),
            final(self)@.next_order_id == old(self)@.next_order_id + 1,
    {
        let mut iceberg = iceberg;
        let ghost given = iceberg;
        let ghost before = self@;
        let id: u64 = self.assign_id();
        iceberg.id = id;
        let visible: u64 = if iceberg.visible_quantity <= iceberg.remaining {
            iceberg.visible_quantity
        } else {
            iceberg.remaining
        };
        iceberg.remaining = iceberg.remaining - visible;
        self.iceberg_meta.insert(id, iceberg);
        assert(self@ =~= before.hiding(given).numbered());
        let order = Order::new(id, iceberg.side, OrderType::Limit, iceberg.price, visible);
        let ghost hiding = self@;
        proof {
            law_ids_are_new(before);
            lemma_same_levels_keep_well_formed(
                before.market,
                hiding.market,
                before.next_order_id,
                hiding.next_order_id,
            );
        }
        let (remaining, readings) = self.enter(order);
        proof {
            let clock = seq![order.timestamp] + readings@;
            assert(clock.drop_first() =~= readings@);
            assert(order == before.first_slice(given, reading(clock)));
            assert(self@ == before.after_iceberg(given, clock));
            assert(remaining == before.left_of_iceberg(given, clock));
            law_caller_is_told_what_is_left(before, order, given, clock);
            lemma_none_due_after(before, order, given, clock);
        }
        remaining
    }

    /// Adds a stop order, which gets the next id of the book. It waits until a
    /// later order finds the last trade price at its trigger or beyond.
    pub fn add_stop_order(&mut self, stop: StopOrder)
        requires
            old(self)@.well_formed(),
            old(self)@.next_order_id < u64::MAX,
        ensures
            final(self)@.well_formed(),
            final(self)@ == old(self)@.after_stop(stop),
    {
        let mut stop = stop;
        let ghost before = self@;
        stop.id = self.assign_id();
        self.stop_orders.push(stop);
        proof {
            lemma_same_levels_keep_well_formed(
                before.market,
                self@.market,
                before.next_order_id,
                self@.next_order_id,
            );
        }
    }
}

} // verus!
