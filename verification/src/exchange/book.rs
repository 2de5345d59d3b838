//! The exchange book itself.

use super::history::law_market_order_trades_all_it_can;
use super::index::{entries, forget, look_up, new_index, record, Entry};
use super::model::{Book, LevelSweep, SideSweep};
use super::promises::{
    law_cancel_in_numbers, law_limit_buy_in_numbers, law_limit_sell_in_numbers,
    law_tape_tells_the_trades,
};
use super::soundness::{
    lemma_limit_keeps_well_formed, lemma_market_keeps_well_formed,
    lemma_resting_order_has_a_place, lemma_withdraw_keeps_well_formed,
};
use super::tape::{bound, capacity_of, report, reports, tape, trade_stamp, Fill};
use crate::book_side::{queue_at, BookSide};
use crate::clock::{now_millis, now_nanos};
use crate::events::Trade;
use crate::ladder::{best, depth};
use crate::order::Order;
use crate::price_level::{lemma_place_is_one, PriceLevel};
use crate::tally::resting_quantity;
use crate::types::{OrderBookError, OrderId, OrderStatus, OrderType, Price, Quantity, Side};
use crossbeam_channel::Sender;
use dashmap::DashMap;
use vstd::prelude::*;

verus! {

/// A book of limit orders with price-time priority.
pub struct OrderBook {
    /// Orders to buy: the higher price is the better one.
    bids: BookSide,
    /// Orders to sell: the lower price is the better one.
    asks: BookSide,
    /// Where each order went, by its id.
    order_lookup: DashMap<OrderId, Entry>,
    /// The id that the next order gets.
    next_order_id: OrderId,
    /// Where trades are reported.
    trade_tx: Sender<Trade>,
}

impl View for OrderBook {
    type V = Book;

    closed spec fn view(&self) -> Book {
        Book {
            bids: self.bids@,
            asks: self.asks@,
            index: entries(self.order_lookup),
            next_order_id: self.next_order_id,
        }
    }
}

/// Lets `taker` trade with the orders of one level, first come, first served.
///
/// Trades bear the time stamp `stamp`; without one, each of them is stamped with
/// the time at which it takes place. `before` is what was on the tape when the
/// incoming order set out, `fills` what it has traded since.
fn sweep_level(
    level: &mut PriceLevel,
    order_lookup: &mut DashMap<OrderId, Entry>,
    trade_tx: &mut Sender<Trade>,
    taker: &mut Order,
    stamp: Option<u64>,
    Ghost(before): Ghost<Seq<Trade>>,
    Ghost(fills): Ghost<Seq<Fill>>,
)
    requires
        bound(*old(trade_tx)) is None,
        reports(before, tape(*old(trade_tx)), fills, stamp),
    ensures
        bound(*final(trade_tx)) is None,
        ({
            let swept = LevelSweep {
                level: old(level)@,
                index: entries(*old(order_lookup)),
                taker: *old(taker),
                fills,
            }.run();
            &&& final(level)@ == swept.level
            &&& entries(*final(order_lookup)) == swept.index
            &&& *final(taker) == swept.taker
            &&& reports(before, tape(*final(trade_tx)), swept.fills, stamp)
        }),
{
    let ghost begun = LevelSweep {
        level: level@,
        index: entries(*order_lookup),
        taker: *taker,
        fills,
    };
    let ghost mut now = begun;
    while taker.get_remaining_quantity() > 0 && !level.is_empty()
        invariant
            now.run() == begun.run(),
            level@ == now.level,
            entries(*order_lookup) == now.index,
            *taker == now.taker,
            bound(*trade_tx) is None,
            reports(before, tape(*trade_tx), now.fills, stamp),
        decreases now.level.orders.len(), now.taker.remaining_quantity,
    {
        if let Some(mut maker) = level.pop_front() {
            let ghost next = now.step();
            let maker_left: u64 = maker.get_remaining_quantity();
            if !maker.is_active() {
                level.total_quantity = level.total_quantity.wrapping_sub(maker_left);
            } else if maker_left > 0 {
                let taker_left: u64 = taker.get_remaining_quantity();
                let requested: u64 = if maker_left <= taker_left {
                    maker_left
                } else {
                    taker_left
                };
                let filled_maker: u64 = maker.fill(requested);
                level.total_quantity = level.total_quantity.wrapping_sub(filled_maker);
                record(
                    order_lookup,
                    maker.order_id,
                    (maker.side, maker.price, maker.get_status()),
                );
                let filled_taker: u64 = taker.fill(filled_maker);
                let fill = Fill {
                    taker_order_id: taker.order_id,
                    maker_order_id: maker.order_id,
                    price: level.price,
                    quantity: filled_taker,
                };
                let reading: u64 = match stamp {
                    Some(stamp) => stamp,
                    None => now_millis(),
                };
                let trade = fill.at(reading);
                let ghost sent = tape(*trade_tx);
                report(trade_tx, trade);
                proof {
                    let sends = tape(*trade_tx);
                    assert(sends.take(before.len() as int) =~= sent.take(before.len() as int));
                    assert forall|i: int| 0 <= i < next.fills.len() implies {
                        &&& (#[trigger] sends[before.len() + i]).fill() == next.fills[i]
                        &&& stamp is Some ==> sends[before.len() + i].timestamp == stamp->0
                    } by {
                        if i < now.fills.len() {
                            assert(sends[before.len() + i] == sent[before.len() + i]);
                        }
                    }
                }
                if maker.get_remaining_quantity() > 0 {
                    level.orders.push_front(maker);
                }
            }
            assert(level@ =~= next.level);
            proof {
                now = next;
            }
        }
    }
}

/// Lets `taker` trade with the levels of the other side that its limit
/// accepts, the best one first. Levels that it empties are removed. As to
/// `stamp`, see [`sweep_level`].
fn sweep_side(
    levels: &mut BookSide,
    order_lookup: &mut DashMap<OrderId, Entry>,
    trade_tx: &mut Sender<Trade>,
    taker: &mut Order,
    limit: Option<Price>,
    stamp: Option<u64>,
)
    requires
        bound(*old(trade_tx)) is None,
    ensures
        bound(*final(trade_tx)) is None,
        ({
            let swept = SideSweep {
                levels: old(levels)@,
                index: entries(*old(order_lookup)),
                taker: *old(taker),
                fills: Seq::empty(),
            }.run(limit);
            &&& final(levels)@ == swept.levels
            &&& entries(*final(order_lookup)) == swept.index
            &&& *final(taker) == swept.taker
            &&& reports(tape(*old(trade_tx)), tape(*final(trade_tx)), swept.fills, stamp)
        }),
{
    let side = taker.side.opposite();
    let candidate_prices = levels.reachable_prices(side, limit);
    let ghost before = tape(*trade_tx);
    let ghost begun = SideSweep {
        levels: levels@,
        index: entries(*order_lookup),
        taker: *taker,
        fills: Seq::empty(),
    };
    let ghost mut now = begun;
    let mut i: usize = 0;
    assert(candidate_prices@.skip(0) =~= candidate_prices@);
    assert(before.take(before.len() as int) =~= before);
    while i < candidate_prices.len() && taker.get_remaining_quantity() > 0
        invariant
            i <= candidate_prices@.len(),
            now.visit_all(candidate_prices@.skip(i as int)) == begun.visit_all(
                candidate_prices@,
            ),
            levels@ == now.levels,
            entries(*order_lookup) == now.index,
            *taker == now.taker,
            bound(*trade_tx) is None,
            reports(before, tape(*trade_tx), now.fills, stamp),
        decreases candidate_prices@.len() - i,
    {
        let level_price: Price = candidate_prices[i];
        let ghost next = now.visit(level_price);
        assert(candidate_prices@.skip(i as int).drop_first() =~= candidate_prices@.skip(i + 1));
        if let Some(mut level) = levels.take_level(level_price) {
            sweep_level(
                &mut level,
                order_lookup,
                trade_tx,
                taker,
                stamp,
                Ghost(before),
                Ghost(now.fills),
            );
            if !level.is_empty() {
                levels.put_level(level_price, level);
            }
        }
        assert(levels@ =~= next.levels);
        proof {
            now = next;
        }
        i += 1;
    }
}

/// What remains when `b` is taken from `a`, or nothing.
pub open spec fn gap(a: Price, b: Price) -> Price {
    if a > b {
        (a - b) as u64
    } else {
        0
    }
}

impl OrderBook {
    /// The trades that were reported on the channel of this book, oldest first.
    pub closed spec fn trades(self) -> Seq<Trade> {
        tape(self.trade_tx)
    }

    /// Whether the channel on which this book reports its trades has no bound,
    /// so that it never has to wait for room.
    pub closed spec fn unbounded(self) -> bool {
        bound(self.trade_tx) is None
    }

    /// What holds of a book at any time.
    pub open spec fn well_formed(self) -> bool {
        self@.well_formed() && self.unbounded()
    }

    /// An empty book that reports its trades to `trade_tx`, the channel of which
    /// has no bound. See [`OrderBook::try_new`] for any other one.
    pub fn new(trade_tx: Sender<Trade>) -> (book: Self)
        requires
            bound(trade_tx) is None,
        ensures
            book@ == Book::empty(),
            book.well_formed(),
            book.trades() == tape(trade_tx),
    {
        let book = Self {
            bids: BookSide::new(),
            asks: BookSide::new(),
            order_lookup: new_index(),
            next_order_id: 1,
            trade_tx,
        };
        assert(book@ =~= Book::empty());
        book
    }

    /// An empty book that reports its trades to `trade_tx`, unless the channel
    /// has a bound: a book does not wait for room on a channel.
    pub fn try_new(trade_tx: Sender<Trade>) -> (r: Option<Self>)
        ensures
            match r {
                Some(book) => {
                    &&& bound(trade_tx) is None
                    &&& book@ == Book::empty()
                    &&& book.well_formed()
                    &&& book.trades() == tape(trade_tx)
                },
                None => bound(trade_tx) is Some,
            },
    {
        if capacity_of(&trade_tx).is_some() {
            None
        } else {
            Some(OrderBook::new(trade_tx))
        }
    }

    /// Hands out the next order id.
    fn generate_order_id(&mut self) -> (order_id: OrderId)
        requires
            old(self)@.next_order_id < u64::MAX,
        ensures
            order_id == old(self)@.next_order_id,
            final(self)@ == old(self)@.numbered(),
            final(self).trades() == old(self).trades(),
            final(self).unbounded() == old(self).unbounded(),
    {
        let order_id: u64 = self.next_order_id;
        self.next_order_id = order_id + 1;
        order_id
    }

    /// The best bid price: the highest one.
    pub fn best_bid(&self) -> (r: Option<Price>)
        ensures
            r == best(self@.bids.dom(), Side::Bid),
            r is None <==> self@.bids.dom() == Set::<Price>::empty(),
            r matches Some(price) ==> self@.bids.contains_key(price) && forall|other: Price| #[trigger]
                self@.bids.contains_key(other) ==> other <= price,
    {
        self.bids.best_price(Side::Bid)
    }

    /// The best ask price: the lowest one.
    pub fn best_ask(&self) -> (r: Option<Price>)
        ensures
            r == best(self@.asks.dom(), Side::Ask),
            r is None <==> self@.asks.dom() == Set::<Price>::empty(),
            r matches Some(price) ==> self@.asks.contains_key(price) && forall|other: Price| #[trigger]
                self@.asks.contains_key(other) ==> price <= other,
    {
        self.asks.best_price(Side::Ask)
    }

    /// How far the best ask is above the best bid.
    pub fn spread(&self) -> (r: Option<Price>)
        ensures
            r == match (best(self@.bids.dom(), Side::Bid), best(self@.asks.dom(), Side::Ask)) {
                (Some(bid), Some(ask)) => Some(gap(ask, bid)),
                _ => None,
            },
            r matches Some(gap) ==> exists|bid: Price, ask: Price|
                {
                    &&& #[trigger] self@.bids.contains_key(bid)
                    &&& #[trigger] self@.asks.contains_key(ask)
                    &&& forall|other: Price| #[trigger]
                        self@.bids.contains_key(other) ==> other <= bid
                    &&& forall|other: Price| #[trigger]
                        self@.asks.contains_key(other) ==> ask <= other
                    &&& bid <= ask ==> bid + gap == ask
                    &&& bid > ask ==> gap == 0
                },
            r is None <==> {
                ||| forall|price: Price| !#[trigger] self@.bids.contains_key(price)
                ||| forall|price: Price| !#[trigger] self@.asks.contains_key(price)
            },
    {
        match (self.best_bid(), self.best_ask()) {
            (Some(bid), Some(ask)) => Some(ask.saturating_sub(bid)),
            _ => None,
        }
    }

    /// The quantity that rests on all bid levels, if it is a quantity.
    pub fn checked_total_bid_quantity(&self) -> (r: Option<Quantity>)
        ensures
            match r {
                Some(total) => total == depth(self@.bids),
                None => depth(self@.bids) > u64::MAX,
            },
    {
        self.bids.checked_total_quantity()
    }

    /// The quantity that rests on all ask levels, if it is a quantity.
    pub fn checked_total_ask_quantity(&self) -> (r: Option<Quantity>)
        ensures
            match r {
                Some(total) => total == depth(self@.asks),
                None => depth(self@.asks) > u64::MAX,
            },
    {
        self.asks.checked_total_quantity()
    }

    /// The quantity that rests on all levels, bids and asks, if it is a
    /// quantity.
    pub fn checked_total_quantity(&self) -> (r: Option<Quantity>)
        ensures
            match r {
                Some(total) => total == depth(self@.bids) + depth(self@.asks),
                None => depth(self@.bids) + depth(self@.asks) > u64::MAX,
            },
    {
        match (self.checked_total_bid_quantity(), self.checked_total_ask_quantity()) {
            (Some(bids), Some(asks)) => bids.checked_add(asks),
            _ => None,
        }
    }

    /// The quantity that rests on all bid levels.
    pub fn total_bid_quantity(&self) -> (r: Quantity)
        requires
            depth(self@.bids) <= u64::MAX,
        ensures
            r == depth(self@.bids),
    {
        self.checked_total_bid_quantity().unwrap()
    }

    /// The quantity that rests on all ask levels.
    pub fn total_ask_quantity(&self) -> (r: Quantity)
        requires
            depth(self@.asks) <= u64::MAX,
        ensures
            r == depth(self@.asks),
    {
        self.checked_total_ask_quantity().unwrap()
    }

    /// The quantity that rests on all levels, bids and asks.
    pub fn total_quantity(&self) -> (r: Quantity)
        requires
            depth(self@.bids) + depth(self@.asks) <= u64::MAX,
        ensures
            r == depth(self@.bids) + depth(self@.asks),
    {
        self.total_bid_quantity() + self.total_ask_quantity()
    }

    /// Whether there is an id left for another order.
    pub fn has_ids_left(&self) -> (r: bool)
        ensures
            r == (self@.next_order_id < u64::MAX),
    {
        self.next_order_id < u64::MAX
    }

    /// Submits a limit order, and returns its id.
    ///
    /// The order trades with what rests at its price or a better one, the best
    /// price first and first come, first served within a price, always at the
    /// price of the resting order. What is left of it rests in the book.
    pub fn submit_limit_order(
        &mut self,
        side: Side,
        price: Price,
        quantity: Quantity,
    ) -> (r: Result<OrderId, OrderBookError>)
        requires
            old(self).well_formed(),
            price > 0 && quantity > 0 ==> old(self)@.next_order_id < u64::MAX,
        ensures
            final(self).well_formed(),
            price == 0 ==> {
                &&& r == Err::<OrderId, _>(OrderBookError::InvalidPrice(price))
                &&& final(self)@ == old(self)@
                &&& final(self).trades() == old(self).trades()
            },
            price > 0 && quantity == 0 ==> {
                &&& r == Err::<OrderId, _>(OrderBookError::InvalidQuantity(quantity))
                &&& final(self)@ == old(self)@
                &&& final(self).trades() == old(self).trades()
            },
            price > 0 && quantity > 0 ==> {
                &&& r == Ok::<_, OrderBookError>(old(self)@.next_order_id)
                &&& exists|timestamp: u64|
                    {
                        &&& final(self)@ == #[trigger] old(self)@.after_limit(
                            side,
                            price,
                            quantity,
                            timestamp,
                        )
                        &&& reports(
                            old(self).trades(),
                            final(self).trades(),
                            old(self)@.limit_sweep(side, price, quantity, timestamp).fills,
                            None,
                        )
                    }
            },
            price > 0 && quantity > 0 ==> forall|i: int|
                old(self).trades().len() <= i < final(self).trades().len() ==> {
                    let trade = #[trigger] final(self).trades()[i];
                    &&& trade.taker_order_id == old(self)@.next_order_id
                    &&& trade.quantity > 0
                    &&& side is Bid ==> trade.price <= price
                    &&& side is Ask ==> trade.price >= price
                },
    {
        if price == 0 {
            return Err(OrderBookError::InvalidPrice(price));
        }
        if quantity == 0 {
            return Err(OrderBookError::InvalidQuantity(quantity));
        }
        let timestamp: u64 = now_nanos();
        Ok(self.place_limit_order(side, price, quantity, timestamp, None))
    }

    /// Submits a limit order that was placed at `timestamp`, in nanoseconds.
    /// Its trades take place at the same moment. See
    /// [`OrderBook::submit_limit_order`].
    pub fn submit_limit_order_at(
        &mut self,
        side: Side,
        price: Price,
        quantity: Quantity,
        timestamp: u64,
    ) -> (r: Result<OrderId, OrderBookError>)
        requires
            old(self).well_formed(),
            price > 0 && quantity > 0 ==> old(self)@.next_order_id < u64::MAX,
        ensures
            final(self).well_formed(),
            price == 0 ==> {
                &&& r == Err::<OrderId, _>(OrderBookError::InvalidPrice(price))
                &&& final(self)@ == old(self)@
                &&& final(self).trades() == old(self).trades()
            },
            price > 0 && quantity == 0 ==> {
                &&& r == Err::<OrderId, _>(OrderBookError::InvalidQuantity(quantity))
                &&& final(self)@ == old(self)@
                &&& final(self).trades() == old(self).trades()
            },
            price > 0 && quantity > 0 ==> {
                &&& r == Ok::<_, OrderBookError>(old(self)@.next_order_id)
                &&& final(self)@ == old(self)@.after_limit(side, price, quantity, timestamp)
                &&& reports(
                    old(self).trades(),
                    final(self).trades(),
                    old(self)@.limit_sweep(side, price, quantity, timestamp).fills,
                    Some(trade_stamp(timestamp)),
                )
            },
            price > 0 && quantity > 0 ==> forall|i: int|
                old(self).trades().len() <= i < final(self).trades().len() ==> {
                    let trade = #[trigger] final(self).trades()[i];
                    &&& trade.taker_order_id == old(self)@.next_order_id
                    &&& trade.quantity > 0
                    &&& side is Bid ==> trade.price <= price
                    &&& side is Ask ==> trade.price >= price
                },
    {
        if price == 0 {
            return Err(OrderBookError::InvalidPrice(price));
        }
        if quantity == 0 {
            return Err(OrderBookError::InvalidQuantity(quantity));
        }
        let stamp: u64 = timestamp / 1_000_000;
        Ok(self.place_limit_order(side, price, quantity, timestamp, Some(stamp)))
    }

    /// Lets a limit order come in that was placed at `timestamp`. As to
    /// `stamp`, see [`sweep_level`].
    fn place_limit_order(
        &mut self,
        side: Side,
        price: Price,
        quantity: Quantity,
        timestamp: u64,
        stamp: Option<u64>,
    ) -> (order_id: OrderId)
        requires
            old(self).well_formed(),
            old(self)@.next_order_id < u64::MAX,
            price > 0,
            quantity > 0,
        ensures
            final(self).well_formed(),
            order_id == old(self)@.next_order_id,
            final(self)@ == old(self)@.after_limit(side, price, quantity, timestamp),
            reports(
                old(self).trades(),
                final(self).trades(),
                old(self)@.limit_sweep(side, price, quantity, timestamp).fills,
                stamp,
            ),
            forall|i: int|
                old(self).trades().len() <= i < final(self).trades().len() ==> {
                    let trade = #[trigger] final(self).trades()[i];
                    &&& trade.taker_order_id == old(self)@.next_order_id
                    &&& trade.quantity > 0
                    &&& side is Bid ==> trade.price <= price
                    &&& side is Ask ==> trade.price >= price
                },
    {
        proof {
            lemma_limit_keeps_well_formed(self@, side, price, quantity, timestamp);
        }
        let order_id: u64 = self.generate_order_id();
        let mut order = Order::new_at(
            order_id,
            side,
            OrderType::Limit,
            price,
            quantity,
            timestamp,
        );
        let ghost sweep = old(self)@.limit_sweep(side, price, quantity, timestamp);
        match side {
            Side::Bid => sweep_side(
                &mut self.asks,
                &mut self.order_lookup,
                &mut self.trade_tx,
                &mut order,
                Some(price),
                stamp,
            ),
            Side::Ask => sweep_side(
                &mut self.bids,
                &mut self.order_lookup,
                &mut self.trade_tx,
                &mut order,
                Some(price),
                stamp,
            ),
        }
        assert(self@ =~= old(self)@.numbered().swept(sweep));
        if order.get_remaining_quantity() > 0 {
            match side {
                Side::Bid => self.bids.insert(order),
                Side::Ask => self.asks.insert(order),
            }
            record(&mut self.order_lookup, order_id, (side, price, order.get_status()));
        }
        assert(self@ =~= old(self)@.after_limit(side, price, quantity, timestamp));
        proof {
            law_limit_buy_in_numbers(old(self)@, price, quantity, timestamp);
            law_limit_sell_in_numbers(old(self)@, price, quantity, timestamp);
            law_tape_tells_the_trades(old(self).trades(), self.trades(), sweep.fills, stamp);
            assert forall|i: int|
                old(self).trades().len() <= i < self.trades().len() implies {
                let trade = #[trigger] self.trades()[i];
                &&& trade.taker_order_id == old(self)@.next_order_id
                &&& trade.quantity > 0
                &&& side is Bid ==> trade.price <= price
                &&& side is Ask ==> trade.price >= price
            } by {
                let k = i - old(self).trades().len();
                assert(self.trades()[old(self).trades().len() + k] == self.trades()[i]);
                assert(sweep.fills[k].quantity > 0);
            }
        }
        order_id
    }

    /// Submits a market order, and returns its id and how much of it traded.
    ///
    /// The order trades at any price, the best one first. What is left of it
    /// is dropped: a market order never rests in the book.
    pub fn submit_market_order(
        &mut self,
        side: Side,
        quantity: Quantity,
    ) -> (r: Result<(OrderId, Quantity), OrderBookError>)
        requires
            old(self).well_formed(),
            quantity > 0 ==> old(self)@.next_order_id < u64::MAX,
        ensures
            final(self).well_formed(),
            quantity == 0 ==> {
                &&& r == Err::<(OrderId, Quantity), _>(OrderBookError::InvalidQuantity(quantity))
                &&& final(self)@ == old(self)@
                &&& final(self).trades() == old(self).trades()
            },
            quantity > 0 ==> exists|timestamp: u64|
                {
                    let sweep = old(self)@.market_sweep(side, quantity, timestamp);
                    &&& final(self)@ == #[trigger] old(self)@.after_market(
                        side,
                        quantity,
                        timestamp,
                    )
                    &&& reports(old(self).trades(), final(self).trades(), sweep.fills, None)
                    &&& r == Ok::<_, OrderBookError>(
                        (
                            old(self)@.next_order_id,
                            (quantity - sweep.taker.remaining_quantity) as u64,
                        ),
                    )
                },
            quantity > 0 ==> {
                let rests = match side {
                    Side::Bid => resting_quantity(old(self)@.asks),
                    Side::Ask => resting_quantity(old(self)@.bids),
                };
                &&& r is Ok
                &&& rests >= quantity ==> r->Ok_0.1 == quantity
                &&& rests < quantity ==> r->Ok_0.1 == rests
            },
    {
        if quantity == 0 {
            return Err(OrderBookError::InvalidQuantity(quantity));
        }
        let timestamp: u64 = now_nanos();
        Ok(self.place_market_order(side, quantity, timestamp, None))
    }

    /// Submits a market order that was placed at `timestamp`, in nanoseconds.
    /// Its trades take place at the same moment. See
    /// [`OrderBook::submit_market_order`].
    pub fn submit_market_order_at(
        &mut self,
        side: Side,
        quantity: Quantity,
        timestamp: u64,
    ) -> (r: Result<(OrderId, Quantity), OrderBookError>)
        requires
            old(self).well_formed(),
            quantity > 0 ==> old(self)@.next_order_id < u64::MAX,
        ensures
            final(self).well_formed(),
            quantity == 0 ==> {
                &&& r == Err::<(OrderId, Quantity), _>(OrderBookError::InvalidQuantity(quantity))
                &&& final(self)@ == old(self)@
                &&& final(self).trades() == old(self).trades()
            },
            quantity > 0 ==> {
                let sweep = old(self)@.market_sweep(side, quantity, timestamp);
                &&& final(self)@ == old(self)@.after_market(side, quantity, timestamp)
                &&& reports(
                    old(self).trades(),
                    final(self).trades(),
                    sweep.fills,
                    Some(trade_stamp(timestamp)),
                )
                &&& r == Ok::<_, OrderBookError>(
                    (
                        old(self)@.next_order_id,
                        (quantity - sweep.taker.remaining_quantity) as u64,
                    ),
                )
            },
            quantity > 0 ==> {
                let rests = match side {
                    Side::Bid => resting_quantity(old(self)@.asks),
                    Side::Ask => resting_quantity(old(self)@.bids),
                };
                &&& r is Ok
                &&& rests >= quantity ==> r->Ok_0.1 == quantity
                &&& rests < quantity ==> r->Ok_0.1 == rests
            },
    {
        if quantity == 0 {
            return Err(OrderBookError::InvalidQuantity(quantity));
        }
        let stamp: u64 = timestamp / 1_000_000;
        Ok(self.place_market_order(side, quantity, timestamp, Some(stamp)))
    }

    /// Lets a market order come in that was placed at `timestamp`, and returns
    /// its id and how much of it traded. As to `stamp`, see [`sweep_level`].
    fn place_market_order(
        &mut self,
        side: Side,
        quantity: Quantity,
        timestamp: u64,
        stamp: Option<u64>,
    ) -> (r: (OrderId, Quantity))
        requires
            old(self).well_formed(),
            old(self)@.next_order_id < u64::MAX,
            quantity > 0,
        ensures
            final(self).well_formed(),
            ({
                let sweep = old(self)@.market_sweep(side, quantity, timestamp);
                &&& final(self)@ == old(self)@.after_market(side, quantity, timestamp)
                &&& reports(old(self).trades(), final(self).trades(), sweep.fills, stamp)
                &&& r.0 == old(self)@.next_order_id
                &&& r.1 == quantity - sweep.taker.remaining_quantity
            }),
            ({
                let rests = match side {
                    Side::Bid => resting_quantity(old(self)@.asks),
                    Side::Ask => resting_quantity(old(self)@.bids),
                };
                &&& rests >= quantity ==> r.1 == quantity
                &&& rests < quantity ==> r.1 == rests
            }),
    {
        proof {
            law_market_order_trades_all_it_can(self@, side, quantity, timestamp);
            lemma_market_keeps_well_formed(self@, side, quantity, timestamp);
        }
        let order_id: u64 = self.generate_order_id();
        let mut order = Order::new_at(order_id, side, OrderType::Market, 0, quantity, timestamp);
        match side {
            Side::Bid => sweep_side(
                &mut self.asks,
                &mut self.order_lookup,
                &mut self.trade_tx,
                &mut order,
                None,
                stamp,
            ),
            Side::Ask => sweep_side(
                &mut self.bids,
                &mut self.order_lookup,
                &mut self.trade_tx,
                &mut order,
                None,
                stamp,
            ),
        }
        assert(self@ =~= old(self)@.after_market(side, quantity, timestamp));
        let filled_total: u64 = quantity - order.get_remaining_quantity();
        (order_id, filled_total)
    }

    /// Cancels a resting order, and returns what was left of it.
    ///
    /// An order that never came to rest, or was cancelled already, is not
    /// found. One that was filled cannot be cancelled any more.
    pub fn cancel_order(&mut self, order_id: OrderId) -> (r: Result<Quantity, OrderBookError>)
        requires
            old(self).well_formed(),
        ensures
            final(self).well_formed(),
            r == old(self)@.cancel_answer(order_id),
            final(self)@ == old(self)@.after_cancel(order_id),
            final(self).trades() == old(self).trades(),
            forall|side: Side, price: Price, i: int|
                {
                    let queue = queue_at(old(self)@.side(side), price);
                    0 <= i < queue.len() && queue[i].order_id == order_id ==> r == Ok::<
                        Quantity,
                        OrderBookError,
                    >(#[trigger] queue_at(old(self)@.side(side), price)[i].remaining_quantity)
                },
    {
        proof {
            assert forall|side: Side, price: Price, i: int|
                {
                    let queue = queue_at(self@.side(side), price);
                    0 <= i < queue.len() && queue[i].order_id == order_id ==> self@.cancel_answer(
                        order_id,
                    ) == Ok::<Quantity, OrderBookError>(
                        #[trigger] queue_at(self@.side(side), price)[i].remaining_quantity,
                    )
                } by {
                law_cancel_in_numbers(self@, side, price, i, order_id);
            }
        }
        let (side, price, status) = match look_up(&self.order_lookup, order_id) {
            Some(entry) => entry,
            None => return Err(OrderBookError::OrderNotFound(order_id)),
        };
        if status == OrderStatus::Filled {
            return Err(OrderBookError::AlreadyCancelled(order_id));
        }
        let ghost level_before = self@.side(side)[price];
        proof {
            lemma_resting_order_has_a_place(self@, order_id);
        }
        let maybe_level = match side {
            Side::Bid => self.bids.take_level(price),
            Side::Ask => self.asks.take_level(price),
        };
        match maybe_level {
            Some(mut level) => {
                let removed = level.remove_order(order_id);
                let ghost left_over = level@;
                if !level.is_empty() {
                    match side {
                        Side::Bid => self.bids.put_level(price, level),
                        Side::Ask => self.asks.put_level(price, level),
                    }
                }
                match removed {
                    Some((_order, quantity)) => {
                        forget(&mut self.order_lookup, order_id);
                        proof {
                            let i = level_before.place_of(order_id);
                            lemma_place_is_one(level_before, order_id);
                            assert(left_over == level_before.removed(i));
                            assert(self@ =~= old(self)@.withdrawn(side, price, i));
                            lemma_withdraw_keeps_well_formed(old(self)@, side, price, i);
                        }
                        Ok(quantity)
                    },
                    None => Err(OrderBookError::OrderNotFound(order_id)),
                }
            },
            None => Err(OrderBookError::InvalidPrice(price)),
        }
    }
}

} // verus!
