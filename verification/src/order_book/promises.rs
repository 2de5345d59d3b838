//! What those who trade in the event-recording book may rely on, in numbers.

use super::history::lemma_hiding_keeps_well_formed;
use super::laws::{
    adds, goes_on, hidden_by, law_due_stop_goes_off, law_market_order_never_rests,
    law_no_stop_is_left_behind, law_order_trades_what_is_within_reach, law_record_only_grows,
    lemma_matched_goes_on, lemma_queue_supply_ignores, lemma_run_goes_on, queue_supply,
};
use super::model::{
    market_order_of, reading, set_off, still_waiting, Book, Floor, Market, Matching,
};
use super::soundness::{
    lemma_best_is_one, lemma_matched_keeps_well_formed, lemma_not_ready_means_out_of_reach,
    lemma_recording_keeps_well_formed, lemma_run_keeps_sound, lemma_step_keeps_sound,
};
use crate::book_side::{level_at, queue_at};
use crate::event::OrderEvent;
use crate::iceberg::IcebergOrder;
use crate::ladder::law_best_price_is_the_extreme;
use crate::order::Order;
use crate::price_level::Level;
use crate::stop_order::StopOrder;
use crate::tally::{lemma_total_same, total};
use crate::types::{OrderId, Price, Quantity, Side};
use vstd::prelude::*;

verus! {

impl Market {
    /// What those who ask for `price` or less have to give, with what iceberg
    /// orders among them hide.
    pub open spec fn asked_up_to(self, price: Price) -> nat {
        total(
            self.asks,
            |level: Level|
                if level.price <= price {
                    queue_supply(level.orders, self.icebergs)
                } else {
                    0
                },
        )
    }

    /// What those who bid `price` or more want, with what iceberg orders among
    /// them hide.
    pub open spec fn bid_from(self, price: Price) -> nat {
        total(
            self.bids,
            |level: Level|
                if level.price >= price {
                    queue_supply(level.orders, self.icebergs)
                } else {
                    0
                },
        )
    }

    /// What an order of `side` at `price` can trade.
    pub open spec fn on_offer(self, side: Side, price: Price) -> nat {
        match side {
            Side::Bid => self.asked_up_to(price),
            Side::Ask => self.bid_from(price),
        }
    }
}

proof fn lemma_reach_is_on_offer(market: Market, side: Side, price: Price)
    requires
        market.bids.dom().finite(),
        market.asks.dom().finite(),
    ensures
        market.within_reach(side, price) == market.on_offer(side, price),
{
    let reached = |level: Level|
        if side.accepts(price, level.price) {
            queue_supply(level.orders, market.icebergs)
        } else {
            0
        };
    let asked = |level: Level|
        if level.price <= price {
            queue_supply(level.orders, market.icebergs)
        } else {
            0
        };
    let bid = |level: Level|
        if level.price >= price {
            queue_supply(level.orders, market.icebergs)
        } else {
            0
        };
    match side {
        Side::Bid => {
            lemma_total_same(market.asks, market.asks, reached, asked);
        },
        Side::Ask => {
            lemma_total_same(market.bids, market.bids, reached, bid);
        },
    }
}

/// Law: an order that comes in at a price trades as much as it can within it. A
/// buying order trades what is asked for up to its price, a selling one what is
/// bid from its price on, up to its quantity; those who ask for more, or bid
/// less, are not touched. If something of it is left, nobody is left within its
/// price. A limit order then joins the queue at its price, at the end; any other
/// order leaves its own side as it is.
pub proof fn law_order_in_numbers(market: Market, order: Order, clock: Seq<u64>, next: OrderId)
    requires
        market.well_formed(next),
    ensures
        ({
            let after = market.matched(order, clock);
            let left = after.taker.remaining_quantity;
            let offer = market.on_offer(order.side, order.price);
            &&& offer >= order.remaining_quantity ==> left == 0
            &&& offer < order.remaining_quantity ==> left == order.remaining_quantity - offer
            &&& order.side is Bid ==> {
                &&& forall|p: Price|
                    p > order.price ==> #[trigger] queue_at(after.market.asks, p) == queue_at(
                        market.asks,
                        p,
                    )
                &&& left > 0 ==> forall|p: Price| #[trigger]
                    after.market.asks.contains_key(p) ==> p > order.price
                &&& forall|p: Price|
                    p != order.price ==> #[trigger] queue_at(after.market.bids, p) == queue_at(
                        market.bids,
                        p,
                    )
            }
            &&& order.side is Ask ==> {
                &&& forall|p: Price|
                    p < order.price ==> #[trigger] queue_at(after.market.bids, p) == queue_at(
                        market.bids,
                        p,
                    )
                &&& left > 0 ==> forall|p: Price| #[trigger]
                    after.market.bids.contains_key(p) ==> p < order.price
                &&& forall|p: Price|
                    p != order.price ==> #[trigger] queue_at(after.market.asks, p) == queue_at(
                        market.asks,
                        p,
                    )
            }
            &&& rests_behind(
                match order.side {
                    Side::Bid => queue_at(market.bids, order.price),
                    Side::Ask => queue_at(market.asks, order.price),
                },
                match order.side {
                    Side::Bid => queue_at(after.market.bids, order.price),
                    Side::Ask => queue_at(after.market.asks, order.price),
                },
                order,
                if order.order_type is Limit {
                    left
                } else {
                    0
                },
            )
        }),
{
    let begun = Matching { market, taker: order, clock };
    let after = market.matched(order, clock);
    let other = order.side.other();
    lemma_run_keeps_sound(begun, next);
    lemma_taker_status(begun);
    law_order_trades_what_is_within_reach(market, order, clock, next);
    lemma_reach_is_on_offer(market, order.side, order.price);
    assert forall|p: Price|
        !order.side.accepts(order.price, p) implies #[trigger] queue_at(
        after.market.side(other),
        p,
    ) == queue_at(market.side(other), p) by {
        assert(after.market.side(other).contains_key(p) == market.side(other).contains_key(p));
    }
    assert forall|p: Price|
        p != order.price implies #[trigger] queue_at(after.market.side(order.side), p) == queue_at(
        market.side(order.side),
        p,
    ) by {}
    assert(queue_at(market.side(order.side), order.price) =~= level_at(
        market.side(order.side),
        order.price,
    ).orders);
}

/// Whether, if `left` of `order` is left, the order joined a queue at its end
/// with that much left, and otherwise the queue is as before.
pub open spec fn rests_behind(
    before: Seq<Order>,
    after: Seq<Order>,
    order: Order,
    left: Quantity,
) -> bool {
    if left == 0 {
        after == before
    } else {
        let rest = after[before.len() as int];
        &&& after.len() == before.len() + 1
        &&& forall|k: int| 0 <= k < before.len() ==> #[trigger] after[k] == before[k]
        &&& rest.order_id == order.order_id
        &&& rest.side == order.side
        &&& rest.order_type == order.order_type
        &&& rest.price == order.price
        &&& rest.original_quantity == order.original_quantity
        &&& rest.timestamp == order.timestamp
        &&& rest.remaining_quantity == left
        &&& left == order.remaining_quantity ==> rest.status == order.status
        &&& left < order.remaining_quantity ==> rest.status is PartiallyFilled
    }
}

/// An incoming order that has traded nothing is as it came, and one that has
/// traded some of its quantity is partly filled.
proof fn lemma_taker_status(matching: Matching)
    ensures
        ({
            let after = matching.run().taker;
            &&& after.remaining_quantity <= matching.taker.remaining_quantity
            &&& after.remaining_quantity == matching.taker.remaining_quantity ==> after
                == matching.taker
            &&& 0 < after.remaining_quantity < matching.taker.remaining_quantity
                ==> after.status is PartiallyFilled
        }),
    decreases matching.taker.remaining_quantity,
{
    if matching.ready() {
        lemma_taker_status(matching.step());
    }
}

/// Law: an order to buy below every ask, or to sell above every bid, trades
/// nothing. What is left of it is all of it.
pub proof fn law_order_trades_only_where_prices_cross(
    market: Market,
    order: Order,
    clock: Seq<u64>,
    next: OrderId,
)
    requires
        market.well_formed(next),
        order.remaining_quantity > 0,
    ensures
        ({
            let after = market.matched(order, clock);
            &&& order.side is Bid ==> {
                (forall|p: Price| #[trigger] market.asks.contains_key(p) ==> order.price < p)
                    <==> after.taker.remaining_quantity == order.remaining_quantity
            }
            &&& order.side is Ask ==> {
                (forall|p: Price| #[trigger] market.bids.contains_key(p) ==> p < order.price)
                    <==> after.taker.remaining_quantity == order.remaining_quantity
            }
            &&& after.taker.remaining_quantity == order.remaining_quantity
                ==> after.market.last_trade_price == market.last_trade_price
        }),
{
    let begun = Matching { market, taker: order, clock };
    lemma_ready_in_numbers(begun, next);
    if begun.ready() {
        lemma_step_keeps_sound(begun, next);
        lemma_run_keeps_sound(begun.step(), next);
        assert(begun.run().taker.remaining_quantity < order.remaining_quantity);
    } else {
        assert(begun.run() == begun);
    }
}

/// A trade is due as long as something of the incoming order is left and there
/// is a price on the other side within its own.
proof fn lemma_ready_in_numbers(matching: Matching, next: OrderId)
    requires
        matching.market.sound(next),
    ensures
        matching.taker.side is Bid ==> (matching.ready() <==> matching.taker.remaining_quantity > 0
            && exists|p: Price|
            #[trigger] matching.market.asks.contains_key(p) && p <= matching.taker.price),
        matching.taker.side is Ask ==> (matching.ready() <==> matching.taker.remaining_quantity > 0
            && exists|p: Price|
            #[trigger] matching.market.bids.contains_key(p) && p >= matching.taker.price),
{
    let side = matching.taker.side.other();
    lemma_best_is_one(matching.market.side(side).dom(), side);
    if matching.ready() {
        assert(matching.market.side(side).contains_key(matching.best_price()->0));
    } else if matching.taker.remaining_quantity > 0 {
        lemma_not_ready_means_out_of_reach(matching, next);
        assert forall|p: Price| #[trigger] matching.market.side(side).contains_key(
            p,
        ) implies !matching.taker.side.accepts(matching.taker.price, p) by {}
    }
}

/// Law: one trade, in numbers. It is with the order at the front of the queue at
/// the lowest ask or the highest bid, of as much as both have. If something of
/// that order is left, it stays at the front with what is left, and what traded
/// is recorded. If not, it leaves, which is recorded; and if it is an iceberg
/// order that hides something, a slice of that, no more than is hidden and no
/// more than may be visible, joins the end of the queue, which is recorded too.
/// The others keep their order, and no other price is touched.
pub proof fn law_one_trade_in_numbers(matching: Matching, next: OrderId)
    requires
        matching.market.sound(next),
        matching.ready(),
    ensures
        ({
            let market = matching.market;
            let after = matching.step().market;
            let levels = match matching.taker.side {
                Side::Bid => market.asks,
                Side::Ask => market.bids,
            };
            let after_levels = match matching.taker.side {
                Side::Bid => after.asks,
                Side::Ask => after.bids,
            };
            let price = after.last_trade_price->0;
            let queue = queue_at(levels, price);
            let left = queue_at(after_levels, price);
            let maker = queue[0];
            let had = matching.taker.remaining_quantity;
            let has = matching.step().taker.remaining_quantity;
            let traded = had - has;
            let n = market.events.len() as int;
            let hides = market.icebergs.contains_key(maker.order_id)
                && market.icebergs[maker.order_id].remaining > 0;
            &&& after.last_trade_price is Some
            &&& queue.len() > 0
            &&& matching.taker.side is Bid ==> price <= matching.taker.price
            &&& matching.taker.side is Ask ==> price >= matching.taker.price
            &&& matching.taker.side is Bid ==> forall|p: Price| #[trigger]
                levels.contains_key(p) ==> price <= p
            &&& matching.taker.side is Ask ==> forall|p: Price| #[trigger]
                levels.contains_key(p) ==> price >= p
            &&& forall|p: Price|
                p != price ==> #[trigger] queue_at(after_levels, p) == queue_at(levels, p)
            &&& 0 < traded <= maker.remaining_quantity
            &&& has == 0 || traded == maker.remaining_quantity
            &&& forall|i: int| 0 <= i < n ==> #[trigger] after.events[i] == market.events[i]
            &&& has == 0 ==> matching.step().taker.status is Filled
            &&& has > 0 ==> matching.step().taker.status is PartiallyFilled
            &&& matching.step().taker.order_id == matching.taker.order_id
            &&& matching.taker.side is Bid ==> after.bids == market.bids
            &&& matching.taker.side is Ask ==> after.asks == market.asks
            &&& if traded < maker.remaining_quantity {
                &&& left.len() == queue.len()
                &&& left[0].order_id == maker.order_id
                &&& left[0].price == maker.price
                &&& left[0].side == maker.side
                &&& left[0].order_type == maker.order_type
                &&& left[0].original_quantity == maker.original_quantity
                &&& left[0].timestamp == maker.timestamp
                &&& left[0].status is PartiallyFilled
                &&& left[0].remaining_quantity == maker.remaining_quantity - traded
                &&& forall|k: int| 1 <= k < queue.len() ==> #[trigger] left[k] == queue[k]
                &&& after.events.len() == n + 1
                &&& after.events[n] is OrderPartiallyFilled
                &&& after.events[n]->id == maker.order_id
                &&& after.events[n]->filled == traded
                &&& after.icebergs == market.icebergs
            } else if !hides {
                &&& left.len() == queue.len() - 1
                &&& forall|k: int| 1 <= k < queue.len() ==> #[trigger] queue[k] == left[k - 1]
                &&& after.events.len() == n + 1
                &&& after.events[n] == OrderEvent::OrderFullyFilled(maker.order_id)
                &&& after.icebergs == market.icebergs
            } else {
                let slice = left[queue.len() - 1];
                let hid = market.icebergs[maker.order_id];
                let hides_now = after.icebergs[maker.order_id];
                &&& left.len() == queue.len()
                &&& forall|k: int| 1 <= k < queue.len() ==> #[trigger] queue[k] == left[k - 1]
                &&& slice.order_id == maker.order_id
                &&& slice.price == maker.price
                &&& slice.side == maker.side
                &&& slice.order_type is Limit
                &&& slice.status is Active
                &&& matching.clock.len() > 0 ==> slice.timestamp == matching.clock[0]
                &&& slice.original_quantity == slice.remaining_quantity
                &&& 0 < slice.remaining_quantity <= hid.visible_quantity
                &&& slice.remaining_quantity + hides_now.remaining == hid.remaining
                &&& slice.remaining_quantity == hid.visible_quantity || hides_now.remaining == 0
                &&& hides_now.visible_quantity == hid.visible_quantity
                &&& after.events.len() == n + 2
                &&& after.events[n] == OrderEvent::OrderFullyFilled(maker.order_id)
                &&& after.events[n + 1] is IcebergRevealed
                &&& after.events[n + 1]->IcebergRevealed_0 == maker.order_id
                &&& after.events[n + 1]->IcebergRevealed_1 == slice.remaining_quantity
                &&& forall|id: OrderId|
                    id != maker.order_id ==> #[trigger] after.icebergs.contains_key(id)
                        == market.icebergs.contains_key(id) && after.icebergs[id]
                        == market.icebergs[id]
            }
        }),
{
    let market = matching.market;
    let side = matching.taker.side.other();
    let levels = market.side(side);
    let price = matching.best_price()->0;
    law_best_price_is_the_extreme(levels.dom(), side);
    assert(levels.contains_key(price));
    assert(market.level_fits(levels[price], side, price, next));
    assert(market.order_fits(levels[price].orders[0], side, price, next));
    assert forall|p: Price| #[trigger] levels.contains_key(p) implies levels.dom().contains(
        p,
    ) by {}
    let queue = levels[price].orders;
    let rest = queue.drop_first();
    assert forall|k: int| 1 <= k < queue.len() implies #[trigger] queue[k] == rest[k - 1] by {}
}

/// Law: what becomes of an order that came in is recorded. First its trades;
/// then, if something of it is left and something traded, how much of it traded,
/// that is what it was created with less what is left; or, if nothing is left,
/// that it is filled. What was recorded before stays.
pub proof fn law_outcome_is_recorded(
    market: Market,
    order: Order,
    clock: Seq<u64>,
    next: OrderId,
)
    requires
        market.well_formed(next),
        market.matched(order, clock).taker.remaining_quantity <= order.original_quantity,
    ensures
        ({
            let after = market.matched(order, clock);
            let left = after.taker.remaining_quantity;
            let events = after.market.events;
            &&& goes_on(market.events, events)
            &&& left == 0 ==> events.len() > market.events.len() && events.last()
                == OrderEvent::OrderFullyFilled(order.order_id)
            &&& 0 < left < order.original_quantity ==> {
                &&& events.len() > market.events.len()
                &&& events.last() is OrderPartiallyFilled
                &&& events.last()->id == order.order_id
                &&& events.last()->filled + left == order.original_quantity
            }
            &&& left == order.original_quantity && left == order.remaining_quantity && left > 0
                ==> events == market.events
        }),
{
    let begun = Matching { market, taker: order, clock };
    lemma_run_keeps_sound(begun, next);
    lemma_matched_goes_on(market, order, clock);
    lemma_run_goes_on(begun);
    if begun.ready() {
        lemma_step_keeps_sound(begun, next);
        lemma_run_keeps_sound(begun.step(), next);
    } else {
        assert(begun.run() == begun);
    }
}

/// Law: the last trade price is the price of the last trade. If an order trades,
/// it is a price within its own at which someone rested; nobody on the other
/// side is left at a better one, and those at worse ones were not touched.
pub proof fn law_last_trade_price_in_numbers(
    market: Market,
    order: Order,
    clock: Seq<u64>,
    next: OrderId,
)
    requires
        market.well_formed(next),
        market.matched(order, clock).taker.remaining_quantity < order.remaining_quantity,
    ensures
        ({
            let after = market.matched(order, clock).market;
            let price = after.last_trade_price->0;
            &&& after.last_trade_price is Some
            &&& order.side is Bid ==> {
                &&& market.asks.contains_key(price)
                &&& price <= order.price
                &&& forall|p: Price| #[trigger] after.asks.contains_key(p) ==> price <= p
                &&& forall|p: Price|
                    p > price ==> #[trigger] queue_at(after.asks, p) == queue_at(market.asks, p)
            }
            &&& order.side is Ask ==> {
                &&& market.bids.contains_key(price)
                &&& price >= order.price
                &&& forall|p: Price| #[trigger] after.bids.contains_key(p) ==> price >= p
                &&& forall|p: Price|
                    p < price ==> #[trigger] queue_at(after.bids, p) == queue_at(market.bids, p)
            }
        }),
{
    let begun = Matching { market, taker: order, clock };
    lemma_run_keeps_sound(begun, next);
    lemma_run_last_price(begun, next);
    assert(market.matched(order, clock).market.side(order.side.other()) == begun.run().market.side(
        order.side.other(),
    ));
}

proof fn lemma_run_last_price(matching: Matching, next: OrderId)
    requires
        matching.market.sound(next),
    ensures
        ({
            let side = matching.taker.side.other();
            let before = matching.market.side(side);
            let ran = matching.run();
            let after = ran.market.side(side);
            let price = ran.market.last_trade_price->0;
            &&& ran.taker.remaining_quantity < matching.taker.remaining_quantity ==> {
                &&& ran.market.last_trade_price is Some
                &&& before.contains_key(price)
                &&& matching.taker.side.accepts(matching.taker.price, price)
                &&& forall|p: Price| #[trigger]
                    after.contains_key(p) ==> before.contains_key(p) && !side.prefers(p, price)
                &&& forall|p: Price|
                    side.prefers(price, p) ==> #[trigger] queue_at(after, p) == queue_at(before, p)
            }
            &&& ran.taker.remaining_quantity == matching.taker.remaining_quantity ==> ran
                == matching
        }),
    decreases matching.taker.remaining_quantity,
{
    if matching.ready() {
        let side = matching.taker.side.other();
        let step = matching.step();
        let before = matching.market.side(side);
        let middle = step.market.side(side);
        let after = matching.run().market.side(side);
        let first = matching.best_price()->0;
        lemma_step_keeps_sound(matching, next);
        lemma_run_keeps_sound(step, next);
        lemma_run_last_price(step, next);
        law_best_price_is_the_extreme(before.dom(), side);
        assert forall|p: Price| p != first implies #[trigger] queue_at(middle, p) == queue_at(
            before,
            p,
        ) by {}
        assert forall|p: Price| #[trigger] middle.contains_key(p) implies before.contains_key(
            p,
        ) && !side.prefers(p, first) by {
            assert(middle.dom().contains(p));
            assert(before.dom().contains(p));
        }
        assert(before.contains_key(first));
        let price = matching.run().market.last_trade_price->0;
        if matching.run().taker.remaining_quantity < step.taker.remaining_quantity {
            assert(middle.contains_key(price));
            assert forall|p: Price|
                side.prefers(price, p) implies #[trigger] queue_at(after, p) == queue_at(
                before,
                p,
            ) by {
                assert(p != first);
                assert(queue_at(middle, p) == queue_at(before, p));
            }
        }
    }
}

/// Law: what the caller of a limit or iceberg order is told is what is left of
/// the order: what comes in, less what is on offer within its price, or nothing.
/// For an iceberg order what comes in is its first slice, the smaller one of its
/// visible quantity and of all that it has. The order rests with just that much,
/// before stop orders are looked at.
pub proof fn law_caller_is_told_what_is_left(
    book: Book,
    order: Order,
    iceberg: IcebergOrder,
    clock: Seq<u64>,
)
    requires
        book.well_formed(),
        book.next_order_id < u64::MAX,
    ensures
        ({
            let left = book.left_of_limit(order, clock);
            let offer = book.market.on_offer(order.side, order.price);
            let after = book.numbered().floor_after(book.adopt(order), clock).market;
            let queue = match order.side {
                Side::Bid => queue_at(after.bids, order.price),
                Side::Ask => queue_at(after.asks, order.price),
            };
            &&& offer >= order.remaining_quantity ==> left == 0
            &&& offer < order.remaining_quantity ==> left + offer == order.remaining_quantity
            &&& left > 0 && order.order_type is Limit ==> {
                &&& queue.len() > 0
                &&& queue.last().order_id == book.next_order_id
                &&& queue.last().remaining_quantity == left
            }
        }),
        ({
            let left = book.left_of_iceberg(iceberg, clock);
            let offer = book.market.on_offer(iceberg.side, iceberg.price);
            let slice = if iceberg.visible_quantity < iceberg.remaining {
                iceberg.visible_quantity
            } else {
                iceberg.remaining
            };
            let after = book.hiding(iceberg).numbered().floor_after(
                book.first_slice(iceberg, reading(clock)),
                clock.drop_first(),
            ).market;
            let queue = match iceberg.side {
                Side::Bid => queue_at(after.bids, iceberg.price),
                Side::Ask => queue_at(after.asks, iceberg.price),
            };
            &&& offer >= slice ==> left == 0
            &&& offer < slice ==> left + offer == slice
            &&& left > 0 ==> {
                &&& queue.len() > 0
                &&& queue.last().order_id == book.next_order_id
                &&& queue.last().remaining_quantity == left
            }
        }),
{
    let next = book.next_order_id;
    let told = book.market.recording(OrderEvent::OrderPlaced(book.adopt(order)));
    lemma_recording_keeps_well_formed(
        book.market,
        OrderEvent::OrderPlaced(book.adopt(order)),
        next,
    );
    law_order_in_numbers(told, book.adopt(order), clock, next);
    assert(told.on_offer(order.side, order.price) == book.market.on_offer(
        order.side,
        order.price,
    ));
    let hiding = book.hiding(iceberg).numbered();
    let slice = book.first_slice(iceberg, reading(clock));
    let placed = OrderEvent::OrderPlaced(slice);
    let hid = hiding.market.recording(placed);
    lemma_hiding_keeps_well_formed(book, iceberg);
    lemma_recording_keeps_well_formed(hiding.market, placed, hiding.next_order_id);
    law_order_in_numbers(hid, slice, clock.drop_first(), hiding.next_order_id);
    lemma_stranger_offers_nothing(book, hid, iceberg.side, iceberg.price);
}

/// An iceberg order of which nothing rests has nothing on offer.
proof fn lemma_stranger_offers_nothing(book: Book, after: Market, side: Side, price: Price)
    requires
        book.well_formed(),
        after.bids == book.market.bids,
        after.asks == book.market.asks,
        forall|id: OrderId|
            id != book.next_order_id ==> #[trigger] hidden_by(
                book.market.icebergs,
                id,
            ) == hidden_by(after.icebergs, id),
    ensures
        after.on_offer(side, price) == book.market.on_offer(side, price),
{
    let market = book.market;
    let next = book.next_order_id;
    assert forall|s: Side, p: Price| #[trigger] market.side(s).contains_key(p) implies queue_supply(
        market.side(s)[p].orders,
        market.icebergs,
    ) == queue_supply(market.side(s)[p].orders, after.icebergs) by {
        let orders = market.side(s)[p].orders;
        assert(market.level_fits(market.side(s)[p], s, p, next));
        assert forall|i: int| 0 <= i < orders.len() implies (#[trigger] orders[i]).order_id
            != next by {
            assert(market.order_fits(orders[i], s, p, next));
        }
        lemma_queue_supply_ignores(orders, market.icebergs, after.icebergs, next);
    }
    assert(forall|p: Price| #[trigger]
        market.bids.contains_key(p) ==> market.side(Side::Bid).contains_key(p));
    assert(forall|p: Price| #[trigger]
        market.asks.contains_key(p) ==> market.side(Side::Ask).contains_key(p));
    let asked = |level: Level|
        if level.price <= price {
            queue_supply(level.orders, market.icebergs)
        } else {
            0
        };
    let asked_now = |level: Level|
        if level.price <= price {
            queue_supply(level.orders, after.icebergs)
        } else {
            0
        };
    let bid = |level: Level|
        if level.price >= price {
            queue_supply(level.orders, market.icebergs)
        } else {
            0
        };
    let bid_now = |level: Level|
        if level.price >= price {
            queue_supply(level.orders, after.icebergs)
        } else {
            0
        };
    lemma_total_same(market.asks, market.asks, asked, asked_now);
    lemma_total_same(market.bids, market.bids, bid, bid_now);
}

/// Law: after any limit or iceberg order, with `p` the last trade price, every
/// stop order that still waits has its trigger beyond `p`: above it if it buys,
/// below it if it sells.
pub proof fn law_waiting_stops_in_numbers(
    book: Book,
    order: Order,
    iceberg: IcebergOrder,
    clock: Seq<u64>,
    i: int,
)
    ensures
        ({
            let after = book.after_limit(order, clock);
            let p = after.market.last_trade_price->0;
            after.market.last_trade_price is Some && 0 <= i < after.stops.len() ==> {
                &&& after.stops[i].side is Bid ==> p < after.stops[i].trigger_price
                &&& after.stops[i].side is Ask ==> p > after.stops[i].trigger_price
            }
        }),
        ({
            let after = book.after_iceberg(iceberg, clock);
            let p = after.market.last_trade_price->0;
            after.market.last_trade_price is Some && 0 <= i < after.stops.len() ==> {
                &&& after.stops[i].side is Bid ==> p < after.stops[i].trigger_price
                &&& after.stops[i].side is Ask ==> p > after.stops[i].trigger_price
            }
        }),
{
    law_no_stop_is_left_behind(book, order, iceberg, clock);
    let limit = book.after_limit(order, clock);
    let slices = book.after_iceberg(iceberg, clock);
    if limit.market.last_trade_price is Some && 0 <= i < limit.stops.len() {
        assert(!limit.stops[i].goes_off_at(limit.market.last_trade_price->0));
    }
    if slices.market.last_trade_price is Some && 0 <= i < slices.stops.len() {
        assert(!slices.stops[i].goes_off_at(slices.market.last_trade_price->0));
    }
}

/// After a limit or iceberg order no stop order is due.
pub proof fn lemma_none_due_after(
    book: Book,
    order: Order,
    iceberg: IcebergOrder,
    clock: Seq<u64>,
)
    ensures
        ({
            let after = book.after_limit(order, clock);
            none_due(after.stops, after.market.last_trade_price)
        }),
        ({
            let after = book.after_iceberg(iceberg, clock);
            none_due(after.stops, after.market.last_trade_price)
        }),
{
    let limit = book.after_limit(order, clock);
    let slices = book.after_iceberg(iceberg, clock);
    assert forall|i: int|
        limit.market.last_trade_price is Some && 0 <= i < limit.stops.len() implies (
    (#[trigger] limit.stops[i]).side is Bid ==> limit.market.last_trade_price->0
        < limit.stops[i].trigger_price) && (limit.stops[i].side is Ask
        ==> limit.market.last_trade_price->0 > limit.stops[i].trigger_price) by {
        law_waiting_stops_in_numbers(book, order, iceberg, clock, i);
    }
    assert forall|i: int|
        slices.market.last_trade_price is Some && 0 <= i < slices.stops.len() implies (
    (#[trigger] slices.stops[i]).side is Bid ==> slices.market.last_trade_price->0
        < slices.stops[i].trigger_price) && (slices.stops[i].side is Ask
        ==> slices.market.last_trade_price->0 > slices.stops[i].trigger_price) by {
        law_waiting_stops_in_numbers(book, order, iceberg, clock, i);
    }
}

/// Law: if, once a limit or iceberg order has traded, the last trade price is at
/// the trigger of a waiting stop order or beyond, that order adds to the record
/// that it was set off. If it is at no trigger or beyond, the stop orders and
/// the market stay as they are.
pub proof fn law_due_stops_in_numbers(
    book: Book,
    order: Order,
    iceberg: IcebergOrder,
    clock: Seq<u64>,
    stop: StopOrder,
)
    requires
        book.stops.contains(stop),
    ensures
        ({
            let p = book.numbered().floor_after(
                book.adopt(order),
                clock,
            ).market.last_trade_price;
            p is Some && (stop.side is Bid && stop.trigger_price <= p->0 || stop.side is Ask && p->0
                <= stop.trigger_price) ==> adds(
                book.market.events,
                book.after_limit(order, clock).market.events,
                OrderEvent::StopTriggered(stop.id),
            )
        }),
        ({
            let p = book.hiding(iceberg).numbered().floor_after(
                book.first_slice(iceberg, reading(clock)),
                clock.drop_first(),
            ).market.last_trade_price;
            p is Some && (stop.side is Bid && stop.trigger_price <= p->0 || stop.side is Ask && p->0
                <= stop.trigger_price) ==> adds(
                book.market.events,
                book.after_iceberg(iceberg, clock).market.events,
                OrderEvent::StopTriggered(stop.id),
            )
        }),
{
    law_due_stop_goes_off(book, order, iceberg, clock, stop);
}

/// Law: where no stop order has its trigger at the last trade price or on its
/// near side, checking the stop orders changes nothing.
pub proof fn law_no_stop_goes_off_early(floor: Floor)
    requires
        none_due(floor.stops, floor.market.last_trade_price),
    ensures
        floor.check_stops() == floor,
{
    if let Some(price) = floor.market.last_trade_price {
        lemma_none_due(floor.stops, price);
    }
}

/// Law: where, once a limit or iceberg order has traded, no stop order has its
/// trigger at the last trade price or on its near side, that order's arrival is
/// all that happens: no stop order leaves, and the next id is one more.
pub proof fn law_arrival_alone_in_numbers(
    book: Book,
    order: Order,
    iceberg: IcebergOrder,
    clock: Seq<u64>,
)
    requires
        book.next_order_id < u64::MAX,
    ensures
        ({
            let after = book.after_limit(order, clock);
            let floor = book.numbered().floor_after(book.adopt(order), clock);
            &&& after.next_order_id == book.next_order_id + 1
            &&& none_due(book.stops, floor.market.last_trade_price) ==> after.market
                == floor.market && after.stops == book.stops
        }),
        ({
            let after = book.after_iceberg(iceberg, clock);
            let floor = book.hiding(iceberg).numbered().floor_after(
                book.first_slice(iceberg, reading(clock)),
                clock.drop_first(),
            );
            &&& after.next_order_id == book.next_order_id + 1
            &&& none_due(book.stops, floor.market.last_trade_price) ==> after.market
                == floor.market && after.stops == book.stops
        }),
{
    let limit = book.numbered().floor_after(book.adopt(order), clock);
    let slices = book.hiding(iceberg).numbered().floor_after(
        book.first_slice(iceberg, reading(clock)),
        clock.drop_first(),
    );
    if none_due(book.stops, limit.market.last_trade_price) {
        law_no_stop_goes_off_early(limit);
    }
    if none_due(book.stops, slices.market.last_trade_price) {
        law_no_stop_goes_off_early(slices);
    }
}

/// Whether there was no trade yet, or each stop order has its trigger beyond the
/// price of the last one: above it if it buys, below it if it sells.
pub open spec fn none_due(stops: Seq<StopOrder>, last_trade_price: Option<Price>) -> bool {
    last_trade_price matches Some(p) ==> forall|i: int|
        0 <= i < stops.len() ==> ((#[trigger] stops[i]).side is Bid ==> p < stops[i].trigger_price)
            && (stops[i].side is Ask ==> p > stops[i].trigger_price)
}

proof fn lemma_none_due(stops: Seq<StopOrder>, price: Price)
    requires
        forall|i: int| 0 <= i < stops.len() ==> !(#[trigger] stops[i]).goes_off_at(price),
    ensures
        set_off(stops, price).len() == 0,
    decreases stops.len(),
{
    reveal(Seq::filter);
    if stops.len() > 0 {
        assert(!stops[stops.len() - 1].goes_off_at(price));
        assert forall|i: int| 0 <= i < stops.drop_last().len() implies !(
        #[trigger] stops.drop_last()[i]).goes_off_at(price) by {
            assert(stops[i] == stops.drop_last()[i]);
        }
        lemma_none_due(stops.drop_last(), price);
    }
}

/// Law: a trade at a price parts the stop orders. One that comes later is set
/// off after the earlier ones if the price is at its trigger or beyond, and waits
/// on behind the earlier ones if not.
pub proof fn law_stops_part_in_numbers(stops: Seq<StopOrder>, stop: StopOrder, price: Price)
    ensures
        set_off(Seq::empty(), price).len() == 0,
        still_waiting(Seq::empty(), price).len() == 0,
        stop.side is Bid && stop.trigger_price <= price || stop.side is Ask && price
            <= stop.trigger_price ==> set_off(stops.push(stop), price) == set_off(
            stops,
            price,
        ).push(stop) && still_waiting(stops.push(stop), price) == still_waiting(stops, price),
        stop.side is Bid && stop.trigger_price > price || stop.side is Ask && price
            > stop.trigger_price ==> set_off(stops.push(stop), price) == set_off(stops, price)
            && still_waiting(stops.push(stop), price) == still_waiting(stops, price).push(stop),
{
    reveal(Seq::filter);
    assert(stops.push(stop).drop_last() =~= stops);
}

/// Law: stop orders go off in waves. Where those that are due at the last trade
/// price are `due`, and the others `early`, in the order in which they came, those
/// that are due are set off one after the other; and only then it is looked at the
/// last trade price again, for those that were too early.
pub proof fn law_stops_go_off_in_waves(
    floor: Floor,
    due: Seq<StopOrder>,
    early: Seq<StopOrder>,
    price: Price,
)
    requires
        floor.market.last_trade_price == Some(price),
        parted(floor.stops, due, early, price),
        due.len() > 0,
    ensures
        floor.check_stops() == (Floor { stops: early, ..floor }).fire_all(due).check_stops(),
        floor.fire_all(Seq::empty()) == floor,
        floor.fire_all(due) == floor.fire_all(due.drop_last()).fire(due.last()),
{
    lemma_parted_is(floor.stops, due, early, price);
    lemma_fire_all_from_the_end(floor, due);
}

/// Whether `due` are those of the stop orders that buy with a trigger of `price`
/// or less or sell with one of `price` or more, and `early` the others.
pub open spec fn parted(
    stops: Seq<StopOrder>,
    due: Seq<StopOrder>,
    early: Seq<StopOrder>,
    price: Price,
) -> bool
    decreases stops.len(),
{
    if stops.len() == 0 {
        due.len() == 0 && early.len() == 0
    } else {
        let last = stops.last();
        if last.side is Bid && last.trigger_price <= price || last.side is Ask
            && last.trigger_price >= price {
            due.len() > 0 && due.last() == last && parted(
                stops.drop_last(),
                due.drop_last(),
                early,
                price,
            )
        } else {
            early.len() > 0 && early.last() == last && parted(
                stops.drop_last(),
                due,
                early.drop_last(),
                price,
            )
        }
    }
}

proof fn lemma_parted_is(
    stops: Seq<StopOrder>,
    due: Seq<StopOrder>,
    early: Seq<StopOrder>,
    price: Price,
)
    requires
        parted(stops, due, early, price),
    ensures
        due == set_off(stops, price),
        early == still_waiting(stops, price),
    decreases stops.len(),
{
    if stops.len() == 0 {
        let any = StopOrder { id: 0, side: Side::Bid, trigger_price: 0, quantity: 0 };
        law_stops_part_in_numbers(stops, any, price);
        assert(stops =~= Seq::empty());
        assert(due =~= set_off(stops, price));
        assert(early =~= still_waiting(stops, price));
    } else {
        let fewer = stops.drop_last();
        let last = stops.last();
        assert(stops =~= fewer.push(last));
        law_stops_part_in_numbers(fewer, last, price);
        if last.goes_off_at(price) {
            lemma_parted_is(fewer, due.drop_last(), early, price);
            assert(due =~= due.drop_last().push(last));
        } else {
            lemma_parted_is(fewer, due, early.drop_last(), price);
            assert(early =~= early.drop_last().push(last));
        }
    }
}

proof fn lemma_fire_all_from_the_end(floor: Floor, stops: Seq<StopOrder>)
    requires
        stops.len() > 0,
    ensures
        floor.fire_all(stops) == floor.fire_all(stops.drop_last()).fire(stops.last()),
    decreases stops.len(),
{
    let fired = floor.fire(stops[0]);
    let rest = stops.drop_first();
    if stops.len() == 1 {
        assert(rest =~= Seq::empty());
        assert(stops.drop_last() =~= Seq::empty());
        assert(fired.fire_all(rest) == fired);
        assert(floor.fire_all(stops.drop_last()) == floor);
    } else {
        lemma_fire_all_from_the_end(fired, rest);
        assert(stops.drop_last().drop_first() =~= rest.drop_last());
        assert(stops.drop_last()[0] == stops[0]);
    }
}

/// Law: a stop order that is set off trades at any price. It trades what it is
/// for, or all that there is on the other side; its own side stays as it is; that
/// it was set off is recorded before its trades, and how much of it traded after
/// them.
pub proof fn law_fired_stop_in_numbers(floor: Floor, stop: StopOrder, next: OrderId)
    requires
        floor.market.well_formed(next),
        stop.id < next,
    ensures
        ({
            let market = floor.market;
            let after = floor.fire(stop).market;
            let n = market.events.len() as int;
            &&& goes_on(market.events, after.events)
            &&& after.events.len() > n
            &&& after.events[n] == OrderEvent::StopTriggered(stop.id)
            &&& stop.side is Bid ==> {
                let offer = market.asked_up_to(u64::MAX);
                &&& after.bids == market.bids
                &&& offer >= stop.quantity ==> offer - after.asked_up_to(u64::MAX) == stop.quantity
                &&& offer < stop.quantity ==> forall|p: Price| !#[trigger] after.asks.contains_key(
                    p,
                )
            }
            &&& stop.side is Ask ==> {
                let offer = market.bid_from(0);
                &&& after.asks == market.asks
                &&& offer >= stop.quantity ==> offer - after.bid_from(0) == stop.quantity
                &&& offer < stop.quantity ==> forall|p: Price| !#[trigger] after.bids.contains_key(
                    p,
                )
            }
            &&& floor.fire(stop).stops == floor.stops
            &&& ({
                let offer = match stop.side {
                    Side::Bid => market.asked_up_to(u64::MAX),
                    Side::Ask => market.bid_from(0),
                };
                let last = after.events.last();
                &&& offer >= stop.quantity ==> after.events.len() > n + 1 && last
                    == OrderEvent::OrderFullyFilled(stop.id)
                &&& 0 < offer < stop.quantity ==> {
                    &&& after.events.len() > n + 1
                    &&& last is OrderPartiallyFilled
                    &&& last->id == stop.id
                    &&& last->filled == offer
                }
                &&& offer == 0 && stop.quantity > 0 ==> after.events.len() == n + 1
            })
        }),
{
    let market = floor.market;
    let event = OrderEvent::StopTriggered(stop.id);
    let told = market.recording(event);
    let order = market_order_of(stop, reading(floor.clock));
    let clock = floor.clock.drop_first();
    let after = told.matched(order, clock).market;
    let n = market.events.len() as int;
    lemma_recording_keeps_well_formed(market, event, next);
    lemma_matched_goes_on(told, order, clock);
    lemma_matched_keeps_well_formed(told, order, clock, next);
    law_outcome_is_recorded(told, order, clock, next);
    assert(after.events.take(told.events.len() as int)[n] == told.events[n]);
    assert(after.events.take(n) =~= after.events.take(told.events.len() as int).take(n));
    assert(told.events.take(n) =~= market.events);
    law_order_trades_what_is_within_reach(told, order, clock, next);
    law_market_order_never_rests(told, order, clock, next);
    lemma_reach_is_on_offer(told, order.side, order.price);
    lemma_reach_is_on_offer(after, order.side, order.price);
    assert(told.on_offer(order.side, order.price) == market.on_offer(order.side, order.price));
}

/// Law: an order that comes in is recorded first, with what it came with, under
/// the id that the book gives it; a first slice as a limit order at the price of
/// its iceberg order.
pub proof fn law_arrival_is_recorded_first(
    book: Book,
    order: Order,
    iceberg: IcebergOrder,
    clock: Seq<u64>,
)
    requires
        book.well_formed(),
    ensures
        ({
            let events = book.after_limit(order, clock).market.events;
            let n = book.market.events.len() as int;
            &&& events.len() > n
            &&& forall|i: int| 0 <= i < n ==> #[trigger] events[i] == book.market.events[i]
            &&& events[n] is OrderPlaced
            &&& events[n]->OrderPlaced_0.order_id == book.next_order_id
            &&& events[n]->OrderPlaced_0.side == order.side
            &&& events[n]->OrderPlaced_0.order_type == order.order_type
            &&& events[n]->OrderPlaced_0.price == order.price
            &&& events[n]->OrderPlaced_0.original_quantity == order.original_quantity
            &&& events[n]->OrderPlaced_0.remaining_quantity == order.remaining_quantity
            &&& events[n]->OrderPlaced_0.status == order.status
            &&& events[n]->OrderPlaced_0.timestamp == order.timestamp
        }),
        ({
            let events = book.after_iceberg(iceberg, clock).market.events;
            let n = book.market.events.len() as int;
            &&& events.len() > n
            &&& forall|i: int| 0 <= i < n ==> #[trigger] events[i] == book.market.events[i]
            &&& events[n] is OrderPlaced
            &&& events[n]->OrderPlaced_0.order_id == book.next_order_id
            &&& events[n]->OrderPlaced_0.side == iceberg.side
            &&& events[n]->OrderPlaced_0.order_type is Limit
            &&& events[n]->OrderPlaced_0.price == iceberg.price
            &&& events[n]->OrderPlaced_0.status is Active
            &&& clock.len() > 0 ==> events[n]->OrderPlaced_0.timestamp == clock[0]
            &&& events[n]->OrderPlaced_0.original_quantity
                == events[n]->OrderPlaced_0.remaining_quantity
            &&& events[n]->OrderPlaced_0.original_quantity <= iceberg.visible_quantity
            &&& events[n]->OrderPlaced_0.original_quantity <= iceberg.remaining
            &&& events[n]->OrderPlaced_0.original_quantity == iceberg.visible_quantity
                || events[n]->OrderPlaced_0.original_quantity == iceberg.remaining
        }),
{
    let any = StopOrder { id: 0, side: Side::Bid, trigger_price: 0, quantity: 0 };
    let n = book.market.events.len() as int;
    law_record_only_grows(book, order, iceberg, any, clock);
    let limit = book.after_limit(order, clock).market.events;
    let slices = book.after_iceberg(iceberg, clock).market.events;
    let placed = book.market.events.push(OrderEvent::OrderPlaced(book.adopt(order)));
    let sliced = book.market.events.push(
        OrderEvent::OrderPlaced(book.first_slice(iceberg, reading(clock))),
    );
    assert(limit.take(n + 1) == placed);
    assert(slices.take(n + 1) == sliced);
    assert(limit[n] == limit.take(n + 1)[n]);
    assert(slices[n] == slices.take(n + 1)[n]);
    assert forall|i: int| 0 <= i < n implies #[trigger] limit[i] == book.market.events[i] by {
        assert(limit[i] == limit.take(n + 1)[i]);
    }
    assert forall|i: int| 0 <= i < n implies #[trigger] slices[i] == book.market.events[i] by {
        assert(slices[i] == slices.take(n + 1)[i]);
    }
}

/// Law: in a new book nothing rests, nothing has happened, no stop order waits
/// and nothing is hidden, and its first order gets the id 1.
pub proof fn law_new_book_is_empty()
    ensures
        ({
            let book = Book::empty();
            &&& forall|p: Price| !#[trigger] book.market.bids.contains_key(p)
            &&& forall|p: Price| !#[trigger] book.market.asks.contains_key(p)
            &&& forall|id: OrderId| !#[trigger] book.market.icebergs.contains_key(id)
            &&& book.market.events.len() == 0
            &&& book.market.last_trade_price is None
            &&& book.stops.len() == 0
            &&& book.next_order_id == 1
        }),
{
}

} // verus!
