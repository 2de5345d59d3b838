//! What holds of the event-recording book at any time, and that it stays so.

use super::model::{reading, set_off, still_waiting, Book, Market, Matching};
use crate::book_side::level_at;
use crate::event::OrderEvent;
use crate::ladder::{best, is_best, lemma_best_exists};
use crate::order::{min_quantity, Order};
use crate::price_level::Level;
use crate::stop_order::StopOrder;
use crate::types::{OrderId, OrderType, Price, Side};
use vstd::prelude::*;

verus! {

impl Market {
    /// Whether `order` is in order as one that rests at `price` on `side`, in
    /// a book that has handed out the ids below `next`.
    pub open spec fn order_fits(
        self,
        order: Order,
        side: Side,
        price: Price,
        next: OrderId,
    ) -> bool {
        &&& order.side == side
        &&& order.price == price
        &&& order.order_type == OrderType::Limit
        &&& order.remaining_quantity > 0
        &&& order.order_id < next
        &&& self.icebergs.contains_key(order.order_id) ==> order.remaining_quantity
            <= self.icebergs[order.order_id].visible_quantity
    }

    /// Whether `level` is in order as the level at `price` on `side`.
    pub open spec fn level_fits(
        self,
        level: Level,
        side: Side,
        price: Price,
        next: OrderId,
    ) -> bool {
        &&& level.price == price
        &&& level.orders.len() > 0
        &&& forall|i: int|
            0 <= i < level.orders.len() ==> self.order_fits(
                #[trigger] level.orders[i],
                side,
                price,
                next,
            )
    }

    /// Whether position `i` of the queue at `price` on `side` is taken.
    pub open spec fn taken(self, side: Side, price: Price, i: int) -> bool {
        self.side(side).contains_key(price) && 0 <= i < self.side(side)[price].orders.len()
    }

    /// The id of the order at position `i` of the queue at `price` on `side`.
    pub open spec fn id_at(self, side: Side, price: Price, i: int) -> OrderId {
        self.side(side)[price].orders[i].order_id
    }

    /// Whether no two resting orders have the same id.
    pub open spec fn ids_distinct(self) -> bool {
        forall|s: Side, p: Price, i: int, t: Side, q: Price, j: int|
            #![trigger self.taken(s, p, i), self.taken(t, q, j)]
            self.taken(s, p, i) && self.taken(t, q, j) && self.id_at(s, p, i) == self.id_at(t, q, j)
                ==> s == t && p == q && i == j
    }

    /// Whether the levels are in order.
    pub open spec fn sound(self, next: OrderId) -> bool {
        &&& self.bids.dom().finite()
        &&& self.asks.dom().finite()
        &&& self.icebergs.dom().finite()
        &&& forall|side: Side, price: Price| #[trigger]
            self.side(side).contains_key(price) ==> self.level_fits(
                self.side(side)[price],
                side,
                price,
                next,
            )
        &&& forall|id: OrderId| #[trigger] self.icebergs.contains_key(id) ==> id < next
        &&& self.ids_distinct()
    }

    /// Whether every bid is below every ask, so that nothing is left to trade.
    pub open spec fn uncrossed(self) -> bool {
        forall|bid: Price, ask: Price|
            #![trigger self.bids.contains_key(bid), self.asks.contains_key(ask)]
            self.bids.contains_key(bid) && self.asks.contains_key(ask) ==> bid < ask
    }

    /// What holds of a market at any time.
    pub open spec fn well_formed(self, next: OrderId) -> bool {
        self.sound(next) && self.uncrossed()
    }

    /// Whether order `id` rests somewhere.
    pub open spec fn rests(self, id: OrderId) -> bool {
        exists|side: Side, price: Price, i: int| #[trigger]
            self.taken(side, price, i) && self.id_at(side, price, i) == id
    }
}

impl Book {
    /// What holds of a book at any time.
    pub open spec fn well_formed(self) -> bool {
        &&& self.market.well_formed(self.next_order_id)
        &&& numbered_below(self.stops, self.next_order_id)
        &&& 1 <= self.next_order_id
    }
}

/// Whether all of the stop orders have ids below `next`.
pub open spec fn numbered_below(stops: Seq<StopOrder>, next: OrderId) -> bool {
    forall|i: int| 0 <= i < stops.len() ==> (#[trigger] stops[i]).id < next
}

/// The best price, where there is one, is one of the prices.
pub proof fn lemma_best_is_one(prices: Set<Price>, side: Side)
    ensures
        best(prices, side) matches Some(price) ==> is_best(prices, side, price),
{
}

/// Another queue at a price keeps the market sound, if it is made of orders
/// that rested there before. `from` tells where each of them stood.
proof fn lemma_requeue_keeps_sound(
    market: Market,
    after: Market,
    next: OrderId,
    side: Side,
    price: Price,
    orders: Seq<Order>,
    from: Seq<int>,
)
    requires
        market.sound(next),
        market.side(side).contains_key(price),
        after.bids == market.with_queue(side, price, orders).bids,
        after.asks == market.with_queue(side, price, orders).asks,
        after.icebergs.dom() =~= market.icebergs.dom(),
        forall|id: OrderId| #[trigger]
            market.icebergs.contains_key(id) ==> after.icebergs[id].visible_quantity
                == market.icebergs[id].visible_quantity,
        from.len() == orders.len(),
        forall|i: int|
            0 <= i < orders.len() ==> {
                &&& 0 <= #[trigger] from[i] < market.side(side)[price].orders.len()
                &&& orders[i].order_id == market.side(side)[price].orders[from[i]].order_id
                &&& orders[i].side == side
                &&& orders[i].price == price
                &&& orders[i].order_type == OrderType::Limit
                &&& orders[i].remaining_quantity > 0
                &&& market.icebergs.contains_key(orders[i].order_id)
                    ==> orders[i].remaining_quantity
                    <= market.icebergs[orders[i].order_id].visible_quantity
            },
        forall|i: int, j: int| 0 <= i < j < from.len() ==> #[trigger] from[i] != #[trigger] from[j],
    ensures
        after.sound(next),
        after.side(side.other()) == market.side(side.other()),
        after.side(side).dom().subset_of(market.side(side).dom()),
        forall|id: OrderId| #[trigger] after.rests(id) ==> market.rests(id),
{
    let old_queue = market.side(side)[price].orders;
    assert(market.level_fits(market.side(side)[price], side, price, next));
    assert(after.side(side) == market.with_queue(side, price, orders).side(side));
    assert forall|s: Side, p: Price| #[trigger]
        after.side(s).contains_key(p) implies after.level_fits(after.side(s)[p], s, p, next) by {
        assert(market.side(s).contains_key(p));
        assert(market.level_fits(market.side(s)[p], s, p, next));
        let queue = after.side(s)[p].orders;
        assert forall|i: int| 0 <= i < queue.len() implies after.order_fits(
            #[trigger] queue[i],
            s,
            p,
            next,
        ) by {
            if s == side && p == price {
                assert(market.order_fits(old_queue[from[i]], s, p, next));
            } else {
                assert(market.order_fits(market.side(s)[p].orders[i], s, p, next));
            }
        }
    }
    lemma_requeue_moves_orders(market, after, side, price, orders, from);
}

/// With another queue at a price, every order of which rested there before,
/// no two orders have the same id.
proof fn lemma_requeue_moves_orders(
    market: Market,
    after: Market,
    side: Side,
    price: Price,
    orders: Seq<Order>,
    from: Seq<int>,
)
    requires
        market.ids_distinct(),
        market.side(side).contains_key(price),
        after.bids == market.with_queue(side, price, orders).bids,
        after.asks == market.with_queue(side, price, orders).asks,
        from.len() == orders.len(),
        forall|i: int|
            0 <= i < orders.len() ==> {
                &&& 0 <= #[trigger] from[i] < market.side(side)[price].orders.len()
                &&& orders[i].order_id == market.side(side)[price].orders[from[i]].order_id
            },
        forall|i: int, j: int| 0 <= i < j < from.len() ==> #[trigger] from[i] != #[trigger] from[j],
    ensures
        after.ids_distinct(),
        forall|id: OrderId| #[trigger] after.rests(id) ==> market.rests(id),
{
    let origin = |s: Side, p: Price, i: int|
        if s == side && p == price {
            from[i]
        } else {
            i
        };
    assert(after.side(side) == market.with_queue(side, price, orders).side(side));
    assert(after.side(side.other()) == market.side(side.other()));
    assert forall|s: Side, p: Price, i: int| #[trigger] after.taken(s, p, i) implies market.taken(
        s,
        p,
        origin(s, p, i),
    ) && market.id_at(s, p, origin(s, p, i)) == after.id_at(s, p, i) by {
        if s == side && p == price {
            assert(after.side(s)[p].orders == orders);
            assert(0 <= from[i]);
        } else {
            assert(after.side(s)[p] == market.side(s)[p]);
        }
    }
    assert forall|s: Side, p: Price, i: int, t: Side, q: Price, j: int|
        #![trigger after.taken(s, p, i), after.taken(t, q, j)]
        after.taken(s, p, i) && after.taken(t, q, j) && after.id_at(s, p, i) == after.id_at(
            t,
            q,
            j,
        ) implies s == t && p == q && i == j by {
        assert(market.taken(s, p, origin(s, p, i)));
        assert(market.taken(t, q, origin(t, q, j)));
        assert(s == t && p == q && origin(s, p, i) == origin(t, q, j));
        if s == side && p == price {
            assert(from[i] == from[j]);
        }
    }
    assert forall|id: OrderId| #[trigger] after.rests(id) implies market.rests(id) by {
        let (s, p, i) = choose|s: Side, p: Price, i: int| #[trigger]
            after.taken(s, p, i) && after.id_at(s, p, i) == id;
        assert(market.taken(s, p, origin(s, p, i)));
    }
}

/// One trade keeps the market sound.
pub proof fn lemma_step_keeps_sound(matching: Matching, next: OrderId)
    requires
        matching.market.sound(next),
        matching.ready(),
    ensures
        matching.step().market.sound(next),
        matching.step().market.side(matching.taker.side) == matching.market.side(
            matching.taker.side,
        ),
        matching.step().market.side(matching.taker.side.other()).dom().subset_of(
            matching.market.side(matching.taker.side.other()).dom(),
        ),
        forall|id: OrderId| #[trigger]
            matching.step().market.rests(id) ==> matching.market.rests(id),
        matching.step().market.icebergs.dom() =~= matching.market.icebergs.dom(),
        matching.taker.remaining_quantity > matching.step().taker.remaining_quantity,
{
    let market = matching.market;
    let after = matching.step().market;
    let side = matching.taker.side.other();
    let price = matching.best_price()->0;
    lemma_best_is_one(market.side(side).dom(), side);
    assert(market.side(side).contains_key(price));
    let level = market.side(side)[price];
    assert(market.level_fits(level, side, price, next));
    let resting = level.orders[0];
    let rest = level.orders.drop_first();
    assert(market.order_fits(resting, side, price, next));
    assert forall|i: int| 0 <= i < rest.len() implies market.order_fits(
        #[trigger] rest[i],
        side,
        price,
        next,
    ) by {
        assert(rest[i] == level.orders[i + 1]);
    }
    let quantity = min_quantity(
        resting.remaining_quantity,
        matching.taker.remaining_quantity,
    );
    let met = resting.filled_by(quantity);
    let id = resting.order_id;
    if met.remaining_quantity > 0 {
        let orders = seq![met] + rest;
        let from = Seq::new(orders.len(), |i: int| i);
        lemma_requeue_keeps_sound(market, after, next, side, price, orders, from);
    } else if market.icebergs.contains_key(id) && market.icebergs[id].remaining > 0 {
        let slice = min_quantity(
            market.icebergs[id].visible_quantity,
            market.icebergs[id].remaining,
        );
        let refill = Order::fresh(
            id,
            resting.side,
            OrderType::Limit,
            resting.price,
            slice,
            reading(matching.clock),
        );
        let orders = rest.push(refill);
        let from = Seq::new(
            orders.len(),
            |i: int|
                if i < rest.len() {
                    i + 1
                } else {
                    0
                },
        );
        lemma_requeue_keeps_sound(market, after, next, side, price, orders, from);
    } else {
        let from = Seq::new(rest.len(), |i: int| i + 1);
        lemma_requeue_keeps_sound(market, after, next, side, price, rest, from);
    }
}

/// Trading as long as possible keeps the market sound.
pub proof fn lemma_run_keeps_sound(matching: Matching, next: OrderId)
    requires
        matching.market.sound(next),
    ensures
        matching.run().market.sound(next),
        !matching.run().ready(),
        matching.run().market.side(matching.taker.side) == matching.market.side(
            matching.taker.side,
        ),
        matching.run().market.side(matching.taker.side.other()).dom().subset_of(
            matching.market.side(matching.taker.side.other()).dom(),
        ),
        forall|id: OrderId| #[trigger]
            matching.run().market.rests(id) ==> matching.market.rests(id),
        matching.run().market.icebergs.dom() =~= matching.market.icebergs.dom(),
        forall|id: OrderId| #[trigger]
            matching.market.icebergs.contains_key(id)
                ==> matching.run().market.icebergs[id].visible_quantity
                == matching.market.icebergs[id].visible_quantity,
        matching.run().taker.remaining_quantity <= matching.taker.remaining_quantity,
        matching.run().taker == (Order {
            remaining_quantity: matching.run().taker.remaining_quantity,
            status: matching.run().taker.status,
            ..matching.taker
        }),
    decreases matching.taker.remaining_quantity,
{
    if matching.ready() {
        lemma_step_keeps_sound(matching, next);
        lemma_run_keeps_sound(matching.step(), next);
    }
}

/// Where nothing more is to trade and something of the incoming order is left,
/// nothing rests at a price that it accepts.
pub proof fn lemma_not_ready_means_out_of_reach(matching: Matching, next: OrderId)
    requires
        matching.market.sound(next),
        !matching.ready(),
        matching.taker.remaining_quantity > 0,
    ensures
        forall|price: Price| #[trigger]
            matching.market.side(matching.taker.side.other()).contains_key(price)
                ==> !matching.taker.side.accepts(matching.taker.price, price),
{
    let side = matching.taker.side.other();
    let levels = matching.market.side(side);
    assert forall|price: Price| #[trigger]
        levels.contains_key(price) implies !matching.taker.side.accepts(
        matching.taker.price,
        price,
    ) by {
        assert(levels.dom().finite());
        assert(levels.dom().contains(price));
        assert(levels.dom().len() > 0) by {
            if levels.dom().len() == 0 {
                assert(levels.dom() =~= Set::empty());
            }
        }
        lemma_best_exists(levels.dom(), side);
        let first = matching.best_price()->0;
        assert(levels.contains_key(first));
        assert(matching.market.level_fits(levels[first], side, first, next));
        assert(matching.market.order_fits(levels[first].orders[0], side, first, next));
        assert(!side.prefers(price, first));
    }
}

/// An order whose price nothing on the other side reaches may come to rest.
proof fn lemma_rest_keeps_well_formed(market: Market, order: Order, next: OrderId)
    requires
        market.well_formed(next),
        order.order_type == OrderType::Limit,
        order.remaining_quantity > 0,
        order.order_id < next,
        !market.rests(order.order_id),
        market.icebergs.contains_key(order.order_id) ==> order.remaining_quantity
            <= market.icebergs[order.order_id].visible_quantity,
        forall|price: Price| #[trigger]
            market.side(order.side.other()).contains_key(price) ==> !order.side.accepts(
                order.price,
                price,
            ),
    ensures
        market.with_resting(order).well_formed(next),
        forall|id: OrderId| #[trigger]
            market.with_resting(order).rests(id) ==> market.rests(id) || id == order.order_id,
{
    let after = market.with_resting(order);
    let side = order.side;
    let price = order.price;
    let joined = level_at(market.side(side), price);
    assert(after.side(side) =~= market.side(side).insert(price, joined.pushed(order)));
    assert(after.side(side.other()) == market.side(side.other()));
    assert forall|s: Side, p: Price| #[trigger]
        after.side(s).contains_key(p) implies after.level_fits(after.side(s)[p], s, p, next) by {
        if market.side(s).contains_key(p) {
            assert(market.level_fits(market.side(s)[p], s, p, next));
        }
        let queue = after.side(s)[p].orders;
        assert forall|i: int| 0 <= i < queue.len() implies after.order_fits(
            #[trigger] queue[i],
            s,
            p,
            next,
        ) by {
            if s == side && p == price && i == joined.orders.len() {
            } else {
                assert(market.side(s).contains_key(p));
                assert(market.order_fits(market.side(s)[p].orders[i], s, p, next));
            }
        }
    }
    assert forall|s: Side, p: Price, i: int| #[trigger] after.taken(s, p, i) implies {
        if s == side && p == price && i == joined.orders.len() {
            after.id_at(s, p, i) == order.order_id
        } else {
            market.taken(s, p, i) && market.id_at(s, p, i) == after.id_at(s, p, i)
                && after.id_at(s, p, i) != order.order_id
        }
    } by {
        if s == side && p == price && i == joined.orders.len() {
        } else {
            assert(market.taken(s, p, i));
            assert(market.rests(market.id_at(s, p, i)));
        }
    }
    assert(after.ids_distinct());
    assert forall|id: OrderId| #[trigger] after.rests(id) implies market.rests(id) || id
        == order.order_id by {
        let (s, p, i) = choose|s: Side, p: Price, i: int| #[trigger]
            after.taken(s, p, i) && after.id_at(s, p, i) == id;
        if id != order.order_id {
            assert(market.taken(s, p, i));
        }
    }
    assert forall|bid: Price, ask: Price|
        #![trigger after.bids.contains_key(bid), after.asks.contains_key(ask)]
        after.bids.contains_key(bid) && after.asks.contains_key(ask) implies bid < ask by {
        match side {
            Side::Bid => {
                assert(market.side(Side::Ask).contains_key(ask));
                if bid != price {
                    assert(market.bids.contains_key(bid));
                }
            },
            Side::Ask => {
                assert(market.side(Side::Bid).contains_key(bid));
                if ask != price {
                    assert(market.asks.contains_key(ask));
                }
            },
        }
    }
}

/// Recording an event changes nothing of what must hold.
pub proof fn lemma_recording_keeps_well_formed(
    market: Market,
    event: OrderEvent,
    next: OrderId,
)
    requires
        market.well_formed(next),
    ensures
        market.recording(event).well_formed(next),
        forall|id: OrderId| #[trigger] market.recording(event).rests(id) ==> market.rests(id),
{
    let after = market.recording(event);
    lemma_same_levels_keep_well_formed(market, after, next, next);
}

/// Whether a market is well formed rests on its levels and iceberg orders,
/// and on the ids that were handed out.
pub proof fn lemma_same_levels_keep_well_formed(
    market: Market,
    after: Market,
    next: OrderId,
    later: OrderId,
)
    requires
        market.well_formed(next),
        next <= later,
        after.bids == market.bids,
        after.asks == market.asks,
        after.icebergs.dom().finite(),
        forall|id: OrderId| #[trigger] after.icebergs.contains_key(id) ==> id < later,
        forall|id: OrderId| #[trigger]
            after.icebergs.contains_key(id) && id < next ==> market.icebergs.contains_key(id)
                && after.icebergs[id].visible_quantity == market.icebergs[id].visible_quantity,
    ensures
        after.well_formed(later),
        forall|id: OrderId| #[trigger] after.rests(id) ==> market.rests(id),
{
    assert(forall|s: Side| after.side(s) == market.side(s));
    assert forall|s: Side, p: Price| #[trigger]
        after.side(s).contains_key(p) implies after.level_fits(after.side(s)[p], s, p, later) by {
        assert(market.side(s).contains_key(p));
        let level = market.side(s)[p];
        assert(market.level_fits(level, s, p, next));
        assert forall|i: int| 0 <= i < level.orders.len() implies after.order_fits(
            #[trigger] level.orders[i],
            s,
            p,
            later,
        ) by {
            assert(market.order_fits(level.orders[i], s, p, next));
        }
    }
    assert forall|s: Side, p: Price, i: int| #[trigger] after.taken(s, p, i) implies market.taken(
        s,
        p,
        i,
    ) && market.id_at(s, p, i) == after.id_at(s, p, i) by {}
    assert forall|id: OrderId| #[trigger] after.rests(id) implies market.rests(id) by {
        let (s, p, i) = choose|s: Side, p: Price, i: int| #[trigger]
            after.taken(s, p, i) && after.id_at(s, p, i) == id;
        assert(market.taken(s, p, i));
    }
    assert forall|bid: Price, ask: Price|
        #![trigger after.bids.contains_key(bid), after.asks.contains_key(ask)]
        after.bids.contains_key(bid) && after.asks.contains_key(ask) implies bid < ask by {
        assert(market.bids.contains_key(bid) && market.asks.contains_key(ask));
    }
}

/// An order may come in under an id that no resting order has.
pub proof fn lemma_matched_keeps_well_formed(
    market: Market,
    order: Order,
    clock: Seq<u64>,
    next: OrderId,
)
    requires
        market.well_formed(next),
        order.order_id < next,
        order.order_type == OrderType::Limit ==> !market.rests(order.order_id),
        order.order_type == OrderType::Limit && market.icebergs.contains_key(order.order_id)
            ==> order.remaining_quantity <= market.icebergs[order.order_id].visible_quantity,
    ensures
        market.matched(order, clock).market.well_formed(next),
        market.matched(order, clock).taker.remaining_quantity <= order.remaining_quantity,
        forall|id: OrderId| #[trigger]
            market.matched(order, clock).market.rests(id) ==> market.rests(id) || order.order_type
                == OrderType::Limit && id == order.order_id,
{
    let begun = Matching { market, taker: order, clock };
    lemma_run_keeps_sound(begun, next);
    let ran = begun.run();
    assert forall|bid: Price, ask: Price|
        #![trigger ran.market.bids.contains_key(bid), ran.market.asks.contains_key(ask)]
        ran.market.bids.contains_key(bid) && ran.market.asks.contains_key(ask) implies bid
        < ask by {
        assert(market.bids.contains_key(bid) && market.asks.contains_key(ask));
    }
    let id = order.order_id;
    if ran.taker.remaining_quantity > 0 {
        lemma_not_ready_means_out_of_reach(ran, next);
        let event = OrderEvent::OrderPartiallyFilled { id, filled: ran.filled() };
        let told = if ran.filled() > 0 {
            ran.market.recording(event)
        } else {
            ran.market
        };
        lemma_recording_keeps_well_formed(ran.market, event, next);
        if order.order_type == OrderType::Limit {
            assert(told.side(order.side.other()) == ran.market.side(order.side.other()));
            lemma_rest_keeps_well_formed(told, ran.taker, next);
        }
    } else {
        lemma_recording_keeps_well_formed(
            ran.market,
            OrderEvent::OrderFullyFilled(id),
            next,
        );
    }
}

/// Stop orders that are set off or wait on were waiting before.
pub proof fn lemma_stops_stay_numbered(stops: Seq<StopOrder>, price: Price, next: OrderId)
    requires
        numbered_below(stops, next),
    ensures
        numbered_below(set_off(stops, price), next),
        numbered_below(still_waiting(stops, price), next),
{
    let hit = set_off(stops, price);
    let rest = still_waiting(stops, price);
    assert forall|i: int| 0 <= i < hit.len() implies (#[trigger] hit[i]).id < next by {
        stops.lemma_filter_contains_rev(|stop: StopOrder| stop.goes_off_at(price), hit[i]);
        let k = stops.index_of(hit[i]);
        assert(stops[k].id < next);
    }
    assert forall|i: int| 0 <= i < rest.len() implies (#[trigger] rest[i]).id < next by {
        stops.lemma_filter_contains_rev(|stop: StopOrder| !stop.goes_off_at(price), rest[i]);
        let k = stops.index_of(rest[i]);
        assert(stops[k].id < next);
    }
}

} // verus!
