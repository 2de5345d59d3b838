//! The laws of the event-recording book.

use super::model::{
    lemma_fire_all_keeps_stops, lemma_stops_part, market_order_of, reading, set_off, still_waiting,
    Book, Floor, Market, Matching,
};
use super::soundness::{
    lemma_best_is_one, lemma_not_ready_means_out_of_reach, lemma_run_keeps_sound,
    lemma_step_keeps_sound,
};
use crate::book_side::{level_at, unstamped_levels};
use crate::event::OrderEvent;
use crate::iceberg::IcebergOrder;
use crate::ladder::{best, is_best};
use crate::order::{min_quantity, Order};
use crate::price_level::{lemma_queue_quantity_push, queue_quantity, Level};
use crate::stop_order::StopOrder;
use crate::tally::{
    lemma_total_insert, lemma_total_of_one, lemma_total_remove, lemma_total_same, resting_quantity,
    total,
};
use crate::types::{OrderId, OrderType, Price, Side};
use vstd::prelude::*;

verus! {

/// Law: the best bid is below the best ask.
pub proof fn law_best_bid_below_best_ask(book: Book)
    requires
        book.well_formed(),
        best(book.market.bids.dom(), Side::Bid) is Some,
        best(book.market.asks.dom(), Side::Ask) is Some,
    ensures
        best(book.market.bids.dom(), Side::Bid)->0 < best(book.market.asks.dom(), Side::Ask)->0,
{
    lemma_best_is_one(book.market.bids.dom(), Side::Bid);
    lemma_best_is_one(book.market.asks.dom(), Side::Ask);
    let bid = best(book.market.bids.dom(), Side::Bid)->0;
    let ask = best(book.market.asks.dom(), Side::Ask)->0;
    assert(book.market.bids.contains_key(bid) && book.market.asks.contains_key(ask));
}

/// Law: the book gives no id away twice. No order rests under the id that the
/// next order gets, no iceberg order has it, and no stop order waits under it.
pub proof fn law_ids_are_new(book: Book)
    requires
        book.well_formed(),
    ensures
        !book.market.rests(book.next_order_id),
        !book.market.icebergs.contains_key(book.next_order_id),
        forall|i: int|
            0 <= i < book.stops.len() ==> (#[trigger] book.stops[i]).id != book.next_order_id,
{
    let id = book.next_order_id;
    if book.market.rests(id) {
        let (s, p, i) = choose|s: Side, p: Price, i: int| #[trigger]
            book.market.taken(s, p, i) && book.market.id_at(s, p, i) == id;
        let level = book.market.side(s)[p];
        assert(book.market.level_fits(level, s, p, id));
        assert(book.market.order_fits(level.orders[i], s, p, id));
    }
}

/// Law: of an iceberg order, never more than its visible quantity shows.
pub proof fn law_only_the_visible_part_shows(book: Book, side: Side, price: Price, i: int)
    requires
        book.well_formed(),
        book.market.taken(side, price, i),
        book.market.icebergs.contains_key(book.market.id_at(side, price, i)),
    ensures
        book.market.side(side)[price].orders[i].remaining_quantity
            <= book.market.icebergs[book.market.id_at(side, price, i)].visible_quantity,
{
    let level = book.market.side(side)[price];
    assert(book.market.level_fits(level, side, price, book.next_order_id));
    assert(book.market.order_fits(level.orders[i], side, price, book.next_order_id));
}

/// Law: every trade is at the best price of the other side, which the incoming
/// order accepts, and with the order that has waited there longest. Both lose
/// the same quantity, which is as much as both have.
pub proof fn law_trade_is_at_the_best_price(matching: Matching)
    requires
        matching.ready(),
    ensures
        is_best(
            matching.market.side(matching.taker.side.other()).dom(),
            matching.taker.side.other(),
            matching.best_price()->0,
        ),
        matching.taker.side.accepts(matching.taker.price, matching.best_price()->0),
        matching.step().market.last_trade_price == matching.best_price(),
        matching.step().taker == matching.taker.filled_by(matching.best_queue()[0].remaining_quantity),
        forall|price: Price| #[trigger]
            matching.market.side(matching.taker.side.other()).contains_key(price) && price
                != matching.best_price()->0 ==> matching.step().market.side(
                matching.taker.side.other(),
            ).contains_key(price) && matching.step().market.side(
                matching.taker.side.other(),
            )[price] == matching.market.side(matching.taker.side.other())[price],
{
    let side = matching.taker.side.other();
    lemma_best_is_one(matching.market.side(side).dom(), side);
}

/// Law: a resting order that is met but not filled keeps its place.
pub proof fn law_partial_fill_keeps_the_place(matching: Matching)
    requires
        matching.ready(),
        matching.best_queue()[0].remaining_quantity > matching.taker.remaining_quantity,
    ensures
        matching.step().market.side(matching.taker.side.other()).contains_key(
            matching.best_price()->0,
        ),
        matching.step().market.side(
            matching.taker.side.other(),
        )[matching.best_price()->0].orders == matching.best_queue().update(
            0,
            matching.best_queue()[0].filled_by(matching.taker.remaining_quantity),
        ),
        matching.step().taker.remaining_quantity == 0,
{
    let queue = matching.best_queue();
    let met = queue[0].filled_by(matching.taker.remaining_quantity);
    assert(seq![met] + queue.drop_first() =~= queue.update(0, met));
}

/// Law: an iceberg order whose slice is filled shows its next slice at the end
/// of the queue, where everyone else keeps their order. The slice is taken
/// from what is hidden.
pub proof fn law_next_slice_queues_again(matching: Matching)
    requires
        matching.ready(),
        matching.best_queue()[0].remaining_quantity <= matching.taker.remaining_quantity,
        matching.market.icebergs.contains_key(matching.best_queue()[0].order_id),
        matching.market.icebergs[matching.best_queue()[0].order_id].remaining > 0,
    ensures
        ({
            let resting = matching.best_queue()[0];
            let iceberg = matching.market.icebergs[resting.order_id];
            let after = matching.step().market;
            let queue = after.side(matching.taker.side.other())[matching.best_price()->0].orders;
            let slice = queue.last();
            &&& queue.drop_last() == matching.best_queue().drop_first()
            &&& slice.order_id == resting.order_id
            &&& slice.side == resting.side
            &&& slice.price == resting.price
            &&& slice.remaining_quantity == min_quantity(
                iceberg.visible_quantity,
                iceberg.remaining,
            )
            &&& after.icebergs[resting.order_id].remaining == iceberg.remaining
                - slice.remaining_quantity
        }),
{
    let rest = matching.best_queue().drop_first();
    let side = matching.taker.side.other();
    let queue = matching.step().market.side(side)[matching.best_price()->0].orders;
    assert(queue.drop_last() =~= rest);
}

/// Law: a filled order that hides nothing leaves the queue, and everyone else
/// moves up.
pub proof fn law_filled_order_leaves_the_queue(matching: Matching)
    requires
        matching.ready(),
        matching.best_queue()[0].remaining_quantity <= matching.taker.remaining_quantity,
        matching.market.icebergs.contains_key(matching.best_queue()[0].order_id)
            ==> matching.market.icebergs[matching.best_queue()[0].order_id].remaining == 0,
    ensures
        matching.step().market.side(matching.taker.side.other()).contains_key(
            matching.best_price()->0,
        ) <==> matching.best_queue().len() > 1,
        matching.best_queue().len() > 1 ==> matching.step().market.side(
            matching.taker.side.other(),
        )[matching.best_price()->0].orders == matching.best_queue().drop_first(),
{
}

/// Law: what is left of a limit order rests at its price, behind everyone who
/// rested there before.
pub proof fn law_rest_of_limit_order_rests(
    market: Market,
    order: Order,
    clock: Seq<u64>,
    next: OrderId,
)
    requires
        market.well_formed(next),
        order.order_type == OrderType::Limit,
        market.matched(order, clock).taker.remaining_quantity > 0,
    ensures
        ({
            let after = market.matched(order, clock);
            after.market.side(order.side) == market.side(order.side).insert(
                order.price,
                level_at(market.side(order.side), order.price).pushed(after.taker),
            )
        }),
        market.matched(order, clock).taker == (Order {
            remaining_quantity: market.matched(order, clock).taker.remaining_quantity,
            status: market.matched(order, clock).taker.status,
            ..order
        }),
        market.matched(order, clock).taker.remaining_quantity <= order.remaining_quantity,
{
    lemma_run_keeps_sound(Matching { market, taker: order, clock }, next);
}

/// Law: a market order never rests, and neither does an order that is filled.
pub proof fn law_market_order_never_rests(
    market: Market,
    order: Order,
    clock: Seq<u64>,
    next: OrderId,
)
    requires
        market.well_formed(next),
        order.order_type == OrderType::Market || market.matched(
            order,
            clock,
        ).taker.remaining_quantity == 0,
    ensures
        market.matched(order, clock).market.side(order.side) == market.side(order.side),
{
    lemma_run_keeps_sound(Matching { market, taker: order, clock }, next);
}

/// Law: an order that accepts no price of the other side trades nothing. A
/// limit order then comes to rest as it is, and nothing is recorded.
pub proof fn law_order_out_of_reach_only_rests(market: Market, order: Order, clock: Seq<u64>)
    requires
        order.order_type == OrderType::Limit,
        0 < order.remaining_quantity == order.original_quantity,
        forall|price: Price| #[trigger]
            market.side(order.side.other()).contains_key(price) ==> !order.side.accepts(
                order.price,
                price,
            ),
    ensures
        market.matched(order, clock).market == market.with_resting(order),
        market.matched(order, clock).taker == order,
{
    let side = order.side.other();
    let begun = Matching { market, taker: order, clock };
    lemma_best_is_one(market.side(side).dom(), side);
    if let Some(price) = begun.best_price() {
        assert(market.side(side).contains_key(price));
    }
    assert(!begun.ready());
}

/// The quantity that iceberg orders hide.
pub open spec fn hidden_quantity(icebergs: Map<OrderId, IcebergOrder>) -> nat {
    total(icebergs, |iceberg: IcebergOrder| iceberg.remaining as nat)
}

/// Another queue at a price counts in the place of the old one.
proof fn lemma_resting_with_queue(market: Market, side: Side, price: Price, orders: Seq<Order>)
    requires
        market.side(side).dom().finite(),
        market.side(side).contains_key(price),
    ensures
        resting_quantity(market.with_queue(side, price, orders).side(side)) + queue_quantity(
            market.side(side)[price].orders,
        ) == resting_quantity(market.side(side)) + queue_quantity(orders),
{
    let levels = market.side(side);
    let size = |level: Level| queue_quantity(level.orders);
    lemma_total_remove(levels, size, price);
    lemma_total_insert(levels, size, price, Level { orders, ..levels[price] });
}

/// One trade takes the same quantity from the incoming order as from what
/// rests and hides on the other side.
proof fn lemma_step_conserves(matching: Matching, next: OrderId)
    requires
        matching.market.sound(next),
        matching.ready(),
    ensures
        resting_quantity(matching.market.side(matching.taker.side.other())) + hidden_quantity(
            matching.market.icebergs,
        ) + matching.step().taker.remaining_quantity == resting_quantity(
            matching.step().market.side(matching.taker.side.other()),
        ) + hidden_quantity(matching.step().market.icebergs) + matching.taker.remaining_quantity,
{
    let market = matching.market;
    let side = matching.taker.side.other();
    let price = matching.best_price()->0;
    lemma_best_is_one(market.side(side).dom(), side);
    assert(market.side(side).contains_key(price));
    let queue = matching.best_queue();
    let resting = queue[0];
    let rest = queue.drop_first();
    let quantity = min_quantity(resting.remaining_quantity, matching.taker.remaining_quantity);
    let met = resting.filled_by(quantity);
    let id = resting.order_id;
    if met.remaining_quantity > 0 {
        let orders = seq![met] + rest;
        assert(orders.drop_first() =~= rest);
        lemma_resting_with_queue(market, side, price, orders);
        assert(matching.step().market.side(side) == market.with_queue(side, price, orders).side(
            side,
        ));
    } else if market.icebergs.contains_key(id) && market.icebergs[id].remaining > 0 {
        let iceberg = market.icebergs[id];
        let slice = min_quantity(iceberg.visible_quantity, iceberg.remaining);
        let refill = Order::fresh(
            id,
            resting.side,
            OrderType::Limit,
            resting.price,
            slice,
            reading(matching.clock),
        );
        let orders = rest.push(refill);
        lemma_queue_quantity_push(rest, refill);
        lemma_resting_with_queue(market, side, price, orders);
        assert(matching.step().market.side(side) == market.with_queue(side, price, orders).side(
            side,
        ));
        let size = |iceberg: IcebergOrder| iceberg.remaining as nat;
        lemma_total_remove(market.icebergs, size, id);
        lemma_total_insert(
            market.icebergs,
            size,
            id,
            IcebergOrder { remaining: (iceberg.remaining - slice) as u64, ..iceberg },
        );
    } else {
        lemma_resting_with_queue(market, side, price, rest);
        assert(matching.step().market.side(side) == market.with_queue(side, price, rest).side(
            side,
        ));
    }
}

proof fn lemma_run_conserves(matching: Matching, next: OrderId)
    requires
        matching.market.sound(next),
    ensures
        resting_quantity(matching.market.side(matching.taker.side.other())) + hidden_quantity(
            matching.market.icebergs,
        ) + matching.run().taker.remaining_quantity == resting_quantity(
            matching.run().market.side(matching.taker.side.other()),
        ) + hidden_quantity(matching.run().market.icebergs) + matching.taker.remaining_quantity,
    decreases matching.taker.remaining_quantity,
{
    if matching.ready() {
        lemma_step_keeps_sound(matching, next);
        lemma_step_conserves(matching, next);
        lemma_run_conserves(matching.step(), next);
    }
}

/// Law: nothing is lost in a trade, and nothing comes from nowhere. What an
/// incoming order gets is what the other side gives, of what rests there and
/// of what its iceberg orders hide. Its own side gains what is left of a limit
/// order, and nothing from a market order.
pub proof fn law_trades_conserve_quantity(
    market: Market,
    order: Order,
    clock: Seq<u64>,
    next: OrderId,
)
    requires
        market.well_formed(next),
    ensures
        ({
            let after = market.matched(order, clock);
            let other = order.side.other();
            &&& resting_quantity(market.side(other)) + hidden_quantity(market.icebergs)
                + after.taker.remaining_quantity == resting_quantity(after.market.side(other))
                + hidden_quantity(after.market.icebergs) + order.remaining_quantity
            &&& resting_quantity(after.market.side(order.side)) == resting_quantity(
                market.side(order.side),
            ) + if order.order_type == OrderType::Limit {
                after.taker.remaining_quantity as nat
            } else {
                0
            }
        }),
{
    let begun = Matching { market, taker: order, clock };
    let after = market.matched(order, clock);
    lemma_run_conserves(begun, next);
    lemma_run_keeps_sound(begun, next);
    assert(after.market.side(order.side.other()) == begun.run().market.side(order.side.other()));
    if order.order_type == OrderType::Limit && after.taker.remaining_quantity > 0 {
        law_rest_of_limit_order_rests(market, order, clock, next);
        let levels = market.side(order.side);
        let joined = level_at(levels, order.price);
        let size = |level: Level| queue_quantity(level.orders);
        lemma_queue_quantity_push(joined.orders, after.taker);
        lemma_total_insert(levels, size, order.price, joined.pushed(after.taker));
        if levels.contains_key(order.price) {
            lemma_total_remove(levels, size, order.price);
        } else {
            assert(levels.remove(order.price) =~= levels);
        }
    } else {
        law_market_order_never_rests(market, order, clock, next);
    }
}

/// What iceberg order `id` hides, if it is one.
pub open spec fn hidden_by(icebergs: Map<OrderId, IcebergOrder>, id: OrderId) -> nat {
    if icebergs.contains_key(id) {
        icebergs[id].remaining as nat
    } else {
        0
    }
}

/// The quantity of a queue, with what its iceberg orders hide.
pub open spec fn queue_supply(
    orders: Seq<Order>,
    icebergs: Map<OrderId, IcebergOrder>,
) -> nat
    decreases orders.len(),
{
    if orders.len() == 0 {
        0
    } else {
        orders[0].remaining_quantity as nat + hidden_by(icebergs, orders[0].order_id)
            + queue_supply(orders.drop_first(), icebergs)
    }
}

impl Market {
    /// The quantity that an order of `side` limited to `limit` can trade, with
    /// what iceberg orders hide.
    pub open spec fn within_reach(self, side: Side, limit: Price) -> nat {
        total(
            self.side(side.other()),
            |level: Level|
                if side.accepts(limit, level.price) {
                    queue_supply(level.orders, self.icebergs)
                } else {
                    0
                },
        )
    }
}

/// Whether the levels are the same where an order of `side` limited to `limit`
/// does not reach.
pub open spec fn same_out_of_reach(
    before: Map<Price, Level>,
    after: Map<Price, Level>,
    side: Side,
    limit: Price,
) -> bool {
    forall|price: Price|
        !side.accepts(limit, price) ==> {
            &&& #[trigger] after.contains_key(price) == before.contains_key(price)
            &&& before.contains_key(price) ==> after[price] == before[price]
        }
}

proof fn lemma_queue_supply_push(
    orders: Seq<Order>,
    icebergs: Map<OrderId, IcebergOrder>,
    order: Order,
)
    ensures
        queue_supply(orders.push(order), icebergs) == queue_supply(orders, icebergs)
            + order.remaining_quantity + hidden_by(icebergs, order.order_id),
    decreases orders.len(),
{
    let pushed = orders.push(order);
    if orders.len() == 0 {
        assert(pushed.drop_first() =~= orders);
    } else {
        assert(pushed.drop_first() =~= orders.drop_first().push(order));
        lemma_queue_supply_push(orders.drop_first(), icebergs, order);
    }
}

/// What an iceberg order hides that is not in a queue does not count there.
pub proof fn lemma_queue_supply_ignores(
    orders: Seq<Order>,
    one: Map<OrderId, IcebergOrder>,
    other: Map<OrderId, IcebergOrder>,
    id: OrderId,
)
    requires
        forall|i: int| 0 <= i < orders.len() ==> (#[trigger] orders[i]).order_id != id,
        forall|k: OrderId| k != id ==> #[trigger] hidden_by(one, k) == hidden_by(other, k),
    ensures
        queue_supply(orders, one) == queue_supply(orders, other),
    decreases orders.len(),
{
    if orders.len() > 0 {
        let rest = orders.drop_first();
        assert(orders[0].order_id != id);
        assert(hidden_by(one, orders[0].order_id) == hidden_by(other, orders[0].order_id));
        assert forall|i: int| 0 <= i < rest.len() implies (#[trigger] rest[i]).order_id != id by {
            assert(rest[i] == orders[i + 1]);
        }
        lemma_queue_supply_ignores(rest, one, other, id);
    }
}

/// The queue at the best price of the other side, after one trade, has lost
/// what was traded.
proof fn lemma_step_takes_from_the_queue(matching: Matching, next: OrderId)
    requires
        matching.market.sound(next),
        matching.ready(),
    ensures
        ({
            let market = matching.market;
            let step = matching.step();
            let side = matching.taker.side.other();
            let price = matching.best_price()->0;
            let left = if step.market.side(side).contains_key(price) {
                queue_supply(step.market.side(side)[price].orders, step.market.icebergs)
            } else {
                0
            };
            &&& left + matching.taker.remaining_quantity == queue_supply(
                matching.best_queue(),
                market.icebergs,
            ) + step.taker.remaining_quantity
            &&& forall|k: OrderId|
                k != matching.best_queue()[0].order_id ==> #[trigger] hidden_by(
                    market.icebergs,
                    k,
                ) == hidden_by(step.market.icebergs, k)
        }),
{
    let market = matching.market;
    let side = matching.taker.side.other();
    let price = matching.best_price()->0;
    lemma_best_is_one(market.side(side).dom(), side);
    assert(market.side(side).contains_key(price));
    let queue = matching.best_queue();
    let resting = queue[0];
    let rest = queue.drop_first();
    let id = resting.order_id;
    let icebergs = market.icebergs;
    let after = matching.step().market.icebergs;
    let quantity = min_quantity(resting.remaining_quantity, matching.taker.remaining_quantity);
    let met = resting.filled_by(quantity);
    assert forall|i: int| 0 <= i < rest.len() implies (#[trigger] rest[i]).order_id != id by {
        assert(market.taken(side, price, 0) && market.taken(side, price, i + 1));
        assert(rest[i].order_id == market.id_at(side, price, i + 1));
    }
    if met.remaining_quantity > 0 {
        assert((seq![met] + rest).drop_first() =~= rest);
    } else if icebergs.contains_key(id) && icebergs[id].remaining > 0 {
        let slice = min_quantity(icebergs[id].visible_quantity, icebergs[id].remaining);
        let refill = Order::fresh(
            id,
            resting.side,
            OrderType::Limit,
            resting.price,
            slice,
            reading(matching.clock),
        );
        lemma_queue_supply_ignores(rest, icebergs, after, id);
        lemma_queue_supply_push(rest, after, refill);
    } else if rest.len() == 0 {
        assert(queue_supply(rest, icebergs) == 0);
    }
}

proof fn lemma_step_takes_from_reach(matching: Matching, next: OrderId)
    requires
        matching.market.sound(next),
        matching.ready(),
    ensures
        matching.step().market.within_reach(matching.taker.side, matching.taker.price)
            + matching.taker.remaining_quantity == matching.market.within_reach(
            matching.taker.side,
            matching.taker.price,
        ) + matching.step().taker.remaining_quantity,
{
    let market = matching.market;
    let step = matching.step().market;
    let own = matching.taker.side;
    let limit = matching.taker.price;
    let side = own.other();
    let price = matching.best_price()->0;
    let levels = market.side(side);
    let id = matching.best_queue()[0].order_id;
    lemma_best_is_one(levels.dom(), side);
    lemma_step_takes_from_the_queue(matching, next);
    lemma_step_keeps_sound(matching, next);
    law_trade_is_at_the_best_price(matching);
    assert(levels.contains_key(price));
    assert(market.level_fits(levels[price], side, price, next));
    let size = |level: Level|
        if own.accepts(limit, level.price) {
            queue_supply(level.orders, market.icebergs)
        } else {
            0
        };
    let measure = |level: Level|
        if own.accepts(limit, level.price) {
            queue_supply(level.orders, step.icebergs)
        } else {
            0
        };
    let others = levels.remove(price);
    let left = step.side(side);
    assert forall|p: Price| #[trigger] others.contains_key(p) implies size(others[p]) == measure(
        others[p],
    ) by {
        assert(levels.contains_key(p));
        let orders = levels[p].orders;
        assert forall|i: int| 0 <= i < orders.len() implies (#[trigger] orders[i]).order_id
            != id by {
            assert(market.taken(side, p, i) && market.taken(side, price, 0));
            assert(orders[i].order_id == market.id_at(side, p, i));
        }
        lemma_queue_supply_ignores(orders, market.icebergs, step.icebergs, id);
    }
    lemma_total_same(others, others, size, measure);
    lemma_total_remove(levels, size, price);
    assert(left.remove(price) =~= others);
    if left.contains_key(price) {
        assert(step.level_fits(left[price], side, price, next));
        lemma_total_remove(left, measure, price);
    } else {
        assert(left.remove(price) =~= left);
    }
    assert(step.within_reach(own, limit) == total(left, measure));
    assert(market.within_reach(own, limit) == total(levels, size));
}

/// What an incoming order gets is taken from what is within its reach, and
/// nothing else is touched.
proof fn lemma_run_takes_from_reach(matching: Matching, next: OrderId)
    requires
        matching.market.sound(next),
    ensures
        matching.run().market.within_reach(matching.taker.side, matching.taker.price)
            + matching.taker.remaining_quantity == matching.market.within_reach(
            matching.taker.side,
            matching.taker.price,
        ) + matching.run().taker.remaining_quantity,
        same_out_of_reach(
            matching.market.side(matching.taker.side.other()),
            matching.run().market.side(matching.taker.side.other()),
            matching.taker.side,
            matching.taker.price,
        ),
    decreases matching.taker.remaining_quantity,
{
    if matching.ready() {
        let step = matching.step();
        let side = matching.taker.side.other();
        lemma_step_keeps_sound(matching, next);
        lemma_step_takes_from_reach(matching, next);
        law_trade_is_at_the_best_price(matching);
        lemma_run_takes_from_reach(step, next);
        let before = matching.market.side(side);
        let after = matching.run().market.side(side);
        assert forall|price: Price|
            !matching.taker.side.accepts(matching.taker.price, price) implies {
            &&& #[trigger] after.contains_key(price) == before.contains_key(price)
            &&& before.contains_key(price) ==> after[price] == before[price]
        } by {
            assert(after.contains_key(price) == step.market.side(side).contains_key(price));
            assert(price != matching.best_price()->0);
            if step.market.side(side).contains_key(price) {
                assert(step.market.side(side).dom().contains(price));
                assert(before.dom().contains(price));
            }
        }
    }
}

/// Law: an order trades as much as it can. What it trades is the smaller one of
/// its quantity and the quantity within its reach, with what iceberg orders
/// hide there, and what is within reach loses just that. If something of it is
/// left, nothing within its reach is; and what is out of its reach is as before.
pub proof fn law_order_trades_what_is_within_reach(
    market: Market,
    order: Order,
    clock: Seq<u64>,
    next: OrderId,
)
    requires
        market.well_formed(next),
    ensures
        ({
            let after = market.matched(order, clock);
            let reach = market.within_reach(order.side, order.price);
            let before_levels = market.side(order.side.other());
            let after_levels = after.market.side(order.side.other());
            let traded = order.remaining_quantity - after.taker.remaining_quantity;
            &&& traded == if reach <= order.remaining_quantity {
                reach as int
            } else {
                order.remaining_quantity as int
            }
            &&& after.market.within_reach(order.side, order.price) + traded == reach
            &&& after.taker.remaining_quantity > 0 ==> forall|price: Price| #[trigger]
                after_levels.contains_key(price) ==> !order.side.accepts(order.price, price)
            &&& same_out_of_reach(before_levels, after_levels, order.side, order.price)
        }),
{
    let begun = Matching { market, taker: order, clock };
    let ran = begun.run();
    let after = market.matched(order, clock);
    let side = order.side.other();
    let levels = ran.market.side(side);
    lemma_run_keeps_sound(begun, next);
    lemma_run_takes_from_reach(begun, next);
    assert(after.market.side(side) == levels);
    assert(after.market.icebergs == ran.market.icebergs);
    assert(after.market.within_reach(order.side, order.price) == ran.market.within_reach(
        order.side,
        order.price,
    ));
    if ran.taker.remaining_quantity > 0 {
        lemma_not_ready_means_out_of_reach(ran, next);
        let size = |level: Level|
            if order.side.accepts(order.price, level.price) {
                queue_supply(level.orders, ran.market.icebergs)
            } else {
                0
            };
        assert forall|price: Price| #[trigger] levels.contains_key(price) && price != 0 implies size(
            levels[price],
        ) == 0 by {
            assert(ran.market.level_fits(levels[price], side, price, next));
        }
        if levels.contains_key(0) {
            assert(ran.market.level_fits(levels[0], side, 0, next));
        }
        lemma_total_of_one(levels, size, 0);
    }
}

/// Whether `after` has all events of `before`, in the same order, and then
/// perhaps more.
pub open spec fn goes_on(before: Seq<OrderEvent>, after: Seq<OrderEvent>) -> bool {
    before.len() <= after.len() && after.take(before.len() as int) == before
}

/// Whether `event` is among those that `after` has beyond `before`.
pub open spec fn adds(
    before: Seq<OrderEvent>,
    after: Seq<OrderEvent>,
    event: OrderEvent,
) -> bool {
    exists|i: int| before.len() <= i < after.len() && #[trigger] after[i] == event
}

pub proof fn lemma_run_goes_on(matching: Matching)
    ensures
        goes_on(matching.market.events, matching.run().market.events),
    decreases matching.taker.remaining_quantity,
{
    if matching.ready() {
        lemma_run_goes_on(matching.step());
        let before = matching.market.events;
        let step = matching.step().market.events;
        let after = matching.run().market.events;
        assert(step.take(before.len() as int) =~= before);
        assert(after.take(before.len() as int) =~= after.take(step.len() as int).take(
            before.len() as int,
        ));
    } else {
        assert(matching.market.events.take(matching.market.events.len() as int)
            =~= matching.market.events);
    }
}

pub proof fn lemma_matched_goes_on(market: Market, order: Order, clock: Seq<u64>)
    ensures
        goes_on(market.events, market.matched(order, clock).market.events),
{
    let begun = Matching { market, taker: order, clock };
    lemma_run_goes_on(begun);
    let ran = begun.run().market.events;
    let after = market.matched(order, clock).market.events;
    assert(after.take(ran.len() as int) =~= ran);
    assert(after.take(market.events.len() as int) =~= ran.take(market.events.len() as int));
}

pub proof fn lemma_fire_goes_on(floor: Floor, stop: StopOrder)
    ensures
        goes_on(floor.market.events, floor.fire(stop).market.events),
        adds(
            floor.market.events,
            floor.fire(stop).market.events,
            OrderEvent::StopTriggered(stop.id),
        ),
{
    let event = OrderEvent::StopTriggered(stop.id);
    let before = floor.market.events;
    let told = floor.market.recording(event);
    lemma_matched_goes_on(
        told,
        market_order_of(stop, reading(floor.clock)),
        floor.clock.drop_first(),
    );
    let after = floor.fire(stop).market.events;
    assert(after[before.len() as int] == after.take(told.events.len() as int)[before.len() as int]);
    assert(after.take(before.len() as int) =~= after.take(told.events.len() as int).take(
        before.len() as int,
    ));
    assert(told.events.take(before.len() as int) =~= before);
}

/// What is added stays.
proof fn lemma_addition_stays(
    before: Seq<OrderEvent>,
    middle: Seq<OrderEvent>,
    after: Seq<OrderEvent>,
    event: OrderEvent,
)
    requires
        adds(before, middle, event),
        goes_on(middle, after),
    ensures
        adds(before, after, event),
{
    let i = choose|i: int| before.len() <= i < middle.len() && #[trigger] middle[i] == event;
    assert(after[i] == after.take(middle.len() as int)[i]);
}

proof fn lemma_goes_on_and_on(
    before: Seq<OrderEvent>,
    middle: Seq<OrderEvent>,
    after: Seq<OrderEvent>,
)
    requires
        goes_on(before, middle),
        goes_on(middle, after),
    ensures
        goes_on(before, after),
{
    assert(after.take(before.len() as int) =~= after.take(middle.len() as int).take(
        before.len() as int,
    ));
}

pub proof fn lemma_fire_all_goes_on(floor: Floor, stops: Seq<StopOrder>)
    ensures
        goes_on(floor.market.events, floor.fire_all(stops).market.events),
        forall|i: int|
            0 <= i < stops.len() ==> adds(
                floor.market.events,
                floor.fire_all(stops).market.events,
                OrderEvent::StopTriggered((#[trigger] stops[i]).id),
            ),
    decreases stops.len(),
{
    let before = floor.market.events;
    let after = floor.fire_all(stops).market.events;
    if stops.len() == 0 {
        assert(before.take(before.len() as int) =~= before);
    } else {
        let fired = floor.fire(stops[0]);
        lemma_fire_goes_on(floor, stops[0]);
        lemma_fire_all_goes_on(fired, stops.drop_first());
        lemma_goes_on_and_on(before, fired.market.events, after);
        assert forall|i: int| 0 <= i < stops.len() implies adds(
            before,
            after,
            OrderEvent::StopTriggered((#[trigger] stops[i]).id),
        ) by {
            if i == 0 {
                lemma_addition_stays(
                    before,
                    fired.market.events,
                    after,
                    OrderEvent::StopTriggered(stops[0].id),
                );
            } else {
                assert(stops.drop_first()[i - 1] == stops[i]);
            }
        }
    }
}

/// Checking the stop orders only adds to the record. Each of them waits on, or
/// its being set off is added; those that the last trade price sets off are.
/// None appears from nowhere.
pub proof fn lemma_check_stops_goes_on(floor: Floor)
    ensures
        goes_on(floor.market.events, floor.check_stops().market.events),
        forall|stop: StopOrder| #[trigger]
            floor.stops.contains(stop) ==> floor.check_stops().stops.contains(stop) || adds(
                floor.market.events,
                floor.check_stops().market.events,
                OrderEvent::StopTriggered(stop.id),
            ),
        floor.market.last_trade_price matches Some(price) ==> forall|stop: StopOrder| #[trigger]
            floor.stops.contains(stop) && stop.goes_off_at(price) ==> adds(
                floor.market.events,
                floor.check_stops().market.events,
                OrderEvent::StopTriggered(stop.id),
            ),
        forall|stop: StopOrder| #[trigger]
            floor.check_stops().stops.contains(stop) ==> floor.stops.contains(stop),
    decreases floor.stops.len(),
{
    let before = floor.market.events;
    let done = floor.check_stops();
    assert(before.take(before.len() as int) =~= before);
    if let Some(price) = floor.market.last_trade_price {
        let hit = set_off(floor.stops, price);
        let rest = still_waiting(floor.stops, price);
        let went_off = |stop: StopOrder| stop.goes_off_at(price);
        assert forall|stop: StopOrder| #[trigger]
            floor.stops.contains(stop) && stop.goes_off_at(price) implies hit.contains(stop) by {
            floor.stops.lemma_filter_contains(went_off, floor.stops.index_of(stop));
        }
        if hit.len() > 0 {
            let waits = |stop: StopOrder| !stop.goes_off_at(price);
            let fired = Floor { stops: rest, ..floor }.fire_all(hit);
            lemma_stops_part(floor.stops, price);
            lemma_fire_all_keeps_stops(Floor { stops: rest, ..floor }, hit);
            lemma_fire_all_goes_on(Floor { stops: rest, ..floor }, hit);
            lemma_check_stops_goes_on(fired);
            lemma_goes_on_and_on(before, fired.market.events, done.market.events);
            assert forall|stop: StopOrder| #[trigger]
                floor.stops.contains(stop) && stop.goes_off_at(price) implies adds(
                before,
                done.market.events,
                OrderEvent::StopTriggered(stop.id),
            ) by {
                let i = hit.index_of(stop);
                assert(hit[i] == stop);
                lemma_addition_stays(
                    before,
                    fired.market.events,
                    done.market.events,
                    OrderEvent::StopTriggered(stop.id),
                );
            }
            assert forall|stop: StopOrder| #[trigger]
                floor.stops.contains(stop) implies done.stops.contains(stop) || adds(
                before,
                done.market.events,
                OrderEvent::StopTriggered(stop.id),
            ) by {
                if !stop.goes_off_at(price) {
                    floor.stops.lemma_filter_contains(waits, floor.stops.index_of(stop));
                    assert(fired.stops.contains(stop));
                }
            }
            assert forall|stop: StopOrder| #[trigger]
                done.stops.contains(stop) implies floor.stops.contains(stop) by {
                assert(fired.stops.contains(stop));
                floor.stops.lemma_filter_contains_rev(waits, stop);
            }
        } else {
            assert forall|stop: StopOrder| #[trigger]
                floor.stops.contains(stop) implies !stop.goes_off_at(price) by {
                if stop.goes_off_at(price) {
                    assert(hit.contains(stop));
                }
            }
        }
    }
}

/// Once the stop orders have been checked, the last trade price sets none of
/// those off that still wait.
proof fn lemma_check_stops_is_done(floor: Floor)
    ensures
        floor.check_stops().market.last_trade_price matches Some(price) ==> forall|i: int|
            0 <= i < floor.check_stops().stops.len() ==> !(
            #[trigger] floor.check_stops().stops[i]).goes_off_at(price),
    decreases floor.stops.len(),
{
    if let Some(price) = floor.market.last_trade_price {
        let hit = set_off(floor.stops, price);
        let rest = still_waiting(floor.stops, price);
        if hit.len() > 0 {
            lemma_stops_part(floor.stops, price);
            lemma_fire_all_keeps_stops(Floor { stops: rest, ..floor }, hit);
            lemma_check_stops_is_done(Floor { stops: rest, ..floor }.fire_all(hit));
        } else {
            let went_off = |stop: StopOrder| stop.goes_off_at(price);
            assert forall|i: int| 0 <= i < floor.stops.len() implies !(
            #[trigger] floor.stops[i]).goes_off_at(price) by {
                if floor.stops[i].goes_off_at(price) {
                    floor.stops.lemma_filter_contains(went_off, i);
                    assert(hit.contains(floor.stops[i]));
                }
            }
        }
    }
}

/// Law: every stop order that waited before a limit or iceberg order came in
/// waits on, or its being set off is among the events that this order adds to
/// the record. None appears from nowhere.
pub proof fn law_stop_waits_or_is_reported(
    book: Book,
    order: Order,
    iceberg: IcebergOrder,
    clock: Seq<u64>,
    stop: StopOrder,
)
    ensures
        book.stops.contains(stop) ==> book.after_limit(order, clock).stops.contains(stop) || adds(
            book.market.events,
            book.after_limit(order, clock).market.events,
            OrderEvent::StopTriggered(stop.id),
        ),
        book.stops.contains(stop) ==> book.after_iceberg(iceberg, clock).stops.contains(stop)
            || adds(
            book.market.events,
            book.after_iceberg(iceberg, clock).market.events,
            OrderEvent::StopTriggered(stop.id),
        ),
        book.after_limit(order, clock).stops.contains(stop) ==> book.stops.contains(stop),
        book.after_iceberg(iceberg, clock).stops.contains(stop) ==> book.stops.contains(stop),
{
    lemma_arrival_settles_stops(book.numbered(), book.adopt(order), clock);
    lemma_arrival_settles_stops(
        book.hiding(iceberg).numbered(),
        book.first_slice(iceberg, reading(clock)),
        clock.drop_first(),
    );
}

/// Law: a stop order whose trigger is met once the next limit or iceberg order
/// has traded is set off by that order, which adds this to the record.
pub proof fn law_due_stop_goes_off(
    book: Book,
    order: Order,
    iceberg: IcebergOrder,
    clock: Seq<u64>,
    stop: StopOrder,
)
    requires
        book.stops.contains(stop),
    ensures
        ({
            let matched = book.numbered().arrival(book.adopt(order), clock).market;
            matched.last_trade_price is Some && stop.goes_off_at(matched.last_trade_price->0)
                ==> adds(
                book.market.events,
                book.after_limit(order, clock).market.events,
                OrderEvent::StopTriggered(stop.id),
            )
        }),
        ({
            let matched = book.hiding(iceberg).numbered().arrival(
                book.first_slice(iceberg, reading(clock)),
                clock.drop_first(),
            ).market;
            matched.last_trade_price is Some && stop.goes_off_at(matched.last_trade_price->0)
                ==> adds(
                book.market.events,
                book.after_iceberg(iceberg, clock).market.events,
                OrderEvent::StopTriggered(stop.id),
            )
        }),
{
    lemma_arrival_settles_stops(book.numbered(), book.adopt(order), clock);
    lemma_arrival_settles_stops(
        book.hiding(iceberg).numbered(),
        book.first_slice(iceberg, reading(clock)),
        clock.drop_first(),
    );
}

/// Law: a stop order that is added changes nothing at once, even if the last
/// trade price meets its trigger. It waits behind the others, under the next
/// id. If its trigger is met once the next limit order has traded, that order
/// sets it off.
pub proof fn law_added_stop_waits_for_the_next_order(
    book: Book,
    stop: StopOrder,
    order: Order,
    clock: Seq<u64>,
)
    requires
        book.next_order_id < u64::MAX,
    ensures
        ({
            let waiting = book.after_stop(stop);
            let added = StopOrder { id: book.next_order_id, ..stop };
            let matched = waiting.numbered().arrival(waiting.adopt(order), clock).market;
            &&& waiting.market == book.market
            &&& waiting.stops == book.stops.push(added)
            &&& waiting.next_order_id == book.next_order_id + 1
            &&& matched.last_trade_price is Some && stop.goes_off_at(matched.last_trade_price->0)
                ==> adds(
                book.market.events,
                waiting.after_limit(order, clock).market.events,
                OrderEvent::StopTriggered(book.next_order_id),
            )
        }),
{
    let waiting = book.after_stop(stop);
    let added = StopOrder { id: book.next_order_id, ..stop };
    assert(waiting.stops[book.stops.len() as int] == added);
    assert(waiting.stops.contains(added));
    lemma_arrival_settles_stops(waiting.numbered(), waiting.adopt(order), clock);
}

proof fn lemma_arrival_settles_stops(book: Book, order: Order, clock: Seq<u64>)
    ensures
        ({
            let matched = book.arrival(order, clock).market;
            let after = book.after_arrival(order, clock);
            &&& forall|stop: StopOrder| #[trigger]
                book.stops.contains(stop) ==> after.stops.contains(stop) || adds(
                    book.market.events,
                    after.market.events,
                    OrderEvent::StopTriggered(stop.id),
                )
            &&& matched.last_trade_price is Some ==> forall|stop: StopOrder| #[trigger]
                book.stops.contains(stop) && stop.goes_off_at(matched.last_trade_price->0) ==> adds(
                    book.market.events,
                    after.market.events,
                    OrderEvent::StopTriggered(stop.id),
                )
            &&& forall|stop: StopOrder| #[trigger]
                after.stops.contains(stop) ==> book.stops.contains(stop)
        }),
{
    let told = book.market.recording(OrderEvent::OrderPlaced(order));
    lemma_matched_goes_on(told, order, clock);
    lemma_check_stops_goes_on(book.floor_after(order, clock));
}

/// Law: after a limit or iceberg order, the last trade price sets none of the
/// stop orders off that still wait.
pub proof fn law_no_stop_is_left_behind(
    book: Book,
    order: Order,
    iceberg: IcebergOrder,
    clock: Seq<u64>,
)
    ensures
        book.after_limit(order, clock).market.last_trade_price matches Some(price) ==> forall|
            i: int,
        |
            0 <= i < book.after_limit(order, clock).stops.len() ==> !(#[trigger] book.after_limit(
                order,
                clock,
            ).stops[i]).goes_off_at(price),
        book.after_iceberg(iceberg, clock).market.last_trade_price matches Some(price) ==> forall|
            i: int,
        |
            0 <= i < book.after_iceberg(iceberg, clock).stops.len() ==> !(
            #[trigger] book.after_iceberg(iceberg, clock).stops[i]).goes_off_at(price),
{
    lemma_check_stops_is_done(book.numbered().floor_after(book.adopt(order), clock));
    lemma_check_stops_is_done(
        book.hiding(iceberg).numbered().floor_after(
            book.first_slice(iceberg, reading(clock)),
            clock.drop_first(),
        ),
    );
}

/// Law: the record only ever grows. What a limit, iceberg or stop order adds
/// to it comes after all that was there.
pub proof fn law_record_only_grows(
    book: Book,
    order: Order,
    iceberg: IcebergOrder,
    stop: StopOrder,
    clock: Seq<u64>,
)
    ensures
        goes_on(
            book.market.events.push(OrderEvent::OrderPlaced(book.adopt(order))),
            book.after_limit(order, clock).market.events,
        ),
        goes_on(
            book.market.events.push(
                OrderEvent::OrderPlaced(book.first_slice(iceberg, reading(clock))),
            ),
            book.after_iceberg(iceberg, clock).market.events,
        ),
        book.after_stop(stop).market == book.market,
{
    lemma_arrival_goes_on(book.numbered(), book.adopt(order), clock);
    lemma_arrival_goes_on(
        book.hiding(iceberg).numbered(),
        book.first_slice(iceberg, reading(clock)),
        clock.drop_first(),
    );
}

proof fn lemma_arrival_goes_on(book: Book, order: Order, clock: Seq<u64>)
    ensures
        goes_on(
            book.market.events.push(OrderEvent::OrderPlaced(order)),
            book.after_arrival(order, clock).market.events,
        ),
{
    let told = book.market.recording(OrderEvent::OrderPlaced(order));
    let matching = book.arrival(order, clock);
    lemma_matched_goes_on(told, order, clock);
    let floor = book.floor_after(order, clock);
    lemma_check_stops_goes_on(floor);
    lemma_goes_on_and_on(
        told.events,
        matching.market.events,
        floor.check_stops().market.events,
    );
}

impl OrderEvent {
    /// The event without the time stamp of an order.
    pub open spec fn unstamped(self) -> OrderEvent {
        match self {
            OrderEvent::OrderPlaced(order) => OrderEvent::OrderPlaced(order.unstamped()),
            _ => self,
        }
    }
}

impl Market {
    /// The market without the time stamps of its orders.
    pub open spec fn unstamped(self) -> Market {
        Market {
            bids: unstamped_levels(self.bids),
            asks: unstamped_levels(self.asks),
            events: self.events.map_values(|event: OrderEvent| event.unstamped()),
            ..self
        }
    }
}

impl Matching {
    /// The same without time.
    pub open spec fn unstamped(self) -> Matching {
        Matching {
            market: self.market.unstamped(),
            taker: self.taker.unstamped(),
            clock: Seq::empty(),
        }
    }
}

impl Floor {
    /// The same without time.
    pub open spec fn unstamped(self) -> Floor {
        Floor { market: self.market.unstamped(), clock: Seq::empty(), ..self }
    }
}

impl Book {
    /// The book without the time stamps of its orders.
    pub open spec fn unstamped(self) -> Book {
        Book { market: self.market.unstamped(), ..self }
    }
}

/// Levels that differ in time stamps alone have the same prices, and the same
/// orders but for their time stamps.
proof fn lemma_alike_levels(one: Map<Price, Level>, other: Map<Price, Level>)
    requires
        unstamped_levels(one) == unstamped_levels(other),
    ensures
        one.dom() == other.dom(),
        forall|price: Price| #[trigger]
            one.contains_key(price) ==> one[price].unstamped() == other[price].unstamped(),
{
    assert(unstamped_levels(one).dom() =~= one.dom());
    assert(unstamped_levels(other).dom() =~= other.dom());
    assert forall|price: Price| #[trigger] one.contains_key(price) implies one[price].unstamped()
        == other[price].unstamped() by {
        assert(unstamped_levels(one)[price] == one[price].unstamped());
        assert(unstamped_levels(other)[price] == other[price].unstamped());
    }
}

/// Queues that differ in time stamps alone hold the same orders but for their
/// time stamps.
proof fn lemma_alike_queues(one: Level, other: Level)
    requires
        one.unstamped() == other.unstamped(),
    ensures
        one.price == other.price,
        one.total_quantity == other.total_quantity,
        one.orders.len() == other.orders.len(),
        forall|i: int|
            0 <= i < one.orders.len() ==> (#[trigger] one.orders[i]).unstamped()
                == other.orders[i].unstamped(),
{
    assert(one.unstamped().orders.len() == one.orders.len());
    assert(other.unstamped().orders.len() == other.orders.len());
    assert forall|i: int| 0 <= i < one.orders.len() implies (#[trigger] one.orders[i]).unstamped()
        == other.orders[i].unstamped() by {
        assert(one.unstamped().orders[i] == one.orders[i].unstamped());
        assert(other.unstamped().orders[i] == other.orders[i].unstamped());
    }
}

/// Recording events that differ in time stamps alone.
proof fn lemma_alike_recording(one: Market, other: Market, event: OrderEvent, twin: OrderEvent)
    requires
        one.unstamped() == other.unstamped(),
        event.unstamped() == twin.unstamped(),
    ensures
        one.recording(event).unstamped() == other.recording(twin).unstamped(),
{
    let bare = |event: OrderEvent| event.unstamped();
    assert(one.recording(event).unstamped().events =~= one.events.map_values(bare).push(
        event.unstamped(),
    ));
    assert(other.recording(twin).unstamped().events =~= other.events.map_values(bare).push(
        twin.unstamped(),
    ));
    assert(one.unstamped().events == one.events.map_values(bare));
    assert(other.unstamped().events == other.events.map_values(bare));
    assert(one.recording(event).unstamped() =~= other.recording(twin).unstamped());
}

/// Putting queues in place that differ in time stamps alone.
proof fn lemma_alike_with_queue(
    one: Market,
    other: Market,
    side: Side,
    price: Price,
    orders: Seq<Order>,
    twins: Seq<Order>,
)
    requires
        one.unstamped() == other.unstamped(),
        one.side(side).contains_key(price),
        orders.len() == twins.len(),
        forall|i: int|
            0 <= i < orders.len() ==> (#[trigger] orders[i]).unstamped() == twins[i].unstamped(),
    ensures
        one.with_queue(side, price, orders).unstamped() == other.with_queue(
            side,
            price,
            twins,
        ).unstamped(),
{
    let mine = one.side(side);
    let yours = other.side(side);
    assert(unstamped_levels(mine) == one.unstamped().side(side));
    assert(unstamped_levels(yours) == other.unstamped().side(side));
    lemma_alike_levels(mine, yours);
    assert(mine[price].unstamped() == yours[price].unstamped());
    lemma_alike_queues(mine[price], yours[price]);
    let level = Level { orders, ..mine[price] };
    let twin = Level { orders: twins, ..yours[price] };
    assert(level.unstamped().orders =~= twin.unstamped().orders);
    assert(level.unstamped() == twin.unstamped());
    assert(unstamped_levels(mine.remove(price)) =~= unstamped_levels(mine).remove(price));
    assert(unstamped_levels(yours.remove(price)) =~= unstamped_levels(yours).remove(price));
    assert(unstamped_levels(mine.insert(price, level)) =~= unstamped_levels(mine).insert(
        price,
        level.unstamped(),
    ));
    assert(unstamped_levels(yours.insert(price, twin)) =~= unstamped_levels(yours).insert(
        price,
        twin.unstamped(),
    ));
    assert(one.with_queue(side, price, orders).unstamped() =~= other.with_queue(
        side,
        price,
        twins,
    ).unstamped());
}

/// Letting orders rest that differ in time stamps alone.
proof fn lemma_alike_with_resting(one: Market, other: Market, order: Order, twin: Order)
    requires
        one.unstamped() == other.unstamped(),
        order.unstamped() == twin.unstamped(),
    ensures
        one.with_resting(order).unstamped() == other.with_resting(twin).unstamped(),
{
    let mine = one.side(order.side);
    let yours = other.side(order.side);
    assert(order.side == order.unstamped().side && twin.side == twin.unstamped().side);
    assert(order.price == order.unstamped().price && twin.price == twin.unstamped().price);
    assert(order.remaining_quantity == order.unstamped().remaining_quantity);
    assert(twin.remaining_quantity == twin.unstamped().remaining_quantity);
    let price = order.price;
    assert(unstamped_levels(mine) == one.unstamped().side(order.side));
    assert(unstamped_levels(yours) == other.unstamped().side(order.side));
    lemma_alike_levels(mine, yours);
    let joined = level_at(mine, price);
    let twins = level_at(yours, price);
    assert(joined.unstamped() == twins.unstamped()) by {
        if mine.contains_key(price) {
            assert(mine[price].unstamped() == yours[price].unstamped());
        }
    }
    lemma_alike_queues(joined, twins);
    assert(joined.pushed(order).unstamped().orders =~= twins.pushed(twin).unstamped().orders);
    assert(joined.pushed(order).unstamped() == twins.pushed(twin).unstamped());
    assert(unstamped_levels(mine.insert(price, joined.pushed(order))) =~= unstamped_levels(
        mine,
    ).insert(price, joined.pushed(order).unstamped()));
    assert(unstamped_levels(yours.insert(price, twins.pushed(twin))) =~= unstamped_levels(
        yours,
    ).insert(price, twins.pushed(twin).unstamped()));
    assert(one.with_resting(order).unstamped() =~= other.with_resting(twin).unstamped());
}

/// One trade, between parties that differ in time stamps alone.
proof fn lemma_alike_step(one: Matching, other: Matching)
    requires
        one.unstamped() == other.unstamped(),
    ensures
        one.ready() == other.ready(),
        one.ready() ==> one.step().unstamped() == other.step().unstamped(),
{
    let order = one.taker;
    let twin = other.taker;
    assert(order.unstamped() == one.unstamped().taker);
    assert(twin.unstamped() == other.unstamped().taker);
    assert(order == (Order { timestamp: order.timestamp, ..order.unstamped() }));
    assert(twin == (Order { timestamp: twin.timestamp, ..twin.unstamped() }));
    let side = order.side.other();
    let mine = one.market.side(side);
    let yours = other.market.side(side);
    assert(one.market.unstamped() == one.unstamped().market);
    assert(other.market.unstamped() == other.unstamped().market);
    assert(unstamped_levels(mine) == one.market.unstamped().side(side));
    assert(unstamped_levels(yours) == other.market.unstamped().side(side));
    lemma_alike_levels(mine, yours);
    lemma_best_is_one(mine.dom(), side);
    if let Some(price) = one.best_price() {
        assert(mine.contains_key(price));
        assert(mine[price].unstamped() == yours[price].unstamped());
        lemma_alike_queues(mine[price], yours[price]);
        let queue = one.best_queue();
        let twins = other.best_queue();
        if queue.len() > 0 {
            assert(queue[0].unstamped() == twins[0].unstamped());
            assert(queue[0] == (Order { timestamp: queue[0].timestamp, ..queue[0].unstamped() }));
            assert(twins[0] == (Order { timestamp: twins[0].timestamp, ..twins[0].unstamped() }));
            if one.ready() {
                lemma_alike_trade(one, other);
            }
        }
    }
}

/// The same, where the best prices and the orders that wait there are known to
/// differ in time stamps alone.
proof fn lemma_alike_trade(one: Matching, other: Matching)
    requires
        one.ready(),
        other.ready(),
        one.market.unstamped() == other.market.unstamped(),
        one.taker.unstamped() == other.taker.unstamped(),
        one.taker.side == other.taker.side,
        one.best_price() == other.best_price(),
        one.market.side(one.taker.side.other()).contains_key(one.best_price()->0),
        one.best_queue().len() == other.best_queue().len(),
        forall|i: int|
            0 <= i < one.best_queue().len() ==> (#[trigger] one.best_queue()[i]).unstamped()
                == other.best_queue()[i].unstamped(),
    ensures
        one.step().unstamped() == other.step().unstamped(),
{
    let side = one.taker.side.other();
    let price = one.best_price()->0;
    let queue = one.best_queue();
    let twins = other.best_queue();
    assert(queue[0].unstamped() == twins[0].unstamped());
    let resting = queue[0];
    let twin = twins[0];
    assert(resting == (Order { timestamp: resting.timestamp, ..resting.unstamped() }));
    assert(twin == (Order { timestamp: twin.timestamp, ..twin.unstamped() }));
    assert(one.taker == (Order { timestamp: one.taker.timestamp, ..one.taker.unstamped() }));
    assert(other.taker == (Order { timestamp: other.taker.timestamp, ..other.taker.unstamped() }));
    assert(one.market.icebergs == one.market.unstamped().icebergs);
    assert(other.market.icebergs == other.market.unstamped().icebergs);
    let rest = queue.drop_first();
    let others = twins.drop_first();
    assert forall|i: int| 0 <= i < rest.len() implies (#[trigger] rest[i]).unstamped()
        == others[i].unstamped() by {
        assert(rest[i] == queue[i + 1]);
        assert(others[i] == twins[i + 1]);
    }
    let quantity = min_quantity(resting.remaining_quantity, one.taker.remaining_quantity);
    let met = resting.filled_by(quantity);
    let twin_met = twin.filled_by(quantity);
    let id = resting.order_id;
    let traded = Market { last_trade_price: Some(price), ..one.market };
    let twin_traded = Market { last_trade_price: Some(price), ..other.market };
    assert(traded.unstamped() =~= (Market {
        last_trade_price: Some(price),
        ..one.market.unstamped()
    }));
    assert(twin_traded.unstamped() =~= (Market {
        last_trade_price: Some(price),
        ..other.market.unstamped()
    }));
    if met.remaining_quantity > 0 {
        let event = OrderEvent::OrderPartiallyFilled { id, filled: quantity };
        lemma_alike_recording(traded, twin_traded, event, event);
        lemma_alike_with_queue(
            traded.recording(event),
            twin_traded.recording(event),
            side,
            price,
            seq![met] + rest,
            seq![twin_met] + others,
        );
        assert(one.step().unstamped() =~= other.step().unstamped());
    } else {
        let event = OrderEvent::OrderFullyFilled(id);
        lemma_alike_recording(traded, twin_traded, event, event);
        let filled = traded.recording(event);
        let twin_filled = twin_traded.recording(event);
        if filled.icebergs.contains_key(id) && filled.icebergs[id].remaining > 0 {
            let iceberg = filled.icebergs[id];
            let slice = min_quantity(iceberg.visible_quantity, iceberg.remaining);
            let shown = OrderEvent::IcebergRevealed(id, slice);
            lemma_alike_recording(filled, twin_filled, shown, shown);
            let refill = Order::fresh(
                id,
                resting.side,
                OrderType::Limit,
                resting.price,
                slice,
                reading(one.clock),
            );
            let twin_refill = Order { timestamp: reading(other.clock), ..refill };
            let mine = filled.recording(shown);
            let yours = twin_filled.recording(shown);
            lemma_alike_with_queue(
                mine,
                yours,
                side,
                price,
                rest.push(refill),
                others.push(twin_refill),
            );
            let left = filled.icebergs.insert(
                id,
                IcebergOrder { remaining: (iceberg.remaining - slice) as u64, ..iceberg },
            );
            assert(one.step().market.unstamped() =~= (Market {
                icebergs: left,
                ..mine.with_queue(side, price, rest.push(refill)).unstamped()
            }));
            assert(other.step().market.unstamped() =~= (Market {
                icebergs: left,
                ..yours.with_queue(side, price, others.push(twin_refill)).unstamped()
            }));
            assert(one.step().unstamped() =~= other.step().unstamped());
        } else {
            lemma_alike_with_queue(filled, twin_filled, side, price, rest, others);
            assert(one.step().unstamped() =~= other.step().unstamped());
        }
    }
}

proof fn lemma_alike_run(one: Matching, other: Matching)
    requires
        one.unstamped() == other.unstamped(),
    ensures
        one.run().unstamped() == other.run().unstamped(),
    decreases one.taker.remaining_quantity,
{
    lemma_alike_step(one, other);
    if one.ready() {
        lemma_alike_run(one.step(), other.step());
    }
}

proof fn lemma_alike_matched(
    one: Market,
    other: Market,
    order: Order,
    twin: Order,
    clock: Seq<u64>,
    later: Seq<u64>,
)
    requires
        one.unstamped() == other.unstamped(),
        order.unstamped() == twin.unstamped(),
    ensures
        one.matched(order, clock).unstamped() == other.matched(twin, later).unstamped(),
        one.matched(order, clock).taker.remaining_quantity == other.matched(
            twin,
            later,
        ).taker.remaining_quantity,
{
    let mine = Matching { market: one, taker: order, clock };
    let yours = Matching { market: other, taker: twin, clock: later };
    assert(mine.unstamped() =~= yours.unstamped());
    lemma_alike_run(mine, yours);
    let ran = mine.run();
    let twin_ran = yours.run();
    assert(ran.market.unstamped() == ran.unstamped().market);
    assert(twin_ran.market.unstamped() == twin_ran.unstamped().market);
    assert(ran.taker.unstamped() == ran.unstamped().taker);
    assert(twin_ran.taker.unstamped() == twin_ran.unstamped().taker);
    assert(ran.taker == (Order { timestamp: ran.taker.timestamp, ..ran.taker.unstamped() }));
    assert(twin_ran.taker == (Order {
        timestamp: twin_ran.taker.timestamp,
        ..twin_ran.taker.unstamped()
    }));
    let id = ran.taker.order_id;
    if ran.taker.remaining_quantity > 0 {
        let event = OrderEvent::OrderPartiallyFilled { id, filled: ran.filled() };
        lemma_alike_recording(ran.market, twin_ran.market, event, event);
        let told = if ran.filled() > 0 {
            ran.market.recording(event)
        } else {
            ran.market
        };
        let twin_told = if twin_ran.filled() > 0 {
            twin_ran.market.recording(event)
        } else {
            twin_ran.market
        };
        lemma_alike_with_resting(told, twin_told, ran.taker, twin_ran.taker);
    } else {
        let event = OrderEvent::OrderFullyFilled(id);
        lemma_alike_recording(ran.market, twin_ran.market, event, event);
    }
    assert(ran.settle().unstamped() =~= twin_ran.settle().unstamped());
}

proof fn lemma_alike_fire_all(one: Floor, other: Floor, stops: Seq<StopOrder>)
    requires
        one.unstamped() == other.unstamped(),
    ensures
        one.fire_all(stops).unstamped() == other.fire_all(stops).unstamped(),
    decreases stops.len(),
{
    if stops.len() > 0 {
        let stop = stops[0];
        let event = OrderEvent::StopTriggered(stop.id);
        assert(one.market.unstamped() == one.unstamped().market);
        assert(other.market.unstamped() == other.unstamped().market);
        assert(one.stops == one.unstamped().stops && other.stops == other.unstamped().stops);
        lemma_alike_recording(one.market, other.market, event, event);
        let order = market_order_of(stop, reading(one.clock));
        let twin = market_order_of(stop, reading(other.clock));
        assert(order.unstamped() == twin.unstamped());
        lemma_alike_matched(
            one.market.recording(event),
            other.market.recording(event),
            order,
            twin,
            one.clock.drop_first(),
            other.clock.drop_first(),
        );
        let mine = one.market.recording(event).matched(order, one.clock.drop_first());
        let yours = other.market.recording(event).matched(twin, other.clock.drop_first());
        assert(mine.market.unstamped() == mine.unstamped().market);
        assert(yours.market.unstamped() == yours.unstamped().market);
        assert(one.fire(stop).unstamped() =~= other.fire(stop).unstamped());
        lemma_alike_fire_all(one.fire(stop), other.fire(stop), stops.drop_first());
    }
}

proof fn lemma_alike_check_stops(one: Floor, other: Floor)
    requires
        one.unstamped() == other.unstamped(),
    ensures
        one.check_stops().unstamped() == other.check_stops().unstamped(),
    decreases one.stops.len(),
{
    assert(one.stops == one.unstamped().stops && other.stops == other.unstamped().stops);
    assert(one.market.last_trade_price == one.unstamped().market.last_trade_price);
    assert(other.market.last_trade_price == other.unstamped().market.last_trade_price);
    if let Some(price) = one.market.last_trade_price {
        let hit = set_off(one.stops, price);
        let rest = still_waiting(one.stops, price);
        if hit.len() > 0 {
            let mine = Floor { stops: rest, ..one };
            let yours = Floor { stops: rest, ..other };
            assert(mine.unstamped() =~= (Floor { stops: rest, ..one.unstamped() }));
            assert(yours.unstamped() =~= (Floor { stops: rest, ..other.unstamped() }));
            lemma_stops_part(one.stops, price);
            lemma_fire_all_keeps_stops(mine, hit);
            lemma_alike_fire_all(mine, yours, hit);
            lemma_alike_check_stops(mine.fire_all(hit), yours.fire_all(hit));
        }
    }
}

proof fn lemma_alike_arrival(
    one: Book,
    other: Book,
    order: Order,
    twin: Order,
    clock: Seq<u64>,
    later: Seq<u64>,
)
    requires
        one.unstamped() == other.unstamped(),
        order.unstamped() == twin.unstamped(),
    ensures
        one.after_arrival(order, clock).unstamped() == other.after_arrival(twin, later).unstamped(),
        one.arrival(order, clock).taker.remaining_quantity == other.arrival(
            twin,
            later,
        ).taker.remaining_quantity,
{
    assert(one.market.unstamped() == one.unstamped().market);
    assert(other.market.unstamped() == other.unstamped().market);
    assert(one.stops == one.unstamped().stops && other.stops == other.unstamped().stops);
    assert(one.next_order_id == one.unstamped().next_order_id);
    assert(other.next_order_id == other.unstamped().next_order_id);
    let event = OrderEvent::OrderPlaced(order);
    let twin_event = OrderEvent::OrderPlaced(twin);
    lemma_alike_recording(one.market, other.market, event, twin_event);
    lemma_alike_matched(
        one.market.recording(event),
        other.market.recording(twin_event),
        order,
        twin,
        clock,
        later,
    );
    let mine = one.arrival(order, clock);
    let yours = other.arrival(twin, later);
    assert(mine.market.unstamped() == mine.unstamped().market);
    assert(yours.market.unstamped() == yours.unstamped().market);
    let floor = one.floor_after(order, clock);
    let twins = other.floor_after(twin, later);
    assert(floor.unstamped() =~= twins.unstamped());
    lemma_alike_check_stops(floor, twins);
    assert(floor.check_stops().market.unstamped() == floor.check_stops().unstamped().market);
    assert(twins.check_stops().market.unstamped() == twins.check_stops().unstamped().market);
    assert(floor.check_stops().stops == floor.check_stops().unstamped().stops);
    assert(twins.check_stops().stops == twins.check_stops().unstamped().stops);
    assert(one.after_arrival(order, clock).unstamped() =~= other.after_arrival(
        twin,
        later,
    ).unstamped());
}

/// Law: the clock decides nothing but time stamps. Two books that differ in
/// time stamps alone leave the same of the same limit order, and differ in
/// time stamps alone afterwards.
pub proof fn law_limit_order_is_reproducible(
    one: Book,
    other: Book,
    order: Order,
    twin: Order,
    clock: Seq<u64>,
    later: Seq<u64>,
)
    requires
        one.unstamped() == other.unstamped(),
        order.unstamped() == twin.unstamped(),
    ensures
        one.after_limit(order, clock).unstamped() == other.after_limit(twin, later).unstamped(),
        one.left_of_limit(order, clock) == other.left_of_limit(twin, later),
{
    assert(one.next_order_id == one.unstamped().next_order_id);
    assert(other.next_order_id == other.unstamped().next_order_id);
    assert(order == (Order { timestamp: order.timestamp, ..order.unstamped() }));
    assert(twin == (Order { timestamp: twin.timestamp, ..twin.unstamped() }));
    assert(one.adopt(order).unstamped() == other.adopt(twin).unstamped());
    assert(one.numbered().unstamped() =~= one.unstamped().numbered());
    assert(other.numbered().unstamped() =~= other.unstamped().numbered());
    lemma_alike_arrival(
        one.numbered(),
        other.numbered(),
        one.adopt(order),
        other.adopt(twin),
        clock,
        later,
    );
}

/// Law: the clock decides nothing but time stamps, for iceberg orders too.
pub proof fn law_iceberg_order_is_reproducible(
    one: Book,
    other: Book,
    iceberg: IcebergOrder,
    clock: Seq<u64>,
    later: Seq<u64>,
)
    requires
        one.unstamped() == other.unstamped(),
    ensures
        one.after_iceberg(iceberg, clock).unstamped() == other.after_iceberg(
            iceberg,
            later,
        ).unstamped(),
        one.left_of_iceberg(iceberg, clock) == other.left_of_iceberg(iceberg, later),
{
    assert(one.next_order_id == one.unstamped().next_order_id);
    assert(other.next_order_id == other.unstamped().next_order_id);
    assert(one.market.icebergs == one.unstamped().market.icebergs);
    assert(other.market.icebergs == other.unstamped().market.icebergs);
    let mine = one.hiding(iceberg).numbered();
    let yours = other.hiding(iceberg).numbered();
    assert(mine.unstamped() =~= one.unstamped().hiding(iceberg).numbered());
    assert(yours.unstamped() =~= other.unstamped().hiding(iceberg).numbered());
    let order = one.first_slice(iceberg, reading(clock));
    let twin = other.first_slice(iceberg, reading(later));
    assert(order.unstamped() == twin.unstamped());
    lemma_alike_arrival(mine, yours, order, twin, clock.drop_first(), later.drop_first());
}

} // verus!
