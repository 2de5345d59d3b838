//! What those who trade in the exchange book may rely on, in numbers.

use super::accounts::fills_quantity_of;
use super::book::gap;
use super::history::{lemma_after_leaves, Request};
use super::laws::{
    fills_quantity, law_best_price_first, law_order_trades_what_is_within_reach,
    law_rest_of_limit_order_rests, lemma_queue_order, lemma_run_fills, lemma_visited_prices,
};
use super::model::{Book, LevelSweep, SideSweep};
use super::renumbering::lemma_no_trade_changes_nothing;
use super::soundness::{
    lemma_limit_keeps_well_formed, lemma_resting_order_has_a_place, lemma_sweep_keeps_well_formed,
    lemma_visit_keeps_sound,
};
use super::tape::{reports, trade_stamp, Fill};
use crate::book_side::{level_at, queue_at};
use crate::events::Trade;
use crate::ladder::{best, ladder, law_best_price_is_the_extreme, reachable, runs_best_first};
use crate::order::Order;
use crate::price_level::{lemma_place_is_one, Level};
use crate::types::{OrderBookError, OrderId, Price, Quantity, Side};
use vstd::prelude::*;

verus! {

/// Whether `orders` has one with id `id`.
pub open spec fn has_order(orders: Seq<Order>, id: OrderId) -> bool {
    exists|k: int| 0 <= k < orders.len() && (#[trigger] orders[k]).order_id == id
}

/// Whether a queue became `after` because orders were served from its front:
/// some left, and of the one that is first now a part may be gone.
pub open spec fn served_from_the_front(before: Seq<Order>, after: Seq<Order>) -> bool {
    let gone = before.len() - after.len();
    &&& gone >= 0
    &&& forall|k: int| 1 <= k < after.len() ==> #[trigger] after[k] == before[k + gone]
    &&& after.len() > 0 ==> {
        let was = before[gone];
        let is = after[0];
        &&& is.order_id == was.order_id
        &&& is.side == was.side
        &&& is.order_type == was.order_type
        &&& is.price == was.price
        &&& is.original_quantity == was.original_quantity
        &&& is.timestamp == was.timestamp
        &&& 0 < is.remaining_quantity <= was.remaining_quantity
        &&& is.remaining_quantity == was.remaining_quantity ==> is == was
        &&& is.remaining_quantity < was.remaining_quantity ==> is.status is PartiallyFilled
    }
}

proof fn lemma_run_serves_from_the_front(
    book: Book,
    side: Side,
    price: Price,
    sweep: LevelSweep,
)
    requires
        book.sound(),
        book.side(side).contains_key(price),
        sweep.level == book.side(side)[price],
        sweep.index == book.index,
    ensures
        served_from_the_front(sweep.level.orders, sweep.run().level.orders),
{
    let queue = sweep.level.orders;
    let after = sweep.run().level.orders;
    let fills = sweep.run().fills.skip(sweep.fills.len() as int);
    let n = fills.len() as int;
    lemma_queue_order(book, side, price, sweep);
    lemma_run_fills(book, side, price, sweep);
    assert(book.level_fits(sweep.level, side, price));
    if n > 0 {
        assert(book.order_fits(queue[n - 1], side, price));
        assert(fills[n - 1] == sweep.run().fills[sweep.fills.len() + n - 1]);
    }
    if n > 0 && fills[n - 1].quantity < queue[n - 1].remaining_quantity {
        assert forall|k: int| 1 <= k < after.len() implies #[trigger] after[k] == queue[k + n
            - 1] by {}
    } else {
        assert forall|k: int| 0 <= k < after.len() implies #[trigger] after[k] == queue[k + n] by {}
        if after.len() > 0 {
            assert(book.order_fits(queue[n], side, price));
            assert(after[0] == queue[0 + n]);
        }
    }
}

proof fn lemma_untouched_queue(book: Book, side: Side, price: Price)
    requires
        book.sound(),
    ensures
        served_from_the_front(queue_at(book.side(side), price), queue_at(book.side(side), price)),
{
    let queue = queue_at(book.side(side), price);
    if queue.len() > 0 {
        assert(book.level_fits(book.side(side)[price], side, price));
        assert(book.order_fits(queue[0], side, price));
    }
}

proof fn lemma_visit_all_serves_from_the_front(
    book: Book,
    sweep: SideSweep,
    prices: Seq<Price>,
    price: Price,
)
    requires
        book.sound(),
        sweep.levels == book.side(sweep.taker.side.other()),
        sweep.index == book.index,
        runs_best_first(prices, sweep.taker.side.other()),
    ensures
        served_from_the_front(
            queue_at(sweep.levels, price),
            queue_at(sweep.visit_all(prices).levels, price),
        ),
        !prices.contains(price) ==> queue_at(sweep.visit_all(prices).levels, price) == queue_at(
            sweep.levels,
            price,
        ),
    decreases prices.len(),
{
    let side = sweep.taker.side.other();
    if prices.len() == 0 || sweep.taker.remaining_quantity == 0 {
        lemma_untouched_queue(book, side, price);
    } else {
        let first = prices[0];
        let rest = prices.drop_first();
        let next = sweep.visit(first);
        lemma_visit_keeps_sound(book, sweep, first);
        let moved = book.swept(next);
        assert(moved.side(side) == next.levels);
        assert forall|i: int, j: int| 0 <= i < j < rest.len() implies side.prefers(
            rest[i],
            rest[j],
        ) by {
            assert(side.prefers(prices[i + 1], prices[j + 1]));
        }
        lemma_visit_all_serves_from_the_front(moved, next, rest, price);
        assert(prices.contains(first));
        if price == first {
            assert(!rest.contains(first)) by {
                if rest.contains(first) {
                    let k = rest.index_of(first);
                    assert(side.prefers(prices[0], prices[k + 1]));
                }
            }
            if sweep.levels.contains_key(first) {
                let begun = LevelSweep {
                    level: sweep.levels[first],
                    index: sweep.index,
                    taker: sweep.taker,
                    fills: sweep.fills,
                };
                lemma_run_serves_from_the_front(book, side, first, begun);
                assert(queue_at(next.levels, first) =~= begun.run().level.orders);
            } else {
                lemma_untouched_queue(book, side, price);
            }
        } else {
            assert(queue_at(next.levels, price) == queue_at(sweep.levels, price));
            if rest.contains(price) {
                let k = rest.index_of(price);
                assert(prices[k + 1] == price);
                assert(prices.contains(price));
            }
        }
    }
}

proof fn lemma_sweep_serves_from_the_front(
    book: Book,
    taker: Order,
    limit: Option<Price>,
    price: Price,
)
    requires
        book.well_formed(),
    ensures
        served_from_the_front(
            queue_at(book.side(taker.side.other()), price),
            queue_at(book.sweep(taker, limit).levels, price),
        ),
        limit is Some && taker.side is Bid && price > limit->0 ==> queue_at(
            book.sweep(taker, limit).levels,
            price,
        ) == queue_at(book.side(taker.side.other()), price),
        limit is Some && taker.side is Ask && price < limit->0 ==> queue_at(
            book.sweep(taker, limit).levels,
            price,
        ) == queue_at(book.side(taker.side.other()), price),
{
    let side = taker.side.other();
    let begun = SideSweep { levels: book.side(side), index: book.index, taker, fills: Seq::empty() };
    let wanted = reachable(begun.levels.dom(), side, limit);
    let prices = ladder(wanted, side);
    lemma_visited_prices(book, taker, limit);
    lemma_visit_all_serves_from_the_front(book, begun, prices, price);
    if prices.contains(price) {
        assert(wanted.contains(price));
    }
}

/// What trades of a buying order are, in numbers: each is of some quantity, by
/// this order with one that rests among the asks at its price, and they go from
/// the lowest ask up.
pub open spec fn bought_from(fills: Seq<Fill>, id: OrderId, asks: Map<Price, Level>) -> bool {
    &&& forall|i: int|
        0 <= i < fills.len() ==> {
            &&& (#[trigger] fills[i]).quantity > 0
            &&& fills[i].taker_order_id == id
            &&& has_order(queue_at(asks, fills[i].price), fills[i].maker_order_id)
        }
    &&& forall|i: int, j: int|
        0 <= i < j < fills.len() ==> (#[trigger] fills[i]).price <= (#[trigger] fills[j]).price
}

/// The same of a selling order, which goes from the highest bid down.
pub open spec fn sold_to(fills: Seq<Fill>, id: OrderId, bids: Map<Price, Level>) -> bool {
    &&& forall|i: int|
        0 <= i < fills.len() ==> {
            &&& (#[trigger] fills[i]).quantity > 0
            &&& fills[i].taker_order_id == id
            &&& has_order(queue_at(bids, fills[i].price), fills[i].maker_order_id)
        }
    &&& forall|i: int, j: int|
        0 <= i < j < fills.len() ==> (#[trigger] fills[i]).price >= (#[trigger] fills[j]).price
}

proof fn lemma_fills_in_numbers(book: Book, taker: Order, limit: Option<Price>)
    requires
        book.well_formed(),
    ensures
        ({
            let fills = book.sweep(taker, limit).fills;
            &&& taker.side is Bid ==> bought_from(fills, taker.order_id, book.asks)
            &&& taker.side is Ask ==> sold_to(fills, taker.order_id, book.bids)
            &&& limit is Some && taker.side is Bid ==> forall|i: int|
                0 <= i < fills.len() ==> (#[trigger] fills[i]).price <= limit->0
            &&& limit is Some && taker.side is Ask ==> forall|i: int|
                0 <= i < fills.len() ==> (#[trigger] fills[i]).price >= limit->0
        }),
{
    let side = taker.side.other();
    let fills = book.sweep(taker, limit).fills;
    law_best_price_first(book, taker, limit);
    assert forall|i: int| 0 <= i < fills.len() implies has_order(
        queue_at(book.side(side), (#[trigger] fills[i]).price),
        fills[i].maker_order_id,
    ) by {
        assert(book.rests(side, fills[i].price, fills[i].maker_order_id));
        let queue = book.side(side)[fills[i].price].orders;
        let k = choose|k: int|
            0 <= k < queue.len() && queue[k].order_id == fills[i].maker_order_id;
        assert(queue[k].order_id == fills[i].maker_order_id);
    }
}

/// Law: a limit order to buy at `price` pays at most `price`. It trades with
/// those who ask for the least first, in turn, until it is filled or nobody asks
/// for `price` or less; those who ask for more are not touched. What it did not
/// trade is bid for at `price`, behind those who bid that already, and nothing
/// else changes among the bids.
pub proof fn law_limit_buy_in_numbers(
    book: Book,
    price: Price,
    quantity: Quantity,
    timestamp: u64,
)
    requires
        book.well_formed(),
        book.next_order_id < u64::MAX,
        price > 0,
        quantity > 0,
    ensures
        ({
            let id = book.next_order_id;
            let fills = book.limit_sweep(Side::Bid, price, quantity, timestamp).fills;
            let after = book.after_limit(Side::Bid, price, quantity, timestamp);
            let traded = fills_quantity(fills);
            &&& bought_from(fills, id, book.asks)
            &&& forall|i: int| 0 <= i < fills.len() ==> (#[trigger] fills[i]).price <= price
            &&& forall|p: Price|
                served_from_the_front(#[trigger] queue_at(book.asks, p), queue_at(after.asks, p))
            &&& forall|p: Price|
                p > price ==> #[trigger] queue_at(after.asks, p) == queue_at(book.asks, p)
            &&& traded <= quantity
            &&& traded < quantity ==> forall|p: Price| #[trigger]
                after.asks.contains_key(p) ==> p > price
            &&& forall|p: Price|
                p != price ==> #[trigger] queue_at(after.bids, p) == queue_at(book.bids, p)
            &&& joins_the_queue(
                queue_at(book.bids, price),
                queue_at(after.bids, price),
                id,
                Side::Bid,
                price,
                quantity,
                (quantity - traded) as nat,
                timestamp,
            )
            &&& after.next_order_id == id + 1
        }),
{
    let taker = book.limit_order(Side::Bid, price, quantity, timestamp);
    let after = book.after_limit(Side::Bid, price, quantity, timestamp);
    lemma_limit_in_numbers(book, Side::Bid, price, quantity, timestamp);
    lemma_fills_in_numbers(book, taker, Some(price));
    assert forall|p: Price| served_from_the_front(
        #[trigger] queue_at(book.asks, p),
        queue_at(after.asks, p),
    ) by {
        lemma_sweep_serves_from_the_front(book, taker, Some(price), p);
    }
    assert forall|p: Price| p > price implies #[trigger] queue_at(after.asks, p) == queue_at(
        book.asks,
        p,
    ) by {
        lemma_sweep_serves_from_the_front(book, taker, Some(price), p);
    }
}

/// Law: a limit order to sell at `price` gets at least `price`, and all else is
/// the mirror image of an order to buy.
pub proof fn law_limit_sell_in_numbers(
    book: Book,
    price: Price,
    quantity: Quantity,
    timestamp: u64,
)
    requires
        book.well_formed(),
        book.next_order_id < u64::MAX,
        price > 0,
        quantity > 0,
    ensures
        ({
            let id = book.next_order_id;
            let fills = book.limit_sweep(Side::Ask, price, quantity, timestamp).fills;
            let after = book.after_limit(Side::Ask, price, quantity, timestamp);
            let traded = fills_quantity(fills);
            &&& sold_to(fills, id, book.bids)
            &&& forall|i: int| 0 <= i < fills.len() ==> (#[trigger] fills[i]).price >= price
            &&& forall|p: Price|
                served_from_the_front(#[trigger] queue_at(book.bids, p), queue_at(after.bids, p))
            &&& forall|p: Price|
                p < price ==> #[trigger] queue_at(after.bids, p) == queue_at(book.bids, p)
            &&& traded <= quantity
            &&& traded < quantity ==> forall|p: Price| #[trigger]
                after.bids.contains_key(p) ==> p < price
            &&& forall|p: Price|
                p != price ==> #[trigger] queue_at(after.asks, p) == queue_at(book.asks, p)
            &&& joins_the_queue(
                queue_at(book.asks, price),
                queue_at(after.asks, price),
                id,
                Side::Ask,
                price,
                quantity,
                (quantity - traded) as nat,
                timestamp,
            )
            &&& after.next_order_id == id + 1
        }),
{
    let taker = book.limit_order(Side::Ask, price, quantity, timestamp);
    let after = book.after_limit(Side::Ask, price, quantity, timestamp);
    lemma_limit_in_numbers(book, Side::Ask, price, quantity, timestamp);
    lemma_fills_in_numbers(book, taker, Some(price));
    assert forall|p: Price| served_from_the_front(
        #[trigger] queue_at(book.bids, p),
        queue_at(after.bids, p),
    ) by {
        lemma_sweep_serves_from_the_front(book, taker, Some(price), p);
    }
    assert forall|p: Price| p < price implies #[trigger] queue_at(after.bids, p) == queue_at(
        book.bids,
        p,
    ) by {
        lemma_sweep_serves_from_the_front(book, taker, Some(price), p);
    }
}

/// Whether, if `left` of a limit order is left, the order joined a queue at its
/// end, with what it came with and that much left; and if nothing is left, the
/// queue is as before.
pub open spec fn joins_the_queue(
    before: Seq<Order>,
    after: Seq<Order>,
    id: OrderId,
    side: Side,
    price: Price,
    quantity: Quantity,
    left: nat,
    timestamp: u64,
) -> bool {
    if left == 0 {
        after == before
    } else {
        let order = after[before.len() as int];
        &&& after.len() == before.len() + 1
        &&& forall|k: int| 0 <= k < before.len() ==> #[trigger] after[k] == before[k]
        &&& order.order_id == id
        &&& order.side == side
        &&& order.order_type is Limit
        &&& order.price == price
        &&& order.original_quantity == quantity
        &&& order.remaining_quantity == left
        &&& order.timestamp == timestamp
        &&& left == quantity ==> order.status is Active
        &&& left < quantity ==> order.status is PartiallyFilled
    }
}

proof fn lemma_limit_in_numbers(
    book: Book,
    side: Side,
    price: Price,
    quantity: Quantity,
    timestamp: u64,
)
    requires
        book.well_formed(),
        book.next_order_id < u64::MAX,
        price > 0,
        quantity > 0,
    ensures
        ({
            let id = book.next_order_id;
            let sweep = book.limit_sweep(side, price, quantity, timestamp);
            let after = book.after_limit(side, price, quantity, timestamp);
            let traded = fills_quantity(sweep.fills);
            &&& traded + sweep.taker.remaining_quantity == quantity
            &&& traded < quantity ==> forall|p: Price| #[trigger]
                after.side(side.other()).contains_key(p) ==> !side.accepts(price, p)
            &&& after.side(side.other()) == sweep.levels
            &&& forall|p: Price|
                p != price ==> #[trigger] queue_at(after.side(side), p) == queue_at(
                    book.side(side),
                    p,
                )
            &&& joins_the_queue(
                queue_at(book.side(side), price),
                queue_at(after.side(side), price),
                id,
                side,
                price,
                quantity,
                (quantity - traded) as nat,
                timestamp,
            )
            &&& after.next_order_id == id + 1
        }),
{
    let taker = book.limit_order(side, price, quantity, timestamp);
    let sweep = book.limit_sweep(side, price, quantity, timestamp);
    let after = book.after_limit(side, price, quantity, timestamp);
    law_order_trades_what_is_within_reach(book, taker, Some(price));
    lemma_limit_keeps_well_formed(book, side, price, quantity, timestamp);
    lemma_sweep_keeps_well_formed(book, taker, Some(price));
    law_rest_of_limit_order_rests(book, side, price, quantity, timestamp);
    lemma_taker_status(book, taker, Some(price));
    assert(queue_at(book.side(side), price) =~= level_at(book.side(side), price).orders);
    assert(after.side(side.other()) == sweep.levels);
    assert forall|p: Price| p != price implies #[trigger] queue_at(after.side(side), p) == queue_at(
        book.side(side),
        p,
    ) by {}
}

/// An incoming order that has traded nothing is as it came, and one that has
/// traded some of its quantity is partly filled.
proof fn lemma_taker_status(book: Book, taker: Order, limit: Option<Price>)
    ensures
        ({
            let after = book.sweep(taker, limit).taker;
            &&& after.remaining_quantity <= taker.remaining_quantity
            &&& after.remaining_quantity == taker.remaining_quantity ==> after == taker
            &&& 0 < after.remaining_quantity < taker.remaining_quantity
                ==> after.status is PartiallyFilled
        }),
{
    let side = taker.side.other();
    let begun = SideSweep { levels: book.side(side), index: book.index, taker, fills: Seq::empty() };
    let prices = ladder(reachable(begun.levels.dom(), side, limit), side);
    lemma_visit_all_taker_status(begun, prices);
}

proof fn lemma_visit_all_taker_status(sweep: SideSweep, prices: Seq<Price>)
    ensures
        ({
            let after = sweep.visit_all(prices).taker;
            &&& after.remaining_quantity <= sweep.taker.remaining_quantity
            &&& after.remaining_quantity == sweep.taker.remaining_quantity ==> after == sweep.taker
            &&& 0 < after.remaining_quantity < sweep.taker.remaining_quantity
                ==> after.status is PartiallyFilled
        }),
    decreases prices.len(),
{
    if prices.len() > 0 && sweep.taker.remaining_quantity > 0 {
        let first = prices[0];
        if sweep.levels.contains_key(first) {
            lemma_run_taker_status(
                LevelSweep {
                    level: sweep.levels[first],
                    index: sweep.index,
                    taker: sweep.taker,
                    fills: sweep.fills,
                },
            );
        }
        lemma_visit_all_taker_status(sweep.visit(first), prices.drop_first());
    }
}

proof fn lemma_run_taker_status(sweep: LevelSweep)
    ensures
        ({
            let after = sweep.run().taker;
            &&& after.remaining_quantity <= sweep.taker.remaining_quantity
            &&& after.remaining_quantity == sweep.taker.remaining_quantity ==> after == sweep.taker
            &&& 0 < after.remaining_quantity < sweep.taker.remaining_quantity
                ==> after.status is PartiallyFilled
        }),
    decreases sweep.level.orders.len(), sweep.taker.remaining_quantity,
{
    if !sweep.done() {
        lemma_run_taker_status(sweep.step());
    }
}

/// Law: an order to buy below every ask, or to sell above every bid, trades
/// nothing and rests as it is; one that meets an ask or a bid trades.
pub proof fn law_order_trades_only_where_prices_cross(
    book: Book,
    price: Price,
    quantity: Quantity,
    timestamp: u64,
)
    requires
        book.well_formed(),
        book.next_order_id < u64::MAX,
        price > 0,
        quantity > 0,
    ensures
        (forall|p: Price| #[trigger] book.asks.contains_key(p) ==> price < p)
            <==> book.limit_sweep(Side::Bid, price, quantity, timestamp).fills.len() == 0,
        (forall|p: Price| #[trigger] book.bids.contains_key(p) ==> p < price)
            <==> book.limit_sweep(Side::Ask, price, quantity, timestamp).fills.len() == 0,
{
    law_limit_buy_in_numbers(book, price, quantity, timestamp);
    law_limit_sell_in_numbers(book, price, quantity, timestamp);
    let bought = book.limit_sweep(Side::Bid, price, quantity, timestamp).fills;
    let sold = book.limit_sweep(Side::Ask, price, quantity, timestamp).fills;
    if bought.len() > 0 {
        assert(bought[0].price <= price);
        assert(has_order(queue_at(book.asks, bought[0].price), bought[0].maker_order_id));
        assert(book.asks.contains_key(bought[0].price));
    } else {
        let taker = book.limit_order(Side::Bid, price, quantity, timestamp);
        lemma_no_trade_changes_nothing(book, taker, Some(price));
        lemma_limit_in_numbers(book, Side::Bid, price, quantity, timestamp);
    }
    if sold.len() > 0 {
        assert(sold[0].price >= price);
        assert(has_order(queue_at(book.bids, sold[0].price), sold[0].maker_order_id));
        assert(book.bids.contains_key(sold[0].price));
    } else {
        let taker = book.limit_order(Side::Ask, price, quantity, timestamp);
        lemma_no_trade_changes_nothing(book, taker, Some(price));
        lemma_limit_in_numbers(book, Side::Ask, price, quantity, timestamp);
    }
}

/// Law: a market order trades with whoever is on the other side, the best price
/// first and in turn, until it is filled or nobody is left there. What it is
/// told to have traded is what its trades add up to. Its own side stays as it
/// is.
pub proof fn law_market_order_in_numbers(
    book: Book,
    side: Side,
    quantity: Quantity,
    timestamp: u64,
)
    requires
        book.well_formed(),
        book.next_order_id < u64::MAX,
        quantity > 0,
    ensures
        ({
            let id = book.next_order_id;
            let sweep = book.market_sweep(side, quantity, timestamp);
            let after = book.after_market(side, quantity, timestamp);
            let traded = fills_quantity(sweep.fills);
            &&& traded == quantity - sweep.taker.remaining_quantity
            &&& side is Bid ==> {
                &&& bought_from(sweep.fills, id, book.asks)
                &&& forall|p: Price|
                    served_from_the_front(
                        #[trigger] queue_at(book.asks, p),
                        queue_at(after.asks, p),
                    )
                &&& traded < quantity ==> forall|p: Price| !#[trigger] after.asks.contains_key(p)
                &&& after.bids == book.bids
            }
            &&& side is Ask ==> {
                &&& sold_to(sweep.fills, id, book.bids)
                &&& forall|p: Price|
                    served_from_the_front(
                        #[trigger] queue_at(book.bids, p),
                        queue_at(after.bids, p),
                    )
                &&& traded < quantity ==> forall|p: Price| !#[trigger] after.bids.contains_key(p)
                &&& after.asks == book.asks
            }
            &&& after.next_order_id == id + 1
        }),
{
    let taker = book.market_order(side, quantity, timestamp);
    let after = book.after_market(side, quantity, timestamp);
    law_order_trades_what_is_within_reach(book, taker, None);
    lemma_sweep_keeps_well_formed(book, taker, None);
    lemma_fills_in_numbers(book, taker, None);
    assert forall|p: Price| served_from_the_front(
        #[trigger] queue_at(book.side(side.other()), p),
        queue_at(after.side(side.other()), p),
    ) by {
        lemma_sweep_serves_from_the_front(book, taker, None, p);
    }
}

/// Law: every trade takes from the resting order what it gives to the incoming
/// one. What is left of an order after a request is what was left before, less
/// what trades of this request with it add up to. (An order that the request
/// itself submits or cancels aside.)
pub proof fn law_orders_lose_what_they_trade(book: Book, request: Request, order_id: OrderId)
    requires
        book.well_formed(),
        book.has_ids_for(1),
        request != (Request::Cancel { order_id }),
        request.is_accepted() ==> order_id != book.next_order_id,
    ensures
        book.after(request).left_of(order_id) == book.left_of(order_id) - fills_quantity_of(
            book.fills_of(request),
            set![order_id],
        ),
{
    lemma_after_leaves(book, request, order_id);
}

/// Law: to cancel an order that rests takes it out of its queue and gives back
/// what is left of it. Everyone else stays, in the same order. To cancel any
/// other id changes nothing and is refused.
pub proof fn law_cancel_in_numbers(book: Book, side: Side, price: Price, i: int, order_id: OrderId)
    requires
        book.well_formed(),
    ensures
        ({
            let queue = queue_at(book.side(side), price);
            0 <= i < queue.len() && queue[i].order_id == order_id ==> {
                let after = book.after_cancel(order_id);
                let left = queue_at(after.side(side), price);
                &&& book.cancel_answer(order_id) == Ok::<Quantity, OrderBookError>(
                    queue[i].remaining_quantity,
                )
                &&& left.len() == queue.len() - 1
                &&& forall|k: int| 0 <= k < i ==> #[trigger] left[k] == queue[k]
                &&& forall|k: int| i < k < queue.len() ==> #[trigger] queue[k] == left[k - 1]
                &&& forall|s: Side, p: Price|
                    s != side || p != price ==> #[trigger] queue_at(after.side(s), p) == queue_at(
                        book.side(s),
                        p,
                    )
                &&& after.next_order_id == book.next_order_id
            }
        }),
        (forall|s: Side, p: Price|
            !has_order(#[trigger] queue_at(book.side(s), p), order_id)) ==> {
            &&& book.after_cancel(order_id) == book
            &&& book.cancel_answer(order_id) is Err
        },
{
    let queue = queue_at(book.side(side), price);
    if 0 <= i < queue.len() && queue[i].order_id == order_id {
        let level = book.side(side)[price];
        assert(book.level_fits(level, side, price));
        assert(book.order_fits(queue[i], side, price));
        assert(level.first_at(order_id, i)) by {
            assert forall|j: int| 0 <= j < i implies level.orders[j].order_id != order_id by {
                assert(level.orders[j].order_id < level.orders[i].order_id);
            }
        }
        lemma_place_is_one(level, order_id);
        let after = book.after_cancel(order_id);
        let left = queue_at(after.side(side), price);
        assert(left =~= queue.remove(i));
        assert forall|s: Side, p: Price| s != side || p != price implies #[trigger] queue_at(
            after.side(s),
            p,
        ) == queue_at(book.side(s), p) by {}
    }
    if book.cancellable(order_id) {
        lemma_resting_order_has_a_place(book, order_id);
        let (s, p, _) = book.index[order_id];
        let at = queue_at(book.side(s), p);
        let k = book.side(s)[p].place_of(order_id);
        assert(at[k].order_id == order_id);
        assert(has_order(at, order_id));
    }
}

/// Law: the spread is the gap between the best prices: added to the highest bid
/// it gives the lowest ask.
pub proof fn law_spread_in_numbers(book: Book)
    requires
        book.well_formed(),
    ensures
        match (best(book.bids.dom(), Side::Bid), best(book.asks.dom(), Side::Ask)) {
            (Some(bid), Some(ask)) => {
                &&& bid + gap(ask, bid) == ask
                &&& bid < ask
                &&& queue_at(book.bids, bid).len() > 0
                &&& queue_at(book.asks, ask).len() > 0
                &&& forall|p: Price| (#[trigger] queue_at(book.bids, p)).len() > 0 ==> p <= bid
                &&& forall|p: Price| (#[trigger] queue_at(book.asks, p)).len() > 0 ==> ask <= p
            },
            (None, _) => forall|p: Price| #[trigger] queue_at(book.bids, p).len() == 0,
            (_, None) => forall|p: Price| #[trigger] queue_at(book.asks, p).len() == 0,
        },
{
    law_best_price_is_the_extreme(book.bids.dom(), Side::Bid);
    law_best_price_is_the_extreme(book.asks.dom(), Side::Ask);
    let bids = best(book.bids.dom(), Side::Bid);
    let asks = best(book.asks.dom(), Side::Ask);
    if bids is Some && asks is Some {
        assert(book.bids.contains_key(bids->0) && book.asks.contains_key(asks->0));
        assert(book.side(Side::Bid).contains_key(bids->0));
        assert(book.side(Side::Ask).contains_key(asks->0));
        assert forall|p: Price| (#[trigger] queue_at(book.bids, p)).len() > 0 implies p <= bids->0 by {
            assert(book.bids.dom().contains(p));
        }
        assert forall|p: Price| (#[trigger] queue_at(book.asks, p)).len() > 0 implies asks->0 <= p by {
            assert(book.asks.dom().contains(p));
        }
    } else if bids is None {
        assert forall|p: Price| #[trigger] queue_at(book.bids, p).len() == 0 by {
            assert(!book.bids.dom().contains(p));
        }
    } else {
        assert forall|p: Price| #[trigger] queue_at(book.asks, p).len() == 0 by {
            assert(!book.asks.dom().contains(p));
        }
    }
}

/// Law: what is reported is what was traded. Earlier trades stay, and for each
/// fill there follows one trade with its parties, price and quantity, which bears
/// the stamp if there is one.
pub proof fn law_tape_tells_the_trades(
    before: Seq<Trade>,
    after: Seq<Trade>,
    fills: Seq<Fill>,
    stamp: Option<u64>,
)
    requires
        reports(before, after, fills, stamp),
    ensures
        after.len() == before.len() + fills.len(),
        forall|i: int| 0 <= i < before.len() ==> #[trigger] after[i] == before[i],
        forall|i: int|
            0 <= i < fills.len() ==> {
                let trade = #[trigger] after[before.len() + i];
                &&& trade.taker_order_id == fills[i].taker_order_id
                &&& trade.maker_order_id == fills[i].maker_order_id
                &&& trade.price == fills[i].price
                &&& trade.quantity == fills[i].quantity
                &&& stamp is Some ==> trade.timestamp == stamp->0
            },
{
    assert forall|i: int| 0 <= i < before.len() implies #[trigger] after[i] == before[i] by {
        assert(after.take(before.len() as int)[i] == after[i]);
    }
    assert forall|i: int| 0 <= i < fills.len() implies {
        let trade = #[trigger] after[before.len() + i];
        &&& trade.taker_order_id == fills[i].taker_order_id
        &&& trade.maker_order_id == fills[i].maker_order_id
        &&& trade.price == fills[i].price
        &&& trade.quantity == fills[i].quantity
    } by {
        assert(after[before.len() + i].fill() == fills[i]);
    }
}

/// Law: a trade is stamped with the whole milliseconds of the moment at which it
/// takes place.
pub proof fn law_trade_stamp_in_numbers(timestamp: u64)
    ensures
        trade_stamp(timestamp) * 1_000_000 <= timestamp,
        timestamp < (trade_stamp(timestamp) + 1) * 1_000_000,
{
}

/// Law: in a new book nothing rests and no order is known, and its first order
/// gets the id 1.
pub proof fn law_new_book_is_empty()
    ensures
        forall|p: Price| !#[trigger] Book::empty().bids.contains_key(p),
        forall|p: Price| !#[trigger] Book::empty().asks.contains_key(p),
        forall|id: OrderId| !#[trigger] Book::empty().index.contains_key(id),
        Book::empty().next_order_id == 1,
{
}

} // verus!
