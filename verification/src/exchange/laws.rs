//! The laws of the exchange book.

use super::model::{Book, LevelSweep, SideSweep};
use super::soundness::{
    lemma_limit_keeps_well_formed, lemma_market_keeps_well_formed, lemma_number_keeps_well_formed,
    lemma_step_keeps_sound, lemma_sweep_keeps_well_formed, lemma_visit_all_keeps_sound,
    lemma_visit_keeps_sound, lemma_withdraw_keeps_well_formed,
};
use super::tape::Fill;
use crate::book_side::{level_at, unstamped_levels};
use crate::ladder::{
    best, depth, is_best, ladder, lemma_best_exists, lemma_ladder_holds, reachable,
    runs_best_first, sum_of_totals,
};
use crate::order::Order;
use crate::price_level::{lemma_place_is_one, queue_quantity, Level};
use crate::tally::{lemma_depth_is_resting_quantity, resting_quantity};
use crate::types::{OrderBookError, OrderId, OrderStatus, Price, Quantity, Side};
use vstd::prelude::*;

verus! {

/// The quantities of some fills, added up.
pub open spec fn fills_quantity(fills: Seq<Fill>) -> nat
    decreases fills.len(),
{
    if fills.len() == 0 {
        0
    } else {
        fills_quantity(fills.drop_last()) + fills.last().quantity as nat
    }
}

/// The quantity that rests at `price`.
pub open spec fn offered_at(levels: Map<Price, Level>, price: Price) -> nat {
    if levels.contains_key(price) {
        queue_quantity(levels[price].orders)
    } else {
        0
    }
}

/// The quantity that rests at some prices.
pub open spec fn offered(levels: Map<Price, Level>, prices: Seq<Price>) -> nat
    decreases prices.len(),
{
    if prices.len() == 0 {
        0
    } else {
        offered_at(levels, prices[0]) + offered(levels, prices.drop_first())
    }
}

impl Book {
    /// The quantity that an order of `side` limited to `limit` can trade.
    pub open spec fn within_reach(self, side: Side, limit: Option<Price>) -> nat {
        let levels = self.side(side.other());
        offered(levels, ladder(reachable(levels.dom(), side.other(), limit), side.other()))
    }

    /// The quantity that rests on one side.
    pub open spec fn resting(self, side: Side) -> nat {
        resting_quantity(self.side(side))
    }
}

/// What a queue and an incoming order lose to each other is what was traded.
proof fn lemma_run_conserves(book: Book, side: Side, price: Price, sweep: LevelSweep)
    requires
        book.sound(),
        book.side(side).contains_key(price),
        sweep.level == book.side(side)[price],
        sweep.index == book.index,
    ensures
        fills_quantity(sweep.run().fills) + sweep.run().taker.remaining_quantity == fills_quantity(
            sweep.fills,
        ) + sweep.taker.remaining_quantity,
        queue_quantity(sweep.run().level.orders) + sweep.taker.remaining_quantity
            == queue_quantity(sweep.level.orders) + sweep.run().taker.remaining_quantity,
    decreases sweep.level.orders.len(), sweep.taker.remaining_quantity,
{
    if !sweep.done() {
        let step = sweep.step();
        assert(book.level_fits(sweep.level, side, price));
        assert(book.order_fits(sweep.level.orders[0], side, price));
        lemma_step_keeps_sound(book, side, price, sweep);
        lemma_run_conserves(book.amid(side, price, step), side, price, step);
        assert(step.fills.drop_last() =~= sweep.fills);
        let rest = sweep.level.orders.drop_first();
        if step.level.orders.len() == sweep.level.orders.len() {
            assert(step.level.orders.drop_first() =~= rest);
        }
    }
}

/// Levels that are not among some prices do not count for what is offered there.
proof fn lemma_offered_elsewhere(
    levels: Map<Price, Level>,
    others: Map<Price, Level>,
    prices: Seq<Price>,
)
    requires
        forall|price: Price| #[trigger]
            prices.contains(price) ==> offered_at(levels, price) == offered_at(others, price),
    ensures
        offered(levels, prices) == offered(others, prices),
    decreases prices.len(),
{
    if prices.len() > 0 {
        assert(prices.contains(prices[0]));
        assert forall|price: Price| #[trigger] prices.drop_first().contains(price) implies offered_at(
            levels,
            price,
        ) == offered_at(others, price) by {
            let i = prices.drop_first().index_of(price);
            assert(prices[i + 1] == price);
            assert(prices.contains(price));
        }
        lemma_offered_elsewhere(levels, others, prices.drop_first());
    }
}

/// Where nothing rests at any of some prices, nothing is offered.
proof fn lemma_nothing_offered(levels: Map<Price, Level>, prices: Seq<Price>)
    requires
        forall|price: Price| #[trigger]
            prices.contains(price) && levels.contains_key(price) ==> levels[price].orders.len()
                == 0,
    ensures
        offered(levels, prices) == 0,
    decreases prices.len(),
{
    if prices.len() > 0 {
        assert(prices.contains(prices[0]));
        assert forall|price: Price| #[trigger]
            prices.drop_first().contains(price) && levels.contains_key(
                price,
            ) implies levels[price].orders.len() == 0 by {
            let i = prices.drop_first().index_of(price);
            assert(prices[i + 1] == price);
            assert(prices.contains(price));
        }
        lemma_nothing_offered(levels, prices.drop_first());
    }
}

/// What the visited levels and the incoming order lose to each other is what
/// was traded.
proof fn lemma_visit_all_conserves(book: Book, sweep: SideSweep, prices: Seq<Price>)
    requires
        book.sound(),
        sweep.levels == book.side(sweep.taker.side.other()),
        sweep.index == book.index,
        forall|i: int, j: int| 0 <= i < j < prices.len() ==> prices[i] != prices[j],
    ensures
        fills_quantity(sweep.visit_all(prices).fills) + sweep.visit_all(
            prices,
        ).taker.remaining_quantity == fills_quantity(sweep.fills) + sweep.taker.remaining_quantity,
        offered(sweep.visit_all(prices).levels, prices) + sweep.taker.remaining_quantity
            == offered(sweep.levels, prices) + sweep.visit_all(
            prices,
        ).taker.remaining_quantity,
    decreases prices.len(),
{
    if prices.len() > 0 && sweep.taker.remaining_quantity > 0 {
        let first = prices[0];
        let rest = prices.drop_first();
        let next = sweep.visit(first);
        let after = sweep.visit_all(prices);
        lemma_visit_keeps_sound(book, sweep, first);
        let moved = book.swept(next);
        assert(moved.side(next.taker.side.other()) == next.levels);
        if sweep.levels.contains_key(first) {
            lemma_run_conserves(
                book,
                sweep.taker.side.other(),
                first,
                LevelSweep {
                    level: sweep.levels[first],
                    index: sweep.index,
                    taker: sweep.taker,
                    fills: sweep.fills,
                },
            );
        }
        lemma_visit_all_conserves(moved, next, rest);
        lemma_visit_all_keeps_sound(moved, next, rest);
        assert(!rest.contains(first));
        assert forall|price: Price| #[trigger] rest.contains(price) implies offered_at(
            sweep.levels,
            price,
        ) == offered_at(next.levels, price) by {}
        lemma_offered_elsewhere(sweep.levels, next.levels, rest);
        assert(offered_at(after.levels, first) == offered_at(next.levels, first)) by {
            if next.levels.contains_key(first) {
                assert(after.levels[first] == next.levels[first]);
            } else {
                assert(!after.levels.contains_key(first));
            }
        }
    }
}

/// The prices that a sweep visits are distinct, and run best first.
pub proof fn lemma_visited_prices(book: Book, taker: Order, limit: Option<Price>)
    requires
        book.sound(),
    ensures
        ({
            let side = taker.side.other();
            let wanted = reachable(book.side(side).dom(), side, limit);
            let prices = ladder(wanted, side);
            &&& runs_best_first(prices, side)
            &&& forall|i: int, j: int| 0 <= i < j < prices.len() ==> prices[i] != prices[j]
            &&& forall|price: Price| #[trigger] prices.contains(price) <==> wanted.contains(price)
        }),
{
    let side = taker.side.other();
    let wanted = reachable(book.side(side).dom(), side, limit);
    let prices = ladder(wanted, side);
    lemma_ladder_holds(wanted, side);
    assert forall|i: int, j: int| 0 <= i < j < prices.len() implies prices[i] != prices[j] by {
        assert(side.prefers(prices[i], prices[j]));
    }
}

/// Law: what an incoming order loses is what its trades add up to, and that is
/// the smaller one of its quantity and the quantity that rests within reach.
pub proof fn law_order_trades_what_is_within_reach(
    book: Book,
    taker: Order,
    limit: Option<Price>,
)
    requires
        book.well_formed(),
    ensures
        ({
            let sweep = book.sweep(taker, limit);
            let traded = fills_quantity(sweep.fills);
            let reach = book.within_reach(taker.side, limit);
            &&& traded + sweep.taker.remaining_quantity == taker.remaining_quantity
            &&& traded == if reach <= taker.remaining_quantity {
                reach
            } else {
                taker.remaining_quantity as nat
            }
            &&& book.swept(sweep).within_reach(taker.side, limit) + traded == reach
        }),
{
    let side = taker.side.other();
    let begun = SideSweep { levels: book.side(side), index: book.index, taker, fills: Seq::empty() };
    let wanted = reachable(begun.levels.dom(), side, limit);
    let prices = ladder(wanted, side);
    let sweep = book.sweep(taker, limit);
    lemma_visited_prices(book, taker, limit);
    lemma_visit_all_conserves(book, begun, prices);
    lemma_visit_all_keeps_sound(book, begun, prices);
    if sweep.taker.remaining_quantity > 0 {
        lemma_nothing_offered(sweep.levels, prices);
    }
    // What is within reach afterwards is what is left at the visited prices.
    let after = book.swept(sweep);
    let still = reachable(after.side(side).dom(), side, limit);
    assert(after.side(side) == sweep.levels);
    lemma_visited_prices(after, taker, limit);
    assert(after.sound());
    lemma_offered_at_fewer(sweep.levels, prices, ladder(still, side), side);
}

/// What is offered at some prices is what is offered at those of them at which
/// there are levels.
proof fn lemma_offered_at_fewer(
    levels: Map<Price, Level>,
    prices: Seq<Price>,
    fewer: Seq<Price>,
    side: Side,
)
    requires
        runs_best_first(prices, side),
        runs_best_first(fewer, side),
        forall|price: Price| #[trigger] fewer.contains(price) ==> prices.contains(price),
        forall|price: Price| #[trigger]
            prices.contains(price) && levels.contains_key(price) ==> fewer.contains(price),
    ensures
        offered(levels, prices) == offered(levels, fewer),
    decreases prices.len(),
{
    if prices.len() == 0 {
        if fewer.len() > 0 {
            assert(fewer.contains(fewer[0]));
        }
    } else {
        let first = prices[0];
        let rest = prices.drop_first();
        assert(prices.contains(first));
        assert(runs_best_first(rest, side)) by {
            assert forall|i: int, j: int| 0 <= i < j < rest.len() implies side.prefers(
                rest[i],
                rest[j],
            ) by {
                assert(side.prefers(prices[i + 1], prices[j + 1]));
            }
        }
        assert forall|price: Price| prices.contains(price) && price != first implies rest.contains(
            price,
        ) by {
            let i = prices.index_of(price);
            assert(rest[i - 1] == price);
        }
        assert forall|price: Price| rest.contains(price) implies prices.contains(price) && price
            != first && side.prefers(first, price) by {
            let i = rest.index_of(price);
            assert(prices[i + 1] == price);
            assert(side.prefers(prices[0], prices[i + 1]));
        }
        if fewer.contains(first) {
            let others = fewer.drop_first();
            let k = fewer.index_of(first);
            if k > 0 {
                assert(side.prefers(fewer[0], fewer[k]));
                assert(fewer.contains(fewer[0]));
                assert(rest.contains(fewer[0]));
            }
            assert(fewer[0] == first);
            assert(runs_best_first(others, side)) by {
                assert forall|i: int, j: int| 0 <= i < j < others.len() implies side.prefers(
                    others[i],
                    others[j],
                ) by {
                    assert(side.prefers(fewer[i + 1], fewer[j + 1]));
                }
            }
            assert forall|price: Price| #[trigger] others.contains(price) implies rest.contains(
                price,
            ) by {
                let i = others.index_of(price);
                assert(fewer[i + 1] == price);
                assert(fewer.contains(price));
                assert(side.prefers(fewer[0], fewer[i + 1]));
            }
            assert forall|price: Price| #[trigger]
                rest.contains(price) && levels.contains_key(price) implies others.contains(
                price,
            ) by {
                assert(prices.contains(price));
                assert(fewer.contains(price));
                let i = fewer.index_of(price);
                assert(others[i - 1] == price);
            }
            lemma_offered_at_fewer(levels, rest, others, side);
        } else {
            assert forall|price: Price| #[trigger] fewer.contains(price) implies rest.contains(
                price,
            ) by {}
            assert forall|price: Price| #[trigger]
                rest.contains(price) && levels.contains_key(price) implies fewer.contains(
                price,
            ) by {
                assert(prices.contains(price));
            }
            lemma_offered_at_fewer(levels, rest, fewer, side);
        }
    }
}

/// Law: in a book nothing is left to trade. The best bid is below the best
/// ask, so the spread is positive.
pub proof fn law_best_bid_below_best_ask(book: Book)
    requires
        book.well_formed(),
        best(book.bids.dom(), Side::Bid) is Some,
        best(book.asks.dom(), Side::Ask) is Some,
    ensures
        best(book.bids.dom(), Side::Bid)->0 < best(book.asks.dom(), Side::Ask)->0,
        super::book::gap(
            best(book.asks.dom(), Side::Ask)->0,
            best(book.bids.dom(), Side::Bid)->0,
        ) > 0,
{
    let bid = best(book.bids.dom(), Side::Bid)->0;
    let ask = best(book.asks.dom(), Side::Ask)->0;
    assert(is_best(book.bids.dom(), Side::Bid, bid));
    assert(is_best(book.asks.dom(), Side::Ask, ask));
    assert(book.bids.contains_key(bid) && book.asks.contains_key(ask));
}

/// Law: the total that is kept for each side is what rests on it, as long as
/// what rests at a single price can be written down as a quantity.
pub proof fn law_kept_totals_are_what_rests(book: Book, side: Side)
    requires
        book.well_formed(),
        forall|price: Price| #[trigger]
            book.side(side).contains_key(price) ==> queue_quantity(book.side(side)[price].orders)
                <= u64::MAX,
    ensures
        depth(book.side(side)) == book.resting(side),
{
    let levels = book.side(side);
    assert forall|price: Price| #[trigger]
        levels.contains_key(price) implies levels[price].total_quantity == queue_quantity(
        levels[price].orders,
    ) by {
        assert(book.level_fits(levels[price], side, price));
    }
    lemma_depth_is_resting_quantity(levels);
}

/// Law: the best price is that of an order. If a side has a best price, an
/// order of which something is left rests there, and none rests at a better
/// one. It has none only where nothing rests.
pub proof fn law_best_price_is_that_of_an_order(book: Book, side: Side)
    requires
        book.well_formed(),
    ensures
        match best(book.side(side).dom(), side) {
            Some(price) => {
                &&& exists|i: int|
                    0 <= i < book.side(side)[price].orders.len() && #[trigger] book.order_fits(
                        book.side(side)[price].orders[i],
                        side,
                        price,
                    )
                &&& forall|other: Price, order_id: OrderId| #[trigger]
                    book.rests(side, other, order_id) ==> !side.prefers(other, price)
            },
            None => forall|other: Price, order_id: OrderId|
                !#[trigger] book.rests(side, other, order_id),
        },
{
    let levels = book.side(side);
    match best(levels.dom(), side) {
        Some(price) => {
            assert(is_best(levels.dom(), side, price));
            assert(levels.contains_key(price));
            assert(book.level_fits(levels[price], side, price));
            assert(book.order_fits(levels[price].orders[0], side, price));
        },
        None => {
            assert forall|other: Price, order_id: OrderId| !#[trigger] book.rests(
                side,
                other,
                order_id,
            ) by {
                if levels.contains_key(other) {
                    assert(levels.dom().contains(other));
                    assert(levels.dom().len() > 0) by {
                        if levels.dom().len() == 0 {
                            assert(levels.dom() =~= Set::empty());
                        }
                    }
                    lemma_best_exists(levels.dom(), side);
                }
            }
        },
    }
}

/// Whether, at position `n` and after, `fills` are trades of `taker_id` at
/// `price` with orders that rest on `level`.
pub open spec fn fills_at(fills: Seq<Fill>, n: int, taker_id: OrderId, price: Price, level: Level) -> bool {
    forall|i: int|
        n <= i < fills.len() ==> {
            &&& (#[trigger] fills[i]).quantity > 0
            &&& fills[i].price == price
            &&& fills[i].taker_order_id == taker_id
            &&& level.holds(fills[i].maker_order_id)
        }
}

/// The fills that a queue gives.
pub proof fn lemma_run_fills(book: Book, side: Side, price: Price, sweep: LevelSweep)
    requires
        book.sound(),
        book.side(side).contains_key(price),
        sweep.level == book.side(side)[price],
        sweep.index == book.index,
    ensures
        sweep.fills.len() <= sweep.run().fills.len(),
        sweep.run().fills.take(sweep.fills.len() as int) == sweep.fills,
        fills_at(
            sweep.run().fills,
            sweep.fills.len() as int,
            sweep.taker.order_id,
            price,
            sweep.level,
        ),
    decreases sweep.level.orders.len(), sweep.taker.remaining_quantity,
{
    let n = sweep.fills.len() as int;
    if sweep.done() {
        assert(sweep.fills.take(n) =~= sweep.fills);
    } else {
        let step = sweep.step();
        let maker = sweep.level.orders[0];
        assert(book.level_fits(sweep.level, side, price));
        assert(book.order_fits(maker, side, price));
        lemma_step_keeps_sound(book, side, price, sweep);
        lemma_run_fills(book.amid(side, price, step), side, price, step);
        let fills = sweep.run().fills;
        assert(fills.take(n + 1) == step.fills);
        assert(fills.take(n) =~= fills.take(n + 1).take(n));
        assert(step.fills.take(n) =~= sweep.fills);
        assert(fills[n] == fills.take(n + 1)[n]);
        assert forall|i: int| n <= i < fills.len() implies sweep.level.holds(
            (#[trigger] fills[i]).maker_order_id,
        ) by {
            if i == n {
                assert(sweep.level.orders[0].order_id == fills[i].maker_order_id);
            } else {
                let id = fills[i].maker_order_id;
                assert(step.level.holds(id));
                let k = choose|k: int|
                    0 <= k < step.level.orders.len() && step.level.orders[k].order_id == id;
                let rest = sweep.level.orders.drop_first();
                if step.level.orders.len() == sweep.level.orders.len() {
                    assert(sweep.level.orders[k].order_id == id);
                } else {
                    assert(rest[k] == sweep.level.orders[k + 1]);
                    assert(sweep.level.orders[k + 1].order_id == id);
                }
            }
        }
    }
}

/// The fills that visiting prices in turn gives.
proof fn lemma_visit_all_fills(book: Book, sweep: SideSweep, prices: Seq<Price>)
    requires
        book.sound(),
        sweep.levels == book.side(sweep.taker.side.other()),
        sweep.index == book.index,
        runs_best_first(prices, sweep.taker.side.other()),
    ensures
        ({
            let side = sweep.taker.side.other();
            let after = sweep.visit_all(prices);
            let fills = after.fills;
            let n = sweep.fills.len() as int;
            &&& n <= fills.len()
            &&& fills.take(n) == sweep.fills
            &&& forall|i: int|
                n <= i < fills.len() ==> {
                    &&& (#[trigger] fills[i]).quantity > 0
                    &&& prices.contains(fills[i].price)
                    &&& fills[i].taker_order_id == sweep.taker.order_id
                    &&& book.rests(side, fills[i].price, fills[i].maker_order_id)
                }
            &&& forall|i: int, j: int|
                n <= i < j < fills.len() ==> !side.prefers(
                    (#[trigger] fills[j]).price,
                    (#[trigger] fills[i]).price,
                )
            &&& forall|i: int, price: Price|
                #![trigger fills[i], after.levels.contains_key(price)]
                n <= i < fills.len() && prices.contains(price) && after.levels.contains_key(price)
                    && after.levels[price].orders.len() > 0 ==> !side.prefers(price, fills[i].price)
        }),
    decreases prices.len(),
{
    let side = sweep.taker.side.other();
    let after = sweep.visit_all(prices);
    let fills = after.fills;
    let n = sweep.fills.len() as int;
    if prices.len() == 0 || sweep.taker.remaining_quantity == 0 {
        assert(fills.take(n) =~= sweep.fills);
    } else {
        let first = prices[0];
        let rest = prices.drop_first();
        let next = sweep.visit(first);
        let m = next.fills.len() as int;
        lemma_visit_keeps_sound(book, sweep, first);
        let moved = book.swept(next);
        assert(moved.side(side) == next.levels);
        assert(next.taker.side == sweep.taker.side);
        assert(next.taker.order_id == sweep.taker.order_id);
        if sweep.levels.contains_key(first) {
            lemma_run_fills(
                book,
                side,
                first,
                LevelSweep {
                    level: sweep.levels[first],
                    index: sweep.index,
                    taker: sweep.taker,
                    fills: sweep.fills,
                },
            );
        } else {
            assert(next.fills.take(n) =~= sweep.fills);
        }
        assert(runs_best_first(rest, side)) by {
            assert forall|i: int, j: int| 0 <= i < j < rest.len() implies side.prefers(
                rest[i],
                rest[j],
            ) by {
                assert(side.prefers(prices[i + 1], prices[j + 1]));
            }
        }
        lemma_visit_all_fills(moved, next, rest);
        assert(fills.take(m) == next.fills);
        assert(fills.take(n) =~= fills.take(m).take(n));
        assert forall|price: Price| rest.contains(price) implies prices.contains(price)
            && side.prefers(first, price) by {
            let i = rest.index_of(price);
            assert(prices[i + 1] == price);
            assert(side.prefers(prices[0], prices[i + 1]));
        }
        assert forall|price: Price| prices.contains(price) && price != first implies rest.contains(
            price,
        ) by {
            let i = prices.index_of(price);
            assert(rest[i - 1] == price);
        }
        assert(prices.contains(first));
        assert forall|i: int| n <= i < m implies (#[trigger] fills[i]).price == first
            && fills[i].quantity > 0 && fills[i].taker_order_id == sweep.taker.order_id
            && book.rests(side, first, fills[i].maker_order_id) by {
            assert(fills[i] == fills.take(m)[i]);
        }
        assert forall|i: int| m <= i < fills.len() implies {
            &&& (#[trigger] fills[i]).quantity > 0
            &&& rest.contains(fills[i].price)
            &&& fills[i].taker_order_id == sweep.taker.order_id
            &&& book.rests(side, fills[i].price, fills[i].maker_order_id)
        } by {
            let price = fills[i].price;
            assert(moved.rests(side, price, fills[i].maker_order_id));
            assert(next.levels[price] == sweep.levels[price]);
        }
        assert forall|i: int, price: Price|
            #![trigger fills[i], after.levels.contains_key(price)]
            n <= i < fills.len() && prices.contains(price) && after.levels.contains_key(price)
                && after.levels[price].orders.len() > 0 implies !side.prefers(
            price,
            fills[i].price,
        ) by {
            if price == first {
                if i >= m {
                    lemma_later_fills_mean_first_is_gone(book, sweep, prices);
                }
            } else {
                assert(rest.contains(price));
            }
        }
    }
}

/// An incoming order that goes on to the second price has left nothing at the
/// first one.
proof fn lemma_later_fills_mean_first_is_gone(
    book: Book,
    sweep: SideSweep,
    prices: Seq<Price>,
)
    requires
        book.sound(),
        sweep.levels == book.side(sweep.taker.side.other()),
        sweep.index == book.index,
        runs_best_first(prices, sweep.taker.side.other()),
        prices.len() > 0,
        sweep.taker.remaining_quantity > 0,
        sweep.visit_all(prices).fills.len() > sweep.visit(prices[0]).fills.len(),
    ensures
        sweep.visit_all(prices).levels.contains_key(prices[0]) ==> sweep.visit_all(
            prices,
        ).levels[prices[0]].orders.len() == 0,
{
    let side = sweep.taker.side.other();
    let first = prices[0];
    let rest = prices.drop_first();
    let next = sweep.visit(first);
    lemma_visit_keeps_sound(book, sweep, first);
    let moved = book.swept(next);
    assert(moved.side(side) == next.levels);
    assert forall|i: int, j: int| 0 <= i < j < rest.len() implies rest[i] != rest[j] by {
        assert(side.prefers(prices[i + 1], prices[j + 1]));
    }
    lemma_visit_all_keeps_sound(moved, next, rest);
    assert(!rest.contains(first)) by {
        if rest.contains(first) {
            let i = rest.index_of(first);
            assert(side.prefers(prices[0], prices[i + 1]));
        }
    }
    let after = next.visit_all(rest);
    if next.levels.contains_key(first) {
        assert(after.levels[first] == next.levels[first]);
    }
}

/// Law: an incoming order is served at the best prices first. Each of its
/// trades is of some quantity, at a price that its limit accepts and at which
/// the other order rested; no trade is at a better price than an earlier one;
/// and none is at a price that is worse than one at which something still
/// rests.
pub proof fn law_best_price_first(book: Book, taker: Order, limit: Option<Price>)
    requires
        book.well_formed(),
    ensures
        ({
            let side = taker.side.other();
            let after = book.sweep(taker, limit);
            let fills = after.fills;
            &&& forall|i: int|
                0 <= i < fills.len() ==> {
                    &&& (#[trigger] fills[i]).quantity > 0
                    &&& limit is None || taker.side.accepts(limit->0, fills[i].price)
                    &&& fills[i].taker_order_id == taker.order_id
                    &&& book.rests(side, fills[i].price, fills[i].maker_order_id)
                }
            &&& forall|i: int, j: int|
                0 <= i < j < fills.len() ==> !side.prefers(
                    (#[trigger] fills[j]).price,
                    (#[trigger] fills[i]).price,
                )
            &&& forall|i: int, price: Price|
                #![trigger fills[i], after.levels.contains_key(price)]
                0 <= i < fills.len() && after.levels.contains_key(price)
                    && after.levels[price].orders.len() > 0 ==> !side.prefers(price, fills[i].price)
        }),
{
    let side = taker.side.other();
    let begun = SideSweep { levels: book.side(side), index: book.index, taker, fills: Seq::empty() };
    let wanted = reachable(begun.levels.dom(), side, limit);
    let prices = ladder(wanted, side);
    let after = book.sweep(taker, limit);
    let fills = after.fills;
    lemma_visited_prices(book, taker, limit);
    lemma_visit_all_fills(book, begun, prices);
    lemma_visit_all_keeps_sound(book, begun, prices);
    assert forall|i: int| 0 <= i < fills.len() implies (limit is None || taker.side.accepts(
        limit->0,
        (#[trigger] fills[i]).price,
    )) by {
        assert(prices.contains(fills[i].price));
        assert(wanted.contains(fills[i].price));
    }
    assert forall|i: int, price: Price|
        #![trigger fills[i], after.levels.contains_key(price)]
        0 <= i < fills.len() && after.levels.contains_key(price)
            && after.levels[price].orders.len() > 0 implies !side.prefers(
        price,
        fills[i].price,
    ) by {
        assert(prices.contains(fills[i].price));
        assert(wanted.contains(fills[i].price));
        if !prices.contains(price) {
            assert(!wanted.contains(price));
            assert(begun.levels.dom().contains(price));
        }
    }
}

/// Law: first come, first served. An incoming order trades with the orders of
/// a level in the order in which they stand in the queue. It takes all that is
/// left of each of them but the last; of the last one it takes what it needs,
/// and what it does not need stays at the front. The orders behind keep their
/// places.
pub proof fn law_first_come_first_served(book: Book, side: Side, price: Price, taker: Order)
    requires
        book.well_formed(),
        book.side(side).contains_key(price),
    ensures
        ({
            let queue = book.side(side)[price].orders;
            let after = book.sweep_at(side, price, taker, Seq::empty()).run();
            let fills = after.fills;
            let n = fills.len() as int;
            &&& n <= queue.len()
            &&& taker.remaining_quantity > 0 && queue.len() > 0 ==> n > 0
            &&& forall|i: int|
                0 <= i < n ==> (#[trigger] fills[i]).maker_order_id == queue[i].order_id
            &&& forall|i: int|
                0 <= i < n - 1 ==> (#[trigger] fills[i]).quantity == queue[i].remaining_quantity
            &&& n > 0 ==> fills[n - 1].quantity <= queue[n - 1].remaining_quantity
            &&& after.level.orders == if n > 0 && fills[n - 1].quantity
                < queue[n - 1].remaining_quantity {
                seq![queue[n - 1].filled_by(fills[n - 1].quantity)] + queue.skip(n)
            } else {
                queue.skip(n)
            }
        }),
{
    let begun = book.sweep_at(side, price, taker, Seq::empty());
    lemma_queue_order(book, side, price, begun);
    let after = begun.run();
    assert(after.fills.skip(0) =~= after.fills);
}

/// How a sweep goes through a queue, counted from where it begins.
pub proof fn lemma_queue_order(book: Book, side: Side, price: Price, sweep: LevelSweep)
    requires
        book.sound(),
        book.side(side).contains_key(price),
        sweep.level == book.side(side)[price],
        sweep.index == book.index,
    ensures
        ({
            let queue = sweep.level.orders;
            let after = sweep.run();
            let fills = after.fills.skip(sweep.fills.len() as int);
            let n = fills.len() as int;
            &&& sweep.fills.len() <= after.fills.len()
            &&& n <= queue.len()
            &&& sweep.taker.remaining_quantity > 0 && queue.len() > 0 ==> n > 0
            &&& forall|i: int|
                0 <= i < n ==> (#[trigger] fills[i]).maker_order_id == queue[i].order_id
            &&& forall|i: int|
                0 <= i < n - 1 ==> (#[trigger] fills[i]).quantity == queue[i].remaining_quantity
            &&& n > 0 ==> fills[n - 1].quantity <= queue[n - 1].remaining_quantity
            &&& after.level.orders == if n > 0 && fills[n - 1].quantity
                < queue[n - 1].remaining_quantity {
                seq![queue[n - 1].filled_by(fills[n - 1].quantity)] + queue.skip(n)
            } else {
                queue.skip(n)
            }
        }),
    decreases sweep.level.orders.len(), sweep.taker.remaining_quantity,
{
    let queue = sweep.level.orders;
    let m = sweep.fills.len() as int;
    let after = sweep.run();
    let fills = after.fills.skip(m);
    if sweep.done() {
        assert(queue.skip(0) =~= queue);
    } else {
        let step = sweep.step();
        let maker = queue[0];
        let rest = queue.drop_first();
        assert(book.level_fits(sweep.level, side, price));
        assert(book.order_fits(maker, side, price));
        lemma_step_keeps_sound(book, side, price, sweep);
        lemma_run_fills(book.amid(side, price, step), side, price, step);
        lemma_queue_order(book.amid(side, price, step), side, price, step);
        let later = after.fills.skip(m + 1);
        assert(after.fills.take(m + 1) == step.fills);
        assert(fills[0] == after.fills.take(m + 1)[m]);
        assert(fills.drop_first() =~= later);
        assert(fills =~= seq![fills[0]] + later);
        if step.level.orders.len() == queue.len() {
            assert(step.done());
            assert(later.len() == 0);
            assert(queue.skip(1) =~= rest);
        } else {
            let n = fills.len() as int;
            assert(step.level.orders == rest);
            assert(rest.skip(n - 1) =~= queue.skip(n));
            assert forall|i: int| 0 <= i < n implies (#[trigger] fills[i]).maker_order_id
                == queue[i].order_id by {
                if i > 0 {
                    assert(fills[i] == later[i - 1]);
                    assert(rest[i - 1] == queue[i]);
                }
            }
            assert forall|i: int| 0 <= i < n - 1 implies (#[trigger] fills[i]).quantity
                == queue[i].remaining_quantity by {
                if i > 0 {
                    assert(fills[i] == later[i - 1]);
                    assert(rest[i - 1] == queue[i]);
                }
            }
            if n > 1 {
                assert(fills[n - 1] == later[n - 2]);
                assert(rest[n - 2] == queue[n - 1]);
            }
        }
    }
}

/// Law: of the orders that rest at one price, an incoming order is served by
/// the older ones first. In each queue the ids ascend, and so do the makers of
/// the trades at one price.
pub proof fn law_older_orders_first(book: Book, taker: Order, limit: Option<Price>)
    requires
        book.well_formed(),
    ensures
        forall|side: Side, price: Price, i: int, j: int|
            #![trigger book.side(side)[price].orders[i], book.side(side)[price].orders[j]]
            book.side(side).contains_key(price) && 0 <= i < j < book.side(side)[price].orders.len()
                ==> book.side(side)[price].orders[i].order_id
                < book.side(side)[price].orders[j].order_id,
        ({
            let fills = book.sweep(taker, limit).fills;
            forall|i: int, j: int|
                0 <= i < j < fills.len() && (#[trigger] fills[i]).price == (
                #[trigger] fills[j]).price ==> fills[i].maker_order_id < fills[j].maker_order_id
        }),
{
    assert forall|side: Side, price: Price, i: int, j: int|
        #![trigger book.side(side)[price].orders[i], book.side(side)[price].orders[j]]
        book.side(side).contains_key(price) && 0 <= i < j
            < book.side(side)[price].orders.len() implies book.side(side)[price].orders[i].order_id
        < book.side(side)[price].orders[j].order_id by {
        assert(book.level_fits(book.side(side)[price], side, price));
    }
    let side = taker.side.other();
    let begun = SideSweep { levels: book.side(side), index: book.index, taker, fills: Seq::empty() };
    let prices = ladder(reachable(begun.levels.dom(), side, limit), side);
    lemma_visited_prices(book, taker, limit);
    lemma_visit_all_ages(book, begun, prices);
}

proof fn lemma_visit_all_ages(book: Book, sweep: SideSweep, prices: Seq<Price>)
    requires
        book.sound(),
        sweep.levels == book.side(sweep.taker.side.other()),
        sweep.index == book.index,
        runs_best_first(prices, sweep.taker.side.other()),
    ensures
        ({
            let fills = sweep.visit_all(prices).fills;
            forall|i: int, j: int|
                sweep.fills.len() <= i < j < fills.len() && (#[trigger] fills[i]).price == (
                #[trigger] fills[j]).price ==> fills[i].maker_order_id < fills[j].maker_order_id
        }),
    decreases prices.len(),
{
    if prices.len() > 0 && sweep.taker.remaining_quantity > 0 {
        let side = sweep.taker.side.other();
        let first = prices[0];
        let rest = prices.drop_first();
        let next = sweep.visit(first);
        let fills = sweep.visit_all(prices).fills;
        let n = sweep.fills.len() as int;
        let m = next.fills.len() as int;
        lemma_visit_keeps_sound(book, sweep, first);
        let moved = book.swept(next);
        assert(moved.side(side) == next.levels);
        assert forall|i: int, j: int| 0 <= i < j < rest.len() implies side.prefers(
            rest[i],
            rest[j],
        ) by {
            assert(side.prefers(prices[i + 1], prices[j + 1]));
        }
        lemma_visit_all_ages(moved, next, rest);
        lemma_visit_all_fills(moved, next, rest);
        if sweep.levels.contains_key(first) {
            let begun = LevelSweep {
                level: sweep.levels[first],
                index: sweep.index,
                taker: sweep.taker,
                fills: sweep.fills,
            };
            lemma_run_fills(book, side, first, begun);
            lemma_queue_order(book, side, first, begun);
            assert(book.level_fits(begun.level, side, first));
            assert forall|i: int| n <= i < m implies (#[trigger] fills[i]).price == first
                && fills[i].maker_order_id == begun.level.orders[i - n].order_id by {
                assert(fills[i] == fills.take(m)[i]);
                assert(next.fills.skip(n)[i - n] == next.fills[i]);
            }
        }
        assert forall|i: int, j: int|
            n <= i < j < fills.len() && (#[trigger] fills[i]).price == (
            #[trigger] fills[j]).price implies fills[i].maker_order_id
            < fills[j].maker_order_id by {
            if i < m && j >= m {
                assert(rest.contains(fills[j].price));
                let k = rest.index_of(first);
                assert(side.prefers(prices[0], prices[k + 1]));
            }
        }
    }
}

/// What a queue holds after an incoming order went through it: orders that were
/// there before, and none that is older than one that was served.
proof fn lemma_run_serves_in_turn(book: Book, side: Side, price: Price, sweep: LevelSweep)
    requires
        book.sound(),
        book.side(side).contains_key(price),
        sweep.level == book.side(side)[price],
        sweep.index == book.index,
    ensures
        forall|id: OrderId| #[trigger] sweep.run().level.holds(id) ==> sweep.level.holds(id),
        forall|i: int, id: OrderId|
            #![trigger sweep.run().fills[i], sweep.run().level.holds(id)]
            sweep.fills.len() <= i < sweep.run().fills.len() && sweep.run().level.holds(id)
                ==> sweep.run().fills[i].maker_order_id <= id,
{
    let queue = sweep.level.orders;
    let after = sweep.run();
    let m = sweep.fills.len() as int;
    let fills = after.fills.skip(m);
    let n = fills.len() as int;
    lemma_queue_order(book, side, price, sweep);
    assert(book.level_fits(sweep.level, side, price));
    assert forall|id: OrderId| #[trigger] after.level.holds(id) implies exists|j: int|
        n - 1 <= j && 0 <= j < queue.len() && (#[trigger] queue[j]).order_id == id by {
        let k = choose|k: int|
            0 <= k < after.level.orders.len() && after.level.orders[k].order_id == id;
        lemma_left_in_queue(queue, fills, after.level.orders, k);
    }
    assert forall|i: int, id: OrderId|
        #![trigger after.fills[i], after.level.holds(id)]
        m <= i < after.fills.len() && after.level.holds(id) implies after.fills[i].maker_order_id
        <= id by {
        let j = choose|j: int|
            n - 1 <= j && 0 <= j < queue.len() && (#[trigger] queue[j]).order_id == id;
        assert(fills[i - m] == after.fills[i]);
        assert(queue[i - m].order_id == after.fills[i].maker_order_id);
        if i - m < j {
            assert(queue[i - m].order_id < queue[j].order_id);
        }
    }
}

/// An order that is left in a queue stood there before, no further ahead than
/// the last one that was served.
proof fn lemma_left_in_queue(queue: Seq<Order>, fills: Seq<Fill>, left: Seq<Order>, k: int)
    requires
        fills.len() <= queue.len(),
        0 <= k < left.len(),
        ({
            let n = fills.len() as int;
            left == if n > 0 && fills[n - 1].quantity < queue[n - 1].remaining_quantity {
                seq![queue[n - 1].filled_by(fills[n - 1].quantity)] + queue.skip(n)
            } else {
                queue.skip(n)
            }
        }),
    ensures
        exists|j: int|
            fills.len() - 1 <= j && 0 <= j < queue.len() && (#[trigger] queue[j]).order_id
                == left[k].order_id,
{
    let n = fills.len() as int;
    if n > 0 && fills[n - 1].quantity < queue[n - 1].remaining_quantity {
        assert(queue[n - 1 + k].order_id == left[k].order_id);
    } else {
        assert(queue[n + k].order_id == left[k].order_id);
    }
}

proof fn lemma_visit_all_serves_in_turn(book: Book, sweep: SideSweep, prices: Seq<Price>)
    requires
        book.sound(),
        sweep.levels == book.side(sweep.taker.side.other()),
        sweep.index == book.index,
        runs_best_first(prices, sweep.taker.side.other()),
    ensures
        ({
            let after = sweep.visit_all(prices);
            &&& forall|price: Price, id: OrderId|
                #![trigger after.levels[price].holds(id)]
                after.levels.contains_key(price) && after.levels[price].holds(id)
                    ==> sweep.levels.contains_key(price) && sweep.levels[price].holds(id)
            &&& forall|i: int, id: OrderId|
                #![trigger after.fills[i], after.levels[after.fills[i].price].holds(id)]
                sweep.fills.len() <= i < after.fills.len() && after.levels.contains_key(
                    after.fills[i].price,
                ) && after.levels[after.fills[i].price].holds(id)
                    ==> after.fills[i].maker_order_id <= id
        }),
    decreases prices.len(),
{
    if prices.len() > 0 && sweep.taker.remaining_quantity > 0 {
        let side = sweep.taker.side.other();
        let first = prices[0];
        let rest = prices.drop_first();
        let next = sweep.visit(first);
        let after = sweep.visit_all(prices);
        let n = sweep.fills.len() as int;
        let m = next.fills.len() as int;
        lemma_visit_keeps_sound(book, sweep, first);
        let moved = book.swept(next);
        assert(moved.side(side) == next.levels);
        assert forall|i: int, j: int| 0 <= i < j < rest.len() implies side.prefers(
            rest[i],
            rest[j],
        ) by {
            assert(side.prefers(prices[i + 1], prices[j + 1]));
        }
        lemma_visit_all_serves_in_turn(moved, next, rest);
        lemma_visit_all_fills(moved, next, rest);
        if sweep.levels.contains_key(first) {
            let begun = LevelSweep {
                level: sweep.levels[first],
                index: sweep.index,
                taker: sweep.taker,
                fills: sweep.fills,
            };
            lemma_run_fills(book, side, first, begun);
            lemma_run_serves_in_turn(book, side, first, begun);
            assert(next.fills == begun.run().fills);
        }
        assert forall|price: Price, id: OrderId|
            #![trigger after.levels[price].holds(id)]
            after.levels.contains_key(price)
                && after.levels[price].holds(id) implies sweep.levels.contains_key(price)
            && sweep.levels[price].holds(id) by {
            assert(next.levels[price].holds(id));
        }
        assert forall|i: int, id: OrderId|
            #![trigger after.fills[i], after.levels[after.fills[i].price].holds(id)]
            n <= i < after.fills.len() && after.levels.contains_key(after.fills[i].price)
                && after.levels[after.fills[i].price].holds(
                id,
            ) implies after.fills[i].maker_order_id <= id by {
            if i < m {
                assert(after.fills[i] == after.fills.take(m)[i]);
                assert(after.fills[i].price == first);
                assert(next.levels[first].holds(id));
                assert(next.fills[i].maker_order_id <= id);
            }
        }
    }
}

/// Law: over a whole sweep, the incoming order goes on to the next order only
/// when it has filled the one before. Every order that it trades with, but the
/// last one, is on record as filled afterwards; it trades with none twice; and
/// none that still rests at a price at which it traded is older than one that
/// it traded with there.
pub proof fn law_next_order_only_after_the_last(book: Book, taker: Order, limit: Option<Price>)
    requires
        book.well_formed(),
    ensures
        ({
            let side = taker.side.other();
            let sweep = book.sweep(taker, limit);
            let fills = sweep.fills;
            let after = book.swept(sweep);
            &&& forall|i: int|
                0 <= i < fills.len() - 1 ==> after.index.contains_key(
                    (#[trigger] fills[i]).maker_order_id,
                ) && after.index[fills[i].maker_order_id].2 == OrderStatus::Filled
            &&& forall|i: int, j: int|
                0 <= i < j < fills.len() ==> (#[trigger] fills[i]).maker_order_id != (
                #[trigger] fills[j]).maker_order_id
            &&& forall|i: int, id: OrderId|
                #![trigger fills[i], after.rests(side, fills[i].price, id)]
                0 <= i < fills.len() && after.rests(side, fills[i].price, id)
                    ==> fills[i].maker_order_id <= id
        }),
{
    let side = taker.side.other();
    let begun = SideSweep { levels: book.side(side), index: book.index, taker, fills: Seq::empty() };
    let prices = ladder(reachable(begun.levels.dom(), side, limit), side);
    let sweep = book.sweep(taker, limit);
    let fills = sweep.fills;
    let after = book.swept(sweep);
    lemma_visited_prices(book, taker, limit);
    lemma_visit_all_serves_in_turn(book, begun, prices);
    lemma_sweep_keeps_well_formed(book, taker, limit);
    law_best_price_first(book, taker, limit);
    law_older_orders_first(book, taker, limit);
    assert(sweep.taker.side == taker.side);
    assert(after.side(side) == sweep.levels);
    assert(after.side(taker.side) == book.side(taker.side));
    assert forall|i: int, id: OrderId|
        #![trigger fills[i], after.rests(side, fills[i].price, id)]
        0 <= i < fills.len() && after.rests(
            side,
            fills[i].price,
            id,
        ) implies fills[i].maker_order_id <= id by {
        assert(sweep.levels[fills[i].price].holds(id));
    }
    assert forall|i: int, j: int| 0 <= i < j < fills.len() implies (
    #[trigger] fills[i]).maker_order_id != (#[trigger] fills[j]).maker_order_id by {
        if fills[i].price != fills[j].price {
            law_order_rests_where_the_index_says(
                book,
                side,
                fills[i].price,
                fills[i].maker_order_id,
            );
            law_order_rests_where_the_index_says(
                book,
                side,
                fills[j].price,
                fills[j].maker_order_id,
            );
        }
    }
    assert forall|i: int| 0 <= i < fills.len() - 1 implies after.index.contains_key(
        (#[trigger] fills[i]).maker_order_id,
    ) && after.index[fills[i].maker_order_id].2 == OrderStatus::Filled by {
        let id = fills[i].maker_order_id;
        let price = fills[i].price;
        let later = fills[i + 1];
        law_order_rests_where_the_index_says(book, side, price, id);
        if after.cancellable(id) {
            let (s, p, _) = after.index[id];
            law_order_rests_where_the_index_says(after, s, p, id);
            assert(after.rests(s, p, id));
            if s == side {
                assert(sweep.levels[p].holds(id));
            }
            assert(book.rests(s, p, id));
            law_order_rests_where_the_index_says(book, s, p, id);
            assert(after.rests(side, price, id));
            assert(sweep.levels.contains_key(price));
            assert(sweep.levels[price].orders.len() > 0);
            assert(later == fills[i + 1]);
            assert(!side.prefers(price, later.price));
            assert(!side.prefers(later.price, price));
            assert(later.price == price);
            assert(after.rests(side, later.price, id));
            assert(fills[i + 1].maker_order_id <= id);
        }
    }
}

/// Law: the id that a book gives to the next order is new to it, and so is
/// every later one.
pub proof fn law_ids_are_new(book: Book, side: Side, price: Price, order_id: OrderId)
    requires
        book.well_formed(),
        order_id >= book.next_order_id,
    ensures
        !book.index.contains_key(order_id),
        !book.rests(side, price, order_id),
{
    if book.index.contains_key(order_id) {
        assert(book.entry_fits(order_id));
    }
    if book.rests(side, price, order_id) {
        let level = book.side(side)[price];
        assert(book.level_fits(level, side, price));
        let i = choose|i: int| 0 <= i < level.orders.len() && level.orders[i].order_id == order_id;
        assert(book.order_fits(level.orders[i], side, price));
    }
}

/// Law: an order rests at most once, at the place that the index names.
pub proof fn law_order_rests_where_the_index_says(
    book: Book,
    side: Side,
    price: Price,
    order_id: OrderId,
)
    requires
        book.well_formed(),
    ensures
        book.rests(side, price, order_id) <==> {
            &&& book.cancellable(order_id)
            &&& book.index[order_id].0 == side
            &&& book.index[order_id].1 == price
        },
{
    if book.rests(side, price, order_id) {
        let level = book.side(side)[price];
        assert(book.level_fits(level, side, price));
        let i = choose|i: int| 0 <= i < level.orders.len() && level.orders[i].order_id == order_id;
        assert(book.order_fits(level.orders[i], side, price));
    }
    if book.cancellable(order_id) {
        assert(book.entry_fits(order_id));
    }
}

/// Law: an order that rested before an order came in, and rests no more
/// afterwards, has been filled, and is on record as filled.
pub proof fn law_order_leaves_the_book_filled(
    book: Book,
    taker: Order,
    limit: Option<Price>,
    order_id: OrderId,
)
    requires
        book.well_formed(),
        book.cancellable(order_id),
        !book.swept(book.sweep(taker, limit)).cancellable(order_id),
    ensures
        book.swept(book.sweep(taker, limit)).index.contains_key(order_id),
        book.swept(book.sweep(taker, limit)).index[order_id].2 == OrderStatus::Filled,
{
    lemma_sweep_keeps_well_formed(book, taker, limit);
}

/// Law: a cancelled order is gone. It rests nowhere, the index does not know
/// it any more, and so it neither trades nor can be cancelled again. All other
/// orders rest where they did.
pub proof fn law_cancelled_order_is_gone(book: Book, side: Side, price: Price, i: int)
    requires
        book.well_formed(),
        book.side(side).contains_key(price),
        0 <= i < book.side(side)[price].orders.len(),
    ensures
        ({
            let order_id = book.side(side)[price].orders[i].order_id;
            let after = book.withdrawn(side, price, i);
            &&& !after.index.contains_key(order_id)
            &&& forall|s: Side, p: Price| !#[trigger] after.rests(s, p, order_id)
            &&& forall|s: Side, p: Price, other: OrderId|
                other != order_id ==> #[trigger] after.rests(s, p, other) == book.rests(s, p, other)
        }),
{
    let order_id = book.side(side)[price].orders[i].order_id;
    let after = book.withdrawn(side, price, i);
    lemma_withdraw_keeps_well_formed(book, side, price, i);
    assert forall|s: Side, p: Price| !#[trigger] after.rests(s, p, order_id) by {
        law_order_rests_where_the_index_says(after, s, p, order_id);
    }
    assert forall|s: Side, p: Price, other: OrderId| other != order_id implies (
    #[trigger] after.rests(s, p, other) == book.rests(s, p, other)) by {
        law_order_rests_where_the_index_says(after, s, p, other);
        law_order_rests_where_the_index_says(book, s, p, other);
    }
}

/// Law: cancelling takes back what submitting did. If an order came to rest,
/// the book is after its cancellation as it was before it came.
pub proof fn law_cancel_undoes_rest(book: Book, order: Order)
    requires
        book.well_formed(),
        !book.index.contains_key(order.order_id),
        order.status != OrderStatus::Filled,
    ensures
        book.rested(order).cancel_answer(order.order_id) == Ok::<Quantity, OrderBookError>(
            order.remaining_quantity,
        ),
        book.rested(order).after_cancel(order.order_id) == book,
{
    let rested = book.rested(order);
    let side = order.side;
    let price = order.price;
    let levels = book.side(side);
    let level = level_at(levels, price);
    let pushed = level.pushed(order);
    let i = level.orders.len() as int;
    assert(rested.side(side)[price] == pushed);
    assert forall|j: int| 0 <= j < i implies pushed.orders[j].order_id != order.order_id by {
        assert(book.level_fits(level, side, price));
        assert(book.order_fits(level.orders[j], side, price));
    }
    assert(pushed.first_at(order.order_id, i));
    lemma_place_is_one(pushed, order.order_id);
    assert(pushed.orders.remove(i) =~= level.orders);
    assert(pushed.removed(i) =~= level);
    let after = rested.withdrawn(side, price, i);
    assert(after.side(side) =~= levels);
    assert(after.index =~= book.index);
    assert(after =~= book);
}

/// Law: a market order never rests. It leaves its own side as it is, and adds
/// nothing to the index.
pub proof fn law_market_order_never_rests(
    book: Book,
    side: Side,
    quantity: Quantity,
    timestamp: u64,
)
    requires
        book.well_formed(),
        book.next_order_id < u64::MAX,
    ensures
        book.after_market(side, quantity, timestamp).side(side) == book.side(side),
        book.after_market(side, quantity, timestamp).index.dom() == book.index.dom(),
        forall|s: Side, p: Price|
            !#[trigger] book.after_market(side, quantity, timestamp).rests(
                s,
                p,
                book.next_order_id,
            ),
{
    let taker = book.market_order(side, quantity, timestamp);
    let after = book.after_market(side, quantity, timestamp);
    lemma_market_keeps_well_formed(book, side, quantity, timestamp);
    lemma_number_keeps_well_formed(book);
    lemma_sweep_keeps_well_formed(book, taker, None);
    assert(after.index.dom() =~= book.index.dom());
    assert forall|s: Side, p: Price| !#[trigger] after.rests(s, p, book.next_order_id) by {
        law_ids_are_new(book, s, p, book.next_order_id);
        law_order_rests_where_the_index_says(after, s, p, book.next_order_id);
    }
}

/// Law: what is left of a limit order rests at its price, last in the queue;
/// one of which nothing is left does not rest.
pub proof fn law_rest_of_limit_order_rests(
    book: Book,
    side: Side,
    price: Price,
    quantity: Quantity,
    timestamp: u64,
)
    requires
        book.well_formed(),
        book.next_order_id < u64::MAX,
        price > 0,
    ensures
        ({
            let left = book.limit_sweep(side, price, quantity, timestamp).taker;
            let after = book.after_limit(side, price, quantity, timestamp);
            &&& left.remaining_quantity > 0 ==> {
                &&& after.rests(side, price, book.next_order_id)
                &&& after.side(side)[price].orders == level_at(
                    book.side(side),
                    price,
                ).orders.push(left)
            }
            &&& left.remaining_quantity == 0 ==> forall|s: Side, p: Price|
                !#[trigger] after.rests(s, p, book.next_order_id)
        }),
{
    let sweep = book.limit_sweep(side, price, quantity, timestamp);
    let left = sweep.taker;
    let after = book.after_limit(side, price, quantity, timestamp);
    let taker = book.limit_order(side, price, quantity, timestamp);
    lemma_limit_keeps_well_formed(book, side, price, quantity, timestamp);
    lemma_sweep_keeps_well_formed(book, taker, Some(price));
    if left.remaining_quantity > 0 {
        let queue = level_at(book.side(side), price).orders;
        assert(after.side(side)[price].orders == queue.push(left));
        assert(after.side(side)[price].orders[queue.len() as int].order_id == book.next_order_id);
    } else {
        assert forall|s: Side, p: Price| !#[trigger] after.rests(s, p, book.next_order_id) by {
            law_ids_are_new(book, s, p, book.next_order_id);
            law_order_rests_where_the_index_says(after, s, p, book.next_order_id);
        }
    }
}

impl LevelSweep {
    /// The sweep without the time stamps of its orders.
    pub open spec fn unstamped(self) -> LevelSweep {
        LevelSweep { level: self.level.unstamped(), taker: self.taker.unstamped(), ..self }
    }
}

impl SideSweep {
    /// The sweep without the time stamps of its orders.
    pub open spec fn unstamped(self) -> SideSweep {
        SideSweep {
            levels: unstamped_levels(self.levels),
            taker: self.taker.unstamped(),
            ..self
        }
    }
}

impl Book {
    /// The book without the time stamps of its orders.
    pub open spec fn unstamped(self) -> Book {
        Book { bids: unstamped_levels(self.bids), asks: unstamped_levels(self.asks), ..self }
    }
}

proof fn lemma_run_unstamped(sweep: LevelSweep)
    ensures
        sweep.run().unstamped() == sweep.unstamped().run(),
    decreases sweep.level.orders.len(), sweep.taker.remaining_quantity,
{
    if !sweep.done() {
        let step = sweep.step();
        assert(step.unstamped() =~= sweep.unstamped().step()) by {
            assert(step.unstamped().level.orders =~= sweep.unstamped().step().level.orders);
        }
        lemma_run_unstamped(step);
    }
}

proof fn lemma_visit_all_unstamped(sweep: SideSweep, prices: Seq<Price>)
    ensures
        sweep.visit_all(prices).unstamped() == sweep.unstamped().visit_all(prices),
    decreases prices.len(),
{
    if prices.len() > 0 && sweep.taker.remaining_quantity > 0 {
        let first = prices[0];
        let next = sweep.visit(first);
        if sweep.levels.contains_key(first) {
            lemma_run_unstamped(
                LevelSweep {
                    level: sweep.levels[first],
                    index: sweep.index,
                    taker: sweep.taker,
                    fills: sweep.fills,
                },
            );
        }
        assert(next.unstamped().levels =~= sweep.unstamped().visit(first).levels);
        assert(next.unstamped() =~= sweep.unstamped().visit(first));
        lemma_visit_all_unstamped(next, prices.drop_first());
    }
}

proof fn lemma_sweep_unstamped(book: Book, taker: Order, limit: Option<Price>)
    ensures
        book.sweep(taker, limit).unstamped() == book.unstamped().sweep(
            taker.unstamped(),
            limit,
        ),
{
    let side = taker.side.other();
    let levels = book.side(side);
    let begun = SideSweep { levels, index: book.index, taker, fills: Seq::empty() };
    let prices = ladder(reachable(levels.dom(), side, limit), side);
    assert(unstamped_levels(levels).dom() =~= levels.dom());
    lemma_visit_all_unstamped(begun, prices);
}

proof fn lemma_depth_unstamped(levels: Map<Price, Level>)
    requires
        levels.dom().finite(),
    ensures
        depth(unstamped_levels(levels)) == depth(levels),
{
    assert(unstamped_levels(levels).dom() =~= levels.dom());
    lemma_ladder_holds(levels.dom(), Side::Ask);
    lemma_totals_unstamped(levels, ladder(levels.dom(), Side::Ask));
}

proof fn lemma_totals_unstamped(levels: Map<Price, Level>, prices: Seq<Price>)
    requires
        forall|price: Price| #[trigger] prices.contains(price) ==> levels.contains_key(price),
    ensures
        sum_of_totals(unstamped_levels(levels), prices) == sum_of_totals(levels, prices),
    decreases prices.len(),
{
    if prices.len() > 0 {
        assert(prices.contains(prices.last()));
        assert forall|price: Price| #[trigger]
            prices.drop_last().contains(price) implies levels.contains_key(price) by {
            let i = prices.drop_last().index_of(price);
            assert(prices[i] == price);
            assert(prices.contains(price));
        }
        lemma_totals_unstamped(levels, prices.drop_last());
    }
}

/// Law: the clock decides nothing but time stamps. Two books that differ in
/// time stamps alone answer the same limit order with the same trades, and
/// differ in time stamps alone afterwards.
pub proof fn law_limit_order_is_reproducible(
    one: Book,
    other: Book,
    side: Side,
    price: Price,
    quantity: Quantity,
    now: u64,
    later: u64,
)
    requires
        one.unstamped() == other.unstamped(),
    ensures
        one.limit_sweep(side, price, quantity, now).fills == other.limit_sweep(
            side,
            price,
            quantity,
            later,
        ).fills,
        one.after_limit(side, price, quantity, now).unstamped() == other.after_limit(
            side,
            price,
            quantity,
            later,
        ).unstamped(),
{
    lemma_limit_unstamped(one, side, price, quantity, now);
    lemma_limit_unstamped(other, side, price, quantity, later);
}

proof fn lemma_limit_unstamped(
    book: Book,
    side: Side,
    price: Price,
    quantity: Quantity,
    timestamp: u64,
)
    ensures
        book.limit_sweep(side, price, quantity, timestamp).fills == book.unstamped().limit_sweep(
            side,
            price,
            quantity,
            0,
        ).fills,
        book.after_limit(side, price, quantity, timestamp).unstamped()
            == book.unstamped().after_limit(side, price, quantity, 0).unstamped(),
{
    let taker = book.limit_order(side, price, quantity, timestamp);
    let sweep = book.limit_sweep(side, price, quantity, timestamp);
    lemma_sweep_unstamped(book, taker, Some(price));
    let bare = book.unstamped().limit_sweep(side, price, quantity, 0);
    assert(book.unstamped().limit_order(side, price, quantity, 0) == taker.unstamped());
    assert(sweep.unstamped() == bare);
    lemma_taker_keeps_side(book, taker, Some(price));
    lemma_swept_unstamped(book.numbered(), sweep);
    let after = book.numbered().swept(sweep);
    let bare_after = book.unstamped().numbered().swept(bare);
    assert(after.unstamped() =~= bare_after.unstamped());
    if sweep.taker.remaining_quantity > 0 {
        lemma_rested_unstamped(after, sweep.taker);
        lemma_rested_unstamped(bare_after, bare.taker);
    }
}

/// An order keeps its side, price and id, however it fares.
proof fn lemma_taker_keeps_side(book: Book, taker: Order, limit: Option<Price>)
    ensures
        book.sweep(taker, limit).taker.side == taker.side,
        book.sweep(taker, limit).taker.price == taker.price,
        book.sweep(taker, limit).taker.order_id == taker.order_id,
{
    let side = taker.side.other();
    let begun = SideSweep { levels: book.side(side), index: book.index, taker, fills: Seq::empty() };
    let prices = ladder(reachable(begun.levels.dom(), side, limit), side);
    lemma_visit_all_keeps_taker(begun, prices);
}

proof fn lemma_visit_all_keeps_taker(sweep: SideSweep, prices: Seq<Price>)
    ensures
        sweep.visit_all(prices).taker.side == sweep.taker.side,
        sweep.visit_all(prices).taker.price == sweep.taker.price,
        sweep.visit_all(prices).taker.order_id == sweep.taker.order_id,
    decreases prices.len(),
{
    if prices.len() > 0 && sweep.taker.remaining_quantity > 0 {
        let first = prices[0];
        if sweep.levels.contains_key(first) {
            lemma_run_keeps_taker(
                LevelSweep {
                    level: sweep.levels[first],
                    index: sweep.index,
                    taker: sweep.taker,
                    fills: sweep.fills,
                },
            );
        }
        lemma_visit_all_keeps_taker(sweep.visit(first), prices.drop_first());
    }
}

proof fn lemma_run_keeps_taker(sweep: LevelSweep)
    ensures
        sweep.run().taker.side == sweep.taker.side,
        sweep.run().taker.price == sweep.taker.price,
        sweep.run().taker.order_id == sweep.taker.order_id,
    decreases sweep.level.orders.len(), sweep.taker.remaining_quantity,
{
    if !sweep.done() {
        lemma_run_keeps_taker(sweep.step());
    }
}

proof fn lemma_swept_unstamped(book: Book, sweep: SideSweep)
    ensures
        book.swept(sweep).unstamped() == book.unstamped().swept(sweep.unstamped()).unstamped(),
{
    let one = book.swept(sweep).unstamped();
    let other = book.unstamped().swept(sweep.unstamped()).unstamped();
    lemma_unstamped_twice(book.bids);
    lemma_unstamped_twice(book.asks);
    lemma_unstamped_twice(sweep.levels);
    assert(one =~= other);
}

proof fn lemma_unstamped_twice(levels: Map<Price, Level>)
    ensures
        unstamped_levels(unstamped_levels(levels)) == unstamped_levels(levels),
{
    let once = unstamped_levels(levels);
    let twice = unstamped_levels(once);
    assert forall|price: Price| #[trigger] once.contains_key(price) implies twice[price]
        == once[price] by {
        assert(twice[price].orders =~= once[price].orders);
    }
    assert(twice =~= once);
}

proof fn lemma_rested_unstamped(book: Book, order: Order)
    ensures
        book.rested(order).unstamped() == book.unstamped().rested(order.unstamped()).unstamped(),
{
    let levels = book.side(order.side);
    let level = level_at(levels, order.price);
    let bare = level_at(unstamped_levels(levels), order.price);
    lemma_unstamped_twice(book.bids);
    lemma_unstamped_twice(book.asks);
    assert(level.pushed(order).unstamped().orders =~= bare.pushed(
        order.unstamped(),
    ).unstamped().orders);
    let one = unstamped_levels(levels.insert(order.price, level.pushed(order)));
    let other = unstamped_levels(
        unstamped_levels(levels).insert(order.price, bare.pushed(order.unstamped())),
    );
    assert(one =~= unstamped_levels(levels).insert(order.price, level.pushed(order).unstamped()));
    assert(other =~= unstamped_levels(unstamped_levels(levels)).insert(
        order.price,
        bare.pushed(order.unstamped()).unstamped(),
    ));
    assert(book.rested(order).unstamped() =~= book.unstamped().rested(
        order.unstamped(),
    ).unstamped());
}

/// Law: the clock decides nothing but time stamps, for market orders too.
pub proof fn law_market_order_is_reproducible(
    one: Book,
    other: Book,
    side: Side,
    quantity: Quantity,
    now: u64,
    later: u64,
)
    requires
        one.unstamped() == other.unstamped(),
    ensures
        one.market_sweep(side, quantity, now).fills == other.market_sweep(
            side,
            quantity,
            later,
        ).fills,
        one.market_sweep(side, quantity, now).taker.remaining_quantity == other.market_sweep(
            side,
            quantity,
            later,
        ).taker.remaining_quantity,
        one.after_market(side, quantity, now).unstamped() == other.after_market(
            side,
            quantity,
            later,
        ).unstamped(),
{
    let mine = one.market_sweep(side, quantity, now);
    let yours = other.market_sweep(side, quantity, later);
    let taker = one.market_order(side, quantity, now);
    let rival = other.market_order(side, quantity, later);
    lemma_sweep_unstamped(one, taker, None);
    lemma_sweep_unstamped(other, rival, None);
    assert(one.next_order_id == one.unstamped().next_order_id);
    assert(other.next_order_id == other.unstamped().next_order_id);
    assert(taker.unstamped() == rival.unstamped());
    assert(mine.unstamped() == yours.unstamped());
    assert(mine.fills == mine.unstamped().fills);
    assert(yours.fills == yours.unstamped().fills);
    assert(mine.taker.remaining_quantity == mine.unstamped().taker.remaining_quantity);
    assert(yours.taker.remaining_quantity == yours.unstamped().taker.remaining_quantity);
    lemma_swept_unstamped(one.numbered(), mine);
    lemma_swept_unstamped(other.numbered(), yours);
    assert(one.numbered().unstamped() =~= other.numbered().unstamped());
}

/// Law: two books that differ in time stamps alone hold the same quantities.
pub proof fn law_totals_are_reproducible(one: Book, other: Book)
    requires
        one.well_formed(),
        other.well_formed(),
        one.unstamped() == other.unstamped(),
    ensures
        depth(one.bids) == depth(other.bids),
        depth(one.asks) == depth(other.asks),
{
    lemma_depth_unstamped(one.bids);
    lemma_depth_unstamped(one.asks);
    lemma_depth_unstamped(other.bids);
    lemma_depth_unstamped(other.asks);
    assert(unstamped_levels(one.bids) == one.unstamped().bids);
    assert(unstamped_levels(one.asks) == one.unstamped().asks);
    assert(unstamped_levels(other.bids) == other.unstamped().bids);
    assert(unstamped_levels(other.asks) == other.unstamped().asks);
}

} // verus!
