//! What trades take from whom in the exchange book.

use super::laws::fills_quantity;
use super::model::{Book, LevelSweep, SideSweep};
use super::soundness::{
    lemma_resting_order_has_a_place, lemma_step_keeps_sound, lemma_visit_keeps_sound,
};
use super::tape::Fill;
use crate::book_side::level_at;
use crate::ladder::{ladder, reachable};
use crate::order::Order;
use crate::price_level::Level;
use crate::tally::{
    lemma_queue_quantity_of_none, lemma_queue_quantity_of_push, lemma_queue_quantity_of_remove,
    lemma_total_insert, lemma_total_of_one, lemma_total_remove, queue_quantity_of,
    resting_quantity_of,
};
use crate::types::{OrderId, Price, Side};
use vstd::prelude::*;

verus! {

/// The quantities of those fills whose maker has one of some ids, added up.
pub open spec fn fills_quantity_of(fills: Seq<Fill>, ids: Set<OrderId>) -> nat
    decreases fills.len(),
{
    if fills.len() == 0 {
        0
    } else {
        fills_quantity_of(fills.drop_last(), ids) + if ids.contains(fills.last().maker_order_id) {
            fills.last().quantity as nat
        } else {
            0
        }
    }
}

/// With all ids, everything counts.
pub proof fn lemma_fills_quantity_of_all(fills: Seq<Fill>)
    ensures
        fills_quantity_of(fills, Set::full()) == fills_quantity(fills),
    decreases fills.len(),
{
    if fills.len() > 0 {
        lemma_fills_quantity_of_all(fills.drop_last());
    }
}

/// What orders lose while an incoming order goes through a queue is what was
/// traded with them.
proof fn lemma_run_accounts(
    book: Book,
    side: Side,
    price: Price,
    sweep: LevelSweep,
    ids: Set<OrderId>,
)
    requires
        book.sound(),
        book.side(side).contains_key(price),
        sweep.level == book.side(side)[price],
        sweep.index == book.index,
    ensures
        queue_quantity_of(sweep.run().level.orders, ids) + fills_quantity_of(
            sweep.run().fills,
            ids,
        ) == queue_quantity_of(sweep.level.orders, ids) + fills_quantity_of(sweep.fills, ids),
    decreases sweep.level.orders.len(), sweep.taker.remaining_quantity,
{
    if !sweep.done() {
        let step = sweep.step();
        assert(book.level_fits(sweep.level, side, price));
        assert(book.order_fits(sweep.level.orders[0], side, price));
        lemma_step_keeps_sound(book, side, price, sweep);
        lemma_run_accounts(book.amid(side, price, step), side, price, step, ids);
        assert(step.fills.drop_last() =~= sweep.fills);
        let rest = sweep.level.orders.drop_first();
        if step.level.orders.len() == sweep.level.orders.len() {
            assert(step.level.orders.drop_first() =~= rest);
        }
    }
}

proof fn lemma_visit_all_accounts(
    book: Book,
    sweep: SideSweep,
    prices: Seq<Price>,
    ids: Set<OrderId>,
)
    requires
        book.sound(),
        sweep.levels == book.side(sweep.taker.side.other()),
        sweep.index == book.index,
    ensures
        resting_quantity_of(sweep.visit_all(prices).levels, ids) + fills_quantity_of(
            sweep.visit_all(prices).fills,
            ids,
        ) == resting_quantity_of(sweep.levels, ids) + fills_quantity_of(sweep.fills, ids),
    decreases prices.len(),
{
    if prices.len() > 0 && sweep.taker.remaining_quantity > 0 {
        let first = prices[0];
        let next = sweep.visit(first);
        lemma_visit_keeps_sound(book, sweep, first);
        let moved = book.swept(next);
        assert(moved.side(next.taker.side.other()) == next.levels);
        if sweep.levels.contains_key(first) {
            let begun = LevelSweep {
                level: sweep.levels[first],
                index: sweep.index,
                taker: sweep.taker,
                fills: sweep.fills,
            };
            let size = |level: Level| queue_quantity_of(level.orders, ids);
            lemma_run_accounts(book, sweep.taker.side.other(), first, begun, ids);
            assert(sweep.levels.dom().finite());
            lemma_total_remove(sweep.levels, size, first);
            lemma_total_insert(sweep.levels, size, first, begun.run().level);
        }
        lemma_visit_all_accounts(moved, next, prices.drop_first(), ids);
    }
}

/// What orders lose to an incoming order is what was traded with them, and the
/// side of the incoming order loses nothing.
pub proof fn lemma_sweep_accounts(
    book: Book,
    taker: Order,
    limit: Option<Price>,
    ids: Set<OrderId>,
)
    requires
        book.well_formed(),
    ensures
        resting_quantity_of(book.sweep(taker, limit).levels, ids) + fills_quantity_of(
            book.sweep(taker, limit).fills,
            ids,
        ) == resting_quantity_of(book.side(taker.side.other()), ids),
{
    let side = taker.side.other();
    let begun = SideSweep { levels: book.side(side), index: book.index, taker, fills: Seq::empty() };
    let prices = ladder(reachable(begun.levels.dom(), side, limit), side);
    lemma_visit_all_accounts(book, begun, prices, ids);
}

/// An order that comes to rest counts with what is left of it.
pub proof fn lemma_rest_accounts(book: Book, order: Order, ids: Set<OrderId>)
    requires
        book.well_formed(),
    ensures
        resting_quantity_of(book.rested(order).side(order.side), ids) == resting_quantity_of(
            book.side(order.side),
            ids,
        ) + queue_quantity_of(seq![order], ids),
        book.rested(order).side(order.side.other()) == book.side(order.side.other()),
{
    let levels = book.side(order.side);
    let joined = level_at(levels, order.price);
    let size = |level: Level| queue_quantity_of(level.orders, ids);
    lemma_queue_quantity_of_push(joined.orders, ids, order);
    lemma_total_insert(levels, size, order.price, joined.pushed(order));
    if levels.contains_key(order.price) {
        lemma_total_remove(levels, size, order.price);
    } else {
        assert(levels.remove(order.price) =~= levels);
        assert(queue_quantity_of(joined.orders, ids) == 0);
    }
}

/// An order that is cancelled does not count any more.
pub proof fn lemma_withdraw_accounts(
    book: Book,
    side: Side,
    price: Price,
    i: int,
    ids: Set<OrderId>,
)
    requires
        book.well_formed(),
        book.side(side).contains_key(price),
        0 <= i < book.side(side)[price].orders.len(),
    ensures
        resting_quantity_of(book.side(side), ids) == resting_quantity_of(
            book.withdrawn(side, price, i).side(side),
            ids,
        ) + queue_quantity_of(seq![book.side(side)[price].orders[i]], ids),
        book.withdrawn(side, price, i).side(side.other()) == book.side(side.other()),
{
    let levels = book.side(side);
    let level = levels[price];
    let size = |level: Level| queue_quantity_of(level.orders, ids);
    lemma_queue_quantity_of_remove(level.orders, ids, i);
    lemma_total_remove(levels, size, price);
    lemma_total_insert(levels, size, price, level.removed(i));
    if level.orders.len() == 1 {
        assert(level.orders.remove(i) =~= Seq::empty());
    }
}

impl Book {
    /// What is left of the resting order `order_id`, on whichever side it rests.
    pub open spec fn left_of(self, order_id: OrderId) -> nat {
        resting_quantity_of(self.bids, set![order_id]) + resting_quantity_of(
            self.asks,
            set![order_id],
        )
    }
}

/// Something is left of the orders that can be cancelled, and of no other one.
pub proof fn lemma_left_of(book: Book, order_id: OrderId)
    requires
        book.well_formed(),
    ensures
        book.left_of(order_id) == if book.cancellable(order_id) {
            book.cancel_answer(order_id)->Ok_0 as nat
        } else {
            0
        },
        book.cancellable(order_id) ==> book.cancel_answer(order_id) is Ok && book.left_of(order_id)
            > 0,
{
    let ids = set![order_id];
    let size = |level: Level| queue_quantity_of(level.orders, ids);
    if book.cancellable(order_id) {
        let (side, price, _) = book.index[order_id];
        let level = book.side(side)[price];
        let place = level.place_of(order_id);
        lemma_resting_order_has_a_place(book, order_id);
        assert forall|s: Side, p: Price| #[trigger]
            book.side(s).contains_key(p) && (s != side || p != price) implies size(book.side(s)[p])
            == 0 by {
            lemma_not_in_queue(book, s, p, order_id);
        }
        let others = level.orders.remove(place);
        lemma_queue_quantity_of_remove(level.orders, ids, place);
        assert(book.level_fits(level, side, price));
        assert forall|i: int| 0 <= i < others.len() implies !ids.contains(
            (#[trigger] others[i]).order_id,
        ) by {
            if i < place {
                assert(level.orders[i].order_id < level.orders[place].order_id);
            } else {
                assert(level.orders[place].order_id < level.orders[i + 1].order_id);
            }
        }
        lemma_queue_quantity_of_none(others, ids);
        let alone = seq![level.orders[place]];
        assert(alone.drop_first() =~= Seq::empty());
        assert(queue_quantity_of(alone.drop_first(), ids) == 0);
        assert(size(level) == level.orders[place].remaining_quantity);
        lemma_total_of_one(book.side(side), size, price);
        assert(!book.side(side.other()).contains_key(price) || size(
            book.side(side.other())[price],
        ) == 0);
        lemma_total_of_one(book.side(side.other()), size, price);
    } else {
        assert forall|s: Side, p: Price| #[trigger] book.side(s).contains_key(p) implies size(
            book.side(s)[p],
        ) == 0 by {
            lemma_not_in_queue(book, s, p, order_id);
        }
        assert(forall|p: Price| #[trigger]
            book.bids.contains_key(p) ==> book.side(Side::Bid).contains_key(p));
        assert(forall|p: Price| #[trigger]
            book.asks.contains_key(p) ==> book.side(Side::Ask).contains_key(p));
        lemma_total_of_one(book.bids, size, 0);
        lemma_total_of_one(book.asks, size, 0);
    }
}

proof fn lemma_not_in_queue(book: Book, side: Side, price: Price, order_id: OrderId)
    requires
        book.well_formed(),
        book.side(side).contains_key(price),
        !(book.cancellable(order_id) && book.index[order_id].0 == side && book.index[order_id].1
            == price),
    ensures
        queue_quantity_of(book.side(side)[price].orders, set![order_id]) == 0,
{
    let level = book.side(side)[price];
    assert(book.level_fits(level, side, price));
    assert forall|i: int| 0 <= i < level.orders.len() implies !set![order_id].contains(
        (#[trigger] level.orders[i]).order_id,
    ) by {
        assert(book.order_fits(level.orders[i], side, price));
    }
    lemma_queue_quantity_of_none(level.orders, set![order_id]);
}

} // verus!
