//! What holds of the exchange book at any time, and that it stays so.

use super::model::{Book, LevelSweep, SideSweep};
use crate::book_side::level_at;
use crate::ladder::{ladder, lemma_ladder_holds, reachable};
use crate::order::Order;
use crate::price_level::{
    lemma_place_is_one, lemma_queue_quantity_push, lemma_queue_quantity_remove, queue_quantity, Level,
};
use crate::types::{OrderId, OrderStatus, OrderType, Price, Side};
use vstd::prelude::*;

verus! {

impl Book {
    /// Whether `order` is in order as one that rests at `price` on `side`.
    pub open spec fn order_fits(self, order: Order, side: Side, price: Price) -> bool {
        &&& order.side == side
        &&& order.price == price
        &&& order.order_type == OrderType::Limit
        &&& order.tradable()
        &&& 0 < order.remaining_quantity <= order.original_quantity
        &&& 1 <= order.order_id < self.next_order_id
        &&& self.index.contains_key(order.order_id)
        &&& self.index[order.order_id] == (side, price, order.status)
    }

    /// Whether `level` is in order as the level at `price` on `side`.
    pub open spec fn level_fits(self, level: Level, side: Side, price: Price) -> bool {
        &&& level.price == price
        &&& price > 0
        &&& forall|i: int|
            0 <= i < level.orders.len() ==> self.order_fits(#[trigger] level.orders[i], side, price)
        &&& forall|i: int, j: int|
            0 <= i < j < level.orders.len() ==> (#[trigger] level.orders[i]).order_id < (
            #[trigger] level.orders[j]).order_id
        &&& level.total_quantity == queue_quantity(level.orders) % 0x1_0000_0000_0000_0000
    }

    /// Whether the index is right about order `order_id`: an order that is not
    /// filled rests where the index says.
    pub open spec fn entry_fits(self, order_id: OrderId) -> bool {
        let (side, price, status) = self.index[order_id];
        &&& 1 <= order_id < self.next_order_id
        &&& price > 0
        &&& status != OrderStatus::Cancelled
        &&& status != OrderStatus::Filled ==> self.rests(side, price, order_id)
    }

    /// Whether levels and index are in order, and agree.
    pub open spec fn sound(self) -> bool {
        &&& self.bids.dom().finite()
        &&& self.asks.dom().finite()
        &&& 1 <= self.next_order_id
        &&& forall|side: Side, price: Price| #[trigger]
            self.side(side).contains_key(price) ==> self.level_fits(
                self.side(side)[price],
                side,
                price,
            )
        &&& forall|order_id: OrderId| #[trigger]
            self.index.contains_key(order_id) ==> self.entry_fits(order_id)
    }

    /// Whether every bid is below every ask, so that nothing is left to trade.
    pub open spec fn uncrossed(self) -> bool {
        forall|bid: Price, ask: Price|
            #![trigger self.bids.contains_key(bid), self.asks.contains_key(ask)]
            self.bids.contains_key(bid) && self.asks.contains_key(ask) ==> bid < ask
    }

    /// Whether something rests on every level.
    pub open spec fn occupied(self) -> bool {
        forall|side: Side, price: Price| #[trigger]
            self.side(side).contains_key(price) ==> self.side(side)[price].orders.len() > 0
    }

    /// What holds of a book at any time.
    pub open spec fn well_formed(self) -> bool {
        self.sound() && self.uncrossed() && self.occupied()
    }

    /// The book while `sweep` goes through the level at `price` on `side`.
    pub open spec fn amid(self, side: Side, price: Price, sweep: LevelSweep) -> Book {
        Book {
            index: sweep.index,
            ..self.with_side(side, self.side(side).insert(price, sweep.level))
        }
    }

    /// A sweep that begins with the level at `price` as it stands.
    pub open spec fn sweep_at(
        self,
        side: Side,
        price: Price,
        taker: Order,
        fills: Seq<super::tape::Fill>,
    ) -> LevelSweep {
        LevelSweep { level: self.side(side)[price], index: self.index, taker, fills }
    }
}

/// Meeting the order at the front of a queue keeps the level in order.
proof fn lemma_step_keeps_level(book: Book, side: Side, price: Price, sweep: LevelSweep)
    requires
        book.sound(),
        book.side(side).contains_key(price),
        sweep.level == book.side(side)[price],
        sweep.index == book.index,
        !sweep.done(),
    ensures
        book.amid(side, price, sweep.step()).level_fits(sweep.step().level, side, price),
{
    let level = sweep.level;
    let maker = level.orders[0];
    let rest = level.orders.drop_first();
    let after = sweep.step();
    let next = book.amid(side, price, after);
    let queue = after.level.orders;
    assert(book.level_fits(level, side, price));
    assert(book.order_fits(maker, side, price));
    let shift = level.orders.len() - queue.len();
    if shift == 0 {
        assert(queue.drop_first() =~= rest);
    }
    assert(queue_quantity(level.orders) == maker.remaining_quantity + queue_quantity(rest));
    assert forall|i: int| 0 <= i < queue.len() implies next.order_fits(
        #[trigger] queue[i],
        side,
        price,
    ) by {
        let j = i + shift;
        assert(book.order_fits(level.orders[j], side, price));
        if j > 0 {
            assert(queue[i] == level.orders[j]);
            assert(level.orders[0].order_id < level.orders[j].order_id);
        }
    }
    assert forall|i: int, j: int| 0 <= i < j < queue.len() implies (
    #[trigger] queue[i]).order_id < (#[trigger] queue[j]).order_id by {
        assert(level.orders[i + shift].order_id < level.orders[j + shift].order_id);
    }
}

/// Meeting the order at the front of a queue keeps the index right.
proof fn lemma_step_keeps_entries(book: Book, side: Side, price: Price, sweep: LevelSweep)
    requires
        book.sound(),
        book.side(side).contains_key(price),
        sweep.level == book.side(side)[price],
        sweep.index == book.index,
        !sweep.done(),
    ensures
        forall|id: OrderId| #[trigger]
            sweep.step().index.contains_key(id) ==> book.amid(
                side,
                price,
                sweep.step(),
            ).entry_fits(id),
{
    let level = sweep.level;
    let maker = level.orders[0];
    let after = sweep.step();
    let next = book.amid(side, price, after);
    let queue = after.level.orders;
    assert(book.level_fits(level, side, price));
    assert(book.order_fits(maker, side, price));
    assert(next.side(side) =~= book.side(side).insert(price, after.level));
    assert(next.side(side.other()) == book.side(side.other()));
    let shift = level.orders.len() - queue.len();
    assert forall|id: OrderId| #[trigger] after.index.contains_key(id) implies next.entry_fits(
        id,
    ) by {
        if id == maker.order_id {
            if shift == 0 {
                assert(queue[0].order_id == id);
            }
        } else {
            assert(book.index.contains_key(id));
            assert(book.entry_fits(id));
            let (s, p, status) = book.index[id];
            if status != OrderStatus::Filled {
                let old_level = book.side(s)[p];
                let i = choose|i: int|
                    0 <= i < old_level.orders.len() && old_level.orders[i].order_id == id;
                if s == side && p == price {
                    assert(queue[i - shift].order_id == id);
                } else {
                    assert(next.side(s)[p] == old_level);
                }
            }
        }
    }
}

/// Meeting the order at the front of a queue keeps the book sound.
pub proof fn lemma_step_keeps_sound(book: Book, side: Side, price: Price, sweep: LevelSweep)
    requires
        book.sound(),
        book.side(side).contains_key(price),
        sweep.level == book.side(side)[price],
        sweep.index == book.index,
        !sweep.done(),
    ensures
        book.amid(side, price, sweep.step()).sound(),
{
    let maker = sweep.level.orders[0];
    let after = sweep.step();
    let next = book.amid(side, price, after);
    assert(book.level_fits(sweep.level, side, price));
    assert(book.order_fits(maker, side, price));
    assert(next.side(side) =~= book.side(side).insert(price, after.level));
    assert(next.side(side.other()) == book.side(side.other()));
    lemma_step_keeps_level(book, side, price, sweep);
    lemma_step_keeps_entries(book, side, price, sweep);
    assert forall|s: Side, p: Price| #[trigger] next.side(s).contains_key(p) implies next.level_fits(
        next.side(s)[p],
        s,
        p,
    ) by {
        if s != side || p != price {
            let same = book.side(s)[p];
            assert(book.side(s).contains_key(p));
            assert(next.side(s)[p] == same);
            assert(book.level_fits(same, s, p));
            assert forall|i: int| 0 <= i < same.orders.len() implies next.order_fits(
                #[trigger] same.orders[i],
                s,
                p,
            ) by {
                assert(book.order_fits(same.orders[i], s, p));
            }
        }
    }
}

/// Whether `after` is what some fills have made of `before`.
pub open spec fn progressed(before: Order, after: Order) -> bool {
    &&& after.remaining_quantity <= before.remaining_quantity
    &&& after == Order {
        remaining_quantity: after.remaining_quantity,
        status: after.status,
        ..before
    }
    &&& before.tradable() && after.remaining_quantity > 0 ==> after.tradable()
}

/// Going through a queue keeps the book sound, and ends with the incoming
/// order or with the queue.
pub proof fn lemma_run_keeps_sound(book: Book, side: Side, price: Price, sweep: LevelSweep)
    requires
        book.sound(),
        book.side(side).contains_key(price),
        sweep.level == book.side(side)[price],
        sweep.index == book.index,
    ensures
        book.amid(side, price, sweep.run()).sound(),
        sweep.run().done(),
        progressed(sweep.taker, sweep.run().taker),
        sweep.run().level.price == sweep.level.price,
    decreases sweep.level.orders.len(), sweep.taker.remaining_quantity,
{
    if sweep.done() {
        assert(book.side(side).insert(price, sweep.level) =~= book.side(side));
        assert(book.amid(side, price, sweep) =~= book);
    } else {
        let step = sweep.step();
        let next = book.amid(side, price, step);
        lemma_step_keeps_sound(book, side, price, sweep);
        lemma_run_keeps_sound(next, side, price, step);
        assert(next.side(side).insert(price, step.run().level) =~= book.side(side).insert(
            price,
            step.run().level,
        ));
        assert(next.amid(side, price, step.run()) =~= book.amid(side, price, step.run()));
    }
}

/// A level on which nothing rests may disappear.
proof fn lemma_prune_keeps_sound(book: Book, side: Side, price: Price)
    requires
        book.sound(),
        book.side(side).contains_key(price),
        book.side(side)[price].orders.len() == 0,
    ensures
        book.with_side(side, book.side(side).remove(price)).sound(),
{
    let next = book.with_side(side, book.side(side).remove(price));
    assert forall|s: Side, p: Price| #[trigger] next.side(s).contains_key(p) implies next.level_fits(
        next.side(s)[p],
        s,
        p,
    ) by {
        assert(book.side(s).contains_key(p));
        let level = book.side(s)[p];
        assert(book.level_fits(level, s, p));
        assert forall|i: int| 0 <= i < level.orders.len() implies next.order_fits(
            #[trigger] level.orders[i],
            s,
            p,
        ) by {
            assert(book.order_fits(level.orders[i], s, p));
        }
    }
    assert forall|id: OrderId| #[trigger] next.index.contains_key(id) implies next.entry_fits(
        id,
    ) by {
        assert(book.entry_fits(id));
        let (s, p, status) = book.index[id];
        if status != OrderStatus::Filled {
            assert(book.side(s)[p].holds(id));
            assert(next.side(s)[p] == book.side(s)[p]);
        }
    }
}

/// Visiting a price keeps the book sound.
pub proof fn lemma_visit_keeps_sound(book: Book, sweep: SideSweep, price: Price)
    requires
        book.sound(),
        sweep.levels == book.side(sweep.taker.side.other()),
        sweep.index == book.index,
    ensures
        book.swept(sweep.visit(price)).sound(),
        progressed(sweep.taker, sweep.visit(price).taker),
        sweep.visit(price).levels.dom().subset_of(sweep.levels.dom()),
        sweep.visit(price).taker.remaining_quantity > 0 ==> !sweep.visit(
            price,
        ).levels.contains_key(price),
        forall|p: Price| #[trigger]
            sweep.visit(price).levels.contains_key(p) ==> sweep.visit(price).levels[p].orders.len()
                > 0 || sweep.visit(price).levels[p] == sweep.levels[p],
{
    let side = sweep.taker.side.other();
    let after = sweep.visit(price);
    if sweep.levels.contains_key(price) {
        let begun = LevelSweep {
            level: sweep.levels[price],
            index: sweep.index,
            taker: sweep.taker,
            fills: sweep.fills,
        };
        lemma_run_keeps_sound(book, side, price, begun);
        let next = book.amid(side, price, begun.run());
        if begun.run().level.orders.len() == 0 {
            lemma_prune_keeps_sound(next, side, price);
            assert(next.side(side).remove(price) =~= after.levels);
            assert(next.with_side(side, next.side(side).remove(price)) =~= book.swept(after));
        } else {
            assert(next =~= book.swept(after));
        }
    } else {
        assert(book.swept(after) =~= book);
    }
}

/// Visiting prices in turn keeps the book sound. If something of the incoming
/// order is left, it has emptied every level that it visited.
pub proof fn lemma_visit_all_keeps_sound(
    book: Book,
    sweep: SideSweep,
    prices: Seq<Price>,
)
    requires
        book.sound(),
        sweep.levels == book.side(sweep.taker.side.other()),
        sweep.index == book.index,
        forall|i: int, j: int| 0 <= i < j < prices.len() ==> prices[i] != prices[j],
    ensures
        book.swept(sweep.visit_all(prices)).sound(),
        progressed(sweep.taker, sweep.visit_all(prices).taker),
        sweep.visit_all(prices).levels.dom().subset_of(sweep.levels.dom()),
        sweep.visit_all(prices).taker.remaining_quantity > 0 ==> forall|price: Price|
            prices.contains(price) ==> !#[trigger] sweep.visit_all(prices).levels.contains_key(
                price,
            ),
        forall|price: Price| #[trigger]
            sweep.visit_all(prices).levels.contains_key(price) ==> sweep.visit_all(
                prices,
            ).levels[price].orders.len() > 0 || sweep.visit_all(prices).levels[price]
                == sweep.levels[price],
        forall|price: Price|
            !prices.contains(price) && #[trigger] sweep.levels.contains_key(price)
                ==> sweep.visit_all(prices).levels.contains_key(price)
                && sweep.visit_all(prices).levels[price] == sweep.levels[price],
    decreases prices.len(),
{
    let after = sweep.visit_all(prices);
    if prices.len() == 0 || sweep.taker.remaining_quantity == 0 {
        assert(book.swept(after) =~= book);
    } else {
        let first = prices[0];
        let rest = prices.drop_first();
        let next = sweep.visit(first);
        lemma_visit_keeps_sound(book, sweep, first);
        assert(book.swept(next).side(next.taker.side.other()) == next.levels);
        lemma_visit_all_keeps_sound(book.swept(next), next, rest);
        assert(book.swept(next).swept(after) =~= book.swept(after));
        assert(!rest.contains(first));
        assert forall|price: Price| prices.contains(price) && price != first implies rest.contains(
            price,
        ) by {
            let i = prices.index_of(price);
            assert(rest[i - 1] == price);
        }
        assert forall|price: Price| rest.contains(price) implies prices.contains(price) by {
            let i = rest.index_of(price);
            assert(prices[i + 1] == price);
        }
    }
}

/// An order whose price nothing on the other side reaches may come to rest.
pub proof fn lemma_rest_keeps_well_formed(book: Book, order: Order)
    requires
        book.sound(),
        book.uncrossed(),
        book.occupied(),
        1 <= order.order_id,
        order.order_id + 1 == book.next_order_id,
        !book.index.contains_key(order.order_id),
        order.order_type == OrderType::Limit,
        order.tradable(),
        0 < order.remaining_quantity <= order.original_quantity,
        order.price > 0,
        forall|price: Price| #[trigger]
            book.side(order.side.other()).contains_key(price) ==> !order.side.accepts(
                order.price,
                price,
            ),
    ensures
        book.rested(order).well_formed(),
{
    let side = order.side;
    let price = order.price;
    let id = order.order_id;
    let next = book.rested(order);
    let joined = level_at(book.side(side), price);
    let level = joined.pushed(order);
    assert(next.side(side) =~= book.side(side).insert(price, level));
    assert(next.side(side.other()) == book.side(side.other()));
    lemma_queue_quantity_push(joined.orders, order);
    if book.side(side).contains_key(price) {
        assert(book.level_fits(joined, side, price));
    } else {
        assert(queue_quantity(joined.orders) == 0);
    }
    assert forall|s: Side, p: Price| #[trigger] next.side(s).contains_key(p) implies next.level_fits(
        next.side(s)[p],
        s,
        p,
    ) by {
        let new_level = next.side(s)[p];
        if s == side && p == price {
            assert forall|i: int| 0 <= i < new_level.orders.len() implies next.order_fits(
                #[trigger] new_level.orders[i],
                s,
                p,
            ) by {
                if i < joined.orders.len() {
                    assert(book.order_fits(joined.orders[i], s, p));
                }
            }
            assert forall|i: int, j: int| 0 <= i < j < new_level.orders.len() implies (
            #[trigger] new_level.orders[i]).order_id < (#[trigger] new_level.orders[j]).order_id by {
                assert(book.order_fits(joined.orders[i], s, p));
                if j < joined.orders.len() {
                    assert(joined.orders[i].order_id < joined.orders[j].order_id);
                }
            }
        } else {
            assert(book.side(s).contains_key(p));
            assert(book.level_fits(new_level, s, p));
            assert forall|i: int| 0 <= i < new_level.orders.len() implies next.order_fits(
                #[trigger] new_level.orders[i],
                s,
                p,
            ) by {
                assert(book.order_fits(new_level.orders[i], s, p));
            }
        }
    }
    assert forall|k: OrderId| #[trigger] next.index.contains_key(k) implies next.entry_fits(k) by {
        if k == id {
            assert(level.orders[joined.orders.len() as int].order_id == id);
        } else {
            assert(book.index.contains_key(k));
            assert(book.entry_fits(k));
            let (s, p, status) = book.index[k];
            if status != OrderStatus::Filled {
                let old_level = book.side(s)[p];
                let i = choose|i: int|
                    0 <= i < old_level.orders.len() && old_level.orders[i].order_id == k;
                assert(next.side(s)[p].orders[i].order_id == k);
            }
        }
    }
    assert forall|bid: Price, ask: Price|
        #![trigger next.bids.contains_key(bid), next.asks.contains_key(ask)]
        next.bids.contains_key(bid) && next.asks.contains_key(ask) implies bid < ask by {
        match side {
            Side::Bid => {
                assert(book.side(Side::Ask).contains_key(ask));
                if bid != price {
                    assert(book.bids.contains_key(bid));
                }
            },
            Side::Ask => {
                assert(book.side(Side::Bid).contains_key(bid));
                if ask != price {
                    assert(book.asks.contains_key(ask));
                }
            },
        }
    }
    assert forall|s: Side, p: Price| #[trigger]
        next.side(s).contains_key(p) implies next.side(s)[p].orders.len() > 0 by {
        if s != side || p != price {
            assert(book.side(s).contains_key(p));
        }
    }
}

/// Handing out an order id keeps the book well formed.
pub proof fn lemma_number_keeps_well_formed(book: Book)
    requires
        book.well_formed(),
        book.next_order_id < u64::MAX,
    ensures
        book.numbered().well_formed(),
{
    let next = book.numbered();
    assert forall|s: Side, p: Price| #[trigger] next.side(s).contains_key(p) implies next.level_fits(
        next.side(s)[p],
        s,
        p,
    ) by {
        assert(book.side(s).contains_key(p));
        let level = book.side(s)[p];
        assert(book.level_fits(level, s, p));
        assert forall|i: int| 0 <= i < level.orders.len() implies next.order_fits(
            #[trigger] level.orders[i],
            s,
            p,
        ) by {
            assert(book.order_fits(level.orders[i], s, p));
        }
    }
    assert forall|id: OrderId| #[trigger] next.index.contains_key(id) implies next.entry_fits(
        id,
    ) by {
        assert(book.entry_fits(id));
        let (s, p, status) = book.index[id];
        if status != OrderStatus::Filled {
            assert(book.rests(s, p, id));
            assert(next.side(s) == book.side(s));
        }
    }
    assert forall|bid: Price, ask: Price|
        #![trigger next.bids.contains_key(bid), next.asks.contains_key(ask)]
        next.bids.contains_key(bid) && next.asks.contains_key(ask) implies bid < ask by {
        assert(book.bids.contains_key(bid) && book.asks.contains_key(ask));
    }
    assert forall|s: Side, p: Price| #[trigger]
        next.side(s).contains_key(p) implies next.side(s)[p].orders.len() > 0 by {
        assert(book.side(s).contains_key(p));
    }
}

/// A sweep keeps the book well formed. If something of the incoming order is
/// left, nothing rests any more at a price that it accepts.
pub proof fn lemma_sweep_keeps_well_formed(
    book: Book,
    taker: Order,
    limit: Option<Price>,
)
    requires
        book.well_formed(),
    ensures
        book.swept(book.sweep(taker, limit)).well_formed(),
        progressed(taker, book.sweep(taker, limit).taker),
        book.sweep(taker, limit).levels.dom().subset_of(
            book.side(taker.side.other()).dom(),
        ),
        book.sweep(taker, limit).taker.remaining_quantity > 0 ==> forall|price: Price| #[trigger]
            book.sweep(taker, limit).levels.contains_key(price) ==> !(limit is None
                || taker.side.accepts(limit->0, price)),
        forall|id: OrderId| #[trigger]
            book.sweep(taker, limit).index.contains_key(id) <==> book.index.contains_key(id),
{
    let side = taker.side.other();
    let begun = SideSweep { levels: book.side(side), index: book.index, taker, fills: Seq::empty() };
    let wanted = reachable(begun.levels.dom(), side, limit);
    let prices = ladder(wanted, side);
    let after = book.sweep(taker, limit);
    assert(wanted.finite());
    lemma_ladder_holds(wanted, side);
    assert forall|i: int, j: int| 0 <= i < j < prices.len() implies prices[i] != prices[j] by {
        assert(side.prefers(prices[i], prices[j]));
    }
    lemma_visit_all_keeps_sound(book, begun, prices);
    lemma_visit_all_keeps_index(book, begun, prices);
    let next = book.swept(after);
    assert forall|bid: Price, ask: Price|
        #![trigger next.bids.contains_key(bid), next.asks.contains_key(ask)]
        next.bids.contains_key(bid) && next.asks.contains_key(ask) implies bid < ask by {
        assert(book.bids.contains_key(bid) && book.asks.contains_key(ask));
    }
    if after.taker.remaining_quantity > 0 {
        assert forall|price: Price| #[trigger] after.levels.contains_key(price) implies !(
        limit is None || taker.side.accepts(limit->0, price)) by {
            assert(begun.levels.dom().contains(price));
            if limit is None || taker.side.accepts(limit->0, price) {
                assert(wanted.contains(price));
                assert(prices.contains(price));
            }
        }
    }
    assert forall|s: Side, p: Price| #[trigger]
        next.side(s).contains_key(p) implies next.side(s)[p].orders.len() > 0 by {
        assert(book.side(s).contains_key(p));
    }
}

/// A sweep neither adds an order to the index nor takes one out.
proof fn lemma_visit_all_keeps_index(
    book: Book,
    sweep: SideSweep,
    prices: Seq<Price>,
)
    requires
        book.sound(),
        sweep.levels == book.side(sweep.taker.side.other()),
        sweep.index == book.index,
    ensures
        sweep.visit_all(prices).index.dom() =~= sweep.index.dom(),
    decreases prices.len(),
{
    if prices.len() > 0 && sweep.taker.remaining_quantity > 0 {
        let price = prices[0];
        let next = sweep.visit(price);
        lemma_visit_keeps_sound(book, sweep, price);
        if sweep.levels.contains_key(price) {
            lemma_run_keeps_index(
                book,
                sweep.taker.side.other(),
                price,
                LevelSweep {
                    level: sweep.levels[price],
                    index: sweep.index,
                    taker: sweep.taker,
                    fills: sweep.fills,
                },
            );
        }
        lemma_visit_all_keeps_index(book.swept(next), next, prices.drop_first());
    }
}

proof fn lemma_run_keeps_index(book: Book, side: Side, price: Price, sweep: LevelSweep)
    requires
        book.sound(),
        book.side(side).contains_key(price),
        sweep.level == book.side(side)[price],
        sweep.index == book.index,
    ensures
        sweep.run().index.dom() =~= sweep.index.dom(),
    decreases sweep.level.orders.len(), sweep.taker.remaining_quantity,
{
    if !sweep.done() {
        lemma_step_keeps_sound(book, side, price, sweep);
        assert(book.level_fits(sweep.level, side, price));
        assert(book.order_fits(sweep.level.orders[0], side, price));
        lemma_run_keeps_index(book.amid(side, price, sweep.step()), side, price, sweep.step());
    }
}

/// A limit order keeps the book well formed.
pub proof fn lemma_limit_keeps_well_formed(
    book: Book,
    side: Side,
    price: Price,
    quantity: u64,
    timestamp: u64,
)
    requires
        book.well_formed(),
        book.next_order_id < u64::MAX,
        price > 0,
    ensures
        book.after_limit(side, price, quantity, timestamp).well_formed(),
        progressed(
            book.limit_order(side, price, quantity, timestamp),
            book.limit_sweep(side, price, quantity, timestamp).taker,
        ),
{
    let taker = book.limit_order(side, price, quantity, timestamp);
    let sweep = book.limit_sweep(side, price, quantity, timestamp);
    let numbered = book.numbered();
    lemma_number_keeps_well_formed(book);
    assert(numbered.sweep(taker, Some(price)) == sweep);
    lemma_sweep_keeps_well_formed(numbered, taker, Some(price));
    let swept = numbered.swept(sweep);
    if sweep.taker.remaining_quantity > 0 {
        assert(!swept.index.contains_key(taker.order_id)) by {
            if book.index.contains_key(taker.order_id) {
                assert(book.entry_fits(taker.order_id));
            }
            assert(numbered.index == book.index);
        }
        assert(swept.side(side.other()) == sweep.levels);
        lemma_rest_keeps_well_formed(swept, sweep.taker);
    }
}

/// A market order keeps the book well formed.
pub proof fn lemma_market_keeps_well_formed(
    book: Book,
    side: Side,
    quantity: u64,
    timestamp: u64,
)
    requires
        book.well_formed(),
        book.next_order_id < u64::MAX,
    ensures
        book.after_market(side, quantity, timestamp).well_formed(),
        progressed(
            book.market_order(side, quantity, timestamp),
            book.market_sweep(side, quantity, timestamp).taker,
        ),
{
    let taker = book.market_order(side, quantity, timestamp);
    lemma_number_keeps_well_formed(book);
    assert(book.numbered().sweep(taker, None) == book.market_sweep(
        side,
        quantity,
        timestamp,
    ));
    lemma_sweep_keeps_well_formed(book.numbered(), taker, None);
}

/// An order that the index knows and that is not filled rests at one place.
pub proof fn lemma_resting_order_has_a_place(book: Book, order_id: OrderId)
    requires
        book.sound(),
        book.cancellable(order_id),
    ensures
        ({
            let (side, price, _) = book.index[order_id];
            let level = book.side(side)[price];
            &&& book.side(side).contains_key(price)
            &&& level.holds(order_id)
            &&& level.first_at(order_id, level.place_of(order_id))
            &&& book.order_fits(level.orders[level.place_of(order_id)], side, price)
        }),
{
    let (side, price, _) = book.index[order_id];
    let level = book.side(side)[price];
    assert(book.entry_fits(order_id));
    lemma_place_is_one(level, order_id);
    assert(book.level_fits(level, side, price));
}

/// The kept total stays right when an order is taken out.
proof fn lemma_removed_total(level: Level, i: int)
    requires
        0 <= i < level.orders.len(),
        level.total_quantity == queue_quantity(level.orders) % 0x1_0000_0000_0000_0000,
    ensures
        level.removed(i).total_quantity == queue_quantity(level.removed(i).orders)
            % 0x1_0000_0000_0000_0000,
{
    lemma_queue_quantity_remove(level.orders, i);
}

/// A cancellation keeps the levels in order.
proof fn lemma_withdraw_keeps_levels(book: Book, side: Side, price: Price, i: int)
    requires
        book.well_formed(),
        book.side(side).contains_key(price),
        0 <= i < book.side(side)[price].orders.len(),
    ensures
        forall|s: Side, p: Price| #[trigger]
            book.withdrawn(side, price, i).side(s).contains_key(p) ==> book.withdrawn(
                side,
                price,
                i,
            ).level_fits(book.withdrawn(side, price, i).side(s)[p], s, p),
{
    let level = book.side(side)[price];
    let gone = level.orders[i];
    let next = book.withdrawn(side, price, i);
    assert(book.level_fits(level, side, price));
    assert(book.order_fits(gone, side, price));
    assert(next.side(side.other()) == book.side(side.other()));
    assert forall|s: Side, p: Price| #[trigger] next.side(s).contains_key(p) implies next.level_fits(
        next.side(s)[p],
        s,
        p,
    ) by {
        assert(book.side(s).contains_key(p));
        let old_level = book.side(s)[p];
        let new_level = next.side(s)[p];
        assert(book.level_fits(old_level, s, p));
        if s == side && p == price {
            lemma_removed_total(level, i);
            assert(new_level == level.removed(i));
            assert forall|k: int| 0 <= k < new_level.orders.len() implies next.order_fits(
                #[trigger] new_level.orders[k],
                s,
                p,
            ) by {
                let l = if k >= i {
                    k + 1
                } else {
                    k
                };
                assert(new_level.orders[k] == old_level.orders[l]);
                assert(book.order_fits(old_level.orders[l], s, p));
                assert(old_level.orders[l].order_id != gone.order_id);
            }
            assert forall|k: int, l: int| 0 <= k < l < new_level.orders.len() implies (
            #[trigger] new_level.orders[k]).order_id < (#[trigger] new_level.orders[l]).order_id by {
                let k2 = if k >= i {
                    k + 1
                } else {
                    k
                };
                let l2 = if l >= i {
                    l + 1
                } else {
                    l
                };
                assert(old_level.orders[k2].order_id < old_level.orders[l2].order_id);
            }
        } else {
            assert(new_level == old_level);
            assert forall|k: int| 0 <= k < new_level.orders.len() implies next.order_fits(
                #[trigger] new_level.orders[k],
                s,
                p,
            ) by {
                assert(book.order_fits(old_level.orders[k], s, p));
            }
        }
    }
}

/// A cancellation keeps the index right.
proof fn lemma_withdraw_keeps_entries(book: Book, side: Side, price: Price, i: int)
    requires
        book.well_formed(),
        book.side(side).contains_key(price),
        0 <= i < book.side(side)[price].orders.len(),
    ensures
        forall|id: OrderId| #[trigger]
            book.withdrawn(side, price, i).index.contains_key(id) ==> book.withdrawn(
                side,
                price,
                i,
            ).entry_fits(id),
{
    let level = book.side(side)[price];
    let gone = level.orders[i];
    let next = book.withdrawn(side, price, i);
    assert(next.side(side.other()) == book.side(side.other()));
    assert forall|id: OrderId| #[trigger] next.index.contains_key(id) implies next.entry_fits(
        id,
    ) by {
        assert(book.index.contains_key(id));
        assert(book.entry_fits(id));
        let (s, p, status) = book.index[id];
        if status != OrderStatus::Filled {
            let old_level = book.side(s)[p];
            let k = choose|k: int|
                0 <= k < old_level.orders.len() && old_level.orders[k].order_id == id;
            if s == side && p == price {
                assert(k != i);
                let l = if k >= i {
                    k - 1
                } else {
                    k
                };
                assert(next.side(s)[p] == level.removed(i));
                assert(next.side(s)[p].orders[l].order_id == id);
            } else {
                assert(next.side(s)[p] == old_level);
            }
        }
    }
}

/// A cancellation keeps the book well formed.
pub proof fn lemma_withdraw_keeps_well_formed(book: Book, side: Side, price: Price, i: int)
    requires
        book.well_formed(),
        book.side(side).contains_key(price),
        0 <= i < book.side(side)[price].orders.len(),
    ensures
        book.withdrawn(side, price, i).well_formed(),
{
    let next = book.withdrawn(side, price, i);
    lemma_withdraw_keeps_levels(book, side, price, i);
    lemma_withdraw_keeps_entries(book, side, price, i);
    assert(next.side(side.other()) == book.side(side.other()));
    assert(next.side(side).dom().subset_of(book.side(side).dom()));
    assert forall|bid: Price, ask: Price|
        #![trigger next.bids.contains_key(bid), next.asks.contains_key(ask)]
        next.bids.contains_key(bid) && next.asks.contains_key(ask) implies bid < ask by {
        assert(book.bids.contains_key(bid) && book.asks.contains_key(ask));
    }
    assert forall|s: Side, p: Price| #[trigger]
        next.side(s).contains_key(p) implies next.side(s)[p].orders.len() > 0 by {
        assert(book.side(s).contains_key(p));
    }
}

/// A request to cancel keeps the book well formed.
pub proof fn lemma_cancel_keeps_well_formed(book: Book, order_id: OrderId)
    requires
        book.well_formed(),
    ensures
        book.after_cancel(order_id).well_formed(),
{
    if book.cancellable(order_id) {
        lemma_resting_order_has_a_place(book, order_id);
        let (side, price, _) = book.index[order_id];
        lemma_withdraw_keeps_well_formed(
            book,
            side,
            price,
            book.side(side)[price].place_of(order_id),
        );
    }
}

} // verus!
