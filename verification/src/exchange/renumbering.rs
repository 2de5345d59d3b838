//! What becomes of the exchange book if one id is skipped.

use super::history::{law_requests_keep_the_book_well_formed, Request};
use super::index::Entry;
use super::laws::{law_cancel_undoes_rest, law_first_come_first_served, law_ids_are_new};
use super::model::{Book, LevelSweep, SideSweep};
use super::soundness::{
    lemma_number_keeps_well_formed, lemma_resting_order_has_a_place,
    lemma_sweep_keeps_well_formed, lemma_visit_keeps_sound,
};
use super::tape::Fill;
use crate::book_side::level_at;
use crate::ladder::{ladder, lemma_ladder_holds, reachable};
use crate::order::Order;
use crate::price_level::{lemma_place_is_one, Level};
use crate::types::{OrderBookError, OrderId, Price, Quantity, Side};
use vstd::prelude::*;

verus! {

/// The id that an order has if id `n` is skipped.
pub open spec fn skipping(n: OrderId, id: OrderId) -> OrderId {
    if n <= id < u64::MAX {
        (id + 1) as u64
    } else {
        id
    }
}

/// The id that an order had before id `n` was skipped.
pub open spec fn unskipping(n: OrderId, id: OrderId) -> OrderId {
    if id > n {
        (id - 1) as u64
    } else {
        id
    }
}

impl Order {
    /// The order, if id `n` is skipped.
    pub open spec fn renumbered(self, n: OrderId) -> Order {
        Order { order_id: skipping(n, self.order_id), ..self }
    }
}

impl Level {
    /// The level, if id `n` is skipped.
    pub open spec fn renumbered(self, n: OrderId) -> Level {
        Level { orders: self.orders.map_values(|order: Order| order.renumbered(n)), ..self }
    }
}

impl Fill {
    /// The trade, if id `n` is skipped.
    pub open spec fn renumbered(self, n: OrderId) -> Fill {
        Fill {
            taker_order_id: skipping(n, self.taker_order_id),
            maker_order_id: skipping(n, self.maker_order_id),
            ..self
        }
    }
}

/// The levels, if id `n` is skipped.
pub open spec fn renumbered_levels(levels: Map<Price, Level>, n: OrderId) -> Map<Price, Level> {
    levels.map_values(|level: Level| level.renumbered(n))
}

/// The index, if id `n` is skipped.
pub open spec fn renumbered_index(index: Map<OrderId, Entry>, n: OrderId) -> Map<OrderId, Entry> {
    Map::new(
        |id: OrderId| id != n && index.contains_key(unskipping(n, id)),
        |id: OrderId| index[unskipping(n, id)],
    )
}

/// The trades, if id `n` is skipped.
pub open spec fn renumbered_fills(fills: Seq<Fill>, n: OrderId) -> Seq<Fill> {
    fills.map_values(|fill: Fill| fill.renumbered(n))
}

impl LevelSweep {
    /// The sweep, if id `n` is skipped.
    pub open spec fn renumbered(self, n: OrderId) -> LevelSweep {
        LevelSweep {
            level: self.level.renumbered(n),
            index: renumbered_index(self.index, n),
            taker: self.taker.renumbered(n),
            fills: renumbered_fills(self.fills, n),
        }
    }
}

impl SideSweep {
    /// The sweep, if id `n` is skipped.
    pub open spec fn renumbered(self, n: OrderId) -> SideSweep {
        SideSweep {
            levels: renumbered_levels(self.levels, n),
            index: renumbered_index(self.index, n),
            taker: self.taker.renumbered(n),
            fills: renumbered_fills(self.fills, n),
        }
    }
}

impl Book {
    /// The book, if id `n` is skipped.
    pub open spec fn renumbered(self, n: OrderId) -> Book {
        Book {
            bids: renumbered_levels(self.bids, n),
            asks: renumbered_levels(self.asks, n),
            index: renumbered_index(self.index, n),
            next_order_id: skipping(n, self.next_order_id),
        }
    }
}

impl Request {
    /// The request, if id `n` is skipped.
    pub open spec fn renumbered(self, n: OrderId) -> Request {
        match self {
            Request::Cancel { order_id } => Request::Cancel { order_id: skipping(n, order_id) },
            _ => self,
        }
    }
}

/// The requests, if id `n` is skipped.
pub open spec fn renumbered_requests(requests: Seq<Request>, n: OrderId) -> Seq<Request> {
    requests.map_values(|request: Request| request.renumbered(n))
}

proof fn lemma_index_insert(index: Map<OrderId, Entry>, n: OrderId, id: OrderId, entry: Entry)
    requires
        id < u64::MAX,
    ensures
        renumbered_index(index.insert(id, entry), n) == renumbered_index(index, n).insert(
            skipping(n, id),
            entry,
        ),
{
    assert(renumbered_index(index.insert(id, entry), n) =~= renumbered_index(index, n).insert(
        skipping(n, id),
        entry,
    ));
}

proof fn lemma_index_remove(index: Map<OrderId, Entry>, n: OrderId, id: OrderId)
    requires
        id < u64::MAX,
    ensures
        renumbered_index(index.remove(id), n) == renumbered_index(index, n).remove(
            skipping(n, id),
        ),
{
    assert(renumbered_index(index.remove(id), n) =~= renumbered_index(index, n).remove(
        skipping(n, id),
    ));
}

proof fn lemma_run_renumbered(sweep: LevelSweep, n: OrderId)
    requires
        forall|i: int|
            0 <= i < sweep.level.orders.len() ==> (#[trigger] sweep.level.orders[i]).order_id
                < u64::MAX,
    ensures
        sweep.run().renumbered(n) == sweep.renumbered(n).run(),
    decreases sweep.level.orders.len(), sweep.taker.remaining_quantity,
{
    if !sweep.done() {
        let step = sweep.step();
        let maker = sweep.level.orders[0];
        let rest = sweep.level.orders.drop_first();
        let met = maker.filled_by(sweep.taker.remaining_quantity);
        assert(maker.order_id < u64::MAX);
        lemma_index_insert(sweep.index, n, maker.order_id, (maker.side, maker.price, met.status));
        assert forall|i: int| 0 <= i < step.level.orders.len() implies (
        #[trigger] step.level.orders[i]).order_id < u64::MAX by {
            let j = i + sweep.level.orders.len() - step.level.orders.len();
            assert(sweep.level.orders[j].order_id < u64::MAX);
            if j > 0 {
                assert(step.level.orders[i] == sweep.level.orders[j]);
            }
        }
        assert(step.renumbered(n).level.orders =~= sweep.renumbered(n).step().level.orders);
        assert(step.renumbered(n).fills =~= sweep.renumbered(n).step().fills);
        assert(step.renumbered(n) =~= sweep.renumbered(n).step());
        lemma_run_renumbered(step, n);
    }
}

proof fn lemma_visit_all_renumbered(
    book: Book,
    sweep: SideSweep,
    prices: Seq<Price>,
    n: OrderId,
)
    requires
        book.sound(),
        sweep.levels == book.side(sweep.taker.side.other()),
        sweep.index == book.index,
    ensures
        sweep.visit_all(prices).renumbered(n) == sweep.renumbered(n).visit_all(prices),
    decreases prices.len(),
{
    if prices.len() > 0 && sweep.taker.remaining_quantity > 0 {
        let first = prices[0];
        let next = sweep.visit(first);
        let side = sweep.taker.side.other();
        lemma_visit_keeps_sound(book, sweep, first);
        if sweep.levels.contains_key(first) {
            let begun = LevelSweep {
                level: sweep.levels[first],
                index: sweep.index,
                taker: sweep.taker,
                fills: sweep.fills,
            };
            assert(book.level_fits(begun.level, side, first));
            assert forall|i: int| 0 <= i < begun.level.orders.len() implies (
            #[trigger] begun.level.orders[i]).order_id < u64::MAX by {
                assert(book.order_fits(begun.level.orders[i], side, first));
            }
            lemma_run_renumbered(begun, n);
            assert(begun.run().renumbered(n).level.orders.len() == begun.run().level.orders.len());
        }
        assert(next.renumbered(n).levels =~= sweep.renumbered(n).visit(first).levels);
        assert(next.renumbered(n) =~= sweep.renumbered(n).visit(first));
        assert(book.swept(next).side(side) == next.levels);
        lemma_visit_all_renumbered(book.swept(next), next, prices.drop_first(), n);
    }
}

proof fn lemma_sweep_renumbered(book: Book, taker: Order, limit: Option<Price>, n: OrderId)
    requires
        book.sound(),
    ensures
        book.sweep(taker, limit).renumbered(n) == book.renumbered(n).sweep(
            taker.renumbered(n),
            limit,
        ),
{
    let side = taker.side.other();
    let levels = book.side(side);
    let begun = SideSweep { levels, index: book.index, taker, fills: Seq::empty() };
    let prices = ladder(reachable(levels.dom(), side, limit), side);
    assert(renumbered_levels(levels, n).dom() =~= levels.dom());
    assert(renumbered_fills(begun.fills, n) =~= Seq::empty());
    lemma_visit_all_renumbered(book, begun, prices, n);
}

proof fn lemma_rested_renumbered(book: Book, order: Order, n: OrderId)
    requires
        order.order_id < u64::MAX,
    ensures
        book.rested(order).renumbered(n) == book.renumbered(n).rested(order.renumbered(n)),
{
    let levels = book.side(order.side);
    let level = level_at(levels, order.price);
    let twin = level_at(renumbered_levels(levels, n), order.price);
    assert(level.renumbered(n) =~= twin);
    assert(level.pushed(order).renumbered(n).orders =~= twin.pushed(order.renumbered(n)).orders);
    lemma_index_insert(
        book.index,
        n,
        order.order_id,
        (order.side, order.price, order.status),
    );
    assert(renumbered_levels(levels.insert(order.price, level.pushed(order)), n)
        =~= renumbered_levels(levels, n).insert(order.price, twin.pushed(order.renumbered(n))));
    assert(book.rested(order).renumbered(n) =~= book.renumbered(n).rested(order.renumbered(n)));
}

proof fn lemma_cancel_renumbered(book: Book, order_id: OrderId, n: OrderId)
    requires
        book.well_formed(),
        book.has_ids_for(1),
        n <= book.next_order_id,
    ensures
        book.after_cancel(order_id).renumbered(n) == book.renumbered(n).after_cancel(
            skipping(n, order_id),
        ),
{
    let twin_id = skipping(n, order_id);
    let twins = book.renumbered(n);
    assert(twins.index.contains_key(twin_id) == book.index.contains_key(order_id)) by {
        if order_id == u64::MAX {
            if book.index.contains_key(order_id) {
                assert(book.entry_fits(order_id));
            }
            if twins.index.contains_key(twin_id) {
                assert(book.index.contains_key(unskipping(n, twin_id)));
                assert(book.entry_fits(unskipping(n, twin_id)));
            }
        }
    }
    if book.cancellable(order_id) {
        assert(book.entry_fits(order_id));
        assert(unskipping(n, twin_id) == order_id);
        let (side, price, _) = book.index[order_id];
        let levels = book.side(side);
        let level = levels[price];
        let i = level.place_of(order_id);
        lemma_resting_order_has_a_place(book, order_id);
        assert(book.level_fits(level, side, price));
        let twin = level.renumbered(n);
        assert(twins.side(side)[price] == twin);
        assert(twin.first_at(twin_id, i)) by {
            assert forall|j: int| 0 <= j < i implies twin.orders[j].order_id != twin_id by {
                assert(book.order_fits(level.orders[j], side, price));
                assert(level.orders[j].order_id != order_id);
                assert(twin.orders[j] == level.orders[j].renumbered(n));
            }
        }
        lemma_place_is_one(twin, twin_id);
        lemma_index_remove(book.index, n, order_id);
        assert(level.removed(i).renumbered(n).orders =~= twin.removed(i).orders);
        assert(renumbered_levels(levels.remove(price), n) =~= renumbered_levels(levels, n).remove(
            price,
        ));
        assert(renumbered_levels(levels.insert(price, level.removed(i)), n) =~= renumbered_levels(
            levels,
            n,
        ).insert(price, twin.removed(i)));
        assert(book.after_cancel(order_id).renumbered(n) =~= twins.after_cancel(twin_id));
    } else if book.index.contains_key(order_id) {
        assert(book.entry_fits(order_id));
        assert(unskipping(n, twin_id) == order_id);
    }
}

proof fn lemma_after_renumbered(book: Book, request: Request, n: OrderId)
    requires
        book.well_formed(),
        book.has_ids_for(2),
        n <= book.next_order_id,
    ensures
        book.after(request).renumbered(n) == book.renumbered(n).after(request.renumbered(n)),
        renumbered_fills(book.fills_of(request), n) == book.renumbered(n).fills_of(
            request.renumbered(n),
        ),
{
    let twins = book.renumbered(n);
    assert(renumbered_fills(Seq::empty(), n) =~= Seq::empty());
    match request {
        Request::Limit { side, price, quantity, timestamp } => {
            let taker = book.limit_order(side, price, quantity, timestamp);
            let sweep = book.limit_sweep(side, price, quantity, timestamp);
            assert(twins.limit_order(side, price, quantity, timestamp) == taker.renumbered(n));
            lemma_sweep_renumbered(book, taker, Some(price), n);
            lemma_sweep_keeps_well_formed(book, taker, Some(price));
            let twin = twins.limit_sweep(side, price, quantity, timestamp);
            assert(twin == sweep.renumbered(n));
            let swept = book.numbered().swept(sweep);
            assert(swept.renumbered(n) =~= twins.numbered().swept(twin));
            if sweep.taker.remaining_quantity > 0 {
                lemma_rested_renumbered(swept, sweep.taker, n);
            }
        },
        Request::Market { side, quantity, timestamp } => {
            let taker = book.market_order(side, quantity, timestamp);
            let sweep = book.market_sweep(side, quantity, timestamp);
            assert(twins.market_order(side, quantity, timestamp) == taker.renumbered(n));
            lemma_sweep_renumbered(book, taker, None, n);
            lemma_sweep_keeps_well_formed(book, taker, None);
            let twin = twins.market_sweep(side, quantity, timestamp);
            assert(twin == sweep.renumbered(n));
            assert(book.numbered().swept(sweep).renumbered(n) =~= twins.numbered().swept(twin));
        },
        Request::Cancel { order_id } => {
            lemma_cancel_renumbered(book, order_id, n);
        },
    }
}

proof fn lemma_after_all_renumbered(book: Book, requests: Seq<Request>, n: OrderId)
    requires
        book.well_formed(),
        book.has_ids_for(1 + requests.len()),
        n <= book.next_order_id,
    ensures
        book.after_all(requests).renumbered(n) == book.renumbered(n).after_all(
            renumbered_requests(requests, n),
        ),
        renumbered_fills(book.fills_of_all(requests), n) == book.renumbered(n).fills_of_all(
            renumbered_requests(requests, n),
        ),
    decreases requests.len(),
{
    let twins = renumbered_requests(requests, n);
    if requests.len() == 0 {
        assert(renumbered_fills(Seq::empty(), n) =~= Seq::empty());
    } else {
        let fewer = requests.drop_last();
        let now = book.after_all(fewer);
        lemma_after_all_renumbered(book, fewer, n);
        law_requests_keep_the_book_well_formed(book, fewer);
        lemma_after_renumbered(now, requests.last(), n);
        assert(twins.drop_last() =~= renumbered_requests(fewer, n));
        assert(twins.last() == requests.last().renumbered(n));
        let fills = now.fills_of(requests.last());
        assert(renumbered_fills(book.fills_of_all(fewer) + fills, n) =~= renumbered_fills(
            book.fills_of_all(fewer),
            n,
        ) + renumbered_fills(fills, n));
    }
}

/// A book that has not issued id `n` yet is not changed by skipping it, but for
/// the id of the next order.
proof fn lemma_skipping_the_next_id(book: Book)
    requires
        book.well_formed(),
        book.has_ids_for(1),
    ensures
        book.renumbered(book.next_order_id) == book.numbered(),
{
    let n = book.next_order_id;
    let twins = book.renumbered(n);
    assert forall|side: Side, price: Price| #[trigger]
        book.side(side).contains_key(price) implies book.side(side)[price].renumbered(n)
        == book.side(side)[price] by {
        let level = book.side(side)[price];
        assert(book.level_fits(level, side, price));
        assert forall|i: int| 0 <= i < level.orders.len() implies (
        #[trigger] level.orders[i]).renumbered(n) == level.orders[i] by {
            assert(book.order_fits(level.orders[i], side, price));
        }
        assert(level.renumbered(n).orders =~= level.orders);
    }
    assert(forall|price: Price| #[trigger]
        book.bids.contains_key(price) ==> book.side(Side::Bid).contains_key(price));
    assert(forall|price: Price| #[trigger]
        book.asks.contains_key(price) ==> book.side(Side::Ask).contains_key(price));
    assert(twins.bids =~= book.bids);
    assert(twins.asks =~= book.asks);
    assert forall|id: OrderId| #[trigger] book.index.contains_key(id) implies id < n by {
        assert(book.entry_fits(id));
    }
    assert forall|id: OrderId| #[trigger] twins.index.contains_key(id) == book.index.contains_key(
        id,
    ) by {
        if id > n {
            assert(!book.index.contains_key(unskipping(n, id)));
        }
    }
    assert(twins.index =~= book.index);
}

/// An order that trades nothing finds nothing within its reach.
pub proof fn lemma_no_trade_changes_nothing(book: Book, taker: Order, limit: Option<Price>)
    requires
        book.well_formed(),
        taker.remaining_quantity > 0,
        book.sweep(taker, limit).fills.len() == 0,
    ensures
        book.sweep(taker, limit).levels == book.side(taker.side.other()),
        book.sweep(taker, limit).index == book.index,
        book.sweep(taker, limit).taker == taker,
{
    let side = taker.side.other();
    let levels = book.side(side);
    let wanted = reachable(levels.dom(), side, limit);
    let prices = ladder(wanted, side);
    if prices.len() > 0 {
        let first = prices[0];
        let begun = SideSweep { levels, index: book.index, taker, fills: Seq::empty() };
        lemma_ladder_holds(wanted, side);
        assert(prices.contains(first));
        assert(wanted.contains(first));
        assert(levels.contains_key(first));
        law_first_come_first_served(book, side, first, taker);
        lemma_visit_keeps_sound(book, begun, first);
        let next = begun.visit(first);
        assert(next.fills.len() > 0);
        assert(book.swept(next).side(side) == next.levels);
        lemma_fills_grow(next, prices.drop_first());
    }
}

proof fn lemma_fills_grow(sweep: SideSweep, prices: Seq<Price>)
    ensures
        sweep.fills.len() <= sweep.visit_all(prices).fills.len(),
    decreases prices.len(),
{
    if prices.len() > 0 && sweep.taker.remaining_quantity > 0 {
        let first = prices[0];
        if sweep.levels.contains_key(first) {
            lemma_run_fills_grow(
                LevelSweep {
                    level: sweep.levels[first],
                    index: sweep.index,
                    taker: sweep.taker,
                    fills: sweep.fills,
                },
            );
        }
        lemma_fills_grow(sweep.visit(first), prices.drop_first());
    }
}

proof fn lemma_run_fills_grow(sweep: LevelSweep)
    ensures
        sweep.fills.len() <= sweep.run().fills.len(),
    decreases sweep.level.orders.len(), sweep.taker.remaining_quantity,
{
    if !sweep.done() {
        lemma_run_fills_grow(sweep.step());
    }
}

/// Law: a limit order that trades nothing and is cancelled at once leaves no
/// trace but its id. What is cancelled is all of it, the book is as before but
/// for the id of the next order, and later requests bring about the same trades
/// as if the order had never been submitted, with the later ids one higher.
pub proof fn law_cancelled_order_leaves_no_trace(
    book: Book,
    side: Side,
    price: Price,
    quantity: Quantity,
    timestamp: u64,
    requests: Seq<Request>,
)
    requires
        book.well_formed(),
        book.has_ids_for(1 + requests.len()),
        price > 0,
        quantity > 0,
        book.limit_sweep(side, price, quantity, timestamp).fills.len() == 0,
    ensures
        ({
            let id = book.next_order_id;
            let submitted = book.after_limit(side, price, quantity, timestamp);
            let after = submitted.after_cancel(id);
            &&& submitted.cancel_answer(id) == Ok::<Quantity, OrderBookError>(quantity)
            &&& after == book.numbered()
            &&& after.fills_of_all(renumbered_requests(requests, id)) == renumbered_fills(
                book.fills_of_all(requests),
                id,
            )
            &&& after.after_all(renumbered_requests(requests, id)) == book.after_all(
                requests,
            ).renumbered(id)
        }),
{
    let id = book.next_order_id;
    let taker = book.limit_order(side, price, quantity, timestamp);
    let submitted = book.after_limit(side, price, quantity, timestamp);
    let sweep = book.limit_sweep(side, price, quantity, timestamp);
    let numbered = book.numbered();
    lemma_no_trade_changes_nothing(book, taker, Some(price));
    lemma_number_keeps_well_formed(book);
    assert(numbered.swept(sweep) =~= numbered);
    assert(submitted == numbered.rested(taker));
    law_ids_are_new(book, side, price, id);
    law_cancel_undoes_rest(numbered, taker);
    lemma_skipping_the_next_id(book);
    lemma_after_all_renumbered(book, requests, id);
}

} // verus!
