//! What the record of the event-recording book tells of its orders.

use super::history::{
    law_requests_keep_the_book_well_formed, lemma_hiding_keeps_well_formed, Request,
};
use super::laws::{law_ids_are_new, lemma_run_goes_on};
use super::model::{
    lemma_fire_all_keeps_stops, lemma_stops_part, market_order_of, reading, set_off, still_waiting,
    Book, Floor, Market, Matching,
};
use super::soundness::{
    lemma_best_is_one, lemma_matched_keeps_well_formed, lemma_recording_keeps_well_formed,
    lemma_run_keeps_sound, lemma_same_levels_keep_well_formed, lemma_step_keeps_sound,
    lemma_stops_stay_numbered, numbered_below,
};
use crate::event::OrderEvent;
use crate::iceberg::IcebergOrder;
use crate::order::Order;
use crate::stop_order::StopOrder;
use crate::types::{OrderId, OrderType, Price, Side};
use vstd::prelude::*;

verus! {

/// What is left of order `id`, for one who knew that `had` was left and then
/// reads an event.
pub open spec fn told_by(event: OrderEvent, id: OrderId, had: int) -> int {
    match event {
        OrderEvent::OrderPlaced(order) => if order.order_id == id {
            order.remaining_quantity as int
        } else {
            had
        },
        OrderEvent::OrderPartiallyFilled { id: of, filled } => if of == id {
            had - filled
        } else {
            had
        },
        OrderEvent::OrderFullyFilled(of) | OrderEvent::OrderCancelled(of) => if of == id {
            0
        } else {
            had
        },
        OrderEvent::IcebergRevealed(of, slice) => if of == id {
            slice as int
        } else {
            had
        },
        OrderEvent::StopTriggered(_) => had,
    }
}

/// What is left of order `id`, for one who has read the events only: an order
/// comes with a quantity; what is filled of it is gone; and a slice that becomes
/// visible takes the place of the one before.
pub open spec fn told_left(events: Seq<OrderEvent>, id: OrderId) -> int
    decreases events.len(),
{
    if events.len() == 0 {
        0
    } else {
        told_by(events.last(), id, told_left(events.drop_last(), id))
    }
}

/// Whether event `k` announces that order `id` comes in, on `side` at `price`.
pub open spec fn announces(
    events: Seq<OrderEvent>,
    k: int,
    id: OrderId,
    side: Side,
    price: Price,
) -> bool {
    &&& 0 <= k < events.len()
    &&& events[k] is OrderPlaced
    &&& events[k]->OrderPlaced_0.order_id == id
    &&& events[k]->OrderPlaced_0.side == side
    &&& events[k]->OrderPlaced_0.price == price
}

/// Whether order `id` was announced, on `side` at `price`.
pub open spec fn announced(
    events: Seq<OrderEvent>,
    id: OrderId,
    side: Side,
    price: Price,
) -> bool {
    exists|k: int| #[trigger] announces(events, k, id, side, price)
}

impl Market {
    /// Whether the record tells of each resting order where it rests and how
    /// much of it is left.
    pub open spec fn told(self) -> bool {
        forall|side: Side, price: Price, i: int| #[trigger]
            self.taken(side, price, i) ==> {
                let order = self.side(side)[price].orders[i];
                &&& told_left(self.events, order.order_id) == order.remaining_quantity
                &&& announced(self.events, order.order_id, side, price)
            }
    }
}

proof fn lemma_told_push(events: Seq<OrderEvent>, event: OrderEvent)
    ensures
        forall|id: OrderId| #[trigger]
            told_left(events.push(event), id) == told_by(event, id, told_left(events, id)),
        forall|id: OrderId, side: Side, price: Price|
            announced(events, id, side, price) ==> #[trigger] announced(
                events.push(event),
                id,
                side,
                price,
            ),
{
    assert(events.push(event).drop_last() =~= events);
    assert forall|id: OrderId, side: Side, price: Price|
        announced(events, id, side, price) implies #[trigger] announced(
        events.push(event),
        id,
        side,
        price,
    ) by {
        let k = choose|k: int| #[trigger] announces(events, k, id, side, price);
        assert(announces(events.push(event), k, id, side, price));
    }
}

/// An event on an order that does not rest leaves what is told of the others.
proof fn lemma_recording_tells(market: Market, event: OrderEvent)
    requires
        market.told(),
        forall|id: OrderId, had: int|
            market.rests(id) ==> #[trigger] told_by(event, id, had) == had,
    ensures
        market.recording(event).told(),
{
    let after = market.recording(event);
    lemma_told_push(market.events, event);
    assert forall|side: Side, price: Price, i: int| #[trigger] after.taken(side, price, i) implies {
        let order = after.side(side)[price].orders[i];
        &&& told_left(after.events, order.order_id) == order.remaining_quantity
        &&& announced(after.events, order.order_id, side, price)
    } by {
        assert(after.side(side) == market.side(side));
        assert(market.taken(side, price, i));
        let id = market.id_at(side, price, i);
        assert(market.rests(id));
        assert(told_by(event, id, told_left(market.events, id)) == told_left(market.events, id));
        assert(announced(market.events, id, side, price));
    }
}

proof fn lemma_step_tells(matching: Matching, next: OrderId)
    requires
        matching.market.sound(next),
        matching.ready(),
        matching.market.told(),
    ensures
        matching.step().market.told(),
        forall|id: OrderId|
            !matching.market.rests(id) ==> #[trigger] told_left(matching.step().market.events, id)
                == told_left(matching.market.events, id),
{
    let market = matching.market;
    let after = matching.step().market;
    let side = matching.taker.side.other();
    let price = matching.best_price()->0;
    lemma_best_is_one(market.side(side).dom(), side);
    assert(market.side(side).contains_key(price));
    let level = market.side(side)[price];
    assert(market.level_fits(level, side, price, next));
    let resting = level.orders[0];
    assert(market.order_fits(resting, side, price, next));
    let of = resting.order_id;
    assert(market.taken(side, price, 0));
    assert(market.id_at(side, price, 0) == of);
    assert(market.rests(of));
    let n = market.events.len() as int;
    let first = market.events.push(after.events[n]);
    lemma_told_push(market.events, after.events[n]);
    if after.events.len() == n + 2 {
        lemma_told_push(first, after.events[n + 1]);
        assert(after.events =~= first.push(after.events[n + 1]));
    } else {
        assert(after.events =~= first);
    }
    assert forall|s: Side, p: Price, i: int| #[trigger] after.taken(s, p, i) implies {
        let order = after.side(s)[p].orders[i];
        &&& told_left(after.events, order.order_id) == order.remaining_quantity
        &&& announced(after.events, order.order_id, s, p)
    } by {
        let order = after.side(s)[p].orders[i];
        assert(announced(market.events, of, side, price));
        if s != side || p != price {
            assert(market.taken(s, p, i));
            assert(market.id_at(s, p, i) == order.order_id);
            assert(announced(first, order.order_id, s, p));
        } else {
            let queue = after.side(side)[price].orders;
            let left = resting.remaining_quantity - matching.taker.remaining_quantity;
            let from = if left > 0 {
                i
            } else if i < level.orders.len() - 1 {
                i + 1
            } else {
                0
            };
            assert(market.taken(side, price, from));
            assert(market.id_at(side, price, from) == order.order_id);
            assert(announced(first, order.order_id, s, p));
        }
    }
}

proof fn lemma_run_tells(matching: Matching, next: OrderId)
    requires
        matching.market.sound(next),
        matching.market.told(),
    ensures
        matching.run().market.told(),
        forall|id: OrderId|
            !matching.market.rests(id) ==> #[trigger] told_left(matching.run().market.events, id)
                == told_left(matching.market.events, id),
        forall|id: OrderId, side: Side, price: Price|
            announced(matching.market.events, id, side, price) ==> #[trigger] announced(
                matching.run().market.events,
                id,
                side,
                price,
            ),
    decreases matching.taker.remaining_quantity,
{
    if matching.ready() {
        let step = matching.step();
        lemma_step_keeps_sound(matching, next);
        lemma_step_tells(matching, next);
        lemma_run_tells(step, next);
        assert forall|id: OrderId|
            !matching.market.rests(id) implies #[trigger] told_left(
            matching.run().market.events,
            id,
        ) == told_left(matching.market.events, id) by {
            assert(!step.market.rests(id));
            assert(told_left(step.market.events, id) == told_left(matching.market.events, id));
        }
        assert forall|id: OrderId, side: Side, price: Price|
            announced(matching.market.events, id, side, price) implies #[trigger] announced(
            matching.run().market.events,
            id,
            side,
            price,
        ) by {
            let k = choose|k: int| #[trigger]
                announces(matching.market.events, k, id, side, price);
            assert(announces(step.market.events, k, id, side, price));
            assert(announced(step.market.events, id, side, price));
        }
    }
}

/// An order of which all that is told is what it came with may come to rest, or
/// be dropped.
proof fn lemma_matched_tells(market: Market, order: Order, clock: Seq<u64>, next: OrderId)
    requires
        market.well_formed(next),
        market.told(),
        !market.rests(order.order_id),
        order.order_type == OrderType::Limit ==> {
            &&& told_left(market.events, order.order_id) == order.remaining_quantity
            &&& announced(market.events, order.order_id, order.side, order.price)
            &&& order.remaining_quantity == order.original_quantity
        },
    ensures
        market.matched(order, clock).market.told(),
{
    let begun = Matching { market, taker: order, clock };
    let ran = begun.run();
    let id = order.order_id;
    lemma_run_keeps_sound(begun, next);
    lemma_run_tells(begun, next);
    assert(!ran.market.rests(id));
    if ran.taker.remaining_quantity > 0 {
        let event = OrderEvent::OrderPartiallyFilled { id, filled: ran.filled() };
        let told = if ran.filled() > 0 {
            ran.market.recording(event)
        } else {
            ran.market
        };
        lemma_recording_tells(ran.market, event);
        lemma_told_push(ran.market.events, event);
        if order.order_type == OrderType::Limit {
            let after = told.with_resting(ran.taker);
            assert(told_left(told.events, id) == ran.taker.remaining_quantity);
            assert(announced(told.events, id, order.side, order.price));
            assert forall|s: Side, p: Price, i: int| #[trigger] after.taken(s, p, i) implies {
                let held = after.side(s)[p].orders[i];
                &&& told_left(after.events, held.order_id) == held.remaining_quantity
                &&& announced(after.events, held.order_id, s, p)
            } by {
                assert(after.events == told.events);
                if s == order.side && p == order.price && i == after.side(s)[p].orders.len() - 1 {
                    assert(after.side(s)[p].orders[i] == ran.taker);
                } else {
                    assert(told.taken(s, p, i));
                    assert(after.side(s)[p].orders[i] == told.side(s)[p].orders[i]);
                }
            }
        }
    } else {
        lemma_recording_tells(ran.market, OrderEvent::OrderFullyFilled(id));
    }
}

/// Whether none of the stop orders has the id of a resting order.
spec fn apart(stops: Seq<StopOrder>, market: Market) -> bool {
    forall|i: int| 0 <= i < stops.len() ==> !market.rests((#[trigger] stops[i]).id)
}

proof fn lemma_fire_tells(floor: Floor, stop: StopOrder, next: OrderId)
    requires
        floor.market.well_formed(next),
        floor.market.told(),
        stop.id < next,
        !floor.market.rests(stop.id),
    ensures
        floor.fire(stop).market.well_formed(next),
        floor.fire(stop).market.told(),
        forall|id: OrderId| #[trigger]
            floor.fire(stop).market.rests(id) ==> floor.market.rests(id),
{
    let event = OrderEvent::StopTriggered(stop.id);
    let told = floor.market.recording(event);
    let order = market_order_of(stop, reading(floor.clock));
    let clock = floor.clock.drop_first();
    lemma_recording_keeps_well_formed(floor.market, event, next);
    lemma_recording_tells(floor.market, event);
    lemma_matched_keeps_well_formed(told, order, clock, next);
    lemma_matched_tells(told, order, clock, next);
}

proof fn lemma_fire_all_tells(floor: Floor, stops: Seq<StopOrder>, next: OrderId)
    requires
        floor.market.well_formed(next),
        floor.market.told(),
        numbered_below(stops, next),
        apart(stops, floor.market),
    ensures
        floor.fire_all(stops).market.well_formed(next),
        floor.fire_all(stops).market.told(),
        forall|id: OrderId| #[trigger]
            floor.fire_all(stops).market.rests(id) ==> floor.market.rests(id),
    decreases stops.len(),
{
    if stops.len() > 0 {
        let fired = floor.fire(stops[0]);
        let rest = stops.drop_first();
        lemma_fire_tells(floor, stops[0], next);
        assert forall|i: int| 0 <= i < rest.len() implies (#[trigger] rest[i]).id < next
            && !fired.market.rests(rest[i].id) by {
            assert(rest[i] == stops[i + 1]);
        }
        lemma_fire_all_tells(fired, rest, next);
    }
}

proof fn lemma_stops_stay_apart(stops: Seq<StopOrder>, price: Price, market: Market)
    requires
        apart(stops, market),
    ensures
        apart(set_off(stops, price), market),
        apart(still_waiting(stops, price), market),
{
    let hit = set_off(stops, price);
    let rest = still_waiting(stops, price);
    assert forall|i: int| 0 <= i < hit.len() implies !market.rests((#[trigger] hit[i]).id) by {
        stops.lemma_filter_contains_rev(|stop: StopOrder| stop.goes_off_at(price), hit[i]);
        let k = stops.index_of(hit[i]);
        assert(!market.rests(stops[k].id));
    }
    assert forall|i: int| 0 <= i < rest.len() implies !market.rests((#[trigger] rest[i]).id) by {
        stops.lemma_filter_contains_rev(|stop: StopOrder| !stop.goes_off_at(price), rest[i]);
        let k = stops.index_of(rest[i]);
        assert(!market.rests(stops[k].id));
    }
}

proof fn lemma_check_stops_tells(floor: Floor, next: OrderId)
    requires
        floor.market.well_formed(next),
        floor.market.told(),
        numbered_below(floor.stops, next),
        apart(floor.stops, floor.market),
    ensures
        floor.check_stops().market.told(),
        apart(floor.check_stops().stops, floor.check_stops().market),
    decreases floor.stops.len(),
{
    if let Some(price) = floor.market.last_trade_price {
        let hit = set_off(floor.stops, price);
        let rest = still_waiting(floor.stops, price);
        if hit.len() > 0 {
            let begun = Floor { stops: rest, ..floor };
            let fired = begun.fire_all(hit);
            lemma_stops_part(floor.stops, price);
            lemma_stops_stay_numbered(floor.stops, price, next);
            lemma_stops_stay_apart(floor.stops, price, floor.market);
            lemma_fire_all_keeps_stops(begun, hit);
            lemma_fire_all_tells(begun, hit, next);
            assert(apart(fired.stops, fired.market));
            lemma_check_stops_tells(fired, next);
        }
    }
}

/// A whole order comes in under an id that was just handed out.
proof fn lemma_arrival_tells(book: Book, order: Order, clock: Seq<u64>)
    requires
        book.well_formed(),
        book.market.told(),
        apart(book.stops, book.market),
        order.order_id < book.next_order_id,
        !book.market.rests(order.order_id),
        forall|i: int| 0 <= i < book.stops.len() ==> (#[trigger] book.stops[i]).id
            != order.order_id,
        order.remaining_quantity == order.original_quantity,
        book.market.icebergs.contains_key(order.order_id) ==> order.remaining_quantity
            <= book.market.icebergs[order.order_id].visible_quantity,
    ensures
        book.after_arrival(order, clock).market.told(),
        apart(book.after_arrival(order, clock).stops, book.after_arrival(order, clock).market),
{
    let next = book.next_order_id;
    let event = OrderEvent::OrderPlaced(order);
    let placed = book.market.recording(event);
    lemma_recording_keeps_well_formed(book.market, event, next);
    lemma_recording_tells(book.market, event);
    lemma_told_push(book.market.events, event);
    assert(announces(
        placed.events,
        book.market.events.len() as int,
        order.order_id,
        order.side,
        order.price,
    ));
    lemma_matched_keeps_well_formed(placed, order, clock, next);
    lemma_matched_tells(placed, order, clock, next);
    lemma_check_stops_tells(book.floor_after(order, clock), next);
}

impl Request {
    /// Whether a limit order that is asked for is one of which nothing is filled
    /// yet.
    pub open spec fn whole(self) -> bool {
        self matches Request::Limit { order, .. } ==> order.remaining_quantity
            == order.original_quantity
    }
}

proof fn lemma_after_tells(book: Book, request: Request)
    requires
        book.well_formed(),
        book.has_ids_for(1),
        book.market.told(),
        apart(book.stops, book.market),
        request.whole(),
    ensures
        book.after(request).market.told(),
        apart(book.after(request).stops, book.after(request).market),
{
    let numbered = book.numbered();
    law_ids_are_new(book);
    lemma_same_levels_keep_well_formed(
        book.market,
        book.market,
        book.next_order_id,
        numbered.next_order_id,
    );
    match request {
        Request::Limit { order, clock } => {
            lemma_arrival_tells(numbered, book.adopt(order), clock);
        },
        Request::Iceberg { iceberg, clock } => {
            let hiding = book.hiding(iceberg).numbered();
            lemma_hiding_keeps_well_formed(book, iceberg);
            lemma_same_levels_keep_resting(book.market, hiding.market);
            lemma_arrival_tells(
                hiding,
                book.first_slice(iceberg, reading(clock)),
                clock.drop_first(),
            );
        },
        Request::Stop { stop } => {},
    }
}

/// Which orders rest, and what is told of them, rests on the levels and the
/// record.
proof fn lemma_same_levels_keep_resting(market: Market, after: Market)
    requires
        after.bids == market.bids,
        after.asks == market.asks,
        after.events == market.events,
    ensures
        market.told() ==> after.told(),
        forall|id: OrderId| #[trigger] after.rests(id) ==> market.rests(id),
{
    assert(forall|s: Side| after.side(s) == market.side(s));
    assert forall|s: Side, p: Price, i: int| #[trigger] after.taken(s, p, i) implies market.taken(
        s,
        p,
        i,
    ) && market.id_at(s, p, i) == after.id_at(s, p, i) by {}
    assert forall|id: OrderId| #[trigger] after.rests(id) implies market.rests(id) by {
        let (s, p, i) = choose|s: Side, p: Price, i: int| #[trigger]
            after.taken(s, p, i) && after.id_at(s, p, i) == id;
        assert(market.taken(s, p, i));
    }
}

proof fn lemma_after_all_tells(book: Book, requests: Seq<Request>)
    requires
        book.well_formed(),
        book.has_ids_for(requests.len()),
        book.market.told(),
        apart(book.stops, book.market),
        forall|i: int| 0 <= i < requests.len() ==> (#[trigger] requests[i]).whole(),
    ensures
        book.after_all(requests).market.told(),
        apart(book.after_all(requests).stops, book.after_all(requests).market),
    decreases requests.len(),
{
    if requests.len() > 0 {
        let fewer = requests.drop_last();
        law_requests_keep_the_book_well_formed(book, fewer);
        assert forall|i: int| 0 <= i < fewer.len() implies (#[trigger] fewer[i]).whole() by {
            assert(fewer[i] == requests[i]);
        }
        lemma_after_all_tells(book, fewer);
        assert(requests[requests.len() - 1].whole());
        lemma_after_tells(book.after_all(fewer), requests.last());
    }
}

/// Law: the record tells the book. Whatever was asked of a book, of each resting
/// order the events tell that it came in, on the side and at the price where it
/// rests, and the fills and slices that they tell of leave just what is left of
/// it. Limit orders are to come in with nothing filled yet.
pub proof fn law_record_tells_what_is_left(
    requests: Seq<Request>,
    side: Side,
    price: Price,
    i: int,
)
    requires
        Book::empty().has_ids_for(requests.len()),
        forall|k: int| 0 <= k < requests.len() ==> (#[trigger] requests[k]).whole(),
        Book::empty().after_all(requests).market.taken(side, price, i),
    ensures
        ({
            let market = Book::empty().after_all(requests).market;
            let order = match side {
                Side::Bid => market.bids[price].orders[i],
                Side::Ask => market.asks[price].orders[i],
            };
            &&& told_left(market.events, order.order_id) == order.remaining_quantity
            &&& exists|k: int| {
                &&& 0 <= k < market.events.len()
                &&& #[trigger] market.events[k] is OrderPlaced
                &&& market.events[k]->OrderPlaced_0.order_id == order.order_id
                &&& market.events[k]->OrderPlaced_0.side == side
                &&& market.events[k]->OrderPlaced_0.price == price
            }
        }),
{
    let book = Book::empty();
    let market = book.after_all(requests).market;
    assert(!exists|s: Side, p: Price, j: int| #[trigger] book.market.taken(s, p, j));
    lemma_after_all_tells(book, requests);
    let order = market.side(side)[price].orders[i];
    assert(announced(market.events, order.order_id, side, price));
    let k = choose|k: int| #[trigger]
        announces(market.events, k, order.order_id, side, price);
    assert(market.events[k] is OrderPlaced);
}

/// How much of orders other than `taker` the events from position `n` on tell
/// was traded: what was filled of an order that stays, or all that was left of
/// one that is filled.
pub open spec fn told_traded(events: Seq<OrderEvent>, n: int, taker: OrderId) -> int
    decreases events.len(),
{
    if events.len() <= n || events.len() == 0 {
        0
    } else {
        told_traded(events.drop_last(), n, taker) + match events.last() {
            OrderEvent::OrderPartiallyFilled { id, filled } => if id != taker {
                filled as int
            } else {
                0
            },
            OrderEvent::OrderFullyFilled(id) => if id != taker {
                told_left(events.drop_last(), id)
            } else {
                0
            },
            _ => 0,
        }
    }
}

proof fn lemma_run_tells_what_traded(matching: Matching, next: OrderId, n: int)
    requires
        matching.market.sound(next),
        matching.market.told(),
        !matching.market.rests(matching.taker.order_id),
        0 <= n <= matching.market.events.len(),
    ensures
        told_traded(matching.run().market.events, n, matching.taker.order_id)
            + matching.run().taker.remaining_quantity == told_traded(
            matching.market.events,
            n,
            matching.taker.order_id,
        ) + matching.taker.remaining_quantity,
    decreases matching.taker.remaining_quantity,
{
    if matching.ready() {
        let market = matching.market;
        let after = matching.step().market;
        let side = matching.taker.side.other();
        let price = matching.best_price()->0;
        lemma_best_is_one(market.side(side).dom(), side);
        assert(market.side(side).contains_key(price));
        assert(market.level_fits(market.side(side)[price], side, price, next));
        assert(market.order_fits(market.side(side)[price].orders[0], side, price, next));
        assert(market.taken(side, price, 0));
        assert(market.rests(market.id_at(side, price, 0)));
        let m = market.events.len() as int;
        let first = market.events.push(after.events[m]);
        let taker = matching.taker.order_id;
        let maker = market.side(side)[price].orders[0];
        assert(told_left(market.events, maker.order_id) == maker.remaining_quantity);
        assert(first.drop_last() =~= market.events);
        assert(told_traded(first, n, taker) + matching.step().taker.remaining_quantity
            == told_traded(market.events, n, taker) + matching.taker.remaining_quantity);
        if after.events.len() == m + 2 {
            assert(after.events.drop_last() =~= first);
            assert(told_traded(after.events, n, taker) == told_traded(first, n, taker));
        } else {
            assert(after.events =~= first);
        }
        lemma_step_keeps_sound(matching, next);
        lemma_step_tells(matching, next);
        lemma_run_tells_what_traded(matching.step(), next, n);
    }
}

/// Law: what the events tell was filled of resting orders adds up to what the
/// incoming order traded, for a limit order and for the first slice of an iceberg
/// order, whatever was asked of the book before.
pub proof fn law_fills_told_add_up(
    requests: Seq<Request>,
    order: Order,
    iceberg: IcebergOrder,
    clock: Seq<u64>,
)
    requires
        Book::empty().has_ids_for(requests.len() + 1),
        forall|k: int| 0 <= k < requests.len() ==> (#[trigger] requests[k]).whole(),
    ensures
        ({
            let book = Book::empty().after_all(requests);
            let n = book.market.events.len() as int;
            let id = book.next_order_id;
            let after = book.numbered().floor_after(book.adopt(order), clock).market;
            told_traded(after.events, n, id) == order.remaining_quantity - book.left_of_limit(
                order,
                clock,
            )
        }),
        ({
            let book = Book::empty().after_all(requests);
            let n = book.market.events.len() as int;
            let id = book.next_order_id;
            let first = book.first_slice(iceberg, reading(clock));
            let after = book.hiding(iceberg).numbered().floor_after(
                first,
                clock.drop_first(),
            ).market;
            told_traded(after.events, n, id) == first.remaining_quantity - book.left_of_iceberg(
                iceberg,
                clock,
            )
        }),
{
    let empty = Book::empty();
    let book = empty.after_all(requests);
    assert(!exists|s: Side, p: Price, j: int| #[trigger] empty.market.taken(s, p, j));
    law_requests_keep_the_book_well_formed(empty, requests);
    lemma_after_all_tells(empty, requests);
    law_ids_are_new(book);
    lemma_arrival_tells_what_traded(book, book.adopt(order), clock);
    let hiding = book.hiding(iceberg).numbered();
    lemma_hiding_keeps_well_formed(book, iceberg);
    lemma_same_levels_keep_resting(book.market, hiding.market);
    lemma_arrival_tells_what_traded(
        hiding,
        book.first_slice(iceberg, reading(clock)),
        clock.drop_first(),
    );
}

proof fn lemma_arrival_tells_what_traded(book: Book, order: Order, clock: Seq<u64>)
    requires
        book.well_formed(),
        book.market.told(),
        !book.market.rests(order.order_id),
    ensures
        told_traded(
            book.arrival(order, clock).market.events,
            book.market.events.len() as int,
            order.order_id,
        ) == order.remaining_quantity - book.arrival(order, clock).taker.remaining_quantity,
{
    let n = book.market.events.len() as int;
    let next = book.next_order_id;
    let event = OrderEvent::OrderPlaced(order);
    let placed = book.market.recording(event);
    let begun = Matching { market: placed, taker: order, clock };
    let ran = begun.run();
    lemma_recording_keeps_well_formed(book.market, event, next);
    lemma_recording_tells(book.market, event);
    assert(placed.events.drop_last() =~= book.market.events);
    assert(told_traded(book.market.events, n, order.order_id) == 0);
    assert(told_traded(placed.events, n, order.order_id) == 0);
    lemma_run_keeps_sound(begun, next);
    lemma_run_goes_on(begun);
    lemma_run_tells_what_traded(begun, next, n);
    let after = book.arrival(order, clock).market.events;
    if after.len() > ran.market.events.len() {
        assert(after.drop_last() =~= ran.market.events);
    }
}

} // verus!
