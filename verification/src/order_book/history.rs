//! The event-recording book over a sequence of requests.

use super::laws::{
    goes_on, law_ids_are_new, law_only_the_visible_part_shows, law_record_only_grows,
};
use super::model::{
    lemma_fire_all_keeps_stops, lemma_stops_part, market_order_of, reading, set_off, still_waiting,
    Book, Floor, Market, Matching,
};
use super::soundness::{
    lemma_best_is_one, lemma_matched_keeps_well_formed, lemma_recording_keeps_well_formed,
    lemma_run_keeps_sound, lemma_same_levels_keep_well_formed, lemma_step_keeps_sound,
    lemma_stops_stay_numbered, numbered_below,
};
use crate::event::OrderEvent;
use crate::iceberg::IcebergOrder;
use crate::order::{min_quantity, Order};
use crate::stop_order::StopOrder;
use crate::types::{OrderId, OrderType, Price, Side};
use vstd::prelude::*;

verus! {

/// Something that is asked of a book, with the readings of the clock while it
/// is dealt with.
pub enum Request {
    Limit { order: Order, clock: Seq<u64> },
    Iceberg { iceberg: IcebergOrder, clock: Seq<u64> },
    Stop { stop: StopOrder },
}

impl Book {
    /// The book after a request.
    pub open spec fn after(self, request: Request) -> Book {
        match request {
            Request::Limit { order, clock } => self.after_limit(order, clock),
            Request::Iceberg { iceberg, clock } => self.after_iceberg(iceberg, clock),
            Request::Stop { stop } => self.after_stop(stop),
        }
    }

    /// The book after some requests, one after the other.
    pub open spec fn after_all(self, requests: Seq<Request>) -> Book
        decreases requests.len(),
    {
        if requests.len() == 0 {
            self
        } else {
            self.after_all(requests.drop_last()).after(requests.last())
        }
    }

    /// Whether there are ids for so many more orders.
    pub open spec fn has_ids_for(self, n: nat) -> bool {
        self.next_order_id + n <= u64::MAX
    }
}

/// The quantity of the slices of order `id` that became visible, added up.
pub open spec fn revealed(events: Seq<OrderEvent>, id: OrderId) -> nat
    decreases events.len(),
{
    if events.len() == 0 {
        0
    } else {
        revealed(events.drop_last(), id) + match events.last() {
            OrderEvent::IcebergRevealed(of, slice) => if of == id {
                slice as nat
            } else {
                0
            },
            _ => 0,
        }
    }
}

proof fn lemma_revealed_splits(events: Seq<OrderEvent>, n: int, id: OrderId)
    requires
        0 <= n <= events.len(),
    ensures
        revealed(events, id) == revealed(events.take(n), id) + revealed(events.skip(n), id),
    decreases events.len(),
{
    if n == events.len() {
        assert(events.take(n) =~= events);
        assert(events.skip(n) =~= Seq::empty());
    } else {
        lemma_revealed_splits(events.drop_last(), n, id);
        assert(events.drop_last().take(n) =~= events.take(n));
        assert(events.drop_last().skip(n) =~= events.skip(n).drop_last());
        assert(events.skip(n).last() == events.last());
    }
}

/// Whether, from position `n` on, the slices of order `id` that became visible
/// are some of it each, but no more than `most`.
pub open spec fn slices_fit(events: Seq<OrderEvent>, n: int, id: OrderId, most: nat) -> bool {
    forall|i: int|
        n <= i < events.len() ==> match #[trigger] events[i] {
            OrderEvent::IcebergRevealed(of, slice) => of == id ==> 0 < slice <= most,
            _ => true,
        }
}

/// Whether what came between two markets took from what order `id` hides what
/// it revealed of it.
spec fn accounted(before: Market, after: Market, id: OrderId) -> bool {
    &&& goes_on(before.events, after.events)
    &&& after.icebergs.contains_key(id)
    &&& after.icebergs[id].visible_quantity == before.icebergs[id].visible_quantity
    &&& revealed(after.events, id) + after.icebergs[id].remaining == revealed(before.events, id)
        + before.icebergs[id].remaining
    &&& slices_fit(
        after.events,
        before.events.len() as int,
        id,
        before.icebergs[id].visible_quantity as nat,
    )
}

proof fn lemma_accounted_on(before: Market, middle: Market, after: Market, id: OrderId)
    requires
        accounted(before, middle, id),
        accounted(middle, after, id),
    ensures
        accounted(before, after, id),
{
    let n = before.events.len() as int;
    let m = middle.events.len() as int;
    assert(after.events.take(n) =~= after.events.take(m).take(n));
    assert forall|i: int| n <= i < after.events.len() implies match #[trigger] after.events[i] {
        OrderEvent::IcebergRevealed(of, slice) => of == id ==> 0 < slice
            <= before.icebergs[id].visible_quantity,
        _ => true,
    } by {
        if i < m {
            assert(after.events[i] == after.events.take(m)[i]);
            assert(middle.events[i] == after.events[i]);
        }
    }
}

/// Recording an event of another kind changes nothing of the accounts.
proof fn lemma_recording_accounts(market: Market, event: OrderEvent, id: OrderId)
    requires
        market.icebergs.contains_key(id),
        !(event is IcebergRevealed),
    ensures
        accounted(market, market.recording(event), id),
{
    let after = market.recording(event);
    assert(after.events.drop_last() =~= market.events);
    assert(after.events.take(market.events.len() as int) =~= market.events);
}

/// What the accounts speak of is the record and the iceberg orders.
proof fn lemma_same_accounts(market: Market, after: Market, id: OrderId)
    requires
        market.icebergs.contains_key(id),
        after.events == market.events,
        after.icebergs.contains_key(id),
        after.icebergs[id].visible_quantity == market.icebergs[id].visible_quantity,
        after.icebergs[id].remaining == market.icebergs[id].remaining,
    ensures
        accounted(market, after, id),
{
    assert(after.events.take(market.events.len() as int) =~= market.events);
}

proof fn lemma_step_accounts(matching: Matching, next: OrderId, id: OrderId)
    requires
        matching.market.sound(next),
        matching.ready(),
        matching.market.icebergs.contains_key(id),
    ensures
        accounted(matching.market, matching.step().market, id),
{
    let market = matching.market;
    let after = matching.step().market;
    let side = matching.taker.side.other();
    let price = matching.best_price()->0;
    lemma_best_is_one(market.side(side).dom(), side);
    assert(market.side(side).contains_key(price));
    let level = market.side(side)[price];
    assert(market.level_fits(level, side, price, next));
    let resting = level.orders[0];
    assert(market.order_fits(resting, side, price, next));
    let quantity = min_quantity(resting.remaining_quantity, matching.taker.remaining_quantity);
    let met = resting.filled_by(quantity);
    let of = resting.order_id;
    if met.remaining_quantity > 0 {
        let event = OrderEvent::OrderPartiallyFilled { id: of, filled: quantity };
        lemma_recording_accounts(market, event, id);
        lemma_same_accounts(market.recording(event), after, id);
        lemma_accounted_on(market, market.recording(event), after, id);
    } else {
        let event = OrderEvent::OrderFullyFilled(of);
        let filled = market.recording(event);
        lemma_recording_accounts(market, event, id);
        if market.icebergs.contains_key(of) && market.icebergs[of].remaining > 0 {
            let iceberg = market.icebergs[of];
            let slice = min_quantity(iceberg.visible_quantity, iceberg.remaining);
            assert(after.events == filled.events.push(OrderEvent::IcebergRevealed(of, slice)));
            assert(after.events.drop_last() =~= filled.events);
            assert(after.events.take(filled.events.len() as int) =~= filled.events);
            assert(accounted(filled, after, id));
        } else {
            lemma_same_accounts(filled, after, id);
        }
        lemma_accounted_on(market, filled, after, id);
    }
}

proof fn lemma_run_accounts(matching: Matching, next: OrderId, id: OrderId)
    requires
        matching.market.sound(next),
        matching.market.icebergs.contains_key(id),
    ensures
        accounted(matching.market, matching.run().market, id),
    decreases matching.taker.remaining_quantity,
{
    if matching.ready() {
        lemma_step_keeps_sound(matching, next);
        lemma_step_accounts(matching, next, id);
        lemma_run_accounts(matching.step(), next, id);
        lemma_accounted_on(matching.market, matching.step().market, matching.run().market, id);
    } else {
        lemma_same_accounts(matching.market, matching.market, id);
    }
}

proof fn lemma_matched_accounts(
    market: Market,
    order: Order,
    clock: Seq<u64>,
    next: OrderId,
    id: OrderId,
)
    requires
        market.well_formed(next),
        market.icebergs.contains_key(id),
    ensures
        accounted(market, market.matched(order, clock).market, id),
{
    let begun = Matching { market, taker: order, clock };
    let ran = begun.run();
    let after = market.matched(order, clock).market;
    lemma_run_accounts(begun, next, id);
    if ran.taker.remaining_quantity > 0 {
        let event = OrderEvent::OrderPartiallyFilled {
            id: order.order_id,
            filled: ran.filled(),
        };
        lemma_run_keeps_sound(begun, next);
        let told = if ran.filled() > 0 {
            ran.market.recording(event)
        } else {
            ran.market
        };
        lemma_recording_accounts(ran.market, event, id);
        lemma_same_accounts(ran.market, ran.market, id);
        lemma_same_accounts(told, after, id);
        lemma_accounted_on(ran.market, told, after, id);
    } else {
        lemma_recording_accounts(
            ran.market,
            OrderEvent::OrderFullyFilled(ran.taker.order_id),
            id,
        );
    }
    lemma_accounted_on(market, ran.market, after, id);
}

/// A stop order may be set off.
proof fn lemma_fire_accounts(floor: Floor, stop: StopOrder, next: OrderId)
    requires
        floor.market.well_formed(next),
        stop.id < next,
    ensures
        floor.fire(stop).market.well_formed(next),
        forall|id: OrderId| #[trigger]
            floor.market.icebergs.contains_key(id) ==> accounted(
                floor.market,
                floor.fire(stop).market,
                id,
            ),
{
    let event = OrderEvent::StopTriggered(stop.id);
    let told = floor.market.recording(event);
    let order = market_order_of(stop, reading(floor.clock));
    let clock = floor.clock.drop_first();
    lemma_recording_keeps_well_formed(floor.market, event, next);
    lemma_matched_keeps_well_formed(told, order, clock, next);
    assert forall|id: OrderId| #[trigger] floor.market.icebergs.contains_key(id) implies accounted(
        floor.market,
        floor.fire(stop).market,
        id,
    ) by {
        lemma_recording_accounts(floor.market, event, id);
        lemma_matched_accounts(told, order, clock, next, id);
        lemma_accounted_on(floor.market, told, floor.fire(stop).market, id);
    }
}

proof fn lemma_fire_all_accounts(floor: Floor, stops: Seq<StopOrder>, next: OrderId)
    requires
        floor.market.well_formed(next),
        numbered_below(stops, next),
    ensures
        floor.fire_all(stops).market.well_formed(next),
        forall|id: OrderId| #[trigger]
            floor.market.icebergs.contains_key(id) ==> accounted(
                floor.market,
                floor.fire_all(stops).market,
                id,
            ),
    decreases stops.len(),
{
    let after = floor.fire_all(stops).market;
    if stops.len() == 0 {
        assert forall|id: OrderId| #[trigger]
            floor.market.icebergs.contains_key(id) implies accounted(floor.market, after, id) by {
            lemma_same_accounts(floor.market, after, id);
        }
    } else {
        let fired = floor.fire(stops[0]);
        let rest = stops.drop_first();
        assert(numbered_below(rest, next)) by {
            assert forall|i: int| 0 <= i < rest.len() implies (#[trigger] rest[i]).id < next by {
                assert(rest[i] == stops[i + 1]);
            }
        }
        lemma_fire_accounts(floor, stops[0], next);
        lemma_fire_all_accounts(fired, rest, next);
        assert forall|id: OrderId| #[trigger]
            floor.market.icebergs.contains_key(id) implies accounted(floor.market, after, id) by {
            assert(accounted(floor.market, fired.market, id));
            lemma_accounted_on(floor.market, fired.market, after, id);
        }
    }
}

proof fn lemma_check_stops_accounts(floor: Floor, next: OrderId)
    requires
        floor.market.well_formed(next),
        numbered_below(floor.stops, next),
    ensures
        floor.check_stops().market.well_formed(next),
        numbered_below(floor.check_stops().stops, next),
        forall|id: OrderId| #[trigger]
            floor.market.icebergs.contains_key(id) ==> accounted(
                floor.market,
                floor.check_stops().market,
                id,
            ),
    decreases floor.stops.len(),
{
    let after = floor.check_stops().market;
    let mut settled = true;
    if let Some(price) = floor.market.last_trade_price {
        let hit = set_off(floor.stops, price);
        let rest = still_waiting(floor.stops, price);
        if hit.len() > 0 {
            settled = false;
            let begun = Floor { stops: rest, ..floor };
            let fired = begun.fire_all(hit);
            lemma_stops_part(floor.stops, price);
            lemma_stops_stay_numbered(floor.stops, price, next);
            lemma_fire_all_keeps_stops(begun, hit);
            lemma_fire_all_accounts(begun, hit, next);
            lemma_check_stops_accounts(fired, next);
            assert forall|id: OrderId| #[trigger]
                floor.market.icebergs.contains_key(id) implies accounted(
                floor.market,
                after,
                id,
            ) by {
                assert(begun.market.icebergs.contains_key(id));
                assert(accounted(floor.market, fired.market, id));
                lemma_accounted_on(floor.market, fired.market, after, id);
            }
        }
    }
    if settled {
        assert forall|id: OrderId| #[trigger]
            floor.market.icebergs.contains_key(id) implies accounted(floor.market, after, id) by {
            lemma_same_accounts(floor.market, after, id);
        }
    }
}

/// An order comes in under an id that was just handed out.
proof fn lemma_arrival_accounts(book: Book, order: Order, clock: Seq<u64>)
    requires
        book.well_formed(),
        order.order_id < book.next_order_id,
        !book.market.rests(order.order_id),
        book.market.icebergs.contains_key(order.order_id) ==> order.remaining_quantity
            <= book.market.icebergs[order.order_id].visible_quantity,
    ensures
        book.after_arrival(order, clock).well_formed(),
        book.after_arrival(order, clock).next_order_id == book.next_order_id,
        book.arrival(order, clock).taker.remaining_quantity <= order.remaining_quantity,
        forall|id: OrderId| #[trigger]
            book.market.icebergs.contains_key(id) ==> accounted(
                book.market,
                book.after_arrival(order, clock).market,
                id,
            ),
{
    let next = book.next_order_id;
    let event = OrderEvent::OrderPlaced(order);
    let told = book.market.recording(event);
    let matched = book.arrival(order, clock).market;
    let after = book.after_arrival(order, clock).market;
    lemma_recording_keeps_well_formed(book.market, event, next);
    lemma_matched_keeps_well_formed(told, order, clock, next);
    lemma_check_stops_accounts(book.floor_after(order, clock), next);
    assert forall|id: OrderId| #[trigger] book.market.icebergs.contains_key(id) implies accounted(
        book.market,
        after,
        id,
    ) by {
        lemma_recording_accounts(book.market, event, id);
        lemma_matched_accounts(told, order, clock, next, id);
        lemma_accounted_on(book.market, told, matched, id);
        assert(matched.icebergs.contains_key(id));
        lemma_accounted_on(book.market, matched, after, id);
    }
}

/// The book that is about to let the first slice of an iceberg order in.
pub proof fn lemma_hiding_keeps_well_formed(book: Book, iceberg: IcebergOrder)
    requires
        book.well_formed(),
        book.has_ids_for(1),
    ensures
        book.hiding(iceberg).numbered().well_formed(),
        !book.hiding(iceberg).numbered().market.rests(book.next_order_id),
{
    let hiding = book.hiding(iceberg).numbered();
    law_ids_are_new(book);
    assert(hiding.market.icebergs.dom() =~= book.market.icebergs.dom().insert(book.next_order_id));
    lemma_same_levels_keep_well_formed(
        book.market,
        hiding.market,
        book.next_order_id,
        hiding.next_order_id,
    );
}

proof fn lemma_after_accounts(book: Book, request: Request)
    requires
        book.well_formed(),
        book.has_ids_for(1),
    ensures
        book.after(request).well_formed(),
        book.after(request).next_order_id == book.next_order_id + 1,
        forall|id: OrderId| #[trigger]
            book.market.icebergs.contains_key(id) ==> accounted(
                book.market,
                book.after(request).market,
                id,
            ),
{
    let numbered = book.numbered();
    law_ids_are_new(book);
    lemma_same_levels_keep_well_formed(
        book.market,
        book.market,
        book.next_order_id,
        numbered.next_order_id,
    );
    match request {
        Request::Limit { order, clock } => {
            lemma_arrival_accounts(numbered, book.adopt(order), clock);
        },
        Request::Iceberg { iceberg, clock } => {
            let hiding = book.hiding(iceberg).numbered();
            let slice = book.first_slice(iceberg, reading(clock));
            lemma_hiding_keeps_well_formed(book, iceberg);
            lemma_arrival_accounts(hiding, slice, clock.drop_first());
            assert forall|id: OrderId| #[trigger]
                book.market.icebergs.contains_key(id) implies accounted(
                book.market,
                book.after(request).market,
                id,
            ) by {
                assert(id != book.next_order_id);
                lemma_same_accounts(book.market, hiding.market, id);
                lemma_accounted_on(book.market, hiding.market, book.after(request).market, id);
            }
        },
        Request::Stop { stop } => {
            assert forall|id: OrderId| #[trigger]
                book.market.icebergs.contains_key(id) implies accounted(
                book.market,
                book.after(request).market,
                id,
            ) by {
                lemma_same_accounts(book.market, book.after(request).market, id);
            }
        },
    }
}

/// What the accounts of a book say after any requests.
proof fn lemma_after_all_accounts(book: Book, requests: Seq<Request>)
    requires
        book.well_formed(),
        book.has_ids_for(requests.len()),
    ensures
        book.after_all(requests).well_formed(),
        book.after_all(requests).next_order_id == book.next_order_id + requests.len(),
        forall|id: OrderId| #[trigger]
            book.market.icebergs.contains_key(id) ==> accounted(
                book.market,
                book.after_all(requests).market,
                id,
            ),
    decreases requests.len(),
{
    let after = book.after_all(requests).market;
    if requests.len() == 0 {
        assert forall|id: OrderId| #[trigger]
            book.market.icebergs.contains_key(id) implies accounted(book.market, after, id) by {
            lemma_same_accounts(book.market, after, id);
        }
    } else {
        let fewer = requests.drop_last();
        let now = book.after_all(fewer);
        lemma_after_all_accounts(book, fewer);
        lemma_after_accounts(now, requests.last());
        assert forall|id: OrderId| #[trigger]
            book.market.icebergs.contains_key(id) implies accounted(book.market, after, id) by {
            assert(accounted(book.market, now.market, id));
            assert(now.market.icebergs.contains_key(id));
            lemma_accounted_on(book.market, now.market, after, id);
        }
    }
}

/// Law: what holds of a book at any time holds after any requests, each of
/// which uses up one id.
pub proof fn law_requests_keep_the_book_well_formed(book: Book, requests: Seq<Request>)
    requires
        book.well_formed(),
        book.has_ids_for(requests.len()),
    ensures
        book.after_all(requests).well_formed(),
        book.after_all(requests).next_order_id == book.next_order_id + requests.len(),
{
    lemma_after_all_accounts(book, requests);
}

/// Law: an iceberg order shows no more than it has. Its first slice comes in as
/// a limit order at its price, under the id that the book gives it, and what is
/// left of that is no more than the slice. Whatever is asked of the book later,
/// the first slice, the slices that became visible since and what is hidden
/// still are the quantity that the order had; each slice is some of it, but no
/// more than its visible quantity; and no more than that rests.
pub proof fn law_iceberg_shows_no_more_than_it_has(
    book: Book,
    iceberg: IcebergOrder,
    clock: Seq<u64>,
    requests: Seq<Request>,
)
    requires
        book.well_formed(),
        book.has_ids_for(1 + requests.len()),
    ensures
        ({
            let id = book.next_order_id;
            let submitted = book.after_iceberg(iceberg, clock);
            let after = submitted.after_all(requests);
            let slice = min_quantity(iceberg.visible_quantity, iceberg.remaining);
            let first = book.first_slice(iceberg, reading(clock));
            let seen = book.market.events.len() as int;
            &&& submitted.market.events.len() > seen
            &&& submitted.market.events[seen] == OrderEvent::OrderPlaced(first)
            &&& first.order_id == id
            &&& first.order_type == OrderType::Limit
            &&& first.side == iceberg.side
            &&& first.price == iceberg.price
            &&& first.original_quantity == slice
            &&& book.left_of_iceberg(iceberg, clock) <= slice
            &&& after.market.icebergs.contains_key(id)
            &&& slice + revealed(after.market.events.skip(seen), id)
                + after.market.icebergs[id].remaining == iceberg.remaining
            &&& slices_fit(after.market.events, seen, id, iceberg.visible_quantity as nat)
            &&& forall|side: Side, price: Price, i: int| #[trigger]
                after.market.taken(side, price, i) && after.market.id_at(side, price, i) == id
                    ==> after.market.side(side)[price].orders[i].remaining_quantity
                    <= iceberg.visible_quantity
        }),
{
    let id = book.next_order_id;
    let hiding = book.hiding(iceberg).numbered();
    let submitted = book.after_iceberg(iceberg, clock);
    let after = submitted.after_all(requests);
    let first = book.first_slice(iceberg, reading(clock));
    let seen = book.market.events.len() as int;
    lemma_hiding_keeps_well_formed(book, iceberg);
    lemma_arrival_accounts(hiding, first, clock.drop_first());
    lemma_after_all_accounts(submitted, requests);
    assert(hiding.market.icebergs.contains_key(id));
    assert(accounted(hiding.market, submitted.market, id));
    assert(submitted.market.icebergs.contains_key(id));
    lemma_accounted_on(hiding.market, submitted.market, after.market, id);
    lemma_revealed_splits(after.market.events, seen, id);
    assert(hiding.market.events == book.market.events);
    let any = StopOrder { id: 0, side: Side::Bid, trigger_price: 0, quantity: 0 };
    law_record_only_grows(book, first, iceberg, any, clock);
    let told = book.market.events.push(OrderEvent::OrderPlaced(first));
    assert(submitted.market.events.take(told.len() as int)[seen] == told[seen]);
    assert(hiding.arrival(first, clock.drop_first()) == book.hiding(iceberg).arrival(
        first,
        clock.drop_first(),
    ));
    assert forall|side: Side, price: Price, i: int| #[trigger]
        after.market.taken(side, price, i) && after.market.id_at(
            side,
            price,
            i,
        ) == id implies after.market.side(side)[price].orders[i].remaining_quantity
        <= iceberg.visible_quantity by {
        law_only_the_visible_part_shows(after, side, price, i);
    }
}

} // verus!
