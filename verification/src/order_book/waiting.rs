//! How the stop orders of the event-recording book fare over time.

use super::history::Request;
use super::laws::{
    adds, goes_on, lemma_check_stops_goes_on, lemma_fire_all_goes_on, lemma_fire_goes_on,
    lemma_matched_goes_on,
};
use super::model::{
    lemma_fire_all_keeps_stops, lemma_stops_part, market_order_of, reading, set_off, still_waiting,
    Book, Floor, Market, Matching,
};
use crate::event::OrderEvent;
use crate::iceberg::IcebergOrder;
use crate::order::Order;
use crate::stop_order::StopOrder;
use crate::types::{OrderId, Price};
use vstd::prelude::*;

verus! {

/// How often the events tell that stop order `id` was set off.
pub open spec fn times_set_off(events: Seq<OrderEvent>, id: OrderId) -> nat
    decreases events.len(),
{
    if events.len() == 0 {
        0
    } else {
        times_set_off(events.drop_last(), id) + if events.last() == OrderEvent::StopTriggered(id) {
            1nat
        } else {
            0
        }
    }
}

/// How many of the stop orders have the id `id`.
pub open spec fn waiting_as(stops: Seq<StopOrder>, id: OrderId) -> nat
    decreases stops.len(),
{
    if stops.len() == 0 {
        0
    } else {
        waiting_as(stops.drop_last(), id) + if stops.last().id == id {
            1nat
        } else {
            0
        }
    }
}

proof fn lemma_times_push(events: Seq<OrderEvent>, event: OrderEvent, id: OrderId)
    ensures
        times_set_off(events.push(event), id) == times_set_off(events, id) + if event
            == OrderEvent::StopTriggered(id) {
            1nat
        } else {
            0
        },
{
    assert(events.push(event).drop_last() =~= events);
}

proof fn lemma_waiting_from_the_front(stops: Seq<StopOrder>, id: OrderId)
    requires
        stops.len() > 0,
    ensures
        waiting_as(stops, id) == waiting_as(stops.drop_first(), id) + if stops[0].id == id {
            1nat
        } else {
            0
        },
    decreases stops.len(),
{
    if stops.len() == 1 {
        assert(stops.drop_last() =~= Seq::empty());
        assert(stops.drop_first() =~= Seq::empty());
    } else {
        lemma_waiting_from_the_front(stops.drop_last(), id);
        assert(stops.drop_last().drop_first() =~= stops.drop_first().drop_last());
        assert(stops.drop_first().last() == stops.last());
    }
}

proof fn lemma_parted_stops_add_up(stops: Seq<StopOrder>, price: Price, id: OrderId)
    ensures
        waiting_as(set_off(stops, price), id) + waiting_as(still_waiting(stops, price), id)
            == waiting_as(stops, id),
    decreases stops.len(),
{
    reveal(Seq::filter);
    if stops.len() > 0 {
        let fewer = stops.drop_last();
        let last = stops.last();
        lemma_parted_stops_add_up(fewer, price, id);
        if last.goes_off_at(price) {
            assert(set_off(stops, price) == set_off(fewer, price).push(last));
            assert(set_off(stops, price).drop_last() =~= set_off(fewer, price));
        } else {
            assert(still_waiting(stops, price) == still_waiting(fewer, price).push(last));
            assert(still_waiting(stops, price).drop_last() =~= still_waiting(fewer, price));
        }
    }
}

/// Trading sets no stop order off.
proof fn lemma_run_sets_nothing_off(matching: Matching, id: OrderId)
    ensures
        times_set_off(matching.run().market.events, id) == times_set_off(
            matching.market.events,
            id,
        ),
    decreases matching.taker.remaining_quantity,
{
    if matching.ready() {
        let step = matching.step();
        let n = matching.market.events.len() as int;
        let first = matching.market.events.push(step.market.events[n]);
        lemma_times_push(matching.market.events, step.market.events[n], id);
        if step.market.events.len() == n + 2 {
            lemma_times_push(first, step.market.events[n + 1], id);
            assert(step.market.events =~= first.push(step.market.events[n + 1]));
        } else {
            assert(step.market.events =~= first);
        }
        lemma_run_sets_nothing_off(step, id);
    }
}

proof fn lemma_matched_sets_nothing_off(
    market: Market,
    order: Order,
    clock: Seq<u64>,
    id: OrderId,
)
    ensures
        times_set_off(market.matched(order, clock).market.events, id) == times_set_off(
            market.events,
            id,
        ),
{
    let ran = Matching { market, taker: order, clock }.run();
    lemma_run_sets_nothing_off(Matching { market, taker: order, clock }, id);
    lemma_times_push(
        ran.market.events,
        OrderEvent::OrderPartiallyFilled { id: ran.taker.order_id, filled: ran.filled() },
        id,
    );
    lemma_times_push(ran.market.events, OrderEvent::OrderFullyFilled(ran.taker.order_id), id);
}

proof fn lemma_fire_all_sets_off(floor: Floor, stops: Seq<StopOrder>, id: OrderId)
    ensures
        times_set_off(floor.fire_all(stops).market.events, id) == times_set_off(
            floor.market.events,
            id,
        ) + waiting_as(stops, id),
    decreases stops.len(),
{
    if stops.len() > 0 {
        let event = OrderEvent::StopTriggered(stops[0].id);
        lemma_times_push(floor.market.events, event, id);
        lemma_matched_sets_nothing_off(
            floor.market.recording(event),
            market_order_of(stops[0], reading(floor.clock)),
            floor.clock.drop_first(),
            id,
        );
        lemma_waiting_from_the_front(stops, id);
        lemma_fire_all_sets_off(floor.fire(stops[0]), stops.drop_first(), id);
    }
}

proof fn lemma_check_stops_sets_off(floor: Floor, id: OrderId)
    ensures
        times_set_off(floor.check_stops().market.events, id) + waiting_as(
            floor.check_stops().stops,
            id,
        ) == times_set_off(floor.market.events, id) + waiting_as(floor.stops, id),
    decreases floor.stops.len(),
{
    if let Some(price) = floor.market.last_trade_price {
        let hit = set_off(floor.stops, price);
        let rest = still_waiting(floor.stops, price);
        if hit.len() > 0 {
            let begun = Floor { stops: rest, ..floor };
            lemma_stops_part(floor.stops, price);
            lemma_parted_stops_add_up(floor.stops, price, id);
            lemma_fire_all_keeps_stops(begun, hit);
            lemma_fire_all_sets_off(begun, hit, id);
            lemma_check_stops_sets_off(begun.fire_all(hit), id);
        }
    }
}

proof fn lemma_arrival_sets_off(book: Book, order: Order, clock: Seq<u64>, id: OrderId)
    ensures
        ({
            let after = book.after_arrival(order, clock);
            times_set_off(after.market.events, id) + waiting_as(after.stops, id) == times_set_off(
                book.market.events,
                id,
            ) + waiting_as(book.stops, id)
        }),
{
    let event = OrderEvent::OrderPlaced(order);
    lemma_times_push(book.market.events, event, id);
    lemma_matched_sets_nothing_off(book.market.recording(event), order, clock, id);
    lemma_check_stops_sets_off(book.floor_after(order, clock), id);
}

/// Whether `stop` is the stop order that was asked for first, second and so on,
/// as its id says.
pub open spec fn was_asked_for(stop: StopOrder, requests: Seq<Request>) -> bool {
    &&& 1 <= stop.id <= requests.len()
    &&& requests[stop.id - 1] is Stop
    &&& requests[stop.id - 1]->stop.side == stop.side
    &&& requests[stop.id - 1]->stop.trigger_price == stop.trigger_price
    &&& requests[stop.id - 1]->stop.quantity == stop.quantity
}

/// Law: each stop order that was asked for waits as it was asked for, or was set
/// off, once. No other one waits, and no other one was set off.
pub proof fn law_stop_goes_off_once(requests: Seq<Request>, id: OrderId)
    requires
        Book::empty().has_ids_for(requests.len()),
    ensures
        ({
            let book = Book::empty().after_all(requests);
            let asked = 1 <= id <= requests.len() && requests[id - 1] is Stop;
            &&& book.next_order_id == 1 + requests.len()
            &&& asked ==> times_set_off(book.market.events, id) + waiting_as(book.stops, id) == 1
            &&& !asked ==> times_set_off(book.market.events, id) + waiting_as(book.stops, id) == 0
            &&& forall|i: int|
                0 <= i < book.stops.len() ==> was_asked_for(#[trigger] book.stops[i], requests)
        }),
    decreases requests.len(),
{
    if requests.len() > 0 {
        let fewer = requests.drop_last();
        let book = Book::empty().after_all(fewer);
        let after = Book::empty().after_all(requests);
        law_stop_goes_off_once(fewer, id);
        match requests.last() {
            Request::Limit { order, clock } => {
                lemma_arrival_sets_off(book.numbered(), book.adopt(order), clock, id);
                lemma_check_stops_goes_on(book.numbered().floor_after(book.adopt(order), clock));
            },
            Request::Iceberg { iceberg, clock } => {
                let hiding = book.hiding(iceberg).numbered();
                let first = book.first_slice(iceberg, reading(clock));
                lemma_arrival_sets_off(hiding, first, clock.drop_first(), id);
                lemma_check_stops_goes_on(hiding.floor_after(first, clock.drop_first()));
            },
            Request::Stop { stop } => {
                assert(after.stops.drop_last() =~= book.stops);
            },
        }
        assert forall|i: int| 0 <= i < after.stops.len() implies was_asked_for(
            #[trigger] after.stops[i],
            requests,
        ) by {
            let stop = after.stops[i];
            assert(after.stops.contains(stop));
            if requests.last() is Stop && i == after.stops.len() - 1 {
                assert(requests[stop.id - 1] == requests.last());
            } else {
                assert(book.stops.contains(stop));
                let k = book.stops.index_of(stop);
                assert(was_asked_for(book.stops[k], fewer));
                assert(requests[stop.id - 1] == fewer[stop.id - 1]);
            }
        }
        if id <= fewer.len() && id >= 1 {
            assert(requests[id - 1] == fewer[id - 1]);
        }
    }
}

/// Whether, from position `n` on, the events tell that stop order `first` was set
/// off and later that `second` was.
pub open spec fn in_turn(
    events: Seq<OrderEvent>,
    n: int,
    first: OrderId,
    second: OrderId,
) -> bool {
    exists|a: int, b: int|
        n <= a < b < events.len() && #[trigger] events[a] == OrderEvent::StopTriggered(first)
            && #[trigger] events[b] == OrderEvent::StopTriggered(second)
}

proof fn lemma_in_turn_stays(
    events: Seq<OrderEvent>,
    after: Seq<OrderEvent>,
    n: int,
    first: OrderId,
    second: OrderId,
)
    requires
        0 <= n,
        in_turn(events, n, first, second),
        goes_on(events, after),
    ensures
        in_turn(after, n, first, second),
{
    let (a, b) = choose|a: int, b: int|
        n <= a < b < events.len() && #[trigger] events[a] == OrderEvent::StopTriggered(first)
            && #[trigger] events[b] == OrderEvent::StopTriggered(second);
    assert(after[a] == after.take(events.len() as int)[a]);
    assert(after[b] == after.take(events.len() as int)[b]);
}

proof fn lemma_fire_all_in_turn(floor: Floor, stops: Seq<StopOrder>, i: int, j: int)
    requires
        0 <= i < j < stops.len(),
    ensures
        in_turn(
            floor.fire_all(stops).market.events,
            floor.market.events.len() as int,
            stops[i].id,
            stops[j].id,
        ),
    decreases stops.len(),
{
    let n = floor.market.events.len() as int;
    let fired = floor.fire(stops[0]);
    let rest = stops.drop_first();
    let middle = fired.market.events;
    let after = floor.fire_all(stops).market.events;
    lemma_fire_goes_on(floor, stops[0]);
    if i == 0 {
        lemma_fire_all_goes_on(fired, rest);
        assert(rest[j - 1] == stops[j]);
        let a = choose|a: int|
            n <= a < middle.len() && #[trigger] middle[a] == OrderEvent::StopTriggered(
                stops[0].id,
            );
        assert(adds(middle, after, OrderEvent::StopTriggered(stops[j].id)));
        let b = choose|b: int|
            middle.len() <= b < after.len() && #[trigger] after[b] == OrderEvent::StopTriggered(
                stops[j].id,
            );
        assert(after[a] == after.take(middle.len() as int)[a]);
    } else {
        lemma_fire_all_in_turn(fired, rest, i - 1, j - 1);
        let (a, b) = choose|a: int, b: int|
            middle.len() <= a < b < after.len() && #[trigger] after[a]
                == OrderEvent::StopTriggered(rest[i - 1].id) && #[trigger] after[b]
                == OrderEvent::StopTriggered(rest[j - 1].id);
        assert(after[a] == OrderEvent::StopTriggered(stops[i].id));
        assert(after[b] == OrderEvent::StopTriggered(stops[j].id));
    }
}

/// Stop orders that are set off together keep their order.
proof fn lemma_set_off_in_order(stops: Seq<StopOrder>, price: Price, i: int, j: int) -> (r: (
    int,
    int,
))
    requires
        0 <= i < j < stops.len(),
        stops[i].goes_off_at(price),
        stops[j].goes_off_at(price),
    ensures
        0 <= r.0 < r.1 < set_off(stops, price).len(),
        set_off(stops, price)[r.0] == stops[i],
        set_off(stops, price)[r.1] == stops[j],
    decreases stops.len(),
{
    reveal(Seq::filter);
    let fewer = stops.drop_last();
    let hit = set_off(stops, price);
    if j < stops.len() - 1 {
        let (a, b) = lemma_set_off_in_order(fewer, price, i, j);
        assert(hit[a] == set_off(fewer, price)[a]);
        assert(hit[b] == set_off(fewer, price)[b]);
        (a, b)
    } else {
        fewer.lemma_filter_contains(|stop: StopOrder| stop.goes_off_at(price), i);
        assert(fewer[i] == stops[i]);
        assert(set_off(fewer, price).contains(stops[i]));
        let a = choose|a: int|
            0 <= a < set_off(fewer, price).len() && set_off(fewer, price)[a] == stops[i];
        assert(hit == set_off(fewer, price).push(stops[j]));
        (a, hit.len() - 1)
    }
}

proof fn lemma_check_stops_in_turn(floor: Floor, i: int, j: int)
    requires
        0 <= i < j < floor.stops.len(),
        floor.market.last_trade_price is Some,
        floor.stops[i].goes_off_at(floor.market.last_trade_price->0),
        floor.stops[j].goes_off_at(floor.market.last_trade_price->0),
    ensures
        in_turn(
            floor.check_stops().market.events,
            floor.market.events.len() as int,
            floor.stops[i].id,
            floor.stops[j].id,
        ),
{
    let price = floor.market.last_trade_price->0;
    let hit = set_off(floor.stops, price);
    let begun = Floor { stops: still_waiting(floor.stops, price), ..floor };
    let (a, b) = lemma_set_off_in_order(floor.stops, price, i, j);
    let fired = begun.fire_all(hit);
    lemma_fire_all_in_turn(begun, hit, a, b);
    lemma_check_stops_goes_on(fired);
    lemma_in_turn_stays(
        fired.market.events,
        floor.check_stops().market.events,
        floor.market.events.len() as int,
        floor.stops[i].id,
        floor.stops[j].id,
    );
}

/// Whether a trade at `price` is at the trigger of `stop` or beyond.
pub open spec fn is_due(stop: StopOrder, price: Price) -> bool {
    ||| stop.side is Bid && stop.trigger_price <= price
    ||| stop.side is Ask && price <= stop.trigger_price
}

/// Law: of two stop orders that are due once a limit or iceberg order has
/// traded, the one that came first is set off first.
pub proof fn law_stops_go_off_in_the_order_they_came(
    book: Book,
    order: Order,
    iceberg: IcebergOrder,
    clock: Seq<u64>,
    i: int,
    j: int,
)
    requires
        0 <= i < j < book.stops.len(),
    ensures
        ({
            let p = book.numbered().floor_after(
                book.adopt(order),
                clock,
            ).market.last_trade_price;
            p is Some && is_due(book.stops[i], p->0) && is_due(book.stops[j], p->0) ==> in_turn(
                book.after_limit(order, clock).market.events,
                book.market.events.len() as int,
                book.stops[i].id,
                book.stops[j].id,
            )
        }),
        ({
            let p = book.hiding(iceberg).numbered().floor_after(
                book.first_slice(iceberg, reading(clock)),
                clock.drop_first(),
            ).market.last_trade_price;
            p is Some && is_due(book.stops[i], p->0) && is_due(book.stops[j], p->0) ==> in_turn(
                book.after_iceberg(iceberg, clock).market.events,
                book.market.events.len() as int,
                book.stops[i].id,
                book.stops[j].id,
            )
        }),
{
    let adopted = book.adopt(order);
    let limit = book.numbered().floor_after(adopted, clock);
    let hiding = book.hiding(iceberg).numbered();
    let first = book.first_slice(iceberg, reading(clock));
    let slices = hiding.floor_after(first, clock.drop_first());
    lemma_matched_goes_on(
        book.market.recording(OrderEvent::OrderPlaced(adopted)),
        adopted,
        clock,
    );
    lemma_matched_goes_on(
        hiding.market.recording(OrderEvent::OrderPlaced(first)),
        first,
        clock.drop_first(),
    );
    if limit.market.last_trade_price is Some && is_due(
        book.stops[i],
        limit.market.last_trade_price->0,
    ) && is_due(book.stops[j], limit.market.last_trade_price->0) {
        lemma_check_stops_in_turn(limit, i, j);
    }
    if slices.market.last_trade_price is Some && is_due(
        book.stops[i],
        slices.market.last_trade_price->0,
    ) && is_due(book.stops[j], slices.market.last_trade_price->0) {
        lemma_check_stops_in_turn(slices, i, j);
    }
}

} // verus!
