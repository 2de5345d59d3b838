//! The event-recording book, through its public interface.

use orderbook::{IcebergOrder, Order, OrderBook, OrderEvent, OrderType, Side, StopOrder};

fn limit(side: Side, price: u64, quantity: u64) -> Order {
    Order::new_at(0, side, OrderType::Limit, price, quantity, 7)
}

fn placed(id: u64, side: Side, price: u64, quantity: u64) -> OrderEvent {
    OrderEvent::OrderPlaced(Order {
        order_id: id,
        ..limit(side, price, quantity)
    })
}

fn iceberg(side: Side, price: u64, total: u64, visible: u64) -> IcebergOrder {
    IcebergOrder {
        id: 0,
        side,
        price,
        total_quantity: total,
        visible_quantity: visible,
        remaining: total,
    }
}

fn stop(side: Side, trigger_price: u64, quantity: u64) -> StopOrder {
    StopOrder {
        id: 0,
        side,
        trigger_price,
        quantity,
    }
}

/// What happened since there were `seen` events.
fn since(book: &OrderBook, seen: usize) -> Vec<OrderEvent> {
    book.event_store.events[seen..].to_vec()
}

#[test]
fn an_order_nothing_reaches_rests() {
    let mut book = OrderBook::new();
    assert!(book.event_store.events.is_empty());
    assert!(book.has_ids_left());
    assert_eq!(book.submit_limit_order(limit(Side::Ask, 11, 5)), 5);
    assert_eq!(book.submit_limit_order(limit(Side::Bid, 10, 6)), 6);
    assert_eq!(
        since(&book, 0),
        vec![placed(1, Side::Ask, 11, 5), placed(2, Side::Bid, 10, 6)]
    );
}

#[test]
fn a_larger_resting_order_is_partly_filled() {
    let mut book = OrderBook::new();
    assert_eq!(book.submit_limit_order(limit(Side::Ask, 10, 100)), 100);
    assert_eq!(book.submit_limit_order(limit(Side::Bid, 11, 30)), 0);
    assert_eq!(
        since(&book, 0),
        vec![
            placed(1, Side::Ask, 10, 100),
            placed(2, Side::Bid, 11, 30),
            OrderEvent::OrderPartiallyFilled { id: 1, filled: 30 },
            OrderEvent::OrderFullyFilled(2),
        ]
    );
    // The rest is still there.
    assert_eq!(book.submit_limit_order(limit(Side::Bid, 10, 100)), 30);
}

#[test]
fn what_is_left_of_a_limit_order_rests_at_its_price() {
    let mut book = OrderBook::new();
    book.submit_limit_order(limit(Side::Ask, 10, 10));
    assert_eq!(book.submit_limit_order(limit(Side::Bid, 11, 30)), 20);
    assert_eq!(
        since(&book, 2),
        vec![
            OrderEvent::OrderFullyFilled(1),
            OrderEvent::OrderPartiallyFilled { id: 2, filled: 10 },
        ]
    );
    assert_eq!(book.submit_limit_order(limit(Side::Ask, 11, 20)), 0);
    assert_eq!(
        since(&book, 5),
        vec![OrderEvent::OrderFullyFilled(2), OrderEvent::OrderFullyFilled(3)]
    );
}

#[test]
fn the_best_price_and_then_the_oldest_order_comes_first() {
    let mut book = OrderBook::new();
    book.submit_limit_order(limit(Side::Bid, 10, 1));
    book.submit_limit_order(limit(Side::Bid, 12, 1));
    book.submit_limit_order(limit(Side::Bid, 12, 1));
    book.submit_limit_order(limit(Side::Bid, 11, 1));
    assert_eq!(book.submit_limit_order(limit(Side::Ask, 11, 5)), 2);
    assert_eq!(
        since(&book, 5),
        vec![
            OrderEvent::OrderFullyFilled(2),
            OrderEvent::OrderFullyFilled(3),
            OrderEvent::OrderFullyFilled(4),
            OrderEvent::OrderPartiallyFilled { id: 5, filled: 3 },
        ]
    );
}

#[test]
fn a_submitted_market_order_does_not_rest() {
    let mut book = OrderBook::new();
    book.submit_limit_order(limit(Side::Ask, 10, 3));
    let order = Order::new_at(0, Side::Bid, OrderType::Market, u64::MAX, 8, 7);
    assert_eq!(book.submit_limit_order(order), 5);
    // Nothing of it can be traded with.
    assert_eq!(book.submit_limit_order(limit(Side::Ask, 1, 5)), 5);
}

#[test]
fn an_iceberg_order_shows_one_slice_at_a_time() {
    let mut book = OrderBook::new();
    assert_eq!(book.submit_iceberg_order(iceberg(Side::Ask, 10, 25, 10)), 10);
    match book.event_store.events[0] {
        OrderEvent::OrderPlaced(order) => {
            assert_eq!(order.order_id, 1);
            assert_eq!(order.side, Side::Ask);
            assert_eq!(order.order_type, OrderType::Limit);
            assert_eq!(order.price, 10);
            assert_eq!(order.original_quantity, 10);
        }
        _ => unreachable!(),
    }
    book.submit_limit_order(limit(Side::Ask, 10, 5));

    // The slice is filled; the next one queues behind order 2.
    assert_eq!(book.submit_limit_order(limit(Side::Bid, 10, 12)), 0);
    assert_eq!(
        since(&book, 3),
        vec![
            OrderEvent::OrderFullyFilled(1),
            OrderEvent::IcebergRevealed(1, 10),
            OrderEvent::OrderPartiallyFilled { id: 2, filled: 2 },
            OrderEvent::OrderFullyFilled(3),
        ]
    );

    // The last slice is what is left of the whole order.
    assert_eq!(book.submit_limit_order(limit(Side::Bid, 10, 100)), 82);
    assert_eq!(
        since(&book, 8),
        vec![
            OrderEvent::OrderFullyFilled(2),
            OrderEvent::OrderFullyFilled(1),
            OrderEvent::IcebergRevealed(1, 5),
            OrderEvent::OrderFullyFilled(1),
            OrderEvent::OrderPartiallyFilled { id: 4, filled: 18 },
        ]
    );
}

#[test]
fn an_iceberg_order_gives_all_it_hides() {
    let mut book = OrderBook::new();
    book.submit_iceberg_order(iceberg(Side::Bid, 10, 1000, 7));
    assert_eq!(book.submit_limit_order(limit(Side::Ask, 10, 1500)), 500);
}

#[test]
fn an_iceberg_order_smaller_than_its_slice_shows_all() {
    let mut book = OrderBook::new();
    assert_eq!(book.submit_iceberg_order(iceberg(Side::Bid, 10, 4, 7)), 4);
    assert_eq!(book.submit_limit_order(limit(Side::Ask, 10, 9)), 5);
}

#[test]
fn an_iceberg_order_with_an_empty_slice_shows_nothing() {
    let mut book = OrderBook::new();
    assert_eq!(book.submit_iceberg_order(iceberg(Side::Bid, 10, 4, 0)), 0);
    assert_eq!(since(&book, 1), vec![OrderEvent::OrderFullyFilled(1)]);
    assert_eq!(book.submit_limit_order(limit(Side::Ask, 10, 9)), 9);
}

#[test]
fn an_iceberg_order_whose_first_slice_is_filled_at_once_shows_no_more() {
    let mut book = OrderBook::new();
    book.submit_limit_order(limit(Side::Ask, 10, 10));
    assert_eq!(book.submit_iceberg_order(iceberg(Side::Bid, 10, 30, 10)), 0);
    assert_eq!(
        since(&book, 2),
        vec![OrderEvent::OrderFullyFilled(1), OrderEvent::OrderFullyFilled(2)]
    );
    assert_eq!(book.submit_limit_order(limit(Side::Ask, 10, 9)), 9);
}

#[test]
fn a_stop_order_goes_off_at_its_trigger() {
    let mut book = OrderBook::new();
    book.add_stop_order(stop(Side::Bid, 12, 4));
    book.submit_limit_order(limit(Side::Ask, 11, 5));
    book.submit_limit_order(limit(Side::Ask, 12, 5));
    book.submit_limit_order(limit(Side::Ask, 13, 5));

    // A trade at 11 is below the trigger.
    book.submit_limit_order(limit(Side::Bid, 11, 5));
    assert_eq!(
        since(&book, 4),
        vec![OrderEvent::OrderFullyFilled(2), OrderEvent::OrderFullyFilled(5)]
    );

    // One at 12 reaches it; the stop order buys at any price.
    book.submit_limit_order(limit(Side::Bid, 12, 3));
    assert_eq!(
        since(&book, 7),
        vec![
            OrderEvent::OrderPartiallyFilled { id: 3, filled: 3 },
            OrderEvent::OrderFullyFilled(6),
            OrderEvent::StopTriggered(1),
            OrderEvent::OrderFullyFilled(3),
            OrderEvent::OrderPartiallyFilled { id: 4, filled: 2 },
            OrderEvent::OrderFullyFilled(1),
        ]
    );

    // It went off once and for all.
    book.submit_limit_order(limit(Side::Bid, 13, 1));
    assert_eq!(
        since(&book, 14),
        vec![
            OrderEvent::OrderPartiallyFilled { id: 4, filled: 1 },
            OrderEvent::OrderFullyFilled(7),
        ]
    );
}

#[test]
fn a_stop_order_can_set_off_another() {
    let mut book = OrderBook::new();
    book.submit_limit_order(limit(Side::Bid, 10, 1));
    book.submit_limit_order(limit(Side::Bid, 9, 1));
    book.submit_limit_order(limit(Side::Bid, 8, 1));
    book.add_stop_order(stop(Side::Ask, 9, 1));
    book.add_stop_order(stop(Side::Ask, 10, 1));
    book.add_stop_order(stop(Side::Ask, 7, 1));
    book.submit_limit_order(limit(Side::Ask, 10, 1));
    assert_eq!(
        since(&book, 4),
        vec![
            OrderEvent::OrderFullyFilled(1),
            OrderEvent::OrderFullyFilled(7),
            OrderEvent::StopTriggered(5),
            OrderEvent::OrderFullyFilled(2),
            OrderEvent::OrderFullyFilled(5),
            OrderEvent::StopTriggered(4),
            OrderEvent::OrderFullyFilled(3),
            OrderEvent::OrderFullyFilled(4),
        ]
    );
}

#[test]
fn stop_orders_go_off_in_the_order_in_which_they_came() {
    let mut book = OrderBook::new();
    book.add_stop_order(stop(Side::Bid, 10, 1));
    book.add_stop_order(stop(Side::Bid, 9, 1));
    book.submit_limit_order(limit(Side::Ask, 10, 1));
    book.submit_limit_order(limit(Side::Bid, 10, 1));
    assert_eq!(
        since(&book, 4),
        vec![OrderEvent::StopTriggered(1), OrderEvent::StopTriggered(2)]
    );
}

#[test]
fn what_is_left_of_a_stop_order_is_dropped() {
    let mut book = OrderBook::new();
    book.submit_limit_order(limit(Side::Ask, 10, 3));
    book.add_stop_order(stop(Side::Bid, 10, 4));
    book.submit_limit_order(limit(Side::Bid, 10, 1));
    assert_eq!(
        since(&book, 4),
        vec![
            OrderEvent::StopTriggered(2),
            OrderEvent::OrderFullyFilled(1),
            OrderEvent::OrderPartiallyFilled { id: 2, filled: 2 },
        ]
    );
    // Nothing of it rests.
    assert_eq!(book.submit_limit_order(limit(Side::Ask, 10, 5)), 5);
}

#[test]
fn a_late_stop_order_waits_for_the_next_order() {
    let mut book = OrderBook::new();
    book.submit_limit_order(limit(Side::Ask, 10, 3));
    book.submit_limit_order(limit(Side::Bid, 10, 1));
    let seen = book.event_store.events.len();
    // The last trade was at 10 already.
    book.add_stop_order(stop(Side::Bid, 10, 2));
    assert!(since(&book, seen).is_empty());
    // An order that trades nothing is enough.
    book.submit_limit_order(limit(Side::Ask, 20, 1));
    assert_eq!(
        since(&book, seen),
        vec![
            placed(4, Side::Ask, 20, 1),
            OrderEvent::StopTriggered(3),
            OrderEvent::OrderFullyFilled(1),
            OrderEvent::OrderFullyFilled(3),
        ]
    );
}

#[test]
fn time_stamps_decide_nothing_here_either() {
    let mut book1 = OrderBook::new();
    let mut book2 = OrderBook::new();
    for i in 0..60u64 {
        let side = if i % 2 == 0 { Side::Ask } else { Side::Bid };
        let price = 50 + (i * 13) % 9;
        if i % 5 == 0 {
            book1.submit_iceberg_order(iceberg(side, price, 20, 3));
            book2.submit_iceberg_order(iceberg(side, price, 20, 3));
        } else if i % 7 == 0 {
            book1.add_stop_order(stop(side, price, 4));
            book2.add_stop_order(stop(side, price, 4));
        } else {
            let order = limit(side, price, 1 + i % 6);
            let later = Order {
                timestamp: 1000 + i,
                ..order
            };
            assert_eq!(book1.submit_limit_order(order), book2.submit_limit_order(later));
        }
    }
    let bare = |book: &OrderBook| -> Vec<OrderEvent> {
        since(book, 0)
            .into_iter()
            .map(|event| match event {
                OrderEvent::OrderPlaced(order) => OrderEvent::OrderPlaced(Order {
                    timestamp: 0,
                    ..order
                }),
                other => other,
            })
            .collect()
    };
    let events = bare(&book1);
    assert!(events.iter().any(|e| matches!(e, OrderEvent::IcebergRevealed(..))));
    assert!(events.iter().any(|e| matches!(e, OrderEvent::StopTriggered(..))));
    assert_eq!(events, bare(&book2));
}

#[test]
fn the_record_only_grows() {
    let mut book = OrderBook::new();
    let mut before = since(&book, 0);
    for i in 0..40u64 {
        let side = if i % 2 == 0 { Side::Ask } else { Side::Bid };
        if i % 3 == 0 {
            book.submit_iceberg_order(iceberg(side, 10 + i % 4, 9, 2));
        } else {
            book.submit_limit_order(limit(side, 10 + i % 4, 5));
        }
        let after = since(&book, 0);
        assert!(after.len() > before.len());
        assert_eq!(after[..before.len()], before[..]);
        before = after;
    }
}

#[test]
fn the_slices_of_an_iceberg_order_add_up() {
    let mut book = OrderBook::new();
    book.submit_limit_order(limit(Side::Bid, 9, 1));
    let id = 2;
    let mut shown = book.submit_iceberg_order(iceberg(Side::Ask, 10, 23, 4));
    for quantity in [3, 9, 1, 30] {
        book.submit_limit_order(limit(Side::Bid, 10, quantity));
    }
    for event in since(&book, 0) {
        if let OrderEvent::IcebergRevealed(of, slice) = event {
            assert_eq!(of, id);
            assert!(0 < slice && slice <= 4);
            shown += slice;
        }
    }
    assert_eq!(shown, 23);
}

#[test]
fn an_order_reports_the_stops_that_it_sets_off_itself() {
    let mut book = OrderBook::new();
    book.submit_limit_order(limit(Side::Ask, 10, 5));
    book.submit_limit_order(limit(Side::Bid, 10, 1));
    for round in 0..3u64 {
        let id = 3 + 2 * round;
        book.add_stop_order(stop(Side::Bid, 10, 1));
        let seen = book.event_store.events.len();
        book.submit_limit_order(limit(Side::Bid, 1, 1));
        assert!(since(&book, seen).contains(&OrderEvent::StopTriggered(id)));
    }
}

#[test]
fn an_order_trades_all_that_is_within_its_reach() {
    let mut book = OrderBook::new();
    book.submit_iceberg_order(iceberg(Side::Ask, 10, 25, 10));
    book.submit_limit_order(limit(Side::Ask, 11, 5));
    book.submit_iceberg_order(iceberg(Side::Ask, 12, 100, 1));
    // What is hidden at 10 counts; what rests at 12 is out of reach.
    assert_eq!(book.submit_limit_order(limit(Side::Bid, 11, 40)), 10);
    assert_eq!(book.submit_limit_order(limit(Side::Bid, 12, 99)), 0);
    assert_eq!(book.submit_limit_order(limit(Side::Bid, 12, 5)), 4);
}

#[test]
fn the_events_can_be_read() {
    let mut book = OrderBook::new();
    assert!(book.events().events.is_empty());
    book.submit_limit_order(limit(Side::Ask, 10, 3));
    assert_eq!(book.events().events, vec![placed(1, Side::Ask, 10, 3)]);
}
