//! Price levels, sides and the event store.

use orderbook::{BookSide, EventStore, Order, OrderEvent, OrderType, PriceLevel, Side};

fn order(order_id: u64, price: u64, quantity: u64) -> Order {
    Order::new_at(order_id, Side::Bid, OrderType::Limit, price, quantity, 0)
}

#[test]
fn a_level_serves_orders_as_they_came() {
    let mut level = PriceLevel::new(10);
    assert_eq!(level.price, 10);
    assert!(level.is_empty());
    assert!(level.pop_front().is_none());
    level.push_order(order(1, 10, 5));
    level.push_order(order(2, 10, 6));
    assert!(!level.is_empty());
    assert_eq!(level.get_total_quantity(), 11);
    assert_eq!(level.pop_front(), Some(order(1, 10, 5)));
    // Popping leaves the kept total alone.
    assert_eq!(level.get_total_quantity(), 11);
    assert_eq!(level.pop_front(), Some(order(2, 10, 6)));
    assert!(level.is_empty());
}

#[test]
fn removing_an_order_takes_it_out_of_the_total() {
    let mut level = PriceLevel::new(10);
    level.push_order(order(1, 10, 5));
    level.push_order(order(2, 10, 6));
    level.push_order(order(3, 10, 7));
    assert_eq!(level.remove_order(9), None);
    assert_eq!(level.get_total_quantity(), 18);
    assert_eq!(level.remove_order(2), Some((order(2, 10, 6), 6)));
    assert_eq!(level.get_total_quantity(), 12);
    assert_eq!(level.remove_order(2), None);
    assert_eq!(level.pop_front(), Some(order(1, 10, 5)));
    assert_eq!(level.pop_front(), Some(order(3, 10, 7)));
}

#[test]
fn removing_the_newest_order_undoes_its_arrival() {
    let mut level = PriceLevel::new(10);
    level.push_order(order(1, 10, 5));
    level.push_order(order(2, 10, 6));
    assert_eq!(level.remove_order(2), Some((order(2, 10, 6), 6)));
    assert_eq!(level.get_total_quantity(), 5);
    assert_eq!(level.orders.len(), 1);
}

#[test]
fn of_two_orders_with_one_id_the_first_is_removed() {
    let mut level = PriceLevel::new(10);
    level.push_order(order(4, 10, 5));
    level.push_order(order(4, 10, 6));
    assert_eq!(level.remove_order(4), Some((order(4, 10, 5), 5)));
    assert_eq!(level.get_total_quantity(), 6);
}

#[test]
fn the_kept_total_wraps_around() {
    let mut level = PriceLevel::new(10);
    level.push_order(order(1, 10, u64::MAX));
    level.push_order(order(2, 10, 3));
    assert_eq!(level.get_total_quantity(), 2);
    assert_eq!(level.remove_order(2), Some((order(2, 10, 3), 3)));
    assert_eq!(level.get_total_quantity(), u64::MAX);
}

#[test]
fn a_side_knows_its_best_price() {
    let mut side = BookSide::new();
    assert_eq!(side.best_price(Side::Bid), None);
    assert_eq!(side.best_price(Side::Ask), None);
    side.insert(order(1, 10, 5));
    side.insert(order(2, 30, 5));
    side.insert(order(3, 20, 5));
    side.insert(order(4, 20, 5));
    // Highest for bids, lowest for asks.
    assert_eq!(side.best_price(Side::Bid), Some(30));
    assert_eq!(side.best_price(Side::Ask), Some(10));
}

#[test]
fn only_an_empty_level_is_removed() {
    let mut side = BookSide::new();
    side.insert(order(1, 10, 5));
    side.remove_level_if_empty(10);
    side.remove_level_if_empty(11);
    assert_eq!(side.best_price(Side::Bid), Some(10));
}

#[test]
fn the_event_store_keeps_what_it_gets() {
    let mut store = EventStore::new();
    assert!(store.events.is_empty());
    store.append(OrderEvent::OrderFullyFilled(1));
    store.append(OrderEvent::OrderCancelled(2));
    assert_eq!(
        store.events,
        vec![OrderEvent::OrderFullyFilled(1), OrderEvent::OrderCancelled(2)]
    );
}
