//! Orders and the vocabulary around them.

use orderbook::clock::{millis_stamp, nanos_stamp, now_millis, now_nanos, time_stamp};
use orderbook::order::{Order, OrderType, Side};
use orderbook::types::OrderStatus;

#[test]
fn test_order_creation() {
    let order = Order::new(1, Side::Buy, OrderType::Limit, 10_000, 100);
    assert_eq!(order.order_id, 1);
    assert_eq!(order.side, Side::Buy);
    assert_eq!(order.order_type, OrderType::Limit);
    assert_eq!(order.price, 10_000);
    assert_eq!(order.original_quantity, 100);
    assert_eq!(order.get_remaining_quantity(), 100);
    assert_eq!(order.get_status(), OrderStatus::Active);
}

#[test]
fn test_order_fill() {
    let mut order = Order::new(1, Side::Buy, OrderType::Limit, 10_000, 100);

    // Partial Fill
    let filled = order.fill(30);
    assert_eq!(filled, 30);
    assert_eq!(order.get_remaining_quantity(), 70);
    assert_eq!(order.get_status(), OrderStatus::PartiallyFilled);

    // Complete fill
    let filled = order.fill(70);
    assert_eq!(filled, 70);
    assert_eq!(order.get_remaining_quantity(), 0);
    assert_eq!(order.get_status(), OrderStatus::Filled);

    // Try to fill already filled order
    let filled = order.fill(10);
    assert_eq!(filled, 0);
}

#[test]
fn test_order_cancel() {
    let mut order = Order::new(1, Side::Buy, OrderType::Limit, 10000, 100);

    // Cancel active order
    assert!(order.cancel());
    assert_eq!(order.get_status(), OrderStatus::Cancelled);

    // Try to cancel again
    assert!(!order.cancel());
}

#[test]
fn a_fill_is_no_larger_than_what_is_left() {
    let mut order = Order::new_at(9, Side::Sell, OrderType::Limit, 5, 10, 77);
    assert_eq!(order.timestamp, 77);
    assert_eq!(order.fill(4), 4);
    assert_eq!(order.fill(100), 6);
    assert_eq!(order.get_status(), OrderStatus::Filled);
    assert_eq!(order.original_quantity, 10);
}

#[test]
fn a_fill_of_nothing_still_marks_the_order() {
    let mut order = Order::new_at(9, Side::Sell, OrderType::Limit, 5, 10, 0);
    assert_eq!(order.fill(0), 0);
    assert_eq!(order.get_remaining_quantity(), 10);
    assert_eq!(order.get_status(), OrderStatus::PartiallyFilled);
}

#[test]
fn activity_follows_the_status() {
    let mut order = Order::new_at(1, Side::Bid, OrderType::Limit, 5, 10, 0);
    assert!(order.is_active());
    order.fill(3);
    assert!(order.is_active());
    // A partly filled order can be cancelled.
    assert!(order.cancel());
    assert!(!order.is_active());

    let mut filled = Order::new_at(2, Side::Bid, OrderType::Limit, 5, 10, 0);
    filled.fill(10);
    assert!(!filled.is_active());
    assert!(!filled.cancel());
    assert_eq!(filled.get_status(), OrderStatus::Filled);
}

#[test]
fn fills_add_up() {
    let mut twice = Order::new_at(1, Side::Bid, OrderType::Limit, 5, 10, 0);
    let mut once = twice;
    let filled = twice.fill(3) + twice.fill(4);
    assert_eq!(filled, once.fill(7));
    assert_eq!(twice, once);
}

#[test]
fn status_from_its_byte() {
    assert_eq!(OrderStatus::from(0), OrderStatus::Active);
    assert_eq!(OrderStatus::from(1), OrderStatus::PartiallyFilled);
    assert_eq!(OrderStatus::from(2), OrderStatus::Filled);
    assert_eq!(OrderStatus::from(3), OrderStatus::Cancelled);
    assert_eq!(OrderStatus::from(4), OrderStatus::Active);
    assert_eq!(OrderStatus::from(255), OrderStatus::Active);
}

#[test]
fn sides_mirror_each_other() {
    assert_eq!(Side::Buy, Side::Bid);
    assert_eq!(Side::Sell, Side::Ask);
    assert_eq!(Side::Bid.opposite(), Side::Ask);
    assert_eq!(Side::Ask.opposite(), Side::Bid);
    assert!(Side::Bid.reaches(10, 10) && Side::Bid.reaches(10, 9) && !Side::Bid.reaches(10, 11));
    assert!(Side::Ask.reaches(10, 10) && Side::Ask.reaches(10, 11) && !Side::Ask.reaches(10, 9));
}

#[test]
fn the_clock_counts_from_the_epoch() {
    let now = std::time::SystemTime::now()
        .duration_since(std::time::UNIX_EPOCH)
        .unwrap();
    let millis = now_millis();
    let before = now.as_millis() as u64;
    assert!(before <= millis && millis < before + 60_000);
    let nanos = now_nanos();
    let before = now.as_nanos() as u64;
    assert!(before <= nanos && nanos < before + 60_000_000_000);

    // Orders are stamped in nanoseconds.
    let order = Order::new(1, Side::Bid, OrderType::Limit, 5, 10);
    assert!(nanos <= order.timestamp && order.timestamp < nanos + 60_000_000_000);
}

#[test]
fn a_time_stamp_keeps_the_low_bits() {
    assert_eq!(time_stamp(Some(1234)), 1234);
    assert_eq!(time_stamp(Some((1u128 << 64) + 7)), 7);
    assert_eq!(time_stamp(None), 0);
}

#[test]
fn a_moment_is_stamped_in_its_unit() {
    assert_eq!(millis_stamp(Some((1, 999_999_999))), 1_999);
    assert_eq!(nanos_stamp(Some((1, 999_999_999))), 1_999_999_999);
    assert_eq!(millis_stamp(Some((0, 999_999))), 0);
    assert_eq!(millis_stamp(None), 0);
    assert_eq!(nanos_stamp(None), 0);
    // What does not fit is cut off, as it is from a duration.
    for (seconds, nanos) in [(1_700_000_000, 123_456_789), (u64::MAX, 987_654_321)] {
        let elapsed = std::time::Duration::new(seconds, nanos);
        assert_eq!(millis_stamp(Some((seconds, nanos))), elapsed.as_millis() as u64);
        assert_eq!(nanos_stamp(Some((seconds, nanos))), elapsed.as_nanos() as u64);
    }
}
