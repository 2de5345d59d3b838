//! The exchange book, through its public interface.

use crossbeam_channel::{bounded, unbounded, Receiver};
use once_cell::sync::Lazy;
use orderbook::events::Trade;
use orderbook::exchange::tape::Fill;
use orderbook::exchange::OrderBook;
use orderbook::types::{OrderBookError, OrderId, Price, Quantity, Side};
use rand::rngs::StdRng;
use rand::{Rng, SeedableRng};
use std::time::Instant;

static SEED: Lazy<u64> = Lazy::new(|| 0xDEADBEEFCAFEBABE);

fn build_orderbook() -> (OrderBook, Receiver<Trade>) {
    let (tx, rx) = unbounded();
    let ob = OrderBook::new(tx);
    (ob, rx)
}

fn drain_trades(rx: &Receiver<Trade>) -> Vec<Trade> {
    let mut trades = vec![];
    while let Ok(t) = rx.try_recv() {
        trades.push(t);
    }
    trades
}

/// Who took what from whom, at which price.
fn fills(rx: &Receiver<Trade>) -> Vec<(OrderId, OrderId, Price, Quantity)> {
    drain_trades(rx)
        .iter()
        .map(|t| (t.taker_order_id, t.maker_order_id, t.price, t.quantity))
        .collect()
}

fn push_limit_orders(
    ob: &mut OrderBook,
    side: Side,
    price: u64,
    qty: u64,
    n: usize,
) -> Vec<OrderId> {
    let mut ids = Vec::with_capacity(n);
    for _ in 0..n {
        let id = ob.submit_limit_order(side, price, qty).expect("submit limit");
        ids.push(id);
    }
    ids
}

#[test]
fn limit_buy_matches_limit_sell_at_price_and_quantity() {
    let (mut ob, rx) = build_orderbook();

    // Seller posts 100 @ 10
    let sell = ob.submit_limit_order(Side::Sell, 10, 100).unwrap();
    // Buyer posts 50 @ 12 (aggressive) should match with seller at 10
    let _buy = ob.submit_limit_order(Side::Buy, 12, 50).unwrap();

    let trades = drain_trades(&rx);
    assert_eq!(trades.len(), 1, "expected single trade");
    let t = &trades[0];
    assert_eq!(t.quantity, 50);
    assert_eq!(t.price, 10);

    // Sell should have 50 left
    let rem = ob.cancel_order(sell).expect("cancel returns remaining");
    assert_eq!(rem, 50);
}

#[test]
fn market_order_consumes_best_prices_and_returns_filled_amount() {
    let (mut ob, rx) = build_orderbook();

    // Two sell levels
    ob.submit_limit_order(Side::Sell, 11, 30).unwrap();
    ob.submit_limit_order(Side::Sell, 12, 40).unwrap();

    let (_id, filled) = ob.submit_market_order(Side::Buy, 50).unwrap();
    assert_eq!(filled, 50);

    let trades = drain_trades(&rx);
    let total: u64 = trades.iter().map(|t| t.quantity).sum();
    assert_eq!(total, 50);
    // Best price first should be 11 for 30, then 12 for 20
    assert_eq!(trades[0].price, 11);
    assert_eq!(trades[1].price, 12);
}

#[test]
fn sample_test() {
    let (mut order_book, _) = build_orderbook();

    if order_book.submit_limit_order(Side::Sell, 11, 30).is_ok() {
        println!("Limit Sell order created!");
    }

    if order_book.submit_limit_order(Side::Sell, 12, 30).is_ok() {
        println!("Limit Sell order created!");
    }

    if order_book.submit_limit_order(Side::Buy, 11, 23).is_ok() {
        println!("Limit Buy order created!");
    }

    if order_book.submit_limit_order(Side::Buy, 12, 35).is_ok() {
        println!("Limit Buy order created!");
    }
}

#[test]
fn reject_invalid_limit_orders() {
    let (mut ob, _rx) = build_orderbook();
    assert!(ob.submit_limit_order(Side::Buy, 0, 10).is_err());
    assert!(ob.submit_limit_order(Side::Sell, 10, 0).is_err());
}

#[test]
fn market_order_with_no_liquidity_returns_zero_fill() {
    let (mut ob, _rx) = build_orderbook();
    let (_id, filled) = ob.submit_market_order(Side::Buy, 10).unwrap();
    assert_eq!(filled, 0);
}

#[test]
fn fifo_within_price_level_preserved() {
    let (mut ob, rx) = build_orderbook();

    // Create 3 sellers at same price with qty 10 each
    let ids = push_limit_orders(&mut ob, Side::Sell, 20, 10, 3);

    // Buy market order for 25 should consume first 3 in FIFO and leave 5 on third
    let (_id, filled) = ob.submit_market_order(Side::Buy, 25).unwrap();
    assert_eq!(filled, 25);

    let trades = drain_trades(&rx);
    assert_eq!(trades.len(), 3);
    assert_eq!(trades[0].maker_order_id, ids[0]);
    assert_eq!(trades[1].maker_order_id, ids[1]);
    assert_eq!(trades[2].maker_order_id, ids[2]);
}

#[test]
fn price_time_priority_buy_prefers_highest_price_then_time() {
    let (mut ob, rx) = build_orderbook();

    // Two buy limit orders at different prices
    let _buy1 = ob.submit_limit_order(Side::Buy, 10, 10).unwrap(); // lower price
    let buy2 = ob.submit_limit_order(Side::Buy, 12, 10).unwrap(); // higher price => better

    // Seller market for 10 should hit buy2 first
    let (_id, _filled) = ob.submit_market_order(Side::Sell, 10).unwrap();
    let trades = drain_trades(&rx);
    assert_eq!(trades.len(), 1);
    assert_eq!(trades[0].maker_order_id, buy2);
}

#[test]
fn cancel_removes_order_and_returns_remaining_quantity() {
    let (mut ob, _rx) = build_orderbook();
    let id = ob.submit_limit_order(Side::Buy, 50, 42).unwrap();
    let rem = ob.cancel_order(id).expect("should cancel");
    assert_eq!(rem, 42);
    assert!(ob.cancel_order(id).is_err(), "double-cancel should error or not be found");
}

#[test]
fn crossing_limit_orders_create_trades_and_leave_remainders() {
    let (mut ob, rx) = build_orderbook();

    // Seller posts at 10, Buyer posts at 12 -> crossing should execute at maker price (10)
    let sell = ob.submit_limit_order(Side::Sell, 10, 100).unwrap();
    let _buy = ob.submit_limit_order(Side::Buy, 12, 60).unwrap();

    let trades = drain_trades(&rx);
    assert_eq!(trades.len(), 1);
    assert_eq!(trades[0].quantity, 60);
    assert_eq!(trades[0].price, 10);

    // Seller should have 40 left
    let left = ob.cancel_order(sell).unwrap();
    assert_eq!(left, 40);
}

#[test]
fn crossing_limit_orders_and_leave_remainders_2() {
    let (mut orderbook, rx) = build_orderbook();

    let _buy = orderbook.submit_limit_order(Side::Buy, 20, 100).unwrap();
    let _sell = orderbook.submit_limit_order(Side::Sell, 20, 120).unwrap();

    let (_market_order_id, market_order_qty) =
        orderbook.submit_market_order(Side::Buy, 30).unwrap();

    println!("Left over: {}", 30 - market_order_qty);
    let trades = drain_trades(&rx);
    println!("trades : {:?}", trades);
}

#[test]
fn throughput_smoke() {
    let (mut ob, _rx) = build_orderbook();

    let n = 500_000u64;
    let start = Instant::now();
    for i in 0..n {
        let _ = ob.submit_limit_order(Side::Buy, 100 + (i % 10), 1);
    }
    let elapsed = start.elapsed();
    // sanity: ensure it completes quickly in test environment
    assert!(elapsed.as_secs() < 5, "too slow: {:?}", elapsed);
}

#[test]
fn randomized_fuzz_like_sequence() {
    let (mut ob, rx) = build_orderbook();
    let mut rng = StdRng::seed_from_u64(*SEED);

    let mut placed = Vec::new();

    for _ in 0..1000 {
        let side = if rng.gen_bool(0.5) { Side::Buy } else { Side::Sell };
        if rng.gen_bool(0.7) {
            let price = rng.gen_range(1..200);
            let qty = rng.gen_range(1..10);
            let id = ob.submit_limit_order(side, price, qty).unwrap();
            placed.push(id);
        } else {
            let qty = rng.gen_range(1..20);
            let _ = ob.submit_market_order(side, qty).unwrap();
        }
        // occasionally cancel a random order
        if !placed.is_empty() && rng.gen_bool(0.02) {
            let idx = rng.gen_range(0..placed.len());
            let id = placed.remove(idx);
            let _ = ob.cancel_order(id);
        }
    }

    // Basic invariant checks
    for t in drain_trades(&rx) {
        assert!(t.quantity > 0);
    }
}

#[test]
fn invariant_hold_after_random_opts() {
    let (mut ob, rx) = build_orderbook();

    // Random limit orders
    ob.submit_limit_order(Side::Buy, 100, 10).unwrap();
    ob.submit_limit_order(Side::Sell, 200, 20).unwrap();

    let tb = ob.total_bid_quantity();
    let ta = ob.total_ask_quantity();

    // Verify orders are in the book
    assert!(tb > 0);
    assert!(ta > 0);

    // Spread should be positive (ask > bid)
    let spread_val = ob.spread().unwrap();
    assert!(spread_val > 0);

    // Verify no trades occurred since orders don't cross
    let trades = drain_trades(&rx);
    assert_eq!(trades.len(), 0, "Orders at 100 and 200 don't cross, so no trades expected");
}

#[test]
fn trades_emitted_match_expected_shape_and_timestamps() {
    let (mut ob, rx) = build_orderbook();

    let sell = ob.submit_limit_order(Side::Sell, 42, 5).unwrap();
    let _ = ob.submit_market_order(Side::Buy, 5).unwrap();

    let trades = drain_trades(&rx);
    assert_eq!(trades.len(), 1);
    let t = &trades[0];
    assert_eq!(t.maker_order_id, sell);
    assert!(t.timestamp > 0);
}

#[test]
fn deterministic_sequence_reproducibility() {
    let (mut ob1, _rx1) = build_orderbook();
    let (mut ob2, _rx2) = build_orderbook();

    let mut rng1 = StdRng::seed_from_u64(*SEED);
    let mut rng2 = StdRng::seed_from_u64(*SEED);

    for _ in 0..200 {
        let price = rng1.gen_range(1..200);
        let qty = rng1.gen_range(1..150);
        ob1.submit_limit_order(Side::Buy, price, qty).unwrap();

        let price2 = rng2.gen_range(1..200);
        let qty2 = rng2.gen_range(1..150);
        ob2.submit_limit_order(Side::Buy, price2, qty2).unwrap();
    }

    assert_eq!(ob1.total_quantity(), ob2.total_quantity());
}

#[test]
fn a_new_book_is_empty() {
    let (ob, _rx) = build_orderbook();
    assert_eq!(ob.best_bid(), None);
    assert_eq!(ob.best_ask(), None);
    assert_eq!(ob.spread(), None);
    assert_eq!(ob.total_bid_quantity(), 0);
    assert_eq!(ob.total_ask_quantity(), 0);
    assert_eq!(ob.total_quantity(), 0);
}

#[test]
fn each_refusal_says_why() {
    let (mut ob, rx) = build_orderbook();
    assert_eq!(
        ob.submit_limit_order(Side::Buy, 0, 10),
        Err(OrderBookError::InvalidPrice(0))
    );
    assert_eq!(
        ob.submit_limit_order(Side::Buy, 0, 0),
        Err(OrderBookError::InvalidPrice(0))
    );
    assert_eq!(
        ob.submit_limit_order(Side::Sell, 10, 0),
        Err(OrderBookError::InvalidQuantity(0))
    );
    assert_eq!(
        ob.submit_market_order(Side::Sell, 0),
        Err(OrderBookError::InvalidQuantity(0))
    );
    assert_eq!(ob.cancel_order(1), Err(OrderBookError::OrderNotFound(1)));

    // A refused request uses up no id.
    assert_eq!(ob.submit_limit_order(Side::Sell, 10, 5), Ok(1));

    // A filled order cannot be cancelled, and stays so.
    assert_eq!(ob.submit_limit_order(Side::Buy, 10, 5), Ok(2));
    assert_eq!(ob.cancel_order(1), Err(OrderBookError::AlreadyCancelled(1)));
    assert_eq!(ob.cancel_order(1), Err(OrderBookError::AlreadyCancelled(1)));
    // One that never rested is not known.
    assert_eq!(ob.cancel_order(2), Err(OrderBookError::OrderNotFound(2)));
    assert_eq!(fills(&rx), vec![(2, 1, 10, 5)]);
}

#[test]
fn a_cancelled_order_is_not_found_again() {
    let (mut ob, rx) = build_orderbook();
    let id = ob.submit_limit_order(Side::Sell, 10, 5).unwrap();
    assert_eq!(ob.cancel_order(id), Ok(5));
    assert_eq!(ob.cancel_order(id), Err(OrderBookError::OrderNotFound(id)));
    // Nobody trades with it any more.
    assert_eq!(ob.submit_market_order(Side::Buy, 5), Ok((2, 0)));
    assert_eq!(ob.total_quantity(), 0);
    assert_eq!(fills(&rx), vec![]);
}

#[test]
fn cancelling_the_middle_of_a_queue_keeps_the_others_in_order() {
    let (mut ob, rx) = build_orderbook();
    let ids = push_limit_orders(&mut ob, Side::Buy, 7, 4, 3);
    assert_eq!(ob.cancel_order(ids[1]), Ok(4));
    assert_eq!(ob.total_bid_quantity(), 8);
    assert_eq!(ob.submit_market_order(Side::Sell, 100), Ok((4, 8)));
    assert_eq!(fills(&rx), vec![(4, 1, 7, 4), (4, 3, 7, 4)]);
}

#[test]
fn best_prices_and_spread() {
    let (mut ob, _rx) = build_orderbook();
    ob.submit_limit_order(Side::Buy, 90, 1).unwrap();
    assert_eq!(ob.spread(), None);
    ob.submit_limit_order(Side::Buy, 95, 2).unwrap();
    ob.submit_limit_order(Side::Buy, 80, 3).unwrap();
    ob.submit_limit_order(Side::Sell, 110, 4).unwrap();
    ob.submit_limit_order(Side::Sell, 105, 5).unwrap();
    ob.submit_limit_order(Side::Sell, 120, 6).unwrap();
    assert_eq!(ob.best_bid(), Some(95));
    assert_eq!(ob.best_ask(), Some(105));
    assert_eq!(ob.spread(), Some(10));
    assert_eq!(ob.total_bid_quantity(), 6);
    assert_eq!(ob.total_ask_quantity(), 15);
    assert_eq!(ob.total_quantity(), 21);
}

#[test]
fn a_limit_order_sweeps_the_prices_it_accepts_and_rests() {
    let (mut ob, rx) = build_orderbook();
    ob.submit_limit_order(Side::Sell, 12, 10).unwrap();
    ob.submit_limit_order(Side::Sell, 10, 10).unwrap();
    ob.submit_limit_order(Side::Sell, 11, 10).unwrap();
    ob.submit_limit_order(Side::Sell, 13, 10).unwrap();
    let id = ob.submit_limit_order(Side::Buy, 12, 35).unwrap();
    assert_eq!(
        fills(&rx),
        vec![(id, 2, 10, 10), (id, 3, 11, 10), (id, 1, 12, 10)]
    );
    // The emptied levels are gone, and the rest of the order is the best bid.
    assert_eq!(ob.best_ask(), Some(13));
    assert_eq!(ob.best_bid(), Some(12));
    assert_eq!(ob.total_bid_quantity(), 5);
    assert_eq!(ob.cancel_order(id), Ok(5));
}

#[test]
fn a_sell_order_takes_the_highest_bids_first() {
    let (mut ob, rx) = build_orderbook();
    ob.submit_limit_order(Side::Buy, 10, 1).unwrap();
    ob.submit_limit_order(Side::Buy, 30, 1).unwrap();
    ob.submit_limit_order(Side::Buy, 20, 1).unwrap();
    assert_eq!(ob.submit_limit_order(Side::Sell, 20, 5), Ok(4));
    assert_eq!(fills(&rx), vec![(4, 2, 30, 1), (4, 3, 20, 1)]);
    assert_eq!(ob.best_bid(), Some(10));
    assert_eq!(ob.best_ask(), Some(20));
    assert_eq!(ob.total_ask_quantity(), 3);
}

#[test]
fn a_partly_filled_order_keeps_its_place() {
    let (mut ob, rx) = build_orderbook();
    ob.submit_limit_order(Side::Sell, 10, 5).unwrap();
    ob.submit_limit_order(Side::Sell, 10, 5).unwrap();
    ob.submit_market_order(Side::Buy, 3).unwrap();
    ob.submit_market_order(Side::Buy, 3).unwrap();
    assert_eq!(fills(&rx), vec![(3, 1, 10, 3), (4, 1, 10, 2), (4, 2, 10, 1)]);
    assert_eq!(ob.total_ask_quantity(), 4);
    assert_eq!(ob.cancel_order(2), Ok(4));
}

#[test]
fn what_a_market_order_leaves_is_dropped() {
    let (mut ob, rx) = build_orderbook();
    ob.submit_limit_order(Side::Sell, 10, 5).unwrap();
    assert_eq!(ob.submit_market_order(Side::Buy, 8), Ok((2, 5)));
    assert_eq!(fills(&rx), vec![(2, 1, 10, 5)]);
    assert_eq!(ob.best_bid(), None);
    assert_eq!(ob.total_quantity(), 0);
    assert_eq!(ob.cancel_order(2), Err(OrderBookError::OrderNotFound(2)));
}

#[test]
fn a_level_that_is_emptied_is_gone() {
    let (mut ob, rx) = build_orderbook();
    // By a market order.
    assert_eq!(ob.submit_limit_order(Side::Sell, 11, 30), Ok(1));
    assert_eq!(ob.submit_market_order(Side::Buy, 30), Ok((2, 30)));
    assert_eq!(ob.best_ask(), None);
    assert_eq!(ob.total_ask_quantity(), 0);
    // By a cancellation.
    assert_eq!(ob.submit_limit_order(Side::Sell, 12, 5), Ok(3));
    assert_eq!(ob.submit_limit_order(Side::Buy, 10, 5), Ok(4));
    assert_eq!(ob.submit_limit_order(Side::Buy, 9, 5), Ok(5));
    assert_eq!(ob.spread(), Some(2));
    assert_eq!(ob.cancel_order(4), Ok(5));
    assert_eq!(ob.best_bid(), Some(9));
    assert_eq!(ob.spread(), Some(3));
    assert_eq!(ob.cancel_order(5), Ok(5));
    assert_eq!(ob.best_bid(), None);
    assert_eq!(ob.spread(), None);
    // By a limit order.
    assert_eq!(ob.submit_limit_order(Side::Buy, 12, 5), Ok(6));
    assert_eq!(ob.best_ask(), None);
    assert_eq!(fills(&rx), vec![(2, 1, 11, 30), (6, 3, 12, 5)]);
}

#[test]
fn a_level_is_left_while_something_rests_on_it() {
    let (mut ob, _rx) = build_orderbook();
    ob.submit_limit_order(Side::Sell, 11, 30).unwrap();
    ob.submit_limit_order(Side::Sell, 11, 5).unwrap();
    ob.submit_market_order(Side::Buy, 30).unwrap();
    assert_eq!(ob.best_ask(), Some(11));
    ob.submit_limit_order(Side::Sell, 11, 7).unwrap();
    assert_eq!(ob.cancel_order(2), Ok(5));
    assert_eq!(ob.best_ask(), Some(11));
    assert_eq!(ob.total_ask_quantity(), 7);
}

#[test]
fn a_book_takes_only_a_channel_without_a_bound() {
    let (tx, _rx) = bounded(3);
    assert!(OrderBook::try_new(tx).is_none());
    let (tx, _rx) = bounded(0);
    assert!(OrderBook::try_new(tx).is_none());
    let (tx, rx) = unbounded();
    let mut ob = OrderBook::try_new(tx).unwrap();
    ob.submit_limit_order(Side::Sell, 10, 5).unwrap();
    ob.submit_limit_order(Side::Buy, 10, 5).unwrap();
    assert_eq!(fills(&rx), vec![(2, 1, 10, 5)]);
}

#[test]
fn trades_bear_the_time_of_the_order() {
    let (mut ob, rx) = build_orderbook();
    ob.submit_limit_order_at(Side::Sell, 42, 5, 1_000_000).unwrap();
    ob.submit_market_order_at(Side::Buy, 2, 7_999_999).unwrap();
    ob.submit_limit_order_at(Side::Buy, 42, 3, 9_000_000).unwrap();
    let stamps: Vec<u64> = drain_trades(&rx).iter().map(|t| t.timestamp).collect();
    assert_eq!(stamps, vec![7, 9]);
}

#[test]
fn a_fill_becomes_a_trade_at_a_reading() {
    let fill = Fill {
        taker_order_id: 2,
        maker_order_id: 1,
        price: 42,
        quantity: 5,
    };
    let trade = fill.at(17);
    assert_eq!(trade.taker_order_id, 2);
    assert_eq!(trade.maker_order_id, 1);
    assert_eq!(trade.price, 42);
    assert_eq!(trade.quantity, 5);
    assert_eq!(trade.timestamp, 17);
}

#[test]
fn trades_of_the_wall_clock_are_stamped_in_milliseconds() {
    let (mut ob, rx) = build_orderbook();
    let before = orderbook::clock::now_millis();
    ob.submit_limit_order(Side::Sell, 42, 5).unwrap();
    ob.submit_market_order(Side::Buy, 5).unwrap();
    let after = orderbook::clock::now_millis();
    let trades = drain_trades(&rx);
    assert_eq!(trades.len(), 1);
    assert!(before <= trades[0].timestamp && trades[0].timestamp <= after);
}

#[test]
fn ids_count_up() {
    let (mut ob, _rx) = build_orderbook();
    assert_eq!(ob.submit_limit_order(Side::Buy, 5, 1), Ok(1));
    assert!(ob.submit_limit_order(Side::Buy, 0, 1).is_err());
    assert_eq!(ob.submit_market_order(Side::Sell, 3), Ok((2, 1)));
    assert!(ob.cancel_order(1).is_err());
    assert!(ob.submit_market_order(Side::Sell, 0).is_err());
    assert_eq!(ob.submit_limit_order(Side::Sell, 5, 1), Ok(3));
}

#[test]
fn a_cancelled_order_leaves_no_trace() {
    let (mut plain, plain_rx) = build_orderbook();
    let (mut other, other_rx) = build_orderbook();
    for ob in [&mut plain, &mut other] {
        ob.submit_limit_order(Side::Buy, 9, 4).unwrap();
        ob.submit_limit_order(Side::Sell, 12, 4).unwrap();
    }
    let id = other.submit_limit_order(Side::Buy, 10, 6).unwrap();
    assert_eq!(other.cancel_order(id), Ok(6));
    assert_eq!(plain.total_bid_quantity(), other.total_bid_quantity());
    assert_eq!(plain.best_bid(), other.best_bid());
    for ob in [&mut plain, &mut other] {
        ob.submit_limit_order(Side::Sell, 10, 2).unwrap();
        ob.submit_market_order(Side::Buy, 3).unwrap();
        ob.submit_limit_order(Side::Sell, 9, 5).unwrap();
    }
    let expected: Vec<_> = fills(&plain_rx)
        .into_iter()
        .map(|(taker, maker, price, quantity)| {
            let later = |n: OrderId| if n >= id { n + 1 } else { n };
            (later(taker), later(maker), price, quantity)
        })
        .collect();
    assert_eq!(fills(&other_rx), expected);
    assert_eq!(expected.len(), 3);
}

#[test]
fn what_a_cancel_is_answered_follows_from_the_history() {
    let (mut ob, _rx) = build_orderbook();
    ob.submit_limit_order(Side::Sell, 10, 5).unwrap(); // 1: to be filled
    ob.submit_limit_order(Side::Sell, 11, 5).unwrap(); // 2: to be filled in part
    ob.submit_limit_order(Side::Sell, 12, 5).unwrap(); // 3: to be cancelled
    ob.submit_limit_order(Side::Buy, 11, 7).unwrap(); // 4: filled on entry
    ob.submit_market_order(Side::Sell, 1).unwrap(); // 5: a market order
    ob.submit_limit_order(Side::Buy, 11, 5).unwrap(); // 6: filled in part on entry
    assert_eq!(ob.cancel_order(3), Ok(5));
    assert_eq!(ob.cancel_order(1), Err(OrderBookError::AlreadyCancelled(1)));
    assert_eq!(ob.cancel_order(2), Err(OrderBookError::AlreadyCancelled(2)));
    assert_eq!(ob.cancel_order(3), Err(OrderBookError::OrderNotFound(3)));
    assert_eq!(ob.cancel_order(4), Err(OrderBookError::OrderNotFound(4)));
    assert_eq!(ob.cancel_order(5), Err(OrderBookError::OrderNotFound(5)));
    assert_eq!(ob.cancel_order(6), Ok(2));
    assert_eq!(ob.cancel_order(7), Err(OrderBookError::OrderNotFound(7)));
    assert_eq!(ob.cancel_order(0), Err(OrderBookError::OrderNotFound(0)));
    assert_eq!(ob.total_quantity(), 0);
}

#[test]
fn cancels_are_reproducible() {
    let (mut ob1, rx1) = build_orderbook();
    let (mut ob2, rx2) = build_orderbook();
    let mut rng = StdRng::seed_from_u64(*SEED);
    for i in 0..500u64 {
        let side = if rng.gen_bool(0.5) { Side::Buy } else { Side::Sell };
        let price = rng.gen_range(95..105);
        let qty = rng.gen_range(1..9);
        let id = rng.gen_range(0..i + 2);
        assert_eq!(
            ob1.submit_limit_order_at(side, price, qty, i),
            ob2.submit_limit_order_at(side, price, qty, 9 * i)
        );
        assert_eq!(ob1.cancel_order(id), ob2.cancel_order(id));
        assert_eq!(ob1.total_quantity(), ob2.total_quantity());
    }
    assert_eq!(fills(&rx1), fills(&rx2));
}

#[test]
fn older_orders_of_a_price_come_first() {
    let (mut ob, rx) = build_orderbook();
    for price in [11, 10, 11, 10, 11] {
        ob.submit_limit_order(Side::Sell, price, 1).unwrap();
    }
    ob.submit_market_order(Side::Buy, 5).unwrap();
    let makers: Vec<OrderId> = fills(&rx).iter().map(|f| f.1).collect();
    assert_eq!(makers, vec![2, 4, 1, 3, 5]);
}

#[test]
fn time_stamps_decide_nothing() {
    let (mut ob1, rx1) = build_orderbook();
    let (mut ob2, rx2) = build_orderbook();
    for i in 0..20u64 {
        let side = if i % 3 == 0 { Side::Sell } else { Side::Buy };
        let price = 90 + (i * 7) % 20;
        assert_eq!(
            ob1.submit_limit_order_at(side, price, 1 + i % 4, i),
            ob2.submit_limit_order_at(side, price, 1 + i % 4, 1000 - i)
        );
        assert_eq!(
            ob1.submit_market_order_at(Side::Sell, 1, 3),
            ob2.submit_market_order_at(Side::Sell, 1, 4)
        );
        assert_eq!(ob1.total_quantity(), ob2.total_quantity());
        assert_eq!(ob1.best_bid(), ob2.best_bid());
        assert_eq!(ob1.best_ask(), ob2.best_ask());
    }
    let mine = fills(&rx1);
    assert!(!mine.is_empty());
    assert_eq!(mine, fills(&rx2));
}

#[test]
fn trades_and_totals_balance() {
    let (mut ob, rx) = build_orderbook();
    let mut rng = StdRng::seed_from_u64(*SEED);
    let mut submitted: u64 = 0;
    let mut dropped: u64 = 0;
    let mut cancelled: u64 = 0;
    for i in 0..2000u64 {
        let side = if rng.gen_bool(0.5) { Side::Buy } else { Side::Sell };
        let qty = rng.gen_range(1..20);
        submitted += qty;
        if rng.gen_bool(0.8) {
            ob.submit_limit_order(side, rng.gen_range(90..110), qty).unwrap();
        } else {
            let (_, filled) = ob.submit_market_order(side, qty).unwrap();
            dropped += qty - filled;
        }
        if let Ok(left) = ob.cancel_order(rng.gen_range(1..i + 2)) {
            cancelled += left;
        }
        if let (Some(bid), Some(ask)) = (ob.best_bid(), ob.best_ask()) {
            assert!(bid < ask);
        }
    }
    // Each trade uses up its quantity twice, once on either side.
    let traded: u64 = drain_trades(&rx).iter().map(|t| t.quantity).sum();
    assert!(traded > 0);
    assert_eq!(submitted, 2 * traded + dropped + cancelled + ob.total_quantity());
}

#[test]
fn a_book_nobody_listens_to_still_trades() {
    let (mut ob, rx) = build_orderbook();
    drop(rx);
    ob.submit_limit_order(Side::Sell, 10, 5).unwrap();
    assert_eq!(ob.submit_market_order(Side::Buy, 2), Ok((2, 2)));
    assert_eq!(ob.total_ask_quantity(), 3);
}

#[test]
fn totals_that_do_not_fit_are_told_apart() {
    let (mut ob, _rx) = build_orderbook();
    assert!(ob.has_ids_left());
    assert_eq!(ob.checked_total_quantity(), Some(0));
    ob.submit_limit_order(Side::Buy, 10, u64::MAX).unwrap();
    assert_eq!(ob.checked_total_bid_quantity(), Some(u64::MAX));
    assert_eq!(ob.total_bid_quantity(), u64::MAX);
    ob.submit_limit_order(Side::Sell, 20, 1).unwrap();
    assert_eq!(ob.checked_total_ask_quantity(), Some(1));
    assert_eq!(ob.checked_total_quantity(), None);
    ob.submit_limit_order(Side::Buy, 9, 1).unwrap();
    assert_eq!(ob.checked_total_bid_quantity(), None);
}

#[test]
fn the_total_of_one_price_wraps_around() {
    let (mut ob, _rx) = build_orderbook();
    ob.submit_limit_order(Side::Sell, 10, u64::MAX).unwrap();
    ob.submit_limit_order(Side::Sell, 10, 3).unwrap();
    assert_eq!(ob.total_ask_quantity(), 2);
    assert_eq!(ob.cancel_order(1), Ok(u64::MAX));
    assert_eq!(ob.total_ask_quantity(), 3);
}

#[test]
fn the_next_order_is_served_only_after_the_last() {
    let (mut ob, rx) = build_orderbook();
    for price in [11, 10, 11, 10, 12] {
        ob.submit_limit_order(Side::Sell, price, 4).unwrap();
    }
    assert_eq!(ob.submit_limit_order(Side::Buy, 12, 14), Ok(6));
    assert_eq!(
        fills(&rx),
        vec![(6, 2, 10, 4), (6, 4, 10, 4), (6, 1, 11, 4), (6, 3, 11, 2)]
    );
    // All but the last one are filled; what rests at 11 is no older.
    for id in [2, 4, 1] {
        assert_eq!(ob.cancel_order(id), Err(OrderBookError::AlreadyCancelled(id)));
    }
    assert_eq!(ob.cancel_order(3), Ok(2));
    assert_eq!(ob.cancel_order(5), Ok(4));
}
