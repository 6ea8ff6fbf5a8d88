use matchbox::book::OrderBook;
use matchbox::matcher::{match_order, match_order_at};
use matchbox::models::{Order, Side};

fn make_order(id: u64, side: Side, price: u64, qty: u64) -> Order {
    Order {
        id,
        side,
        price,
        qty,
        timestamp: id * 1000,
    }
}

#[test]
fn test_no_match_rests_on_book() {
    let mut book = OrderBook::new();
    let sell = make_order(1, Side::Sell, 100, 10);
    let fills = match_order(sell, &mut book);
    assert!(fills.is_empty(), "No match possible — no bids");
    assert_eq!(book.best_ask(), Some(100));
}

#[test]
fn test_full_match() {
    let mut book = OrderBook::new();
    match_order(make_order(1, Side::Sell, 100, 10), &mut book);
    let fills = match_order(make_order(2, Side::Buy, 100, 10), &mut book);
    assert_eq!(fills.len(), 1);
    assert_eq!(fills[0].qty, 10);
    assert_eq!(fills[0].price, 100);
    assert_eq!(fills[0].maker_order_id, 1);
    assert_eq!(fills[0].taker_order_id, 2);
    assert!(book.best_ask().is_none());
    assert!(book.best_bid().is_none());
}

#[test]
fn test_partial_fill_incoming_larger() {
    let mut book = OrderBook::new();
    match_order(make_order(1, Side::Sell, 100, 30), &mut book);
    let fills = match_order(make_order(2, Side::Buy, 100, 50), &mut book);
    assert_eq!(fills.len(), 1);
    assert_eq!(fills[0].qty, 30); // Only 30 available
                                  // Remaining 20 from buy order rests on bids
    assert_eq!(book.best_bid(), Some(100));
    assert!(book.best_ask().is_none());
}

#[test]
fn test_partial_fill_resting_larger() {
    let mut book = OrderBook::new();
    match_order(make_order(1, Side::Sell, 100, 50), &mut book);
    let fills = match_order(make_order(2, Side::Buy, 100, 20), &mut book);
    assert_eq!(fills.len(), 1);
    assert_eq!(fills[0].qty, 20);
    // Resting sell still has 30 remaining
    assert_eq!(book.best_ask(), Some(100));
    assert!(book.best_bid().is_none());
}

#[test]
fn test_price_priority() {
    let mut book = OrderBook::new();
    // Three sells at different prices
    match_order(make_order(1, Side::Sell, 110, 10), &mut book);
    match_order(make_order(2, Side::Sell, 100, 10), &mut book);
    match_order(make_order(3, Side::Sell, 105, 10), &mut book);

    // Buy at 110 — should match 100 first, then 105
    let fills = match_order(make_order(4, Side::Buy, 110, 20), &mut book);
    assert_eq!(fills.len(), 2);
    assert_eq!(fills[0].price, 100); // Price priority: lowest ask first
    assert_eq!(fills[1].price, 105);
}

#[test]
fn test_time_priority() {
    let mut book = OrderBook::new();
    // Two sells at same price — order 1 first
    match_order(make_order(1, Side::Sell, 100, 10), &mut book);
    match_order(make_order(2, Side::Sell, 100, 10), &mut book);

    let fills = match_order(make_order(3, Side::Buy, 100, 10), &mut book);
    assert_eq!(fills.len(), 1);
    assert_eq!(fills[0].maker_order_id, 1); // Time priority: earlier order filled first
}

#[test]
fn test_fills_sum_to_matched_qty() {
    let mut book = OrderBook::new();
    // Three sells: 30 + 40 + 50 = 120 total
    match_order(make_order(1, Side::Sell, 490, 10), &mut book);
    match_order(make_order(2, Side::Sell, 500, 10), &mut book);
    match_order(make_order(3, Side::Sell, 510, 10), &mut book);

    // Buy 25 at price 510
    let fills = match_order(make_order(4, Side::Buy, 510, 25), &mut book);
    let total_filled: u64 = fills.iter().map(|f| f.qty).sum();
    assert_eq!(total_filled, 25);
    assert_eq!(fills.len(), 3);
    assert_eq!(fills[0].qty, 10); // 490 level fully consumed
    assert_eq!(fills[1].qty, 10); // 500 level fully consumed
    assert_eq!(fills[2].qty, 5); // 510 level partially consumed
}

#[test]
fn test_no_match_price_too_low() {
    let mut book = OrderBook::new();
    match_order(make_order(1, Side::Sell, 100, 10), &mut book);
    // Buy at 90 — below the ask of 100
    let fills = match_order(make_order(2, Side::Buy, 90, 10), &mut book);
    assert!(fills.is_empty());
    // Both orders should rest
    assert_eq!(book.best_ask(), Some(100));
    assert_eq!(book.best_bid(), Some(90));
}

#[test]
fn test_sell_matches_highest_bid_first() {
    let mut book = OrderBook::new();
    match_order(make_order(1, Side::Buy, 90, 10), &mut book);
    match_order(make_order(2, Side::Buy, 100, 10), &mut book);
    match_order(make_order(3, Side::Buy, 95, 10), &mut book);

    // Sell at 90 — should match 100 first (highest bid), then 95
    let fills = match_order(make_order(4, Side::Sell, 90, 20), &mut book);
    assert_eq!(fills.len(), 2);
    assert_eq!(fills[0].price, 100); // Highest bid first
    assert_eq!(fills[1].price, 95);
}

#[test]
fn match_at_time_stamps_every_fill_with_that_time() {
    let mut book = OrderBook::new();
    match_order_at(make_order(1, Side::Sell, 100, 5), &mut book, 7);
    match_order_at(make_order(2, Side::Sell, 101, 5), &mut book, 8);
    let fills = match_order_at(make_order(3, Side::Buy, 101, 10), &mut book, 42);
    assert_eq!(fills.len(), 2);
    assert!(fills.iter().all(|f| f.timestamp == 42 && f.taker_order_id == 3));
    assert_eq!(book.sequence, 3);
}

#[test]
fn match_order_stamps_fills_with_the_clock() {
    let mut book = OrderBook::new();
    match_order(make_order(1, Side::Sell, 100, 5), &mut book);
    let fills = match_order(make_order(2, Side::Buy, 100, 5), &mut book);
    assert_eq!(fills.len(), 1);
    // A clock reading after 2020-01-01, in nanoseconds.
    assert!(fills[0].timestamp > 1_577_836_800_000_000_000);
}

#[test]
fn sequence_counts_every_processed_order() {
    let mut book = OrderBook::new();
    assert_eq!(book.sequence, 0);
    match_order(make_order(1, Side::Sell, 100, 5), &mut book);
    match_order(make_order(2, Side::Buy, 90, 5), &mut book);
    match_order(make_order(3, Side::Buy, 100, 5), &mut book);
    assert_eq!(book.sequence, 3);
}

#[test]
fn zero_quantity_order_neither_trades_nor_rests() {
    let mut book = OrderBook::new();
    match_order(make_order(1, Side::Sell, 100, 5), &mut book);
    let fills = match_order(make_order(2, Side::Buy, 100, 0), &mut book);
    assert!(fills.is_empty());
    assert!(!book.has_bids());
    assert_eq!(book.snapshot(20).asks[0].qty, 5);
    assert_eq!(book.sequence, 2);
}

#[test]
fn buyer_gets_maker_prices_and_remainder_rests() {
    // Sweep across three ask levels, then rest the remainder on the bid side.
    let mut book = OrderBook::new();
    match_order(make_order(1, Side::Sell, 490, 10), &mut book);
    match_order(make_order(2, Side::Sell, 500, 10), &mut book);
    match_order(make_order(3, Side::Sell, 510, 10), &mut book);
    let fills = match_order(make_order(4, Side::Buy, 505, 25), &mut book);
    assert_eq!(fills.len(), 2);
    assert_eq!((fills[0].price, fills[0].qty, fills[0].maker_order_id), (490, 10, 1));
    assert_eq!((fills[1].price, fills[1].qty, fills[1].maker_order_id), (500, 10, 2));
    let snap = book.snapshot(20);
    assert_eq!(snap.bids.len(), 1);
    assert_eq!((snap.bids[0].price, snap.bids[0].qty), (505, 5));
    assert_eq!(snap.asks.len(), 1);
    assert_eq!((snap.asks[0].price, snap.asks[0].qty), (510, 10));
    // The book is not crossed.
    assert!(book.best_bid().unwrap() < book.best_ask().unwrap());
}

#[test]
fn partly_filled_maker_keeps_its_place() {
    let mut book = OrderBook::new();
    match_order(make_order(1, Side::Buy, 100, 30), &mut book);
    match_order(make_order(2, Side::Buy, 100, 10), &mut book);
    let fills = match_order(make_order(3, Side::Sell, 100, 20), &mut book);
    assert_eq!(fills.len(), 1);
    assert_eq!((fills[0].maker_order_id, fills[0].qty), (1, 20));
    // Order 1 (10 left) is still ahead of order 2.
    let fills = match_order(make_order(4, Side::Sell, 100, 15), &mut book);
    assert_eq!(fills.len(), 2);
    assert_eq!((fills[0].maker_order_id, fills[0].qty), (1, 10));
    assert_eq!((fills[1].maker_order_id, fills[1].qty), (2, 5));
    assert_eq!(book.snapshot(20).bids[0].qty, 5);
}

#[test]
fn resting_zero_quantity_maker_yields_empty_fill() {
    let mut book = OrderBook::new();
    book.add_resting_order(make_order(1, Side::Sell, 100, 0));
    book.add_resting_order(make_order(2, Side::Sell, 100, 4));
    let fills = match_order(make_order(3, Side::Buy, 100, 4), &mut book);
    assert_eq!(fills.len(), 2);
    assert_eq!((fills[0].maker_order_id, fills[0].qty), (1, 0));
    assert_eq!((fills[1].maker_order_id, fills[1].qty), (2, 4));
    assert!(!book.has_asks());
}

#[test]
fn resting_quantity_drops_by_filled_quantity() {
    let mut book = OrderBook::new();
    match_order(make_order(1, Side::Buy, 100, 7), &mut book);
    match_order(make_order(2, Side::Buy, 99, 8), &mut book);
    match_order(make_order(3, Side::Buy, 98, 9), &mut book);
    let before: u64 = book.snapshot(20).bids.iter().map(|l| l.qty).sum();
    let fills = match_order(make_order(4, Side::Sell, 99, 12), &mut book);
    let filled: u64 = fills.iter().map(|f| f.qty).sum();
    let after: u64 = book.snapshot(20).bids.iter().map(|l| l.qty).sum();
    assert_eq!(filled, 12);
    assert_eq!(before, 24);
    assert_eq!(after + filled, before);
    assert!(!book.has_asks());
}

#[test]
fn unfilled_buyer_leaves_no_ask_within_its_limit() {
    let mut book = OrderBook::new();
    match_order(make_order(1, Side::Sell, 490, 10), &mut book);
    match_order(make_order(2, Side::Sell, 500, 10), &mut book);
    match_order(make_order(3, Side::Sell, 510, 10), &mut book);
    let fills = match_order(make_order(4, Side::Buy, 505, 100), &mut book);
    let filled: u64 = fills.iter().map(|f| f.qty).sum();
    assert_eq!(filled, 20);
    assert!(book.best_ask().unwrap() > 505);
    assert_eq!(book.best_bid(), Some(505));
}

#[test]
fn seller_leaves_bids_below_its_limit_alone() {
    let mut book = OrderBook::new();
    match_order(make_order(1, Side::Buy, 100, 5), &mut book);
    match_order(make_order(2, Side::Buy, 90, 7), &mut book);
    let fills = match_order(make_order(3, Side::Sell, 95, 20), &mut book);
    assert_eq!(fills.len(), 1);
    assert_eq!((fills[0].maker_order_id, fills[0].qty, fills[0].price), (1, 5, 100));
    let snap = book.snapshot(20);
    assert_eq!(snap.bids.len(), 1);
    assert_eq!((snap.bids[0].price, snap.bids[0].qty), (90, 7));
    assert_eq!(snap.asks.len(), 1);
    assert_eq!((snap.asks[0].price, snap.asks[0].qty), (95, 15));
    assert_eq!(book.sequence, 3);
}

#[test]
fn own_side_grows_by_the_unfilled_part() {
    let mut book = OrderBook::new();
    match_order(make_order(1, Side::Buy, 95, 4), &mut book);
    match_order(make_order(2, Side::Sell, 100, 6), &mut book);
    let before: u64 = book.snapshot(20).bids.iter().map(|l| l.qty).sum();
    let fills = match_order(make_order(3, Side::Buy, 100, 9), &mut book);
    let filled: u64 = fills.iter().map(|f| f.qty).sum();
    let after: u64 = book.snapshot(20).bids.iter().map(|l| l.qty).sum();
    assert_eq!(filled, 6);
    assert_eq!(after, before + (9 - filled));
    assert_eq!(after, 7);
}

#[test]
fn fills_never_outnumber_crossing_makers() {
    let mut book = OrderBook::new();
    match_order(make_order(1, Side::Sell, 100, 1), &mut book);
    match_order(make_order(2, Side::Sell, 100, 1), &mut book);
    match_order(make_order(3, Side::Sell, 101, 1), &mut book);
    match_order(make_order(4, Side::Sell, 150, 1), &mut book);
    let fills = match_order(make_order(5, Side::Buy, 120, 1000), &mut book);
    assert_eq!(fills.len(), 3);
    assert_eq!(book.best_ask(), Some(150));
}

#[test]
fn fills_follow_the_priority_queue_in_closed_form() {
    // Crossing makers in priority order: (100, 4), (100, 3), (101, 6); the taker wants 10.
    let mut book = OrderBook::new();
    match_order(make_order(1, Side::Sell, 100, 4), &mut book);
    match_order(make_order(2, Side::Sell, 100, 3), &mut book);
    match_order(make_order(3, Side::Sell, 101, 6), &mut book);
    let fills = match_order(make_order(4, Side::Buy, 101, 10), &mut book);
    assert_eq!(fills.len(), 3);
    assert_eq!((fills[0].maker_order_id, fills[0].price, fills[0].qty), (1, 100, 4));
    assert_eq!((fills[1].maker_order_id, fills[1].price, fills[1].qty), (2, 100, 3));
    // min(6, 10 - 7) = 3
    assert_eq!((fills[2].maker_order_id, fills[2].price, fills[2].qty), (3, 101, 3));
}

#[test]
fn last_maker_keeps_the_rest_of_its_quantity() {
    let mut book = OrderBook::new();
    match_order(make_order(1, Side::Sell, 100, 5), &mut book);
    match_order(make_order(2, Side::Sell, 100, 5), &mut book);
    match_order(make_order(3, Side::Sell, 101, 5), &mut book);
    let fills = match_order(make_order(4, Side::Buy, 101, 12), &mut book);
    assert_eq!(fills.len(), 3);
    let snap = book.snapshot(20);
    assert_eq!(snap.asks.len(), 1);
    assert_eq!((snap.asks[0].price, snap.asks[0].qty), (101, 3));
    let fills = match_order(make_order(5, Side::Buy, 101, 3), &mut book);
    assert_eq!(fills.len(), 1);
    assert_eq!((fills[0].maker_order_id, fills[0].qty), (3, 3));
    assert!(!book.has_asks());
}
