use std::collections::VecDeque;

use matchbox::book::OrderBook;
use matchbox::matcher::match_order;
use matchbox::models::{Order, Side};

fn order(id: u64, side: Side, price: u64, qty: u64) -> Order {
    Order {
        id,
        side,
        price,
        qty,
        timestamp: id,
    }
}

#[test]
fn new_book_is_empty() {
    let book = OrderBook::new();
    assert!(!book.has_bids());
    assert!(!book.has_asks());
    assert_eq!(book.best_bid(), None);
    assert_eq!(book.best_ask(), None);
    let snap = book.snapshot(20);
    assert!(snap.bids.is_empty() && snap.asks.is_empty());
    assert_eq!(snap.sequence, 0);
    let default_book = OrderBook::default();
    assert!(!default_book.has_bids() && !default_book.has_asks());
    assert_eq!(default_book.sequence, 0);
}

#[test]
fn best_prices_are_extremes_of_each_side() {
    let mut book = OrderBook::new();
    book.add_resting_order(order(1, Side::Buy, 90, 1));
    book.add_resting_order(order(2, Side::Buy, 95, 1));
    book.add_resting_order(order(3, Side::Buy, 80, 1));
    book.add_resting_order(order(4, Side::Sell, 120, 1));
    book.add_resting_order(order(5, Side::Sell, 110, 1));
    book.add_resting_order(order(6, Side::Sell, 130, 1));
    assert_eq!(book.best_bid(), Some(95));
    assert_eq!(book.best_ask(), Some(110));
    assert!(book.has_bids());
    assert!(book.has_asks());
}

#[test]
fn snapshot_lists_best_levels_first_with_totals() {
    let mut book = OrderBook::new();
    book.add_resting_order(order(1, Side::Buy, 48, 10));
    book.add_resting_order(order(2, Side::Buy, 50, 20));
    book.add_resting_order(order(3, Side::Buy, 50, 10));
    book.add_resting_order(order(4, Side::Sell, 55, 20));
    book.add_resting_order(order(5, Side::Sell, 52, 15));
    let snap = book.snapshot(20);
    let bids: Vec<(u64, u64)> = snap.bids.iter().map(|l| (l.price, l.qty)).collect();
    let asks: Vec<(u64, u64)> = snap.asks.iter().map(|l| (l.price, l.qty)).collect();
    assert_eq!(bids, vec![(50, 30), (48, 10)]);
    assert_eq!(asks, vec![(52, 15), (55, 20)]);
}

#[test]
fn snapshot_depth_limits_levels() {
    let mut book = OrderBook::new();
    for i in 0..5u64 {
        book.add_resting_order(order(i, Side::Buy, 10 + i, 1));
        book.add_resting_order(order(100 + i, Side::Sell, 50 + i, 2));
    }
    let snap = book.snapshot(2);
    let bids: Vec<u64> = snap.bids.iter().map(|l| l.price).collect();
    let asks: Vec<u64> = snap.asks.iter().map(|l| l.price).collect();
    assert_eq!(bids, vec![14, 13]);
    assert_eq!(asks, vec![50, 51]);
    assert!(book.snapshot(0).bids.is_empty());
    assert_eq!(book.snapshot(100).asks.len(), 5);
}

#[test]
fn try_snapshot_refuses_overflowing_level() {
    let mut book = OrderBook::new();
    book.add_resting_order(order(1, Side::Sell, 60, u64::MAX));
    book.add_resting_order(order(2, Side::Sell, 60, 1));
    book.add_resting_order(order(3, Side::Sell, 50, 7));
    assert!(book.try_snapshot(2).is_none());
    // The overflowing level is beyond depth 1, so the snapshot can be taken.
    let snap = book.try_snapshot(1).unwrap();
    assert_eq!(snap.asks.len(), 1);
    assert_eq!((snap.asks[0].price, snap.asks[0].qty), (50, 7));
}

#[test]
fn try_snapshot_matches_snapshot() {
    let mut book = OrderBook::new();
    match_order(order(1, Side::Sell, 100, 10), &mut book);
    match_order(order(2, Side::Buy, 90, 3), &mut book);
    let a = book.snapshot(20);
    let b = book.try_snapshot(20).unwrap();
    assert_eq!(a.sequence, 2);
    assert_eq!(b.sequence, 2);
    assert_eq!(a.bids.len(), b.bids.len());
    assert_eq!((b.bids[0].price, b.bids[0].qty), (90, 3));
    assert_eq!((b.asks[0].price, b.asks[0].qty), (100, 10));
}

#[test]
fn mutable_side_access_reaches_the_book() {
    let mut book = OrderBook::new();
    book.add_resting_order(order(1, Side::Buy, 90, 1));
    let mut q = VecDeque::new();
    q.push_back(order(2, Side::Buy, 99, 3));
    book.bids_mut().insert(99, q);
    assert_eq!(book.best_bid(), Some(99));
    book.asks_mut().clear();
    assert!(!book.has_asks());
    book.remove_from_index(2);
    assert_eq!(book.best_bid(), Some(99));
}
