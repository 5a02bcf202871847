//! Tests for the depth-limited summary read path.

use orderbook::book::OrderBook;
use orderbook::order::{BookEvent, OrderInfo, OrderType};
use orderbook::summary::OrderbookService;

fn info(id: u64, order_type: OrderType, price: u64, size: u64) -> OrderInfo {
    OrderInfo { id, order_type, price, size }
}

#[test]
fn snapshot_reports_spread_and_top_levels() {
    let mut book = OrderBook::new();
    book.apply(BookEvent::Created(info(1, OrderType::Buy, 100, 2)));
    book.apply(BookEvent::Created(info(2, OrderType::Buy, 99, 1)));
    book.apply(BookEvent::Created(info(3, OrderType::Sell, 101, 1)));
    let s = book.snapshot(1);
    assert_eq!(s.spread, 1);
    assert_eq!(s.bids.len(), 1);
    assert_eq!(s.bids[0].price, 100);
    assert_eq!(s.bids[0].size, 2);
    assert_eq!(s.asks.len(), 1);
    assert_eq!(s.asks[0].price, 101);
    assert_eq!(s.asks[0].size, 1);
}

#[test]
fn snapshot_of_empty_book_has_zero_spread() {
    let book = OrderBook::new();
    let s = book.snapshot(5);
    assert_eq!(s.spread, 0);
    assert!(s.bids.is_empty());
    assert!(s.asks.is_empty());
}

#[test]
fn snapshot_one_sided_market_has_zero_spread() {
    let mut book = OrderBook::new();
    book.apply(BookEvent::Created(info(1, OrderType::Buy, 100, 2)));
    let s = book.snapshot(5);
    assert_eq!(s.spread, 0);
    assert_eq!(s.bids.len(), 1);
    assert!(s.asks.is_empty());
}

#[test]
fn snapshot_depth_zero_is_empty() {
    let mut book = OrderBook::new();
    book.apply(BookEvent::Created(info(1, OrderType::Buy, 100, 2)));
    book.apply(BookEvent::Created(info(2, OrderType::Sell, 104, 2)));
    let s = book.snapshot(0);
    assert_eq!(s.spread, 4);
    assert!(s.bids.is_empty());
    assert!(s.asks.is_empty());
}

#[test]
fn book_summary_caps_each_side_at_ten_levels() {
    let mut book = OrderBook::new();
    for k in 0..12u64 {
        book.apply(BookEvent::Created(info(k + 1, OrderType::Buy, 50 + k, 1)));
        book.apply(BookEvent::Created(info(100 + k, OrderType::Sell, 200 + k, 1)));
    }
    assert_eq!(book.bids.len(), 12);
    assert_eq!(book.asks.len(), 12);
    let service = OrderbookService;
    let s = service.book_summary(&book);
    assert_eq!(s.bids.len(), 10);
    assert_eq!(s.asks.len(), 10);
    // best first: the highest bids and the lowest asks
    assert_eq!(s.bids[0].price, 61);
    assert_eq!(s.bids[9].price, 52);
    assert_eq!(s.asks[0].price, 200);
    assert_eq!(s.asks[9].price, 209);
    assert_eq!(s.spread, 139);
}
