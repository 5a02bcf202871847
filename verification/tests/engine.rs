//! Scenario tests for the order-book update engine.

use orderbook::book::OrderBook;
use orderbook::order::{BookEvent, OrderInfo, OrderType};

fn info(id: u64, order_type: OrderType, price: u64, size: u64) -> OrderInfo {
    OrderInfo { id, order_type, price, size }
}

#[test]
fn created_on_empty_book() {
    let mut book = OrderBook::new();
    book.apply(BookEvent::Created(info(1, OrderType::Buy, 100, 1)));
    assert_eq!(book.bids.len(), 1);
    assert_eq!(book.bids[0].price, 100);
    assert_eq!(book.bids[0].size, 1);
    assert_eq!(book.bids[0].orders.len(), 1);
    assert_eq!(book.bids[0].orders[0].id, 1);
    assert_eq!(book.asks.len(), 0);
}

#[test]
fn created_merges_into_existing_level() {
    let mut book = OrderBook::new();
    book.apply(BookEvent::Created(info(1, OrderType::Buy, 100, 1)));
    book.apply(BookEvent::Created(info(2, OrderType::Buy, 100, 2)));
    assert_eq!(book.bids.len(), 1);
    assert_eq!(book.bids[0].price, 100);
    assert_eq!(book.bids[0].size, 3);
    assert_eq!(book.bids[0].orders.len(), 2);
    assert_eq!(book.bids[0].orders[0].id, 1);
    assert_eq!(book.bids[0].orders[1].id, 2);
}

#[test]
fn deleted_removes_emptied_level() {
    let mut book = OrderBook::new();
    book.apply(BookEvent::Created(info(1, OrderType::Buy, 100, 1)));
    book.apply(BookEvent::Deleted(info(1, OrderType::Buy, 100, 1)));
    assert_eq!(book.bids.len(), 0);
    assert_eq!(book.asks.len(), 0);
}

#[test]
fn created_buy_consumes_crossed_ask_level() {
    let mut book = OrderBook::new();
    book.apply(BookEvent::Created(info(5, OrderType::Sell, 101, 1)));
    book.apply(BookEvent::Created(info(6, OrderType::Buy, 102, 1)));
    assert_eq!(book.asks.len(), 0);
    assert_eq!(book.bids.len(), 1);
    assert_eq!(book.bids[0].price, 102);
    assert_eq!(book.bids[0].size, 1);
    assert_eq!(book.bids[0].orders[0].id, 6);
}

#[test]
fn created_sell_consumes_crossed_bid_levels() {
    let mut book = OrderBook::new();
    book.apply(BookEvent::Created(info(1, OrderType::Buy, 100, 1)));
    book.apply(BookEvent::Created(info(2, OrderType::Buy, 99, 2)));
    book.apply(BookEvent::Created(info(3, OrderType::Buy, 98, 3)));
    book.apply(BookEvent::Created(info(4, OrderType::Sell, 99, 1)));
    // every bid priced at or above 99 is consumed, whole levels at a time
    assert_eq!(book.bids.len(), 1);
    assert_eq!(book.bids[0].price, 98);
    assert_eq!(book.asks.len(), 1);
    assert_eq!(book.asks[0].price, 99);
}

#[test]
fn bids_descend_asks_ascend() {
    let mut book = OrderBook::new();
    book.apply(BookEvent::Created(info(1, OrderType::Buy, 98, 1)));
    book.apply(BookEvent::Created(info(2, OrderType::Buy, 100, 1)));
    book.apply(BookEvent::Created(info(3, OrderType::Buy, 99, 1)));
    book.apply(BookEvent::Created(info(4, OrderType::Sell, 103, 1)));
    book.apply(BookEvent::Created(info(5, OrderType::Sell, 101, 1)));
    book.apply(BookEvent::Created(info(6, OrderType::Sell, 102, 1)));
    assert_eq!(book.bids.len(), 3);
    assert!(book.bids[0].price > book.bids[1].price);
    assert!(book.bids[1].price > book.bids[2].price);
    assert_eq!(book.bids[0].price, 100);
    assert_eq!(book.asks.len(), 3);
    assert!(book.asks[0].price < book.asks[1].price);
    assert!(book.asks[1].price < book.asks[2].price);
    assert_eq!(book.asks[0].price, 101);
}

#[test]
fn level_totals_equal_sum_of_order_sizes() {
    let mut book = OrderBook::new();
    book.apply(BookEvent::Created(info(1, OrderType::Buy, 100, 4)));
    book.apply(BookEvent::Created(info(2, OrderType::Buy, 100, 6)));
    book.apply(BookEvent::Created(info(3, OrderType::Buy, 99, 2)));
    book.apply(BookEvent::Created(info(4, OrderType::Sell, 105, 7)));
    book.apply(BookEvent::Deleted(info(1, OrderType::Buy, 100, 4)));
    for level in book.bids.iter().chain(book.asks.iter()) {
        let total: u64 = level.orders.iter().map(|o| o.size).sum();
        assert_eq!(level.size, total);
        assert!(!level.orders.is_empty());
        for o in level.orders.iter() {
            assert_eq!(o.price, level.price);
        }
    }
    assert_eq!(book.bids[0].size, 6);
}

#[test]
fn deleted_unknown_order_is_noop() {
    let mut book = OrderBook::new();
    book.apply(BookEvent::Created(info(1, OrderType::Buy, 100, 1)));
    book.apply(BookEvent::Created(info(2, OrderType::Sell, 105, 3)));
    // unknown identity at a known price, unknown price, and wrong side
    book.apply(BookEvent::Deleted(info(9, OrderType::Buy, 100, 1)));
    book.apply(BookEvent::Deleted(info(1, OrderType::Buy, 97, 1)));
    book.apply(BookEvent::Deleted(info(1, OrderType::Sell, 100, 1)));
    assert_eq!(book.bids.len(), 1);
    assert_eq!(book.bids[0].price, 100);
    assert_eq!(book.bids[0].size, 1);
    assert_eq!(book.bids[0].orders.len(), 1);
    assert_eq!(book.asks.len(), 1);
    assert_eq!(book.asks[0].size, 3);
}

#[test]
fn deleted_subtracts_resting_size_not_event_size() {
    let mut book = OrderBook::new();
    book.apply(BookEvent::Created(info(1, OrderType::Buy, 100, 5)));
    book.apply(BookEvent::Created(info(2, OrderType::Buy, 100, 7)));
    // the deletion's size field is informational only
    book.apply(BookEvent::Deleted(info(1, OrderType::Buy, 100, 999)));
    assert_eq!(book.bids.len(), 1);
    assert_eq!(book.bids[0].size, 7);
    assert_eq!(book.bids[0].orders.len(), 1);
    assert_eq!(book.bids[0].orders[0].id, 2);
}

#[test]
fn changed_replaces_size_in_place() {
    let mut book = OrderBook::new();
    book.apply(BookEvent::Created(info(1, OrderType::Buy, 100, 5)));
    book.apply(BookEvent::Created(info(2, OrderType::Buy, 100, 3)));
    // the change carries the new absolute size, not a delta
    book.apply(BookEvent::Changed(info(1, OrderType::Buy, 100, 9)));
    assert_eq!(book.bids.len(), 1);
    assert_eq!(book.bids[0].size, 12);
    assert_eq!(book.bids[0].orders.len(), 2);
    // the replaced order moves to the back of the arrival order
    assert_eq!(book.bids[0].orders[0].id, 2);
    assert_eq!(book.bids[0].orders[1].id, 1);
    assert_eq!(book.bids[0].orders[1].size, 9);
}

#[test]
fn changed_at_fresh_price_inserts_level_and_resolves_crossing() {
    let mut book = OrderBook::new();
    book.apply(BookEvent::Created(info(5, OrderType::Sell, 101, 1)));
    // a change at a price not previously present inserts a new level and
    // re-runs crossing resolution for it
    book.apply(BookEvent::Changed(info(6, OrderType::Buy, 102, 1)));
    assert_eq!(book.asks.len(), 0);
    assert_eq!(book.bids.len(), 1);
    assert_eq!(book.bids[0].price, 102);
}

#[test]
fn irrelevant_event_leaves_book_unchanged() {
    let mut book = OrderBook::new();
    book.apply(BookEvent::Created(info(1, OrderType::Buy, 100, 1)));
    book.apply(BookEvent::Irrelevant);
    assert_eq!(book.bids.len(), 1);
    assert_eq!(book.bids[0].price, 100);
    assert_eq!(book.bids[0].size, 1);
    assert_eq!(book.asks.len(), 0);
}

#[test]
fn oversized_merge_is_absorbed() {
    let mut book = OrderBook::new();
    book.apply(BookEvent::Created(info(1, OrderType::Buy, 100, u64::MAX)));
    // merging 5 more units into the level would pass u64::MAX: absorbed
    book.apply(BookEvent::Created(info(2, OrderType::Buy, 100, 5)));
    assert_eq!(book.bids.len(), 1);
    assert_eq!(book.bids[0].size, u64::MAX);
    assert_eq!(book.bids[0].orders.len(), 1);
    // a level at another price still fits
    book.apply(BookEvent::Created(info(3, OrderType::Buy, 99, 5)));
    assert_eq!(book.bids.len(), 2);
    assert_eq!(book.bids[1].price, 99);
}

#[test]
fn find_level_reports_match_or_insertion_point() {
    let mut book = OrderBook::new();
    book.apply(BookEvent::Created(info(1, OrderType::Buy, 100, 1)));
    book.apply(BookEvent::Created(info(2, OrderType::Buy, 98, 1)));
    assert_eq!(book.find_level(OrderType::Buy, 100), 0);
    assert_eq!(book.find_level(OrderType::Buy, 99), 1);
    assert_eq!(book.find_level(OrderType::Buy, 98), 1);
    assert_eq!(book.find_level(OrderType::Buy, 97), 2);
    assert_eq!(book.find_level(OrderType::Buy, 101), 0);
    assert_eq!(book.find_level(OrderType::Sell, 100), 0);
}

#[test]
fn upsert_remove_replace_primitives() {
    let mut book = OrderBook::new();
    book.upsert_order(info(1, OrderType::Sell, 105, 4));
    book.upsert_order(info(2, OrderType::Sell, 105, 6));
    assert_eq!(book.asks.len(), 1);
    assert_eq!(book.asks[0].size, 10);
    book.replace_order(info(1, OrderType::Sell, 105, 1));
    assert_eq!(book.asks[0].size, 7);
    book.remove_order(info(2, OrderType::Sell, 105, 6));
    book.remove_order(info(1, OrderType::Sell, 105, 1));
    assert_eq!(book.asks.len(), 0);
}
