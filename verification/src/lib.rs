//! A verified limit-order-book maintenance engine.
//!
//! The library keeps a price-ordered, order-aggregated view of one market's
//! book consistent under a stream of create/change/delete events, resolves
//! orders that cross the opposite side of the book, and produces
//! depth-limited summaries (best bids and asks plus the spread) for
//! periodic republication.
//!
//! Prices and sizes are fixed-point integers: counts of the feed's smallest
//! price and size increments. Decoding exchange messages into [`order::BookEvent`]
//! values, the network transport, and the periodic scheduling of summaries
//! are the surrounding application's job; the book itself is synchronous,
//! and one `OrderBook` is meant to be shared between a single writer that
//! calls [`book::OrderBook::apply`] and a reader that calls
//! [`book::OrderBook::snapshot`], under mutual exclusion.

pub mod book;
pub mod laws;
pub mod level;
pub mod order;
pub mod summary;
