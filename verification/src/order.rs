//! Orders and the events that create, change and delete them.

use vstd::prelude::*;

verus! {

/// Which half of the market an order rests on: `Buy` orders form the bid
/// side of the book, `Sell` orders the ask side.
#[derive(Clone, Copy, PartialEq, Eq, Structural, Debug)]
pub enum OrderType {
    Buy,
    Sell,
}

/// One resting order.
///
/// `price` and `size` are fixed-point integers: counts of the feed's
/// smallest price and size increments. `sequence` is the arrival counter
/// the book stamps on the order when it is inserted; within a price level,
/// orders are kept in strictly increasing `sequence` order.
#[derive(Clone, Copy, PartialEq, Eq, Structural, Debug)]
pub struct Order {
    pub id: u64,
    pub order_type: OrderType,
    pub price: u64,
    pub size: u64,
    pub sequence: u64,
}

/// What a decoded exchange event says about one order: its exchange-assigned
/// identity, side, price and size at event time. For a deletion the size is
/// informational only; the order is located by side, price and identity.
#[derive(Clone, Copy, PartialEq, Eq, Structural, Debug)]
pub struct OrderInfo {
    pub id: u64,
    pub order_type: OrderType,
    pub price: u64,
    pub size: u64,
}

/// A decoded book event. `Changed` carries the order's full new size, not a
/// delta. `Irrelevant` stands for any feed message that asks no book work of
/// the engine (a trade notification, a subscription acknowledgement):
/// applying it must succeed and leave the book unchanged.
#[derive(Clone, Copy, PartialEq, Eq, Structural, Debug)]
pub enum BookEvent {
    Created(OrderInfo),
    Changed(OrderInfo),
    Deleted(OrderInfo),
    Irrelevant,
}

/// The resting order that an event's `OrderInfo` becomes once the book
/// stamps it with an arrival counter.
pub open spec fn stamped(info: OrderInfo, sequence: u64) -> Order {
    Order {
        id: info.id,
        order_type: info.order_type,
        price: info.price,
        size: info.size,
        sequence,
    }
}

} // verus!
