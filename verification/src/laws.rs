//! The book's stated laws, proved once and for all over the functional
//! model that [`crate::book::OrderBook::apply`] is verified to follow.

use vstd::prelude::*;

use crate::book::{
    can_stamp, crossing_resolved, empty_book, find_pos, lemma_apply_wf, lemma_find_pos_char,
    lemma_sweep_clears, lemma_upsert_book_wf, level_exists, opposite, order_present, side_of,
    spec_apply, spec_sweep, spec_upsert_book, upsert_fits, wf_book, BookView,
};
use crate::level::{find_order_idx, lemma_find_order_idx_char};
use crate::order::{BookEvent, OrderInfo};

verus! {

/// The empty book that a fresh connection starts from satisfies the book
/// invariant.
pub proof fn lemma_empty_book_wf()
    ensures
        wf_book(empty_book()),
{
}

/// Invariant preservation: in every reachable state, each side's level
/// sequence is strictly sorted by its side's price ordering — so no two
/// levels share a price — no level is empty, and every level's aggregated
/// size equals the exact sum of its constituent orders' sizes. All of that
/// is `wf_book`; the empty book satisfies it and applying any one event
/// keeps it.
pub proof fn lemma_apply_preserves_wf_book(b: BookView, event: BookEvent)
    requires
        wf_book(b),
    ensures
        wf_book(spec_apply(b, event)),
{
    lemma_apply_wf(b, event);
}

/// Deleting an order the book does not hold is a no-op: when no level on
/// the event's side rests at the event's price holding the event's
/// identity, the book after `Deleted` is exactly the book before.
pub proof fn lemma_delete_unknown_is_noop(b: BookView, info: OrderInfo)
    requires
        wf_book(b),
        !order_present(side_of(b, info.order_type), info.price, info.id),
    ensures
        spec_apply(b, BookEvent::Deleted(info)) == b,
{
    let levels = side_of(b, info.order_type);
    lemma_find_pos_char(levels, info.order_type, info.price);
    if level_exists(levels, info.order_type, info.price) {
        let p = find_pos(levels, info.order_type, info.price);
        let l = levels[p];
        lemma_find_order_idx_char(l.orders, info.id);
        let j = find_order_idx(l.orders, info.id);
        if j < l.orders.len() {
            assert(levels[p].price == info.price && levels[p].orders[j].id == info.id);
            assert(order_present(levels, info.price, info.id));
        }
    }
}

/// Crossing resolution clears everything it reaches: after a `Created`
/// event whose order the book took (the arrival counter had room and the
/// level total fit), no opposite-side level priced within the new order's
/// reach remains — for a buy no ask at or below its price, for a sell no
/// bid at or above it. This covers in particular a buy priced at or above
/// the best ask, and needs no such premise.
pub proof fn lemma_created_clears_crossed_levels(b: BookView, info: OrderInfo)
    requires
        wf_book(b),
        can_stamp(b),
        upsert_fits(side_of(b, info.order_type), info.order_type, info.price, info.size),
    ensures
        crossing_resolved(spec_apply(b, BookEvent::Created(info)), info.order_type, info.price),
{
    let b1 = spec_upsert_book(b, info);
    let opp = opposite(info.order_type);
    lemma_upsert_book_wf(b, info);
    lemma_sweep_clears(side_of(b1, opp), info.order_type, info.price);
    assert(side_of(spec_apply(b, BookEvent::Created(info)), opp) == spec_sweep(
        side_of(b1, opp),
        info.order_type,
        info.price,
    ));
}

} // verus!

