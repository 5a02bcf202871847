//! The order book: two price-ordered sequences of levels plus the update
//! algorithm that keeps them consistent under a stream of book events.

use vstd::prelude::*;

use crate::level::{
    find_order_idx, level_seq_below, level_sum, lemma_find_order_idx_char,
    lemma_find_order_idx_unique, lemma_level_sum_push, lemma_level_sum_remove,
    lemma_level_sum_nonneg, lemma_order_size_le_sum, wf_level, LevelView, LimitPrice,
};
use crate::order::{stamped, BookEvent, Order, OrderInfo, OrderType};

verus! {

/// One market's book: bid levels in strictly descending price order (the
/// best bid first) and ask levels in strictly ascending price order (the
/// best ask first), plus the arrival counter stamped on the next inserted
/// order.
pub struct OrderBook {
    pub bids: Vec<LimitPrice>,
    pub asks: Vec<LimitPrice>,
    pub next_seq: u64,
}

/// The mathematical value of an [`OrderBook`].
pub ghost struct BookView {
    pub bids: Seq<LevelView>,
    pub asks: Seq<LevelView>,
    pub next_seq: u64,
}

pub open spec fn levels_view(s: Seq<LimitPrice>) -> Seq<LevelView> {
    s.map_values(|l: LimitPrice| l@)
}

impl View for OrderBook {
    type V = BookView;

    open spec fn view(&self) -> BookView {
        BookView {
            bids: levels_view(self.bids@),
            asks: levels_view(self.asks@),
            next_seq: self.next_seq,
        }
    }
}

pub open spec fn empty_book() -> BookView {
    BookView { bids: Seq::empty(), asks: Seq::empty(), next_seq: 0 }
}

/// A level at price `a` stands strictly nearer the front of `side`'s
/// sequence than one at price `b`: bids are kept in descending price order,
/// asks in ascending price order, so the best price is always first.
pub open spec fn price_before(side: OrderType, a: u64, b: u64) -> bool {
    match side {
        OrderType::Buy => a > b,
        OrderType::Sell => a < b,
    }
}

/// An incoming order on `inc_side` at `inc_price` crosses a resting level
/// at `level_price` on the opposite side: a buy reaches every ask priced at
/// or below it, a sell every bid priced at or above it.
pub open spec fn crosses(inc_side: OrderType, inc_price: u64, level_price: u64) -> bool {
    match inc_side {
        OrderType::Buy => level_price <= inc_price,
        OrderType::Sell => level_price >= inc_price,
    }
}

pub open spec fn opposite(side: OrderType) -> OrderType {
    match side {
        OrderType::Buy => OrderType::Sell,
        OrderType::Sell => OrderType::Buy,
    }
}

pub open spec fn side_of(b: BookView, side: OrderType) -> Seq<LevelView> {
    match side {
        OrderType::Buy => b.bids,
        OrderType::Sell => b.asks,
    }
}

pub open spec fn with_side(b: BookView, side: OrderType, levels: Seq<LevelView>) -> BookView {
    match side {
        OrderType::Buy => BookView { bids: levels, asks: b.asks, next_seq: b.next_seq },
        OrderType::Sell => BookView { bids: b.bids, asks: levels, next_seq: b.next_seq },
    }
}

pub open spec fn with_next_seq(b: BookView, next_seq: u64) -> BookView {
    BookView { bids: b.bids, asks: b.asks, next_seq }
}

/// One side's levels stand in strictly sorted order by the side's price
/// ordering; in particular no two levels share a price.
pub open spec fn sorted_side(levels: Seq<LevelView>, side: OrderType) -> bool {
    forall|i: int, j: int|
        #![trigger levels[i], levels[j]]
        0 <= i < j < levels.len() ==> price_before(side, levels[i].price, levels[j].price)
}

/// One side's levels are strictly sorted and each level is well formed.
pub open spec fn wf_side(levels: Seq<LevelView>, side: OrderType) -> bool {
    &&& sorted_side(levels, side)
    &&& forall|i: int| 0 <= i < levels.len() ==> wf_level(#[trigger] levels[i], side)
}

/// Every order on the side arrived before the given counter value.
pub open spec fn side_seq_below(levels: Seq<LevelView>, bound: u64) -> bool {
    forall|i: int| 0 <= i < levels.len() ==> level_seq_below(#[trigger] levels[i], bound)
}

/// The book's invariant: both sides well formed, and every resting order's
/// arrival counter below the one to be stamped next.
pub open spec fn wf_book(b: BookView) -> bool {
    &&& wf_side(b.bids, OrderType::Buy)
    &&& wf_side(b.asks, OrderType::Sell)
    &&& side_seq_below(b.bids, b.next_seq)
    &&& side_seq_below(b.asks, b.next_seq)
}

/// Insertion point for `price` on one side: the index of the first level
/// whose price does not stand strictly before `price`, or the length when
/// every level's does.
pub open spec fn find_pos(levels: Seq<LevelView>, side: OrderType, price: u64) -> int
    decreases levels.len(),
{
    if levels.len() == 0 {
        0
    } else if price_before(side, levels.first().price, price) {
        1 + find_pos(levels.drop_first(), side, price)
    } else {
        0
    }
}

/// A level rests at exactly `price` on the side.
pub open spec fn level_exists(levels: Seq<LevelView>, side: OrderType, price: u64) -> bool {
    let p = find_pos(levels, side, price);
    p < levels.len() && levels[p].price == price
}

/// `find_pos` points at the first level whose price does not stand strictly
/// before the probed price.
pub proof fn lemma_find_pos_char(levels: Seq<LevelView>, side: OrderType, price: u64)
    ensures
        0 <= find_pos(levels, side, price) <= levels.len(),
        find_pos(levels, side, price) < levels.len() ==> !price_before(
            side,
            levels[find_pos(levels, side, price)].price,
            price,
        ),
        forall|i: int|
            0 <= i < find_pos(levels, side, price) ==> price_before(
                side,
                (#[trigger] levels[i]).price,
                price,
            ),
    decreases levels.len(),
{
    if levels.len() == 0 {
    } else if price_before(side, levels.first().price, price) {
        lemma_find_pos_char(levels.drop_first(), side, price);
        assert(levels[0] == levels.first());
        assert forall|i: int|
            1 <= i < find_pos(levels, side, price) implies price_before(
            side,
            (#[trigger] levels[i]).price,
            price,
        ) by {
            assert(levels.drop_first()[i - 1] == levels[i]);
        }
    } else {
        assert(levels[0] == levels.first());
    }
}

/// Any index with the insertion-point characterization is `find_pos`.
pub proof fn lemma_find_pos_unique(levels: Seq<LevelView>, side: OrderType, price: u64, k: int)
    requires
        0 <= k <= levels.len(),
        forall|i: int|
            0 <= i < k ==> price_before(side, (#[trigger] levels[i]).price, price),
        k < levels.len() ==> !price_before(side, levels[k].price, price),
    ensures
        k == find_pos(levels, side, price),
    decreases levels.len(),
{
    if levels.len() == 0 {
    } else if price_before(side, levels.first().price, price) {
        assert(levels[0] == levels.first());
        assert forall|i: int|
            0 <= i < k - 1 implies price_before(
            side,
            (#[trigger] levels.drop_first()[i]).price,
            price,
        ) by {
            assert(levels.drop_first()[i] == levels[i + 1]);
        }
        assert(k - 1 < levels.drop_first().len() ==> !price_before(
            side,
            levels.drop_first()[k - 1].price,
            price,
        ));
        lemma_find_pos_unique(levels.drop_first(), side, price, k - 1);
    } else {
        assert(levels[0] == levels.first());
    }
}

/// The level holding one freshly stamped order.
pub open spec fn singleton_level(o: Order) -> LevelView {
    LevelView { price: o.price, size: o.size, orders: seq![o] }
}

/// A level with one more order merged into it.
pub open spec fn merged_level(l: LevelView, o: Order) -> LevelView {
    LevelView { price: l.price, size: (l.size + o.size) as u64, orders: l.orders.push(o) }
}

/// A level with the order at index `j` taken out.
pub open spec fn removed_order_level(l: LevelView, j: int) -> LevelView {
    LevelView {
        price: l.price,
        size: (l.size - l.orders[j].size) as u64,
        orders: l.orders.remove(j),
    }
}

/// Merging `size` more units into the side's level at `price`, if one
/// exists, stays within the representable total.
pub open spec fn upsert_fits(
    levels: Seq<LevelView>,
    side: OrderType,
    price: u64,
    size: u64,
) -> bool {
    level_exists(levels, side, price) ==> levels[find_pos(levels, side, price)].size + size
        <= u64::MAX
}

/// One side after merging or inserting a stamped order: appended to the
/// level at its price if one exists, otherwise a new single-order level at
/// the insertion point.
pub open spec fn spec_upsert(levels: Seq<LevelView>, side: OrderType, o: Order) -> Seq<
    LevelView,
> {
    let p = find_pos(levels, side, o.price);
    if level_exists(levels, side, o.price) {
        levels.update(p, merged_level(levels[p], o))
    } else {
        levels.insert(p, singleton_level(o))
    }
}

/// One side after removing the order with identity `id` from the level at
/// `price`: unchanged when no such level or no such order exists, the whole
/// level removed when the order was its only one.
pub open spec fn spec_remove(
    levels: Seq<LevelView>,
    side: OrderType,
    price: u64,
    id: u64,
) -> Seq<LevelView> {
    if level_exists(levels, side, price) {
        let p = find_pos(levels, side, price);
        let l = levels[p];
        let j = find_order_idx(l.orders, id);
        if j < l.orders.len() {
            if l.orders.len() == 1 {
                levels.remove(p)
            } else {
                levels.update(p, removed_order_level(l, j))
            }
        } else {
            levels
        }
    } else {
        levels
    }
}

/// The opposite side after an incoming order at `price` on `inc_side` has
/// consumed its crossed levels: levels are dropped from the front while
/// they cross, whole levels at a time.
pub open spec fn spec_sweep(
    levels: Seq<LevelView>,
    inc_side: OrderType,
    price: u64,
) -> Seq<LevelView>
    decreases levels.len(),
{
    if levels.len() > 0 && crosses(inc_side, price, levels.first().price) {
        spec_sweep(levels.drop_first(), inc_side, price)
    } else {
        levels
    }
}

/// The arrival counter has room for one more order.
pub open spec fn can_stamp(b: BookView) -> bool {
    b.next_seq < u64::MAX
}

/// The book after `upsert_order`: the event's order is stamped with the
/// arrival counter and merged into its side. An event whose order cannot be
/// stamped or whose size would push the level's total past `u64::MAX` is
/// absorbed: the book is left unchanged.
pub open spec fn spec_upsert_book(b: BookView, info: OrderInfo) -> BookView {
    if !can_stamp(b) {
        b
    } else {
        let side = info.order_type;
        let levels = side_of(b, side);
        if !upsert_fits(levels, side, info.price, info.size) {
            b
        } else {
            let o = stamped(info, b.next_seq);
            with_next_seq(with_side(b, side, spec_upsert(levels, side, o)), (b.next_seq + 1) as u64)
        }
    }
}

/// The book after `remove_order`: a no-op whenever the side has no level at
/// the event's price or that level holds no order with the event's
/// identity.
pub open spec fn spec_remove_book(b: BookView, info: OrderInfo) -> BookView {
    with_side(
        b,
        info.order_type,
        spec_remove(side_of(b, info.order_type), info.order_type, info.price, info.id),
    )
}

/// The book after `replace_order`: a removal followed by an upsert of the
/// same identity, carrying the order's new absolute size.
pub open spec fn spec_replace_book(b: BookView, info: OrderInfo) -> BookView {
    spec_upsert_book(spec_remove_book(b, info), info)
}

/// The book after crossing resolution for an incoming order on `inc_side`
/// at `price`.
pub open spec fn spec_sweep_book(b: BookView, inc_side: OrderType, price: u64) -> BookView {
    with_side(
        b,
        opposite(inc_side),
        spec_sweep(side_of(b, opposite(inc_side)), inc_side, price),
    )
}

/// The book after one event, `apply`'s sole mutation:
/// - `Created`: upsert, then resolve crossing on the opposite side.
/// - `Changed`: when a level already rests at the event's price, replace in
///   place with no crossing check; otherwise the replace inserts a fresh
///   level, the removal half being a no-op, and crossing is resolved.
/// - `Deleted`: remove; deletion of an order the book never observed is a
///   no-op.
/// - `Irrelevant`: absorbed with no effect.
pub open spec fn spec_apply(b: BookView, event: BookEvent) -> BookView {
    match event {
        BookEvent::Created(info) => {
            if !can_stamp(b) {
                b
            } else if !upsert_fits(side_of(b, info.order_type), info.order_type, info.price, info.size) {
                b
            } else {
                spec_sweep_book(spec_upsert_book(b, info), info.order_type, info.price)
            }
        },
        BookEvent::Changed(info) => {
            if !can_stamp(b) {
                b
            } else if level_exists(side_of(b, info.order_type), info.order_type, info.price) {
                spec_replace_book(b, info)
            } else {
                spec_sweep_book(spec_upsert_book(b, info), info.order_type, info.price)
            }
        },
        BookEvent::Deleted(info) => spec_remove_book(b, info),
        BookEvent::Irrelevant => b,
    }
}

pub proof fn lemma_bound_mono(levels: Seq<LevelView>, n: u64, m: u64)
    requires
        side_seq_below(levels, n),
        n <= m,
    ensures
        side_seq_below(levels, m),
{
    assert forall|i: int| 0 <= i < levels.len() implies level_seq_below(
        #[trigger] levels[i],
        m,
    ) by {
        assert(level_seq_below(levels[i], n));
    }
}

/// Upserting a freshly stamped order keeps the side well formed.
pub proof fn lemma_upsert_wf(levels: Seq<LevelView>, side: OrderType, o: Order, bound: u64)
    requires
        wf_side(levels, side),
        o.order_type == side,
        side_seq_below(levels, o.sequence),
        upsert_fits(levels, side, o.price, o.size),
        o.sequence < bound,
    ensures
        wf_side(spec_upsert(levels, side, o), side),
        side_seq_below(spec_upsert(levels, side, o), bound),
{
    lemma_find_pos_char(levels, side, o.price);
    let p = find_pos(levels, side, o.price);
    let result = spec_upsert(levels, side, o);
    if level_exists(levels, side, o.price) {
        let merged = merged_level(levels[p], o);
        lemma_level_sum_push(levels[p].orders, o);
        assert(wf_level(merged, side)) by {
            assert(level_seq_below(levels[p], o.sequence));
            assert(forall|k: int|
                0 <= k < levels[p].orders.len() ==> merged.orders[k] == levels[p].orders[k]);
            assert(merged.orders[levels[p].orders.len() as int] == o);
        }
        assert(level_seq_below(merged, bound)) by {
            assert(level_seq_below(levels[p], o.sequence));
            assert(forall|k: int|
                0 <= k < levels[p].orders.len() ==> merged.orders[k] == levels[p].orders[k]);
            assert(merged.orders[levels[p].orders.len() as int] == o);
        }
        assert(result =~= levels.update(p, merged));
        assert forall|i: int, j: int|
            #![trigger result[i], result[j]]
            0 <= i < j < result.len() implies price_before(
            side,
            result[i].price,
            result[j].price,
        ) by {
            assert(price_before(side, levels[i].price, levels[j].price));
        }
    } else {
        let single = singleton_level(o);
        assert(wf_level(single, side)) by {
            reveal_with_fuel(level_sum, 2);
            assert(single.orders[0] == o);
            assert(single.orders.drop_first() =~= Seq::<Order>::empty());
        }
        assert(level_seq_below(single, bound)) by {
            assert(single.orders[0] == o);
        }
        // Each level at or past the insertion point stands strictly after the
        // new price: it is not before it and, this being the miss branch, not
        // equal to it either.
        assert forall|k: int| p <= k < levels.len() implies price_before(
            side,
            o.price,
            (#[trigger] levels[k]).price,
        ) by {
            assert(!price_before(side, levels[p].price, o.price));
            assert(levels[p].price != o.price);
            if k > p {
                assert(price_before(side, levels[p].price, levels[k].price));
            }
        }
        assert forall|i: int, j: int|
            #![trigger result[i], result[j]]
            0 <= i < j < result.len() implies price_before(
            side,
            result[i].price,
            result[j].price,
        ) by {
            if i < p {
                assert(result[i] == levels[i]);
            } else if i == p {
                assert(result[i] == single);
            } else {
                assert(result[i] == levels[i - 1]);
            }
            if j < p {
                assert(result[j] == levels[j]);
            } else if j == p {
                assert(result[j] == single);
            } else {
                assert(result[j] == levels[j - 1]);
            }
        }
        assert forall|i: int| 0 <= i < result.len() implies wf_level(
            #[trigger] result[i],
            side,
        ) by {
            if i < p {
                assert(result[i] == levels[i]);
            } else if i == p {
                assert(result[i] == single);
            } else {
                assert(result[i] == levels[i - 1]);
            }
        }
        assert forall|i: int| 0 <= i < result.len() implies level_seq_below(
            #[trigger] result[i],
            bound,
        ) by {
            if i < p {
                assert(result[i] == levels[i]);
                assert(level_seq_below(levels[i], o.sequence));
            } else if i == p {
                assert(result[i] == single);
            } else {
                assert(result[i] == levels[i - 1]);
                assert(level_seq_below(levels[i - 1], o.sequence));
            }
        }
    }
}

/// Removing an order keeps the side well formed, and introduces no new
/// arrival counters.
pub proof fn lemma_remove_wf(
    levels: Seq<LevelView>,
    side: OrderType,
    price: u64,
    id: u64,
    bound: u64,
)
    requires
        wf_side(levels, side),
        side_seq_below(levels, bound),
    ensures
        wf_side(spec_remove(levels, side, price, id), side),
        side_seq_below(spec_remove(levels, side, price, id), bound),
{
    let result = spec_remove(levels, side, price, id);
    if level_exists(levels, side, price) {
        let p = find_pos(levels, side, price);
        lemma_find_pos_char(levels, side, price);
        let l = levels[p];
        let j = find_order_idx(l.orders, id);
        lemma_find_order_idx_char(l.orders, id);
        if j < l.orders.len() {
            if l.orders.len() == 1 {
                assert forall|a: int, b: int|
                    #![trigger result[a], result[b]]
                    0 <= a < b < result.len() implies price_before(
                    side,
                    result[a].price,
                    result[b].price,
                ) by {
                    let a0: int = if a < p { a } else { a + 1 };
                    let b0: int = if b < p { b } else { b + 1 };
                    assert(result[a] == levels[a0]);
                    assert(result[b] == levels[b0]);
                    assert(price_before(side, levels[a0].price, levels[b0].price));
                }
                assert forall|a: int| 0 <= a < result.len() implies wf_level(
                    #[trigger] result[a],
                    side,
                ) && level_seq_below(result[a], bound) by {
                    let a0: int = if a < p { a } else { a + 1 };
                    assert(result[a] == levels[a0]);
                    assert(wf_level(levels[a0], side));
                    assert(level_seq_below(levels[a0], bound));
                }
            } else {
                let trimmed = removed_order_level(l, j);
                lemma_level_sum_remove(l.orders, j);
                lemma_order_size_le_sum(l.orders, j);
                lemma_level_sum_nonneg(l.orders.remove(j));
                assert(wf_level(l, side));
                assert(level_seq_below(l, bound));
                assert(trimmed.size == level_sum(trimmed.orders));
                assert forall|a: int, b: int|
                    0 <= a < b < trimmed.orders.len() implies trimmed.orders[a].sequence
                    < trimmed.orders[b].sequence by {
                    let a0: int = if a < j { a } else { a + 1 };
                    let b0: int = if b < j { b } else { b + 1 };
                    assert(trimmed.orders[a] == l.orders[a0]);
                    assert(trimmed.orders[b] == l.orders[b0]);
                }
                assert forall|k: int|
                    0 <= k < trimmed.orders.len() implies (#[trigger] trimmed.orders[k]).price
                    == trimmed.price && trimmed.orders[k].order_type == side
                    && trimmed.orders[k].sequence < bound by {
                    let k0: int = if k < j { k } else { k + 1 };
                    assert(trimmed.orders[k] == l.orders[k0]);
                }
                assert(wf_level(trimmed, side));
                assert(level_seq_below(trimmed, bound));
                assert forall|a: int, b: int|
                    #![trigger result[a], result[b]]
                    0 <= a < b < result.len() implies price_before(
                    side,
                    result[a].price,
                    result[b].price,
                ) by {
                    assert(price_before(side, levels[a].price, levels[b].price));
                    assert(trimmed.price == l.price);
                }
                assert forall|a: int| 0 <= a < result.len() implies wf_level(
                    #[trigger] result[a],
                    side,
                ) && level_seq_below(result[a], bound) by {
                    if a != p {
                        assert(result[a] == levels[a]);
                    }
                    assert(wf_level(levels[a], side));
                    assert(level_seq_below(levels[a], bound));
                }
            }
        }
    }
}

/// Dropping the front level keeps a side well formed and bounded.
pub proof fn lemma_wf_side_drop_first(levels: Seq<LevelView>, side: OrderType, bound: u64)
    requires
        wf_side(levels, side),
        side_seq_below(levels, bound),
        levels.len() > 0,
    ensures
        wf_side(levels.drop_first(), side),
        side_seq_below(levels.drop_first(), bound),
{
    let rest = levels.drop_first();
    assert forall|i: int, j: int|
        #![trigger rest[i], rest[j]]
        0 <= i < j < rest.len() implies price_before(side, rest[i].price, rest[j].price) by {
        assert(rest[i] == levels[i + 1]);
        assert(rest[j] == levels[j + 1]);
    }
    assert forall|i: int| 0 <= i < rest.len() implies wf_level(#[trigger] rest[i], side)
        && level_seq_below(rest[i], bound) by {
        assert(rest[i] == levels[i + 1]);
        assert(wf_level(levels[i + 1], side));
        assert(level_seq_below(levels[i + 1], bound));
    }
}

/// Crossing resolution keeps the swept side well formed and bounded.
pub proof fn lemma_sweep_wf(
    levels: Seq<LevelView>,
    inc_side: OrderType,
    price: u64,
    bound: u64,
)
    requires
        wf_side(levels, opposite(inc_side)),
        side_seq_below(levels, bound),
    ensures
        wf_side(spec_sweep(levels, inc_side, price), opposite(inc_side)),
        side_seq_below(spec_sweep(levels, inc_side, price), bound),
    decreases levels.len(),
{
    if levels.len() > 0 && crosses(inc_side, price, levels.first().price) {
        lemma_wf_side_drop_first(levels, opposite(inc_side), bound);
        lemma_sweep_wf(levels.drop_first(), inc_side, price, bound);
    }
}

/// After crossing resolution, no level that the incoming order's price
/// reaches remains on the swept side.
pub proof fn lemma_sweep_clears(levels: Seq<LevelView>, inc_side: OrderType, price: u64)
    requires
        sorted_side(levels, opposite(inc_side)),
    ensures
        forall|i: int|
            0 <= i < spec_sweep(levels, inc_side, price).len() ==> !crosses(
                inc_side,
                price,
                (#[trigger] spec_sweep(levels, inc_side, price)[i]).price,
            ),
    decreases levels.len(),
{
    let result = spec_sweep(levels, inc_side, price);
    if levels.len() > 0 && crosses(inc_side, price, levels.first().price) {
        let rest = levels.drop_first();
        assert forall|i: int, j: int|
            #![trigger rest[i], rest[j]]
            0 <= i < j < rest.len() implies price_before(
            opposite(inc_side),
            rest[i].price,
            rest[j].price,
        ) by {
            assert(rest[i] == levels[i + 1]);
            assert(rest[j] == levels[j + 1]);
        }
        lemma_sweep_clears(rest, inc_side, price);
        assert forall|i: int| 0 <= i < result.len() implies !crosses(
            inc_side,
            price,
            (#[trigger] result[i]).price,
        ) by {
            assert(result[i] == spec_sweep(rest, inc_side, price)[i]);
        }
    } else if levels.len() > 0 {
        assert forall|i: int| 0 <= i < result.len() implies !crosses(
            inc_side,
            price,
            (#[trigger] result[i]).price,
        ) by {
            assert(levels[0] == levels.first());
            if i > 0 {
                assert(price_before(opposite(inc_side), levels[0].price, levels[i].price));
            }
        }
    }
}

/// `upsert_order` preserves the book invariant.
pub proof fn lemma_upsert_book_wf(b: BookView, info: OrderInfo)
    requires
        wf_book(b),
    ensures
        wf_book(spec_upsert_book(b, info)),
{
    if can_stamp(b) && upsert_fits(side_of(b, info.order_type), info.order_type, info.price, info.size) {
        let o = stamped(info, b.next_seq);
        let next = (b.next_seq + 1) as u64;
        match info.order_type {
            OrderType::Buy => {
                lemma_upsert_wf(b.bids, OrderType::Buy, o, next);
                lemma_bound_mono(b.asks, b.next_seq, next);
            },
            OrderType::Sell => {
                lemma_upsert_wf(b.asks, OrderType::Sell, o, next);
                lemma_bound_mono(b.bids, b.next_seq, next);
            },
        }
    }
}

/// `remove_order` preserves the book invariant.
pub proof fn lemma_remove_book_wf(b: BookView, info: OrderInfo)
    requires
        wf_book(b),
    ensures
        wf_book(spec_remove_book(b, info)),
{
    match info.order_type {
        OrderType::Buy => {
            lemma_remove_wf(b.bids, OrderType::Buy, info.price, info.id, b.next_seq);
        },
        OrderType::Sell => {
            lemma_remove_wf(b.asks, OrderType::Sell, info.price, info.id, b.next_seq);
        },
    }
}

/// Crossing resolution preserves the book invariant.
pub proof fn lemma_sweep_book_wf(b: BookView, inc_side: OrderType, price: u64)
    requires
        wf_book(b),
    ensures
        wf_book(spec_sweep_book(b, inc_side, price)),
{
    match inc_side {
        OrderType::Buy => {
            lemma_sweep_wf(b.asks, OrderType::Buy, price, b.next_seq);
        },
        OrderType::Sell => {
            lemma_sweep_wf(b.bids, OrderType::Sell, price, b.next_seq);
        },
    }
}

/// `apply` preserves the book invariant, whatever the event.
pub proof fn lemma_apply_wf(b: BookView, event: BookEvent)
    requires
        wf_book(b),
    ensures
        wf_book(spec_apply(b, event)),
{
    match event {
        BookEvent::Created(info) => {
            if can_stamp(b) && upsert_fits(
                side_of(b, info.order_type),
                info.order_type,
                info.price,
                info.size,
            ) {
                lemma_upsert_book_wf(b, info);
                lemma_sweep_book_wf(spec_upsert_book(b, info), info.order_type, info.price);
            }
        },
        BookEvent::Changed(info) => {
            if can_stamp(b) {
                if level_exists(side_of(b, info.order_type), info.order_type, info.price) {
                    lemma_remove_book_wf(b, info);
                    lemma_upsert_book_wf(spec_remove_book(b, info), info);
                } else {
                    lemma_upsert_book_wf(b, info);
                    lemma_sweep_book_wf(spec_upsert_book(b, info), info.order_type, info.price);
                }
            }
        },
        BookEvent::Deleted(info) => {
            lemma_remove_book_wf(b, info);
        },
        BookEvent::Irrelevant => {},
    }
}

/// Some level on the side rests at `price` and holds an order with
/// identity `id`.
pub open spec fn order_present(levels: Seq<LevelView>, price: u64, id: u64) -> bool {
    exists|i: int, j: int|
        0 <= i < levels.len() && (#[trigger] levels[i]).price == price && 0 <= j
            < levels[i].orders.len() && (#[trigger] levels[i].orders[j]).id == id
}

/// No level within reach of an incoming order on `inc_side` at `price`
/// remains on the opposite side of the book.
pub open spec fn crossing_resolved(b: BookView, inc_side: OrderType, price: u64) -> bool {
    forall|i: int|
        0 <= i < side_of(b, opposite(inc_side)).len() ==> !crosses(
            inc_side,
            price,
            (#[trigger] side_of(b, opposite(inc_side))[i]).price,
        )
}

fn price_before_exec(side: OrderType, a: u64, b: u64) -> (r: bool)
    ensures
        r == price_before(side, a, b),
{
    match side {
        OrderType::Buy => a > b,
        OrderType::Sell => a < b,
    }
}

fn crosses_exec(inc_side: OrderType, inc_price: u64, level_price: u64) -> (r: bool)
    ensures
        r == crosses(inc_side, inc_price, level_price),
{
    match inc_side {
        OrderType::Buy => level_price <= inc_price,
        OrderType::Sell => level_price >= inc_price,
    }
}

/// Binary search over one side's sorted levels for the insertion point of
/// `price`.
fn find_pos_vec(levels: &Vec<LimitPrice>, side: OrderType, price: u64) -> (r: usize)
    requires
        sorted_side(levels_view(levels@), side),
    ensures
        r == find_pos(levels_view(levels@), side, price),
        r <= levels@.len(),
{
    let ghost lv = levels_view(levels@);
    let mut lo: usize = 0;
    let mut hi: usize = levels.len();
    while lo < hi
        invariant
            lo <= hi <= levels@.len(),
            lv == levels_view(levels@),
            lv.len() == levels@.len(),
            sorted_side(lv, side),
            forall|i: int| 0 <= i < lo ==> price_before(side, (#[trigger] lv[i]).price, price),
            forall|i: int|
                hi <= i < lv.len() ==> !price_before(side, (#[trigger] lv[i]).price, price),
        decreases hi - lo,
    {
        let mid = lo + (hi - lo) / 2;
        let mp = levels[mid].price;
        proof {
            assert(lv[mid as int] == levels@[mid as int]@);
        }
        if price_before_exec(side, mp, price) {
            proof {
                assert forall|i: int|
                    0 <= i < mid + 1 implies price_before(
                    side,
                    (#[trigger] lv[i]).price,
                    price,
                ) by {
                    if i < mid {
                        assert(price_before(side, lv[i].price, lv[mid as int].price));
                    }
                }
            }
            lo = mid + 1;
        } else {
            proof {
                assert forall|i: int|
                    mid <= i < lv.len() implies !price_before(
                    side,
                    (#[trigger] lv[i]).price,
                    price,
                ) by {
                    if i > mid {
                        assert(price_before(side, lv[mid as int].price, lv[i].price));
                    }
                }
            }
            hi = mid;
        }
    }
    proof {
        lemma_find_pos_unique(lv, side, price, lo as int);
    }
    lo
}

/// Linear scan of one level's orders for the first with the given
/// identity.
fn find_order_vec(orders: &Vec<Order>, id: u64) -> (r: usize)
    ensures
        r == find_order_idx(orders@, id),
        r <= orders@.len(),
{
    let mut k: usize = 0;
    while k < orders.len()
        invariant
            k <= orders@.len(),
            forall|i: int| 0 <= i < k ==> (#[trigger] orders@[i]).id != id,
        decreases orders@.len() - k,
    {
        if orders[k].id == id {
            proof {
                lemma_find_order_idx_unique(orders@, id, k as int);
            }
            return k;
        }
        k = k + 1;
    }
    proof {
        lemma_find_order_idx_unique(orders@, id, k as int);
    }
    k
}

/// Merge a stamped order into the level at its price, or insert a new
/// single-order level at its insertion point. Returns whether the order
/// was taken: a merge whose total would pass `u64::MAX` is refused and the
/// side left unchanged.
fn upsert_levels(levels: &mut Vec<LimitPrice>, side: OrderType, o: Order) -> (applied: bool)
    requires
        sorted_side(levels_view(old(levels)@), side),
    ensures
        applied == upsert_fits(levels_view(old(levels)@), side, o.price, o.size),
        applied ==> levels_view(final(levels)@) == spec_upsert(
            levels_view(old(levels)@),
            side,
            o,
        ),
        !applied ==> final(levels)@ == old(levels)@,
{
    let ghost lv = levels_view(old(levels)@);
    let pos = find_pos_vec(levels, side, o.price);
    proof {
        lemma_find_pos_char(lv, side, o.price);
        if pos < lv.len() {
            assert(lv[pos as int] == levels@[pos as int]@);
        }
    }
    if pos < levels.len() && levels[pos].price == o.price {
        if levels[pos].size <= u64::MAX - o.size {
            let lvl = &mut levels[pos];
            lvl.size = lvl.size + o.size;
            lvl.orders.push(o);
            proof {
                assert(levels_view(levels@) =~= spec_upsert(lv, side, o));
            }
            true
        } else {
            false
        }
    } else {
        let mut orders_vec: Vec<Order> = Vec::new();
        orders_vec.push(o);
        let lvl = LimitPrice { price: o.price, size: o.size, orders: orders_vec };
        proof {
            assert(lvl@.orders =~= seq![o]);
            assert(lvl@ == singleton_level(o));
        }
        levels.insert(pos, lvl);
        proof {
            assert(levels_view(levels@) =~= spec_upsert(lv, side, o));
        }
        true
    }
}

/// Remove the order with identity `id` from the level at `price`, dropping
/// the level when it empties; a no-op when no such level or order rests on
/// the side.
fn remove_levels(levels: &mut Vec<LimitPrice>, side: OrderType, price: u64, id: u64)
    requires
        wf_side(levels_view(old(levels)@), side),
    ensures
        levels_view(final(levels)@) == spec_remove(levels_view(old(levels)@), side, price, id),
{
    let ghost lv = levels_view(old(levels)@);
    let pos = find_pos_vec(levels, side, price);
    proof {
        lemma_find_pos_char(lv, side, price);
        if pos < lv.len() {
            assert(lv[pos as int] == levels@[pos as int]@);
        }
    }
    if pos < levels.len() && levels[pos].price == price {
        let j = find_order_vec(&levels[pos].orders, id);
        proof {
            lemma_find_order_idx_char(lv[pos as int].orders, id);
        }
        if j < levels[pos].orders.len() {
            if levels[pos].orders.len() == 1 {
                levels.remove(pos);
                proof {
                    assert(levels_view(levels@) =~= spec_remove(lv, side, price, id));
                }
            } else {
                proof {
                    assert(wf_level(lv[pos as int], side));
                    lemma_order_size_le_sum(lv[pos as int].orders, j as int);
                    lemma_level_sum_nonneg(lv[pos as int].orders.remove(j as int));
                    lemma_level_sum_remove(lv[pos as int].orders, j as int);
                }
                let lvl = &mut levels[pos];
                let removed = lvl.orders.remove(j);
                lvl.size = lvl.size - removed.size;
                proof {
                    assert(levels_view(levels@) =~= spec_remove(lv, side, price, id));
                }
            }
        }
    }
}

/// Drop levels from the front of the opposite side while the incoming
/// order's price crosses them.
fn sweep_levels(levels: &mut Vec<LimitPrice>, inc_side: OrderType, price: u64)
    ensures
        levels_view(final(levels)@) == spec_sweep(levels_view(old(levels)@), inc_side, price),
{
    let ghost orig = levels_view(old(levels)@);
    while levels.len() > 0 && crosses_exec(inc_side, price, levels[0].price)
        invariant
            spec_sweep(orig, inc_side, price) == spec_sweep(
                levels_view(levels@),
                inc_side,
                price,
            ),
        decreases levels@.len(),
    {
        let ghost pre = levels_view(levels@);
        proof {
            assert(pre[0] == levels@[0]@);
            assert(crosses(inc_side, price, pre.first().price));
        }
        levels.remove(0);
        proof {
            assert(levels_view(levels@) =~= pre.drop_first());
        }
    }
    proof {
        let cur = levels_view(levels@);
        if levels@.len() > 0 {
            assert(cur.first() == levels@[0]@);
        }
        assert(spec_sweep(cur, inc_side, price) == cur);
    }
}

impl OrderBook {
    /// The empty book a fresh exchange connection starts from.
    pub fn new() -> (r: OrderBook)
        ensures
            r@ == empty_book(),
            wf_book(r@),
    {
        let r = OrderBook { bids: Vec::new(), asks: Vec::new(), next_seq: 0 };
        proof {
            assert(levels_view(r.bids@) =~= Seq::<LevelView>::empty());
            assert(levels_view(r.asks@) =~= Seq::<LevelView>::empty());
        }
        r
    }

    /// Binary search over one side: the index of the level resting at
    /// exactly `price` if there is one, else the index at which a new
    /// level at `price` would be inserted to keep the side sorted.
    pub fn find_level(&self, side: OrderType, price: u64) -> (r: usize)
        requires
            sorted_side(side_of(self@, side), side),
        ensures
            r == find_pos(side_of(self@, side), side, price),
            r <= side_of(self@, side).len(),
    {
        match side {
            OrderType::Buy => find_pos_vec(&self.bids, OrderType::Buy, price),
            OrderType::Sell => find_pos_vec(&self.asks, OrderType::Sell, price),
        }
    }

    /// Stamp the event's order with the arrival counter and merge it into
    /// its side: appended to the level at its price when one rests there,
    /// otherwise inserted as a new single-order level at its insertion
    /// point. An order that cannot be stamped, or whose size would push the
    /// level's total past `u64::MAX`, is absorbed with no effect.
    pub fn upsert_order(&mut self, info: OrderInfo)
        requires
            wf_book(old(self)@),
        ensures
            final(self)@ == spec_upsert_book(old(self)@, info),
            wf_book(final(self)@),
    {
        proof {
            lemma_upsert_book_wf(old(self)@, info);
        }
        if self.next_seq == u64::MAX {
            return;
        }
        let o = Order {
            id: info.id,
            order_type: info.order_type,
            price: info.price,
            size: info.size,
            sequence: self.next_seq,
        };
        proof {
            assert(o == stamped(info, old(self)@.next_seq));
        }
        let applied = match info.order_type {
            OrderType::Buy => upsert_levels(&mut self.bids, OrderType::Buy, o),
            OrderType::Sell => upsert_levels(&mut self.asks, OrderType::Sell, o),
        };
        if applied {
            self.next_seq = self.next_seq + 1;
        }
    }

    /// Remove the order with the event's identity from the level at the
    /// event's price, dropping the level when it empties. A deletion naming
    /// a level or an order the book never observed is a no-op: the feed may
    /// legitimately delete orders that predate this book's subscription.
    pub fn remove_order(&mut self, info: OrderInfo)
        requires
            wf_book(old(self)@),
        ensures
            final(self)@ == spec_remove_book(old(self)@, info),
            wf_book(final(self)@),
    {
        proof {
            lemma_remove_book_wf(old(self)@, info);
        }
        match info.order_type {
            OrderType::Buy => remove_levels(&mut self.bids, OrderType::Buy, info.price, info.id),
            OrderType::Sell => remove_levels(
                &mut self.asks,
                OrderType::Sell,
                info.price,
                info.id,
            ),
        }
    }

    /// Apply a change event's full new order state: remove the order's old
    /// instance at the event's price, then upsert it again with the new
    /// absolute size the event carries.
    pub fn replace_order(&mut self, info: OrderInfo)
        requires
            wf_book(old(self)@),
        ensures
            final(self)@ == spec_replace_book(old(self)@, info),
            wf_book(final(self)@),
    {
        self.remove_order(info);
        self.upsert_order(info);
    }

    /// Emulate an aggressive order consuming resting opposite-side
    /// liquidity: drop crossed levels from the front of the opposite side,
    /// whole levels at a time, without modelling partial fills.
    fn resolve_crossing(&mut self, inc_side: OrderType, price: u64)
        requires
            wf_book(old(self)@),
        ensures
            final(self)@ == spec_sweep_book(old(self)@, inc_side, price),
            wf_book(final(self)@),
    {
        proof {
            lemma_sweep_book_wf(old(self)@, inc_side, price);
        }
        match inc_side {
            OrderType::Buy => sweep_levels(&mut self.asks, OrderType::Buy, price),
            OrderType::Sell => sweep_levels(&mut self.bids, OrderType::Sell, price),
        }
    }

    /// The sole mutation entry point: apply one decoded event.
    ///
    /// `Created` upserts and then resolves crossing on the opposite side;
    /// `Changed` replaces in place when a level already rests at the
    /// event's price, and otherwise inserts the fresh level and resolves
    /// crossing; `Deleted` removes; anything else is absorbed unchanged.
    /// The call never fails: events the book has no work for leave it as it
    /// stands.
    pub fn apply(&mut self, event: BookEvent)
        requires
            wf_book(old(self)@),
        ensures
            final(self)@ == spec_apply(old(self)@, event),
            wf_book(final(self)@),
    {
        match event {
            BookEvent::Created(info) => {
                let seq_before = self.next_seq;
                self.upsert_order(info);
                if self.next_seq != seq_before {
                    self.resolve_crossing(info.order_type, info.price);
                }
            },
            BookEvent::Changed(info) => {
                if self.next_seq == u64::MAX {
                    return;
                }
                let pos = self.find_level(info.order_type, info.price);
                let has = match info.order_type {
                    OrderType::Buy => pos < self.bids.len() && self.bids[pos].price
                        == info.price,
                    OrderType::Sell => pos < self.asks.len() && self.asks[pos].price
                        == info.price,
                };
                proof {
                    let lv = side_of(self@, info.order_type);
                    if pos < lv.len() {
                        match info.order_type {
                            OrderType::Buy => {
                                assert(lv[pos as int] == self.bids@[pos as int]@);
                            },
                            OrderType::Sell => {
                                assert(lv[pos as int] == self.asks@[pos as int]@);
                            },
                        }
                    }
                    assert(has == level_exists(lv, info.order_type, info.price));
                }
                if has {
                    self.replace_order(info);
                } else {
                    self.upsert_order(info);
                    self.resolve_crossing(info.order_type, info.price);
                }
            },
            BookEvent::Deleted(info) => {
                self.remove_order(info);
            },
            BookEvent::Irrelevant => {},
        }
    }
}

} // verus!
