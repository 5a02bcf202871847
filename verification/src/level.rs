//! Price levels: the aggregate of all resting orders at one exact price on
//! one side of the book.

use vstd::prelude::*;

use crate::order::{Order, OrderType};

verus! {

/// All resting orders sharing one exact price on one side of the book.
/// `size` aggregates the constituent orders' sizes; the book keeps it equal
/// to their sum at all times, and never keeps a level with no orders.
#[derive(Clone, Debug)]
pub struct LimitPrice {
    pub price: u64,
    /// Total of the constituent orders' sizes.
    pub size: u64,
    /// Constituent orders, in arrival order (strictly increasing `sequence`).
    pub orders: Vec<Order>,
}

/// The mathematical value of a [`LimitPrice`].
pub ghost struct LevelView {
    pub price: u64,
    pub size: u64,
    pub orders: Seq<Order>,
}

impl View for LimitPrice {
    type V = LevelView;

    open spec fn view(&self) -> LevelView {
        LevelView { price: self.price, size: self.size, orders: self.orders@ }
    }
}

/// Sum of the sizes of a sequence of orders.
pub open spec fn level_sum(orders: Seq<Order>) -> int
    decreases orders.len(),
{
    if orders.len() == 0 {
        0
    } else {
        orders.first().size + level_sum(orders.drop_first())
    }
}

/// Index of the first order with the given identity, or `orders.len()` if
/// no order has it.
pub open spec fn find_order_idx(orders: Seq<Order>, id: u64) -> int
    decreases orders.len(),
{
    if orders.len() == 0 {
        0
    } else if orders.first().id == id {
        0
    } else {
        1 + find_order_idx(orders.drop_first(), id)
    }
}

/// A well-formed level on the given side: it has at least one order, its
/// aggregated size equals the sum of the constituent sizes, every
/// constituent order carries the level's price and side, and the orders
/// stand in strictly increasing arrival order.
pub open spec fn wf_level(l: LevelView, side: OrderType) -> bool {
    &&& l.orders.len() > 0
    &&& l.size == level_sum(l.orders)
    &&& forall|i: int| 0 <= i < l.orders.len() ==> (#[trigger] l.orders[i]).price == l.price
    &&& forall|i: int| 0 <= i < l.orders.len() ==> (#[trigger] l.orders[i]).order_type == side
    &&& forall|i: int, j: int|
        0 <= i < j < l.orders.len() ==> l.orders[i].sequence < l.orders[j].sequence
}

/// Every order of the level arrived before the given counter value.
pub open spec fn level_seq_below(l: LevelView, bound: u64) -> bool {
    forall|i: int| 0 <= i < l.orders.len() ==> (#[trigger] l.orders[i]).sequence < bound
}

pub proof fn lemma_level_sum_push(orders: Seq<Order>, o: Order)
    ensures
        level_sum(orders.push(o)) == level_sum(orders) + o.size,
    decreases orders.len(),
{
    if orders.len() == 0 {
        reveal_with_fuel(level_sum, 2);
        assert(orders.push(o)[0] == o);
        assert(orders.push(o).drop_first() =~= Seq::<Order>::empty());
    } else {
        assert(orders.push(o)[0] == orders[0]);
        assert(orders.push(o).drop_first() =~= orders.drop_first().push(o));
        lemma_level_sum_push(orders.drop_first(), o);
    }
}

pub proof fn lemma_level_sum_remove(orders: Seq<Order>, j: int)
    requires
        0 <= j < orders.len(),
    ensures
        level_sum(orders.remove(j)) == level_sum(orders) - orders[j].size,
    decreases orders.len(),
{
    if j == 0 {
        assert(orders.remove(0) =~= orders.drop_first());
    } else {
        assert(orders.remove(j).drop_first() =~= orders.drop_first().remove(j - 1));
        assert(orders.remove(j).first() == orders.first());
        lemma_level_sum_remove(orders.drop_first(), j - 1);
    }
}

pub proof fn lemma_level_sum_nonneg(orders: Seq<Order>)
    ensures
        level_sum(orders) >= 0,
    decreases orders.len(),
{
    if orders.len() > 0 {
        lemma_level_sum_nonneg(orders.drop_first());
    }
}

/// One order's size never exceeds the sum of them all.
pub proof fn lemma_order_size_le_sum(orders: Seq<Order>, j: int)
    requires
        0 <= j < orders.len(),
    ensures
        orders[j].size <= level_sum(orders),
{
    lemma_level_sum_remove(orders, j);
    lemma_level_sum_nonneg(orders.remove(j));
}

/// `find_order_idx` points at the first order with the given identity.
pub proof fn lemma_find_order_idx_char(orders: Seq<Order>, id: u64)
    ensures
        0 <= find_order_idx(orders, id) <= orders.len(),
        find_order_idx(orders, id) < orders.len() ==> orders[find_order_idx(orders, id)].id
            == id,
        forall|i: int| 0 <= i < find_order_idx(orders, id) ==> (#[trigger] orders[i]).id != id,
    decreases orders.len(),
{
    if orders.len() == 0 {
    } else if orders.first().id == id {
        assert(orders[0] == orders.first());
    } else {
        lemma_find_order_idx_char(orders.drop_first(), id);
        assert(orders[0] == orders.first());
        assert forall|i: int|
            1 <= i < find_order_idx(orders, id) implies (#[trigger] orders[i]).id != id by {
            assert(orders.drop_first()[i - 1] == orders[i]);
        }
    }
}

/// Any index with the first-match characterization is `find_order_idx`.
pub proof fn lemma_find_order_idx_unique(orders: Seq<Order>, id: u64, k: int)
    requires
        0 <= k <= orders.len(),
        forall|i: int| 0 <= i < k ==> (#[trigger] orders[i]).id != id,
        k < orders.len() ==> orders[k].id == id,
    ensures
        k == find_order_idx(orders, id),
    decreases orders.len(),
{
    if orders.len() == 0 {
    } else if orders.first().id == id {
        assert(orders[0] == orders.first());
    } else {
        assert(orders[0] == orders.first());
        assert(forall|i: int|
            0 <= i < orders.drop_first().len() ==> orders.drop_first()[i] == orders[i + 1]);
        lemma_find_order_idx_unique(orders.drop_first(), id, k - 1);
    }
}

} // verus!
