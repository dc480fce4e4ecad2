//! The order book: per (pair, side) a best-first sequence of price levels,
//! each level holding a FIFO queue of resting order ids and the aggregate
//! unfilled quantity at that price.

use vstd::prelude::*;

use crate::types::OrderInformation;
use crate::types::OrderPair;
use crate::types::OrderType;

verus! {

/// One price level. `list` queues the ids of the resting orders at `price`
/// in arrival order; `sum` aggregates their unfilled quantities (widened to
/// `u128` so that aggregation can never wrap).
pub struct Bid {
    pub nodeid: u128,
    pub price: u64,
    pub sum: u128,
    pub list: Vec<u128>,
}

impl Bid {
    /// The level's node id.
    pub fn index(&self) -> (r: u128)
        ensures
            r == self.nodeid,
    {
        self.nodeid
    }
}

/// Whether, within a book of side `ot`, a level priced `a` stands strictly
/// ahead of one priced `b`: buys descend from the highest bid, sells ascend
/// from the lowest ask.
pub open spec fn price_before(ot: OrderType, a: u64, b: u64) -> bool {
    match ot {
        OrderType::Buy => a > b,
        OrderType::Sell => a < b,
    }
}

/// Whether a taker of side `ot` limited to `taker_price` crosses a resting
/// level of the opposite side priced `level_price`.
pub open spec fn crosses(ot: OrderType, taker_price: u64, level_price: u64) -> bool {
    match ot {
        OrderType::Buy => taker_price >= level_price,
        OrderType::Sell => taker_price <= level_price,
    }
}

/// The side an order of side `ot` is matched against.
pub open spec fn spec_opposite(ot: OrderType) -> OrderType {
    match ot {
        OrderType::Buy => OrderType::Sell,
        OrderType::Sell => OrderType::Buy,
    }
}

/// The side an order of side `ot` is matched against.
pub fn opposite(ot: OrderType) -> (r: OrderType)
    ensures
        r == spec_opposite(ot),
{
    match ot {
        OrderType::Buy => OrderType::Sell,
        OrderType::Sell => OrderType::Buy,
    }
}

/// Runtime test of `price_before`.
pub fn price_before_exec(ot: OrderType, a: u64, b: u64) -> (r: bool)
    ensures
        r == price_before(ot, a, b),
{
    match ot {
        OrderType::Buy => a > b,
        OrderType::Sell => a < b,
    }
}

/// Runtime test of `crosses`.
pub fn crosses_exec(ot: OrderType, taker_price: u64, level_price: u64) -> (r: bool)
    ensures
        r == crosses(ot, taker_price, level_price),
{
    match ot {
        OrderType::Buy => taker_price >= level_price,
        OrderType::Sell => taker_price <= level_price,
    }
}

/// The unfilled quantity of the order with id `id`; zero for an unknown id.
/// Order `id` is stored at position `id - 1` of the order map.
pub open spec fn left_of(orders: Seq<OrderInformation>, id: u128) -> u64 {
    if 1 <= id && id <= orders.len() {
        orders[id as int - 1].left
    } else {
        0u64
    }
}

/// The summed unfilled quantity over a queue of order ids.
pub open spec fn queue_sum(orders: Seq<OrderInformation>, q: Seq<u128>) -> int
    decreases q.len(),
{
    if q.len() == 0 {
        0
    } else {
        left_of(orders, q[0]) + queue_sum(orders, q.skip(1))
    }
}

/// What a book of (pair, ot) requires of an order id queued at `price`: the
/// record exists, is open and unfilled, and trades this market at this price.
pub open spec fn queued_ok(
    orders: Seq<OrderInformation>,
    pair: OrderPair,
    ot: OrderType,
    price: u64,
    id: u128,
) -> bool {
    &&& 1 <= id && id <= orders.len()
    &&& orders[id as int - 1].status is Valid
    &&& orders[id as int - 1].left > 0
    &&& orders[id as int - 1].ordertype == ot
    &&& orders[id as int - 1].pair.eqv(pair)
    &&& orders[id as int - 1].price == price
}

/// A well-formed price level of the book of (pair, ot): a nonempty queue of
/// valid resting orders in arrival order (ids increase with time), whose
/// unfilled quantities sum to `sum`.
pub open spec fn level_wf(
    orders: Seq<OrderInformation>,
    pair: OrderPair,
    ot: OrderType,
    lvl: Bid,
) -> bool {
    &&& lvl.list@.len() > 0
    &&& lvl.sum == queue_sum(orders, lvl.list@)
    &&& forall|k: int|
        0 <= k < lvl.list@.len() ==> queued_ok(orders, pair, ot, lvl.price, #[trigger] lvl.list@[k])
    &&& forall|k1: int, k2: int| 0 <= k1 < k2 < lvl.list@.len() ==> lvl.list@[k1] < lvl.list@[k2]
}

/// A well-formed book side: levels stand best-first with strictly distinct
/// prices, and every level is well-formed.
pub open spec fn book_wf(
    orders: Seq<OrderInformation>,
    pair: OrderPair,
    ot: OrderType,
    levels: Seq<Bid>,
) -> bool {
    &&& forall|i: int, j: int|
        0 <= i < j < levels.len() ==> price_before(ot, levels[i].price, levels[j].price)
    &&& forall|i: int| 0 <= i < levels.len() ==> level_wf(orders, pair, ot, #[trigger] levels[i])
}

/// A queue sums to a nonnegative quantity.
pub proof fn lemma_queue_sum_nonneg(orders: Seq<OrderInformation>, q: Seq<u128>)
    ensures
        queue_sum(orders, q) >= 0,
    decreases q.len(),
{
    if q.len() > 0 {
        lemma_queue_sum_nonneg(orders, q.skip(1));
    }
}

/// A queue's sum covers its first entry.
pub proof fn lemma_queue_sum_head(orders: Seq<OrderInformation>, q: Seq<u128>)
    requires
        q.len() > 0,
    ensures
        queue_sum(orders, q) >= left_of(orders, q[0]),
        queue_sum(orders, q) == left_of(orders, q[0]) + queue_sum(orders, q.skip(1)),
    decreases q.len(),
{
    lemma_queue_sum_nonneg(orders, q.skip(1));
}

/// Queues over order maps that agree on the queued ids sum alike.
pub proof fn lemma_queue_sum_congruent(
    orders1: Seq<OrderInformation>,
    orders2: Seq<OrderInformation>,
    q: Seq<u128>,
)
    requires
        forall|k: int| 0 <= k < q.len() ==> left_of(orders2, #[trigger] q[k]) == left_of(orders1, q[k]),
    ensures
        queue_sum(orders2, q) == queue_sum(orders1, q),
    decreases q.len(),
{
    if q.len() > 0 {
        assert forall|k: int|
            0 <= k < q.skip(1).len() implies left_of(orders2, #[trigger] q.skip(1)[k]) == left_of(
            orders1,
            q.skip(1)[k],
        ) by {
            assert(q.skip(1)[k] == q[k + 1]);
        }
        lemma_queue_sum_congruent(orders1, orders2, q.skip(1));
        assert(left_of(orders2, q[0]) == left_of(orders1, q[0]));
    }
}

/// A queue of `n` orders sums to at most `n * u64::MAX`, so a level's `u128`
/// aggregate can absorb one more order without wrapping.
pub proof fn lemma_queue_sum_le(orders: Seq<OrderInformation>, q: Seq<u128>)
    ensures
        queue_sum(orders, q) <= q.len() * (u64::MAX as int),
    decreases q.len(),
{
    if q.len() == 0 {
    } else {
        lemma_queue_sum_le(orders, q.skip(1));
        assert((q.len() - 1) * (u64::MAX as int) + (u64::MAX as int) == q.len() * (
        u64::MAX as int)) by (nonlinear_arith);
    }
}

/// Appending an id adds its unfilled quantity to the queue's sum.
pub proof fn lemma_queue_sum_push(orders: Seq<OrderInformation>, q: Seq<u128>, id: u128)
    ensures
        queue_sum(orders, q.push(id)) == queue_sum(orders, q) + left_of(orders, id),
    decreases q.len(),
{
    if q.len() == 0 {
        assert(q.push(id).skip(1) =~= Seq::<u128>::empty());
        assert(queue_sum(orders, Seq::<u128>::empty()) == 0);
    } else {
        assert(q.push(id)[0] == q[0]);
        assert(q.push(id).skip(1) =~= q.skip(1).push(id));
        lemma_queue_sum_push(orders, q.skip(1), id);
    }
}

/// Removing the entry at position `k` subtracts its unfilled quantity from
/// the queue's sum.
pub proof fn lemma_queue_sum_remove(orders: Seq<OrderInformation>, q: Seq<u128>, k: int)
    requires
        0 <= k < q.len(),
    ensures
        queue_sum(orders, q.remove(k)) == queue_sum(orders, q) - left_of(orders, q[k]),
    decreases q.len(),
{
    if k == 0 {
        assert(q.remove(0) =~= q.skip(1));
    } else {
        assert(q.remove(k)[0] == q[0]);
        assert(q.remove(k).skip(1) =~= q.skip(1).remove(k - 1));
        lemma_queue_sum_remove(orders, q.skip(1), k - 1);
    }
}

} // verus!
