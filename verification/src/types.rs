//! Core data types: asset pairs, order sides, order status, order records,
//! and the engine's error kinds.

use vstd::prelude::*;

verus! {

/// Byte-string equality, the comparison used for asset identifiers.
pub fn bytes_eq(a: &Vec<u8>, b: &Vec<u8>) -> (r: bool)
    ensures
        r == (a@ == b@),
{
    if a.len() != b.len() {
        return false;
    }
    let mut i: usize = 0;
    while i < a.len()
        invariant
            i <= a.len(),
            a.len() == b.len(),
            forall|k: int| 0 <= k < i ==> a@[k] == b@[k],
        decreases a.len() - i,
    {
        if a[i] != b[i] {
            return false;
        }
        i = i + 1;
    }
    proof {
        assert(a@ =~= b@);
    }
    true
}

/// An owned copy of a byte string, with its contents pinned.
pub fn clone_bytes(v: &Vec<u8>) -> (r: Vec<u8>)
    ensures
        r@ == v@,
{
    let mut r: Vec<u8> = Vec::new();
    let mut i: usize = 0;
    while i < v.len()
        invariant
            i <= v.len(),
            r@ =~= v@.take(i as int),
        decreases v.len() - i,
    {
        r.push(v[i]);
        i = i + 1;
    }
    proof {
        assert(r@ =~= v@);
    }
    r
}

/// An ordered pair of asset identifiers. `first` is the base asset (the thing
/// being bought or sold); `second` is the quote asset (the denomination of
/// price). Swapping the two components makes a different pair.
#[derive(Clone)]
pub struct OrderPair {
    pub first: Vec<u8>,
    pub second: Vec<u8>,
}

impl OrderPair {
    /// Two pairs denote the same market when both asset names agree.
    pub open spec fn eqv(self, other: OrderPair) -> bool {
        self.first@ == other.first@ && self.second@ == other.second@
    }
}

/// The side of an order: a bid for the base asset or an offer of it.
#[derive(Clone, Copy, PartialEq, Eq, Structural, Debug)]
pub enum OrderType {
    Buy,
    Sell,
}

impl Default for OrderType {
    fn default() -> (r: Self)
        ensures
            r is Buy,
    {
        OrderType::Buy
    }
}

/// The lifecycle state of an order record.
#[derive(Clone, Copy, PartialEq, Eq, Structural, Debug)]
pub enum OrderStatus {
    Valid,
    Canceled,
    Finished,
}

impl Default for OrderStatus {
    fn default() -> (r: Self)
        ensures
            r is Valid,
    {
        OrderStatus::Valid
    }
}

/// Whether the outer runtime has executed a block. The engine runs one
/// submission at a time in block order and stamps each order with the block
/// it arrived in; a block number beyond the current one is not yet known.
#[derive(Clone, Copy, PartialEq, Eq, Structural, Debug)]
pub enum BlockStatus {
    /// Already executed: orders may carry this block as their creation time.
    InChain,
    /// Not executed yet.
    Unknown,
}

/// Which partition of a balance a ledger mutation addresses.
#[derive(Clone, Copy, PartialEq, Eq, Structural, Debug)]
pub enum TokenControl {
    Free,
    Lock,
}

/// Stable error kinds surfaced by the engine. Validation errors leave all
/// state unchanged; `InvariantViolation` marks an internal accounting bug.
#[derive(Clone, Copy, PartialEq, Eq, Structural, Debug)]
pub enum DexError {
    BadRequest,
    UnknownAsset,
    InsufficientFree,
    InsufficientLocked,
    Overflow,
    UnknownOrder,
    NotPermitted,
    NotCancelable,
    PairExists,
    InvariantViolation,
}

/// One order record, created at submission and kept forever for audit.
/// `left` is the unfilled base quantity; it only decreases.
pub struct OrderInformation {
    /// Account that owns the order.
    pub who: u64,
    /// Buy or sell.
    pub ordertype: OrderType,
    /// The market the order trades on.
    pub pair: OrderPair,
    /// Original base-asset quantity requested.
    pub amount: u64,
    /// Limit price in quote per base.
    pub price: u64,
    /// Unfilled base quantity; `0 <= left <= amount`.
    pub left: u64,
    /// Valid while unfilled and not canceled; Finished once `left == 0`.
    pub status: OrderStatus,
    /// Globally unique, monotonically increasing identifier.
    pub index: u128,
    /// Block number at submission.
    pub time: u64,
    /// Identifiers of counterparty orders that matched with this order.
    pub fill_index: Vec<u128>,
}

impl OrderInformation {
    /// A fresh order: wholly unfilled, valid, with no fills recorded.
    pub fn new(who: u64, ordertype: OrderType, pair: OrderPair, amount: u64, price: u64, index: u128, time: u64) -> (r: Self)
        ensures
            r.who == who,
            r.ordertype == ordertype,
            r.pair == pair,
            r.amount == amount,
            r.price == price,
            r.left == amount,
            r.status is Valid,
            r.index == index,
            r.time == time,
            r.fill_index@ =~= Seq::<u128>::empty(),
    {
        OrderInformation {
            who,
            ordertype,
            pair,
            amount,
            price,
            left: amount,
            status: OrderStatus::Valid,
            index,
            time,
            fill_index: Vec::new(),
        }
    }

    /// Consume `money` units of the unfilled quantity; the order becomes
    /// Finished exactly when nothing is left. Returns whether anything is
    /// still unfilled. The caller must never consume more than is left.
    pub fn money_change(&mut self, money: u64) -> (r: bool)
        requires
            money <= old(self).left,
        ensures
            final(self).left == old(self).left - money,
            final(self).status == if final(self).left == 0 { OrderStatus::Finished } else { old(self).status },
            final(self).who == old(self).who,
            final(self).ordertype == old(self).ordertype,
            final(self).pair == old(self).pair,
            final(self).amount == old(self).amount,
            final(self).price == old(self).price,
            final(self).index == old(self).index,
            final(self).time == old(self).time,
            final(self).fill_index == old(self).fill_index,
            r == (final(self).left != 0),
    {
        self.left = self.left - money;
        if self.left == 0 {
            self.status = OrderStatus::Finished;
            return false;
        }
        true
    }
}

} // verus!
