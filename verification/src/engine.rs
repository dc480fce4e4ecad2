//! The matching engine: owns the ledger, the registered pairs, the order
//! records and the books, and orchestrates submission, matching, residual
//! booking and cancellation.

use vstd::prelude::*;

use crate::book::book_wf;
use crate::book::crosses;
use crate::book::crosses_exec;
use crate::book::left_of;
use crate::book::lemma_queue_sum_congruent;
use crate::book::lemma_queue_sum_head;
use crate::book::lemma_queue_sum_le;
use crate::book::lemma_queue_sum_nonneg;
use crate::book::lemma_queue_sum_push;
use crate::book::lemma_queue_sum_remove;
use crate::book::level_wf;
use crate::book::opposite;
use crate::book::price_before;
use crate::book::price_before_exec;
use crate::book::queue_sum;
use crate::book::queued_ok;
use crate::book::spec_opposite;
use crate::book::Bid;
use crate::ledger::Ledger;
use crate::matching::book_model;
use crate::matching::fills_free_delta;
use crate::matching::fills_locked_delta;
use crate::matching::fills_makers;
use crate::matching::is_maker;
use crate::matching::lemma_fills_delta_push;
use crate::matching::lemma_fills_makers_push;
use crate::matching::lemma_match_model_push;
use crate::matching::match_model;
use crate::matching::who_of;
use crate::matching::Fill;
use crate::matching::LevelModel;
use crate::matching::MatchModel;
use crate::types::bytes_eq;
use crate::types::BlockStatus;
use crate::types::clone_bytes;
use crate::types::DexError;
use crate::types::OrderInformation;
use crate::types::OrderPair;
use crate::types::OrderStatus;
use crate::types::OrderType;

verus! {

/// The asset an order's collateral is locked in: the quote asset for a buy
/// (the payment is reserved), the base asset for a sell (the goods are).
pub open spec fn lock_asset(o: OrderInformation) -> Seq<u8> {
    match o.ordertype {
        OrderType::Buy => o.pair.second@,
        OrderType::Sell => o.pair.first@,
    }
}

/// The collateral an order still holds locked: `price * left` of quote for a
/// buy, `left` of base for a sell.
pub open spec fn residual_lock(o: OrderInformation) -> int {
    match o.ordertype {
        OrderType::Buy => o.price * o.left,
        OrderType::Sell => o.left as int,
    }
}

/// One order's contribution to the locked balance of account `who` in asset `t`.
pub open spec fn residual_contrib(o: OrderInformation, t: Seq<u8>, who: u64) -> int {
    if o.who == who && o.status is Valid && lock_asset(o) == t {
        residual_lock(o)
    } else {
        0
    }
}

/// The collateral all open orders of account `who` hold locked in asset `t`.
pub open spec fn locked_residual(orders: Seq<OrderInformation>, t: Seq<u8>, who: u64) -> int
    decreases orders.len(),
{
    if orders.len() == 0 {
        0
    } else {
        residual_contrib(orders[0], t, who) + locked_residual(orders.skip(1), t, who)
    }
}

/// No order holds negative collateral.
pub proof fn lemma_contrib_nonneg(o: OrderInformation, t: Seq<u8>, who: u64)
    ensures
        residual_contrib(o, t, who) >= 0,
{
    vstd::arithmetic::mul::lemma_mul_nonnegative(o.price as int, o.left as int);
}

/// Summed collateral is nonnegative.
pub proof fn lemma_residual_nonneg(orders: Seq<OrderInformation>, t: Seq<u8>, who: u64)
    ensures
        locked_residual(orders, t, who) >= 0,
    decreases orders.len(),
{
    if orders.len() > 0 {
        lemma_contrib_nonneg(orders[0], t, who);
        lemma_residual_nonneg(orders.skip(1), t, who);
    }
}

/// Replacing one record shifts the summed collateral by the change in that
/// record's contribution.
pub proof fn lemma_residual_update(
    orders: Seq<OrderInformation>,
    i: int,
    o2: OrderInformation,
    t: Seq<u8>,
    who: u64,
)
    requires
        0 <= i < orders.len(),
    ensures
        locked_residual(orders.update(i, o2), t, who) == locked_residual(orders, t, who)
            - residual_contrib(orders[i], t, who) + residual_contrib(o2, t, who),
    decreases orders.len(),
{
    let s2 = orders.update(i, o2);
    if i == 0 {
        assert(s2.skip(1) =~= orders.skip(1));
    } else {
        assert(s2.skip(1) =~= orders.skip(1).update(i - 1, o2));
        lemma_residual_update(orders.skip(1), i - 1, o2, t, who);
    }
}

/// Appending a record adds its contribution to the summed collateral.
pub proof fn lemma_residual_push(
    orders: Seq<OrderInformation>,
    o: OrderInformation,
    t: Seq<u8>,
    who: u64,
)
    ensures
        locked_residual(orders.push(o), t, who) == locked_residual(orders, t, who)
            + residual_contrib(o, t, who),
    decreases orders.len(),
{
    if orders.len() == 0 {
        assert(orders.push(o).skip(1) =~= Seq::<OrderInformation>::empty());
        assert(locked_residual(Seq::<OrderInformation>::empty(), t, who) == 0);
    } else {
        assert(orders.push(o)[0] == orders[0]);
        assert(orders.push(o).skip(1) =~= orders.skip(1).push(o));
        lemma_residual_push(orders.skip(1), o, t, who);
    }
}

/// The summed collateral covers any single order's contribution.
pub proof fn lemma_residual_ge_contrib(
    orders: Seq<OrderInformation>,
    i: int,
    t: Seq<u8>,
    who: u64,
)
    requires
        0 <= i < orders.len(),
    ensures
        locked_residual(orders, t, who) >= residual_contrib(orders[i], t, who),
    decreases orders.len(),
{
    lemma_contrib_nonneg(orders[0], t, who);
    if i == 0 {
        lemma_residual_nonneg(orders.skip(1), t, who);
    } else {
        lemma_residual_ge_contrib(orders.skip(1), i - 1, t, who);
    }
}

/// The summed collateral covers any two distinct orders' contributions.
pub proof fn lemma_residual_ge_two(
    orders: Seq<OrderInformation>,
    i: int,
    j: int,
    t: Seq<u8>,
    who: u64,
)
    requires
        0 <= i < orders.len(),
        0 <= j < orders.len(),
        i != j,
    ensures
        locked_residual(orders, t, who) >= residual_contrib(orders[i], t, who) + residual_contrib(
            orders[j],
            t,
            who,
        ),
    decreases orders.len(),
{
    lemma_contrib_nonneg(orders[0], t, who);
    if i == 0 {
        lemma_residual_ge_contrib(orders.skip(1), j - 1, t, who);
    } else if j == 0 {
        lemma_residual_ge_contrib(orders.skip(1), i - 1, t, who);
    } else {
        lemma_residual_ge_two(orders.skip(1), i - 1, j - 1, t, who);
    }
}

/// No market is registered twice.
pub open spec fn pairs_unique(pairs: Seq<OrderPair>) -> bool {
    forall|i: int, j: int| 0 <= i < j < pairs.len() ==> !(#[trigger] pairs[i]).eqv(#[trigger] pairs[j])
}

/// What holds of the order record stored at position `i`: ids follow
/// positions, quantities stay within the original request, the collateral
/// product fits, and the status tracks the unfilled quantity.
pub open spec fn order_rec_wf(o: OrderInformation, i: int) -> bool {
    &&& o.index == i + 1
    &&& o.left <= o.amount
    &&& o.amount >= 1
    &&& o.price >= 1
    &&& o.price * o.amount <= u64::MAX
    &&& (o.status is Valid ==> o.left > 0)
    &&& (o.status is Finished ==> o.left == 0)
}

/// Every stored order record is well-formed.
pub open spec fn orders_wf(orders: Seq<OrderInformation>) -> bool {
    forall|i: int| 0 <= i < orders.len() ==> order_rec_wf(#[trigger] orders[i], i)
}

/// The engine: the ledger, the registered markets, every order ever placed,
/// and one book per (market, side). The book of `pairs[p]` sits at position
/// `2 * p` (buys) and `2 * p + 1` (sells) of `books`.
pub struct Engine {
    pub ledger: Ledger,
    pub pairs: Vec<OrderPair>,
    pub books: Vec<Vec<Bid>>,
    pub orders: Vec<OrderInformation>,
    pub nodeid: u128,
    pub block_number: u64,
}

impl Engine {
    /// Position of the book of (pairs[p], ot) within `books`.
    pub open spec fn book_index(p: int, ot: OrderType) -> int {
        2 * p + (match ot {
            OrderType::Buy => 0int,
            OrderType::Sell => 1int,
        })
    }

    /// The levels of the book of (pairs[p], ot).
    pub open spec fn book_at(self, p: int, ot: OrderType) -> Seq<Bid> {
        self.books@[Self::book_index(p, ot)]@
    }

    /// The model outcome of matching order `taker_id` against the opposite
    /// side of market `pairs[p]` in this state: the fills in execution order,
    /// the taker's remainder, and the surviving opposite book.
    pub open spec fn match_outcome(self, p: int, taker_id: u128) -> MatchModel {
        let o = self.orders@[taker_id as int - 1];
        match_model(
            self.orders@,
            book_model(self.book_at(p, spec_opposite(o.ordertype))),
            o.ordertype,
            o.price,
            o.left,
        )
    }

    /// Every book belongs to a registered market and is well-formed.
    pub open spec fn books_wf(self) -> bool {
        &&& self.books@.len() == 2 * self.pairs@.len()
        &&& forall|p: int, ot: OrderType|
            0 <= p < self.pairs@.len() ==> book_wf(
                self.orders@,
                self.pairs@[p],
                ot,
                #[trigger] self.book_at(p, ot),
            )
    }

    /// No buy level of a market crosses a sell level of the same market.
    pub open spec fn uncrossed(self) -> bool {
        forall|p: int, i: int, j: int|
            #![trigger self.book_at(p, OrderType::Buy)[i], self.book_at(p, OrderType::Sell)[j]]
            0 <= p < self.pairs@.len() && 0 <= i < self.book_at(p, OrderType::Buy).len() && 0 <= j
                < self.book_at(p, OrderType::Sell).len() ==> self.book_at(p, OrderType::Buy)[i].price
                < self.book_at(p, OrderType::Sell)[j].price
    }

    /// Locked balances are exactly the collateral of the open orders.
    pub open spec fn locked_accounted(self) -> bool {
        forall|t: Seq<u8>, w: u64|
            #![trigger self.ledger.locked(t, w)]
            self.ledger.locked(t, w) == locked_residual(self.orders@, t, w)
    }

    /// Every open order's collateral asset is registered (it was when the
    /// collateral was locked, and registrations are never removed).
    pub open spec fn assets_ok(self) -> bool {
        forall|i: int|
            0 <= i < self.orders@.len() && (#[trigger] self.orders@[i]).status is Valid
                ==> self.ledger.is_registered(lock_asset(self.orders@[i]))
    }

    /// The engine's invariant, re-established by every public operation.
    pub open spec fn wf(self) -> bool {
        &&& self.ledger.wf()
        &&& orders_wf(self.orders@)
        &&& pairs_unique(self.pairs@)
        &&& self.books_wf()
        &&& self.uncrossed()
        &&& self.locked_accounted()
        &&& self.assets_ok()
    }

    /// A fresh engine: nothing registered, nothing on the books.
    pub fn new() -> (r: Engine)
        ensures
            r.wf(),
            r.ledger.entries@ =~= Seq::<crate::ledger::TokenEntry>::empty(),
            r.ledger.types@ =~= Seq::<crate::ledger::TokenType>::empty(),
            r.pairs@ =~= Seq::<OrderPair>::empty(),
            r.books@ =~= Seq::<Vec<Bid>>::empty(),
            r.orders@ =~= Seq::<OrderInformation>::empty(),
            r.nodeid == 0,
            r.block_number == 0,
    {
        let r = Engine {
            ledger: Ledger::new(),
            pairs: Vec::new(),
            books: Vec::new(),
            orders: Vec::new(),
            nodeid: 0,
            block_number: 0,
        };
        proof {
            assert forall|t: Seq<u8>, w: u64| r.ledger.locked(t, w) == locked_residual(
                r.orders@,
                t,
                w,
            ) by {
                crate::ledger::lemma_absent(r.ledger.entries@, t, w);
            }
        }
        r
    }

    /// Record the block number the outer runtime is executing; new orders are
    /// stamped with it.
    pub fn set_block_number(&mut self, n: u64)
        ensures
            *final(self) == (Engine { block_number: n, ..*old(self) }),
    {
        self.block_number = n;
    }

    /// Whether block `n` has been executed, judged by the block counter the
    /// outer runtime maintains through `set_block_number`.
    pub fn block_status(&self, n: u64) -> (r: BlockStatus)
        ensures
            r == (if n <= self.block_number {
                BlockStatus::InChain
            } else {
                BlockStatus::Unknown
            }),
    {
        if n <= self.block_number {
            BlockStatus::InChain
        } else {
            BlockStatus::Unknown
        }
    }

    /// Register the two assets the engine's genesis knows.
    pub fn init_token(&mut self)
        requires
            old(self).wf(),
        ensures
            final(self).wf(),
            final(self).pairs@ == old(self).pairs@,
            final(self).books@ == old(self).books@,
            final(self).orders@ == old(self).orders@,
            final(self).ledger.entries@ == old(self).ledger.entries@,
            forall|t: Seq<u8>|
                final(self).ledger.precision(t) == if t == seq![1u8, 2u8] || t == seq![3u8, 4u8] {
                    Some(1000u64)
                } else {
                    old(self).ledger.precision(t)
                },
    {
        self.ledger.init_token();
        proof {
            assert forall|t: Seq<u8>|
                old(self).ledger.is_registered(t) implies #[trigger] self.ledger.is_registered(
                t,
            ) by {
                let p_new = self.ledger.precision(t);
                let p_old = old(self).ledger.precision(t);
                assert(p_new is Some || p_new == p_old);
            }
            lemma_wf_after_ledger_op_types(*old(self), *self);
        }
    }

    /// Register `tokentypt` with the given precision, overwriting an earlier
    /// registration of the same asset.
    pub fn add_new_tokentype(&mut self, tokentypt: Vec<u8>, precision: u64)
        requires
            old(self).wf(),
        ensures
            final(self).wf(),
            final(self).pairs@ == old(self).pairs@,
            final(self).books@ == old(self).books@,
            final(self).orders@ == old(self).orders@,
            final(self).ledger.entries@ == old(self).ledger.entries@,
            forall|t: Seq<u8>|
                final(self).ledger.precision(t) == if t == tokentypt@ {
                    Some(precision)
                } else {
                    old(self).ledger.precision(t)
                },
    {
        self.ledger.add_new_tokentype(&tokentypt, precision);
        proof {
            assert forall|t: Seq<u8>|
                old(self).ledger.is_registered(t) implies #[trigger] self.ledger.is_registered(
                t,
            ) by {
                let p_new = self.ledger.precision(t);
                let p_old = old(self).ledger.precision(t);
                assert(p_new is Some || p_new == p_old);
            }
            lemma_wf_after_ledger_op_types(*old(self), *self);
        }
    }

    /// The registered precision of an asset, if any.
    pub fn token_type_and_precision(&self, tokentype: Vec<u8>) -> (r: Option<u64>)
        ensures
            r == self.ledger.precision(tokentype@),
    {
        self.ledger.token_type_and_precision(&tokentype)
    }

    /// The free balance stored under the (asset, account) key.
    pub fn free_token(&self, k: (Vec<u8>, u64)) -> (r: u64)
        ensures
            r == self.ledger.free(k.0@, k.1),
    {
        self.ledger.amount_free(k.1, &k.0)
    }

    /// The locked balance stored under the (asset, account) key.
    pub fn locked_token(&self, k: (Vec<u8>, u64)) -> (r: u64)
        ensures
            r == self.ledger.locked(k.0@, k.1),
    {
        self.ledger.amount_lock(k.1, &k.0)
    }

    /// The free balance of `who` in `tokentype`.
    pub fn amount_free(&self, who: u64, tokentype: &Vec<u8>) -> (r: u64)
        ensures
            r == self.ledger.free(tokentype@, who),
    {
        self.ledger.amount_free(who, tokentype)
    }

    /// The locked balance of `who` in `tokentype`.
    pub fn amount_lock(&self, who: u64, tokentype: &Vec<u8>) -> (r: u64)
        ensures
            r == self.ledger.locked(tokentype@, who),
    {
        self.ledger.amount_lock(who, tokentype)
    }

    /// Mint `value` of `tokentype` into the free balance of `dest`. Succeeds
    /// exactly when the asset is registered and its supply stays within `u64`.
    pub fn depositing_token(&mut self, dest: u64, tokentype: Vec<u8>, value: u64) -> (r: Result<
        (),
        DexError,
    >)
        requires
            old(self).wf(),
        ensures
            final(self).wf(),
            final(self).pairs@ == old(self).pairs@,
            final(self).books@ == old(self).books@,
            final(self).orders@ == old(self).orders@,
            final(self).ledger.types@ == old(self).ledger.types@,
            r is Ok <==> old(self).ledger.is_registered(tokentype@) && old(self).ledger.total(
                tokentype@,
            ) + value <= u64::MAX,
            r is Err ==> final(self).ledger.entries@ == old(self).ledger.entries@,
            !old(self).ledger.is_registered(tokentype@) ==> r == Result::<(), DexError>::Err(
                DexError::UnknownAsset,
            ),
            old(self).ledger.is_registered(tokentype@) && old(self).ledger.total(tokentype@) + value
                > u64::MAX ==> r == Result::<(), DexError>::Err(DexError::Overflow),
            r is Ok ==> forall|t: Seq<u8>, w: u64|
                #![trigger final(self).ledger.free(t, w)]
                final(self).ledger.free(t, w) as int == old(self).ledger.free(t, w) + (if t
                    == tokentype@ && w == dest {
                    value as int
                } else {
                    0
                }),
            forall|t: Seq<u8>, w: u64|
                #![trigger final(self).ledger.locked(t, w)]
                final(self).ledger.locked(t, w) == old(self).ledger.locked(t, w),
            r is Ok ==> forall|t: Seq<u8>|
                #![trigger final(self).ledger.total(t)]
                final(self).ledger.total(t) == old(self).ledger.total(t) + (if t == tokentype@ {
                    value as int
                } else {
                    0
                }),
    {
        let r = self.ledger.mint(dest, &tokentype, value);
        proof {
            assert forall|t: Seq<u8>, w: u64| #![trigger self.ledger.locked(t, w)]
                self.ledger.locked(t, w) == old(self).ledger.locked(t, w) by {}
            lemma_wf_after_ledger_op(*old(self), *self);
        }
        r
    }

    /// Burn `value` of `tokentype` from the free balance of `dest`. Succeeds
    /// exactly when the asset is registered and the free balance covers it.
    pub fn delete_token(&mut self, dest: u64, tokentype: Vec<u8>, value: u64) -> (r: Result<
        (),
        DexError,
    >)
        requires
            old(self).wf(),
        ensures
            final(self).wf(),
            final(self).pairs@ == old(self).pairs@,
            final(self).books@ == old(self).books@,
            final(self).orders@ == old(self).orders@,
            final(self).ledger.types@ == old(self).ledger.types@,
            r is Ok <==> old(self).ledger.is_registered(tokentype@) && old(self).ledger.free(
                tokentype@,
                dest,
            ) >= value,
            r is Err ==> final(self).ledger.entries@ == old(self).ledger.entries@,
            !old(self).ledger.is_registered(tokentype@) ==> r == Result::<(), DexError>::Err(
                DexError::UnknownAsset,
            ),
            old(self).ledger.is_registered(tokentype@) && old(self).ledger.free(tokentype@, dest)
                < value ==> r == Result::<(), DexError>::Err(DexError::InsufficientFree),
            r is Ok ==> forall|t: Seq<u8>, w: u64|
                #![trigger final(self).ledger.free(t, w)]
                final(self).ledger.free(t, w) as int == old(self).ledger.free(t, w) - (if t
                    == tokentype@ && w == dest {
                    value as int
                } else {
                    0
                }),
            forall|t: Seq<u8>, w: u64|
                #![trigger final(self).ledger.locked(t, w)]
                final(self).ledger.locked(t, w) == old(self).ledger.locked(t, w),
            r is Ok ==> forall|t: Seq<u8>|
                #![trigger final(self).ledger.total(t)]
                final(self).ledger.total(t) == old(self).ledger.total(t) - (if t == tokentype@ {
                    value as int
                } else {
                    0
                }),
    {
        let r = self.ledger.burn(dest, &tokentype, value);
        proof {
            assert forall|t: Seq<u8>, w: u64| #![trigger self.ledger.locked(t, w)]
                self.ledger.locked(t, w) == old(self).ledger.locked(t, w) by {}
            lemma_wf_after_ledger_op(*old(self), *self);
        }
        r
    }

    /// Move `value` of `tokentype` between the free balances of two accounts.
    /// Succeeds exactly when the asset is registered and the sender's free
    /// balance covers it; a transfer to oneself changes nothing.
    pub fn transfer_free_token(
        &mut self,
        who: u64,
        dest: u64,
        tokentype: Vec<u8>,
        value: u64,
    ) -> (r: Result<(), DexError>)
        requires
            old(self).wf(),
        ensures
            final(self).wf(),
            final(self).pairs@ == old(self).pairs@,
            final(self).books@ == old(self).books@,
            final(self).orders@ == old(self).orders@,
            final(self).ledger.types@ == old(self).ledger.types@,
            r is Ok <==> old(self).ledger.is_registered(tokentype@) && old(self).ledger.free(
                tokentype@,
                who,
            ) >= value,
            r is Err ==> final(self).ledger.entries@ == old(self).ledger.entries@,
            !old(self).ledger.is_registered(tokentype@) ==> r == Result::<(), DexError>::Err(
                DexError::UnknownAsset,
            ),
            old(self).ledger.is_registered(tokentype@) && old(self).ledger.free(tokentype@, who)
                < value ==> r == Result::<(), DexError>::Err(DexError::InsufficientFree),
            r is Ok ==> forall|t: Seq<u8>, w: u64|
                #![trigger final(self).ledger.free(t, w)]
                final(self).ledger.free(t, w) as int == old(self).ledger.free(t, w) + (if t
                    == tokentype@ {
                    (if w == dest {
                        value as int
                    } else {
                        0
                    }) - (if w == who {
                        value as int
                    } else {
                        0
                    })
                } else {
                    0
                }),
            forall|t: Seq<u8>, w: u64|
                #![trigger final(self).ledger.locked(t, w)]
                final(self).ledger.locked(t, w) == old(self).ledger.locked(t, w),
            forall|t: Seq<u8>|
                #![trigger final(self).ledger.total(t)]
                final(self).ledger.total(t) == old(self).ledger.total(t),
    {
        let r = self.ledger.transfer(who, dest, &tokentype, value);
        proof {
            assert forall|t: Seq<u8>, w: u64| #![trigger self.ledger.locked(t, w)]
                self.ledger.locked(t, w) == old(self).ledger.locked(t, w) by {}
            lemma_wf_after_ledger_op(*old(self), *self);
        }
        r
    }

    /// Whether the market `pair` has been registered.
    pub open spec fn pair_registered(self, pair: OrderPair) -> bool {
        exists|k: int| 0 <= k < self.pairs@.len() && (#[trigger] self.pairs@[k]).eqv(pair)
    }

    /// Whether order `id` rests in some book queue.
    pub open spec fn id_queued(self, id: u128) -> bool {
        exists|p: int, ot: OrderType, l: int, k: int|
            0 <= p < self.pairs@.len() && 0 <= l < self.book_at(p, ot).len() && 0 <= k
                < self.book_at(p, ot)[l].list@.len() && #[trigger] self.book_at(p, ot)[l].list@[k]
                == id
    }

    /// Every id resting in a book queue is below `bound`; ids are assigned in
    /// submission order, so a fresh order is above everything queued.
    pub open spec fn queued_ids_below(self, bound: u128) -> bool {
        forall|p: int, ot: OrderType, l: int, k: int|
            0 <= p < self.pairs@.len() && 0 <= l < self.book_at(p, ot).len() && 0 <= k
                < self.book_at(p, ot)[l].list@.len() ==> #[trigger] self.book_at(p, ot)[l].list@[k]
                < bound
    }

    /// The position of the registered market equal to `pair`, if any.
    fn find_pair(&self, pair: &OrderPair) -> (r: Option<usize>)
        ensures
            match r {
                Some(p) => p < self.pairs@.len() && self.pairs@[p as int].eqv(*pair),
                None => !self.pair_registered(*pair),
            },
    {
        let mut i: usize = 0;
        while i < self.pairs.len()
            invariant
                i <= self.pairs@.len(),
                forall|k: int| 0 <= k < i ==> !(#[trigger] self.pairs@[k]).eqv(*pair),
            decreases self.pairs@.len() - i,
        {
            if bytes_eq(&self.pairs[i].first, &pair.first) && bytes_eq(
                &self.pairs[i].second,
                &pair.second,
            ) {
                return Some(i);
            }
            i = i + 1;
        }
        None
    }

    /// Fails with `BadRequest` exactly when the market is not registered.
    pub fn is_vaild_pair(&self, orderpair: &OrderPair) -> (r: Result<(), DexError>)
        ensures
            r is Ok <==> self.pair_registered(*orderpair),
            r is Err ==> r == Result::<(), DexError>::Err(DexError::BadRequest),
    {
        match self.find_pair(orderpair) {
            Some(_) => Ok(()),
            None => Err(DexError::BadRequest),
        }
    }

    /// Register a new market with two empty books. Fails with `PairExists`
    /// exactly when the same pair was registered before.
    pub fn add_new_order_pair(&mut self, pair: OrderPair) -> (r: Result<(), DexError>)
        requires
            old(self).wf(),
        ensures
            final(self).wf(),
            final(self).ledger == old(self).ledger,
            final(self).orders@ == old(self).orders@,
            r is Ok <==> !old(self).pair_registered(pair),
            r is Err ==> *final(self) == *old(self) && r == Result::<(), DexError>::Err(
                DexError::PairExists,
            ),
            r is Ok ==> {
                &&& final(self).pairs@ == old(self).pairs@.push(pair)
                &&& final(self).books@.len() == old(self).books@.len() + 2
                &&& forall|k: int|
                    0 <= k < old(self).books@.len() ==> final(self).books@[k]
                        == old(self).books@[k]
                &&& final(self).book_at(old(self).pairs@.len() as int, OrderType::Buy).len() == 0
                &&& final(self).book_at(old(self).pairs@.len() as int, OrderType::Sell).len() == 0
            },
    {
        match self.find_pair(&pair) {
            Some(_) => Err(DexError::PairExists),
            None => {
                self.pairs.push(pair);
                self.books.push(Vec::new());
                self.books.push(Vec::new());
                proof {
                    let e1 = *old(self);
                    let e2 = *self;
                    let np = e1.pairs@.len() as int;
                    assert(e2.books@.len() == 2 * e2.pairs@.len());
                    assert forall|p: int, ot: OrderType|
                        0 <= p < e2.pairs@.len() implies book_wf(
                        e2.orders@,
                        e2.pairs@[p],
                        ot,
                        #[trigger] e2.book_at(p, ot),
                    ) by {
                        if p < np {
                            assert(e2.book_at(p, ot) == e1.book_at(p, ot));
                            assert(book_wf(e1.orders@, e1.pairs@[p], ot, e1.book_at(p, ot)));
                            assert(e2.pairs@[p] == e1.pairs@[p]);
                        } else {
                            assert(e2.book_at(p, ot).len() == 0);
                        }
                    }
                    assert(e2.uncrossed()) by {
                        assert forall|p: int, i: int, j: int|
                            0 <= p < e2.pairs@.len() && 0 <= i < e2.book_at(
                                p,
                                OrderType::Buy,
                            ).len() && 0 <= j < e2.book_at(p, OrderType::Sell).len() implies #[trigger] e2.book_at(
                            p,
                            OrderType::Buy,
                        )[i].price < #[trigger] e2.book_at(p, OrderType::Sell)[j].price by {
                            if p < np {
                                assert(e2.book_at(p, OrderType::Buy) == e1.book_at(
                                    p,
                                    OrderType::Buy,
                                ));
                                assert(e2.book_at(p, OrderType::Sell) == e1.book_at(
                                    p,
                                    OrderType::Sell,
                                ));
                                assert(e1.book_at(p, OrderType::Buy)[i].price < e1.book_at(
                                    p,
                                    OrderType::Sell,
                                )[j].price);
                            }
                        }
                    }
                    assert(pairs_unique(e2.pairs@)) by {
                        assert forall|i: int, j: int|
                            0 <= i < j < e2.pairs@.len() implies !(#[trigger] e2.pairs@[i]).eqv(
                            #[trigger] e2.pairs@[j],
                        ) by {
                            if j < np {
                                assert(e2.pairs@[i] == e1.pairs@[i]);
                                assert(e2.pairs@[j] == e1.pairs@[j]);
                            } else {
                                assert(e2.pairs@[i] == e1.pairs@[i]);
                                assert(!e1.pairs@[i].eqv(e2.pairs@[j]));
                            }
                        }
                    }
                    assert forall|t: Seq<u8>, w: u64| #![trigger e2.ledger.locked(t, w)]
                        e2.ledger.locked(t, w) == locked_residual(e2.orders@, t, w) by {
                        assert(e1.ledger.locked(t, w) == locked_residual(e1.orders@, t, w));
                    }
                    assert forall|i: int|
                        0 <= i < e2.orders@.len() && (#[trigger] e2.orders@[i]).status is Valid implies e2.ledger.is_registered(
                        lock_asset(e2.orders@[i]),
                    ) by {
                        assert(e1.orders@[i] == e2.orders@[i]);
                        assert(e1.ledger.is_registered(lock_asset(e1.orders@[i])));
                    }
                }
                Ok(())
            },
        }
    }

    /// The registered markets, in registration order.
    pub fn order_pair_list(&self) -> (r: &Vec<OrderPair>)
        ensures
            r@ == self.pairs@,
    {
        &self.pairs
    }

    /// The number of orders ever placed; the id of the next order will be one
    /// above it.
    pub fn order_index(&self) -> (r: u128)
        ensures
            r == self.orders@.len(),
    {
        self.orders.len() as u128
    }

    /// The record of order `index`, if such an order was ever placed.
    pub fn order_info(&self, index: u128) -> (r: Option<&OrderInformation>)
        ensures
            match r {
                Some(o) => 1 <= index <= self.orders@.len() && *o == self.orders@[index as int - 1],
                None => index < 1 || index > self.orders@.len(),
            },
    {
        if 1 <= index && index <= self.orders.len() as u128 {
            Some(&self.orders[(index - 1) as usize])
        } else {
            None
        }
    }

    /// The price levels of one side of one market's book, best price first;
    /// `None` when the market is not registered.
    pub fn bidlist_for(&self, pair: &OrderPair, ordertype: OrderType) -> (r: Option<&Vec<Bid>>)
        requires
            self.books@.len() == 2 * self.pairs@.len(),
        ensures
            match r {
                Some(levels) => exists|p: int|
                    0 <= p < self.pairs@.len() && (#[trigger] self.pairs@[p]).eqv(*pair)
                        && levels@ == self.book_at(p, ordertype),
                None => !self.pair_registered(*pair),
            },
    {
        match self.find_pair(pair) {
            Some(p) => {
                let n = self.books.len();
                proof {
                    assert(2 * (p as int) + 1 < n);
                }
                let b = match ordertype {
                    OrderType::Buy => 2 * p,
                    OrderType::Sell => 2 * p + 1,
                };
                Some(&self.books[b])
            },
            None => None,
        }
    }
}

/// The loop invariant shape of the matcher: the fills done so far, followed
/// by whatever the model still computes from the current book and remainder,
/// make up exactly the promised outcome.
pub open spec fn model_decomposes(
    m0: MatchModel,
    done: Seq<Fill>,
    orders0: Seq<OrderInformation>,
    book: Seq<LevelModel>,
    ot: OrderType,
    tp: u64,
    left: u64,
) -> bool {
    let rest = match_model(orders0, book, ot, tp, left);
    &&& m0.left == rest.left
    &&& m0.book == rest.book
    &&& m0.fills == done + rest.fills
}

/// What a fill sequence did to the makers: each fill names an existing order
/// other than the taker, of that maker's account and limit price, filled by
/// no more than it had, and the record is updated accordingly.
pub open spec fn makers_updated(
    fills: Seq<Fill>,
    orders0: Seq<OrderInformation>,
    orders: Seq<OrderInformation>,
    taker_id: u128,
) -> bool {
    forall|i: int|
        0 <= i < fills.len() ==> {
            let f = #[trigger] fills[i];
            &&& 1 <= f.maker_id && f.maker_id <= orders0.len()
            &&& f.maker_id != taker_id
            &&& f.maker_who == orders0[f.maker_id as int - 1].who
            &&& f.qty <= orders0[f.maker_id as int - 1].left
            &&& f.price == orders0[f.maker_id as int - 1].price
            &&& order_updated(
                orders0[f.maker_id as int - 1],
                orders[f.maker_id as int - 1],
                taker_id,
                f.qty,
            )
        }
}

/// Orders that are neither the taker nor a maker of some fill are untouched.
pub open spec fn non_parties_unchanged(
    fills: Seq<Fill>,
    orders0: Seq<OrderInformation>,
    orders: Seq<OrderInformation>,
    taker_id: u128,
) -> bool {
    forall|k: int|
        0 <= k < orders0.len() && k != taker_id - 1 && !is_maker(fills, (k + 1) as u128)
            ==> #[trigger] orders[k] == orders0[k]
}

/// One unfolding of the matching model at a crossing, nonempty head level:
/// the head maker is filled by `min(left, maker's left)` at the level price;
/// a consumed maker leaves the queue and matching continues, a partial fill
/// exhausts the taker and stops.
pub proof fn lemma_model_step(
    orders0: Seq<OrderInformation>,
    lvls0: Seq<Bid>,
    ot: OrderType,
    tp: u64,
    left: u64,
)
    requires
        left > 0,
        lvls0.len() > 0,
        crosses(ot, tp, lvls0[0].price),
        lvls0[0].list@.len() > 0,
    ensures
        ({
            let bm = book_model(lvls0);
            let mid = lvls0[0].list@[0];
            let ml = left_of(orders0, mid);
            let f = Fill {
                maker_id: mid,
                maker_who: who_of(orders0, mid),
                qty: if left < ml {
                    left
                } else {
                    ml
                },
                price: lvls0[0].price,
            };
            let m = match_model(orders0, bm, ot, tp, left);
            if ml <= left {
                let bm2 = if lvls0[0].list@.len() == 1 {
                    bm.skip(1)
                } else {
                    bm.update(
                        0,
                        LevelModel { price: lvls0[0].price, queue: lvls0[0].list@.skip(1) },
                    )
                };
                let rest = match_model(orders0, bm2, ot, tp, (left - ml) as u64);
                m == (MatchModel { left: rest.left, book: rest.book, fills: seq![f] + rest.fills })
            } else {
                m == (MatchModel { left: 0u64, book: bm, fills: seq![f] })
            }
        }),
{
    let bm = book_model(lvls0);
    assert(bm.len() == lvls0.len());
    assert(bm[0].price == lvls0[0].price);
    assert(bm[0].queue == lvls0[0].list@);
}

/// How parking the residual of order `id` (quantity `left`, limit `price`)
/// changes one book side, with `j` the position the scan stopped at: either
/// the level at `price` sits there and absorbs the order, or a fresh level
/// appears there, after every strictly better price and before the rest.
pub open spec fn book_inserted_at(
    oldb: Seq<Bid>,
    newb: Seq<Bid>,
    ot: OrderType,
    price: u64,
    left: u64,
    id: u128,
    j: int,
) -> bool {
    &&& 0 <= j <= oldb.len()
    &&& (forall|k: int| 0 <= k < j ==> price_before(ot, (#[trigger] oldb[k]).price, price))
    &&& if j < oldb.len() && oldb[j].price == price {
        &&& newb.len() == oldb.len()
        &&& (forall|k: int| 0 <= k < newb.len() && k != j ==> newb[k] == oldb[k])
        &&& newb[j].price == price
        &&& newb[j].nodeid == oldb[j].nodeid
        &&& newb[j].sum == oldb[j].sum + left
        &&& newb[j].list@ == oldb[j].list@.push(id)
    } else {
        &&& (j == oldb.len() || price_before(ot, price, oldb[j].price))
        &&& newb.len() == oldb.len() + 1
        &&& (forall|k: int| 0 <= k < j ==> newb[k] == oldb[k])
        &&& (forall|k: int| j < k < newb.len() ==> newb[k] == oldb[k - 1])
        &&& newb[j].price == price
        &&& newb[j].sum == left
        &&& newb[j].list@ == seq![id]
    }
}

/// `newb` is `oldb` with the residual of order `id` parked at some position.
pub open spec fn book_inserted(
    oldb: Seq<Bid>,
    newb: Seq<Bid>,
    ot: OrderType,
    price: u64,
    left: u64,
    id: u128,
) -> bool {
    exists|j: int| book_inserted_at(oldb, newb, ot, price, left, id, j)
}

/// Parking a residual preserves a book side's well-formedness: the levels
/// stay sorted with distinct prices and the touched level stays consistent.
pub proof fn lemma_insert_preserves_book(
    orders: Seq<OrderInformation>,
    pair: OrderPair,
    ot: OrderType,
    oldb: Seq<Bid>,
    newb: Seq<Bid>,
    price: u64,
    left: u64,
    id: u128,
    j: int,
)
    requires
        book_wf(orders, pair, ot, oldb),
        queued_ok(orders, pair, ot, price, id),
        left_of(orders, id) == left,
        forall|l: int, k: int|
            0 <= l < oldb.len() && 0 <= k < oldb[l].list@.len() ==> #[trigger] oldb[l].list@[k]
                < id,
        book_inserted_at(oldb, newb, ot, price, left, id, j),
    ensures
        book_wf(orders, pair, ot, newb),
{
    if j < oldb.len() && oldb[j].price == price {
        assert forall|a: int, b: int|
            0 <= a < b < newb.len() implies price_before(ot, newb[a].price, newb[b].price) by {
            assert(newb[a].price == oldb[a].price);
            assert(newb[b].price == oldb[b].price);
            assert(price_before(ot, oldb[a].price, oldb[b].price));
        }
        assert forall|l: int| 0 <= l < newb.len() implies level_wf(
            orders,
            pair,
            ot,
            #[trigger] newb[l],
        ) by {
            assert(level_wf(orders, pair, ot, oldb[l]));
            if l == j {
                lemma_queue_sum_push(orders, oldb[j].list@, id);
                let q = newb[j].list@;
                assert forall|k: int| 0 <= k < q.len() implies queued_ok(
                    orders,
                    pair,
                    ot,
                    newb[j].price,
                    #[trigger] q[k],
                ) by {
                    if k < oldb[j].list@.len() {
                        assert(q[k] == oldb[j].list@[k]);
                    } else {
                        assert(q[k] == id);
                    }
                }
                assert forall|k1: int, k2: int| 0 <= k1 < k2 < q.len() implies q[k1] < q[k2] by {
                    if k2 < oldb[j].list@.len() {
                        assert(q[k1] == oldb[j].list@[k1] && q[k2] == oldb[j].list@[k2]);
                    } else {
                        assert(q[k1] == oldb[j].list@[k1] && q[k2] == id);
                    }
                }
            }
        }
    } else {
        assert forall|a: int, b: int|
            0 <= a < b < newb.len() implies price_before(ot, newb[a].price, newb[b].price) by {
            if b < j {
                assert(newb[a] == oldb[a] && newb[b] == oldb[b]);
                assert(price_before(ot, oldb[a].price, oldb[b].price));
            } else if a < j && b == j {
                assert(newb[a] == oldb[a]);
                assert(price_before(ot, oldb[a].price, price));
            } else if a < j && b > j {
                assert(newb[a] == oldb[a] && newb[b] == oldb[b - 1]);
                assert(price_before(ot, oldb[a].price, oldb[b - 1].price));
            } else if a == j {
                assert(newb[b] == oldb[b - 1]);
                assert(j < oldb.len());
                assert(price_before(ot, price, oldb[j].price));
                if b - 1 > j {
                    assert(price_before(ot, oldb[j].price, oldb[b - 1].price));
                }
            } else {
                assert(newb[a] == oldb[a - 1] && newb[b] == oldb[b - 1]);
                assert(price_before(ot, oldb[a - 1].price, oldb[b - 1].price));
            }
        }
        assert forall|l: int| 0 <= l < newb.len() implies level_wf(
            orders,
            pair,
            ot,
            #[trigger] newb[l],
        ) by {
            if l < j {
                assert(newb[l] == oldb[l]);
                assert(level_wf(orders, pair, ot, oldb[l]));
            } else if l > j {
                assert(newb[l] == oldb[l - 1]);
                assert(level_wf(orders, pair, ot, oldb[l - 1]));
            } else {
                let q = newb[j].list@;
                assert(q == seq![id]);
                assert(q[0] == id);
                assert(q.skip(1) =~= Seq::<u128>::empty());
                assert(queue_sum(orders, Seq::<u128>::empty()) == 0);
                assert(queue_sum(orders, q) == left_of(orders, id));
            }
        }
    }
}

/// Whether some level of `levels` is priced at `price`.
pub open spec fn price_present(levels: Seq<Bid>, price: u64) -> bool {
    exists|k: int| 0 <= k < levels.len() && (#[trigger] levels[k]).price == price
}

/// How matching may change an order record: its identity is untouched, its
/// unfilled quantity only shrinks, an open order stays open or finishes, and
/// a closed order is left alone.
pub open spec fn order_evolved(o1: OrderInformation, o2: OrderInformation) -> bool {
    &&& o2.who == o1.who
    &&& o2.ordertype == o1.ordertype
    &&& o2.pair == o1.pair
    &&& o2.amount == o1.amount
    &&& o2.price == o1.price
    &&& o2.index == o1.index
    &&& o2.time == o1.time
    &&& o2.left <= o1.left
    &&& (o1.status is Valid ==> (o2.status is Valid || o2.status is Finished))
    &&& (!(o1.status is Valid) ==> o2 == o1)
}

/// The asset a submission of this side must lock: quote for a buy, base for
/// a sell.
pub open spec fn lock_asset_of(pair: OrderPair, ordertype: OrderType) -> Seq<u8> {
    match ordertype {
        OrderType::Buy => pair.second@,
        OrderType::Sell => pair.first@,
    }
}

/// The collateral a submission of this side must lock: the full payment for
/// a buy, the goods for a sell.
pub open spec fn lock_amount(ordertype: OrderType, price: u64, amount: u64) -> int {
    match ordertype {
        OrderType::Buy => price * amount,
        OrderType::Sell => amount as int,
    }
}

/// A book references only existing orders, so appending a fresh order record
/// leaves every book fact intact.
pub proof fn lemma_book_wf_push(
    orders: Seq<OrderInformation>,
    o: OrderInformation,
    pair: OrderPair,
    ot: OrderType,
    levels: Seq<Bid>,
)
    requires
        book_wf(orders, pair, ot, levels),
    ensures
        book_wf(orders.push(o), pair, ot, levels),
{
    let orders2 = orders.push(o);
    assert forall|l: int| 0 <= l < levels.len() implies level_wf(
        orders2,
        pair,
        ot,
        #[trigger] levels[l],
    ) by {
        assert(level_wf(orders, pair, ot, levels[l]));
        let q = levels[l].list@;
        assert forall|k: int| 0 <= k < q.len() implies queued_ok(
            orders2,
            pair,
            ot,
            levels[l].price,
            #[trigger] q[k],
        ) && left_of(orders2, q[k]) == left_of(orders, q[k]) by {
            assert(queued_ok(orders, pair, ot, levels[l].price, q[k]));
            assert(orders2[q[k] as int - 1] == orders[q[k] as int - 1]);
        }
        lemma_queue_sum_congruent(orders, orders2, q);
    }
}

/// After its collateral is locked and its record appended, a fresh order
/// leaves the engine invariant intact, and its id is above everything queued.
pub proof fn lemma_wf_after_new_order(e1: Engine, e2: Engine, o: OrderInformation)
    requires
        e1.wf(),
        o.status is Valid,
        o.left == o.amount,
        1 <= o.amount,
        1 <= o.price,
        o.price * o.amount <= u64::MAX,
        o.index == e1.orders@.len() + 1,
        e2.orders@ == e1.orders@.push(o),
        e2.pairs@ == e1.pairs@,
        e2.books@ == e1.books@,
        e2.ledger.types@ == e1.ledger.types@,
        e2.ledger.wf(),
        e2.ledger.is_registered(lock_asset(o)),
        forall|t: Seq<u8>, w: u64|
            #![trigger e2.ledger.locked(t, w)]
            e2.ledger.locked(t, w) as int == e1.ledger.locked(t, w) + (if t == lock_asset(o) && w
                == o.who {
                residual_lock(o)
            } else {
                0
            }),
    ensures
        e2.wf(),
        e2.queued_ids_below(o.index),
{
    assert forall|i: int| 0 <= i < e2.orders@.len() implies order_rec_wf(
        #[trigger] e2.orders@[i],
        i,
    ) by {
        if i < e1.orders@.len() {
            assert(e2.orders@[i] == e1.orders@[i]);
            assert(order_rec_wf(e1.orders@[i], i));
        } else {
            assert(e2.orders@[i] == o);
        }
    }
    assert forall|p: int, ot: OrderType|
        0 <= p < e2.pairs@.len() implies book_wf(
        e2.orders@,
        e2.pairs@[p],
        ot,
        #[trigger] e2.book_at(p, ot),
    ) by {
        assert(e2.book_at(p, ot) == e1.book_at(p, ot));
        assert(book_wf(e1.orders@, e1.pairs@[p], ot, e1.book_at(p, ot)));
        lemma_book_wf_push(e1.orders@, o, e1.pairs@[p], ot, e1.book_at(p, ot));
    }
    assert(e2.uncrossed()) by {
        assert forall|p: int, i: int, j: int|
            0 <= p < e2.pairs@.len() && 0 <= i < e2.book_at(p, OrderType::Buy).len() && 0 <= j
                < e2.book_at(p, OrderType::Sell).len() implies #[trigger] e2.book_at(
            p,
            OrderType::Buy,
        )[i].price < #[trigger] e2.book_at(p, OrderType::Sell)[j].price by {
            assert(e2.book_at(p, OrderType::Buy) == e1.book_at(p, OrderType::Buy));
            assert(e2.book_at(p, OrderType::Sell) == e1.book_at(p, OrderType::Sell));
            assert(e1.book_at(p, OrderType::Buy)[i].price < e1.book_at(p, OrderType::Sell)[j].price);
        }
    }
    assert forall|t: Seq<u8>, w: u64| #![trigger e2.ledger.locked(t, w)]
        e2.ledger.locked(t, w) == locked_residual(e2.orders@, t, w) by {
        lemma_residual_push(e1.orders@, o, t, w);
        assert(e1.ledger.locked(t, w) == locked_residual(e1.orders@, t, w));
    }
    assert forall|i: int|
        0 <= i < e2.orders@.len() && (#[trigger] e2.orders@[i]).status is Valid implies e2.ledger.is_registered(
        lock_asset(e2.orders@[i]),
    ) by {
        if i < e1.orders@.len() {
            assert(e2.orders@[i] == e1.orders@[i]);
            assert(e1.ledger.is_registered(lock_asset(e1.orders@[i])));
            assert(e2.ledger.precision(lock_asset(e1.orders@[i])) == e1.ledger.precision(
                lock_asset(e1.orders@[i]),
            ));
        } else {
            assert(e2.orders@[i] == o);
        }
    }
    assert forall|p: int, ot: OrderType, l: int, k: int|
        0 <= p < e2.pairs@.len() && 0 <= l < e2.book_at(p, ot).len() && 0 <= k < e2.book_at(
            p,
            ot,
        )[l].list@.len() implies #[trigger] e2.book_at(p, ot)[l].list@[k] < o.index by {
        assert(e2.book_at(p, ot) == e1.book_at(p, ot));
        assert(book_wf(e1.orders@, e1.pairs@[p], ot, e1.book_at(p, ot)));
        assert(level_wf(e1.orders@, e1.pairs@[p], ot, e1.book_at(p, ot)[l]));
        assert(queued_ok(
            e1.orders@,
            e1.pairs@[p],
            ot,
            e1.book_at(p, ot)[l].price,
            e1.book_at(p, ot)[l].list@[k],
        ));
    }
}

/// A price level whose queue references neither changed order keeps its
/// well-formedness when those two orders change.
pub proof fn lemma_level_wf_two_changed(
    orders1: Seq<OrderInformation>,
    orders2: Seq<OrderInformation>,
    pair: OrderPair,
    ot: OrderType,
    lvl: Bid,
    id_a: u128,
    id_b: u128,
)
    requires
        level_wf(orders1, pair, ot, lvl),
        orders1.len() == orders2.len(),
        forall|k: int|
            0 <= k < orders1.len() && k != id_a - 1 && k != id_b - 1 ==> orders2[k] == orders1[k],
        forall|k: int|
            0 <= k < lvl.list@.len() ==> #[trigger] lvl.list@[k] != id_a && lvl.list@[k] != id_b,
    ensures
        level_wf(orders2, pair, ot, lvl),
{
    let q = lvl.list@;
    assert forall|k: int| 0 <= k < q.len() implies queued_ok(
        orders2,
        pair,
        ot,
        lvl.price,
        #[trigger] q[k],
    ) by {
        assert(queued_ok(orders1, pair, ot, lvl.price, q[k]));
        assert(orders2[q[k] as int - 1] == orders1[q[k] as int - 1]);
    }
    assert forall|k: int| 0 <= k < q.len() implies left_of(orders2, #[trigger] q[k]) == left_of(
        orders1,
        q[k],
    ) by {
        assert(queued_ok(orders1, pair, ot, lvl.price, q[k]));
        assert(orders2[q[k] as int - 1] == orders1[q[k] as int - 1]);
    }
    lemma_queue_sum_congruent(orders1, orders2, q);
}

/// After one fill settles and both of its orders are updated, the locked
/// balances again equal the open orders' summed collateral: the ledger
/// released from the buyer exactly the buyer order's collateral for the
/// filled quantity, and from the seller exactly the filled base.
pub proof fn lemma_fill_accounting(
    ledger0: Ledger,
    ledger1: Ledger,
    orders0: Seq<OrderInformation>,
    orders2: Seq<OrderInformation>,
    m: int,
    t: int,
    base: Seq<u8>,
    quote: Seq<u8>,
    fill: u64,
    lock_price: u64,
    seller: u64,
    buyer: u64,
    ot: OrderType,
)
    requires
        0 <= m < orders0.len(),
        0 <= t < orders0.len(),
        m != t,
        orders2.len() == orders0.len(),
        forall|k: int| 0 <= k < orders0.len() && k != m && k != t ==> orders2[k] == orders0[k],
        orders0[m].status is Valid,
        orders0[t].status is Valid,
        fill <= orders0[m].left,
        fill <= orders0[t].left,
        order_updated(orders0[m], orders2[m], orders0[t].index, fill),
        order_updated(orders0[t], orders2[t], orders0[m].index, fill),
        orders0[m].ordertype == spec_opposite(ot),
        orders0[t].ordertype == ot,
        orders0[m].pair.first@ == base,
        orders0[m].pair.second@ == quote,
        orders0[t].pair.first@ == base,
        orders0[t].pair.second@ == quote,
        seller == (if ot is Buy {
            orders0[m].who
        } else {
            orders0[t].who
        }),
        buyer == (if ot is Buy {
            orders0[t].who
        } else {
            orders0[m].who
        }),
        lock_price == (if ot is Buy {
            orders0[t].price
        } else {
            orders0[m].price
        }),
        forall|t2: Seq<u8>, w: u64|
            #![trigger ledger1.locked(t2, w)]
            ledger1.locked(t2, w) as int == ledger0.locked(t2, w) - (if t2 == quote && w == buyer {
                fill * lock_price
            } else {
                0
            }) - (if t2 == base && w == seller {
                fill as int
            } else {
                0
            }),
        forall|t2: Seq<u8>, w: u64|
            #![trigger ledger0.locked(t2, w)]
            ledger0.locked(t2, w) == locked_residual(orders0, t2, w),
    ensures
        forall|t2: Seq<u8>, w: u64|
            #![trigger ledger1.locked(t2, w)]
            ledger1.locked(t2, w) == locked_residual(orders2, t2, w),
{
    let mko = orders0[m];
    let tko = orders0[t];
    let m2 = orders2[m];
    let t2o = orders2[t];
    vstd::arithmetic::mul::lemma_mul_is_distributive_sub(
        tko.price as int,
        tko.left as int,
        fill as int,
    );
    vstd::arithmetic::mul::lemma_mul_is_distributive_sub(
        mko.price as int,
        mko.left as int,
        fill as int,
    );
    vstd::arithmetic::mul::lemma_mul_basics(tko.price as int);
    vstd::arithmetic::mul::lemma_mul_basics(mko.price as int);
    vstd::arithmetic::mul::lemma_mul_is_commutative(tko.price as int, fill as int);
    vstd::arithmetic::mul::lemma_mul_is_commutative(mko.price as int, fill as int);
    assert(orders0.update(m, m2)[t] == tko);
    assert(orders2 =~= orders0.update(m, m2).update(t, t2o));
    assert(residual_contrib(m2, lock_asset(mko), mko.who) == residual_contrib(
        mko,
        lock_asset(mko),
        mko.who,
    ) - (if mko.ordertype is Buy {
        mko.price * fill
    } else {
        fill as int
    }));
    assert(residual_contrib(t2o, lock_asset(tko), tko.who) == residual_contrib(
        tko,
        lock_asset(tko),
        tko.who,
    ) - (if tko.ordertype is Buy {
        tko.price * fill
    } else {
        fill as int
    }));
    assert forall|t2: Seq<u8>, w: u64| #![trigger ledger1.locked(t2, w)]
        ledger1.locked(t2, w) == locked_residual(orders2, t2, w) by {
        lemma_residual_update(orders0, m, m2, t2, w);
        lemma_residual_update(orders0.update(m, m2), t, t2o, t2, w);
        assert(ledger0.locked(t2, w) == locked_residual(orders0, t2, w));
        assert(residual_contrib(m2, t2, w) == residual_contrib(mko, t2, w) - (if t2 == lock_asset(
            mko,
        ) && w == mko.who {
            if mko.ordertype is Buy {
                mko.price * fill
            } else {
                fill as int
            }
        } else {
            0
        }));
        assert(residual_contrib(t2o, t2, w) == residual_contrib(tko, t2, w) - (if t2 == lock_asset(
            tko,
        ) && w == tko.who {
            if tko.ordertype is Buy {
                tko.price * fill
            } else {
                fill as int
            }
        } else {
            0
        }));
    }
}

/// A book of another market, or of the taker's own side, references neither
/// order of a fill, so it stays well-formed when the fill is recorded.
pub proof fn lemma_untouched_book_after_fill(
    orders0: Seq<OrderInformation>,
    orders2: Seq<OrderInformation>,
    pairs: Seq<OrderPair>,
    pp: int,
    p: int,
    ot2: OrderType,
    find_type: OrderType,
    bk: Seq<Bid>,
    maker_id: u128,
    taker_id: u128,
)
    requires
        pairs_unique(pairs),
        0 <= pp < pairs.len(),
        0 <= p < pairs.len(),
        !(pp == p && ot2 == find_type),
        book_wf(orders0, pairs[pp], ot2, bk),
        forall|l: int, k: int|
            0 <= l < bk.len() && 0 <= k < bk[l].list@.len() ==> #[trigger] bk[l].list@[k]
                < taker_id,
        1 <= maker_id <= orders0.len(),
        orders0[maker_id as int - 1].pair.eqv(pairs[p]),
        orders0[maker_id as int - 1].ordertype == find_type,
        orders2.len() == orders0.len(),
        forall|k: int|
            0 <= k < orders0.len() && k != maker_id - 1 && k != taker_id - 1 ==> orders2[k]
                == orders0[k],
    ensures
        book_wf(orders2, pairs[pp], ot2, bk),
{
    assert forall|l: int, k: int|
        0 <= l < bk.len() && 0 <= k < bk[l].list@.len() implies #[trigger] bk[l].list@[k]
        != maker_id && bk[l].list@[k] != taker_id by {
        if bk[l].list@[k] == maker_id {
            assert(queued_ok(orders0, pairs[pp], ot2, bk[l].price, maker_id));
            assert(orders0[maker_id as int - 1].pair.eqv(pairs[pp]));
            if pp != p {
                assert(pairs[pp].eqv(pairs[p]));
                if pp < p {
                    assert(!pairs[pp].eqv(pairs[p]));
                } else {
                    assert(!pairs[p].eqv(pairs[pp]));
                    assert(pairs[p].eqv(pairs[pp]));
                }
            } else {
                assert(orders0[maker_id as int - 1].ordertype == ot2);
            }
        }
    }
    lemma_book_wf_two_changed(orders0, orders2, pairs[pp], ot2, bk, maker_id, taker_id);
}

/// A book side whose queues reference neither changed order keeps its
/// well-formedness when those two orders change.
pub proof fn lemma_book_wf_two_changed(
    orders1: Seq<OrderInformation>,
    orders2: Seq<OrderInformation>,
    pair: OrderPair,
    ot: OrderType,
    levels: Seq<Bid>,
    id_a: u128,
    id_b: u128,
)
    requires
        book_wf(orders1, pair, ot, levels),
        orders1.len() == orders2.len(),
        forall|k: int|
            0 <= k < orders1.len() && k != id_a - 1 && k != id_b - 1 ==> orders2[k] == orders1[k],
        forall|l: int, k: int|
            0 <= l < levels.len() && 0 <= k < levels[l].list@.len() ==> #[trigger] levels[l].list@[k]
                != id_a && levels[l].list@[k] != id_b,
    ensures
        book_wf(orders2, pair, ot, levels),
{
    assert forall|l: int| 0 <= l < levels.len() implies level_wf(
        orders2,
        pair,
        ot,
        #[trigger] levels[l],
    ) by {
        assert(level_wf(orders1, pair, ot, levels[l]));
        let q = levels[l].list@;
        assert forall|k: int| 0 <= k < q.len() implies queued_ok(
            orders2,
            pair,
            ot,
            levels[l].price,
            #[trigger] q[k],
        ) by {
            assert(queued_ok(orders1, pair, ot, levels[l].price, q[k]));
            assert(orders2[q[k] as int - 1] == orders1[q[k] as int - 1]);
        }
        assert forall|k: int| 0 <= k < q.len() implies left_of(orders2, #[trigger] q[k]) == left_of(
            orders1,
            q[k],
        ) by {
            assert(queued_ok(orders1, pair, ot, levels[l].price, q[k]));
            assert(orders2[q[k] as int - 1] == orders1[q[k] as int - 1]);
        }
        lemma_queue_sum_congruent(orders1, orders2, q);
    }
}

/// How removing the resting order `id` (unfilled quantity `left`) changes one
/// book side: the level at position `j` held it at queue position `k`, and
/// either the level's last order left with it, or the level shrank by it.
pub open spec fn book_removed_at(
    oldb: Seq<Bid>,
    newb: Seq<Bid>,
    id: u128,
    left: u64,
    j: int,
    k: int,
) -> bool {
    &&& 0 <= j < oldb.len()
    &&& 0 <= k < oldb[j].list@.len()
    &&& oldb[j].list@[k] == id
    &&& if oldb[j].list@.len() == 1 {
        newb == oldb.remove(j)
    } else {
        &&& newb.len() == oldb.len()
        &&& (forall|l: int| 0 <= l < newb.len() && l != j ==> newb[l] == oldb[l])
        &&& newb[j].price == oldb[j].price
        &&& newb[j].nodeid == oldb[j].nodeid
        &&& newb[j].sum == oldb[j].sum - left
        &&& newb[j].list@ == oldb[j].list@.remove(k)
    }
}

/// An engine whose ledger, orders and pairs are untouched and whose books
/// read the same keeps the whole invariant.
pub proof fn lemma_wf_books_views_equal(e0: Engine, e2: Engine)
    requires
        e0.wf(),
        e2.ledger == e0.ledger,
        e2.orders@ == e0.orders@,
        e2.pairs@ == e0.pairs@,
        e2.books@.len() == e0.books@.len(),
        forall|pp: int, ot2: OrderType|
            0 <= pp < e0.pairs@.len() ==> #[trigger] e2.book_at(pp, ot2) == e0.book_at(pp, ot2),
    ensures
        e2.wf(),
{
    assert forall|pp: int, ot2: OrderType|
        0 <= pp < e2.pairs@.len() implies book_wf(
        e2.orders@,
        e2.pairs@[pp],
        ot2,
        #[trigger] e2.book_at(pp, ot2),
    ) by {
        assert(e2.book_at(pp, ot2) == e0.book_at(pp, ot2));
        assert(book_wf(e0.orders@, e0.pairs@[pp], ot2, e0.book_at(pp, ot2)));
    }
    assert(e2.uncrossed()) by {
        assert forall|pp: int, i: int, jj: int|
            0 <= pp < e2.pairs@.len() && 0 <= i < e2.book_at(pp, OrderType::Buy).len() && 0 <= jj
                < e2.book_at(pp, OrderType::Sell).len() implies #[trigger] e2.book_at(
            pp,
            OrderType::Buy,
        )[i].price < #[trigger] e2.book_at(pp, OrderType::Sell)[jj].price by {
            assert(e2.book_at(pp, OrderType::Buy) == e0.book_at(pp, OrderType::Buy));
            assert(e2.book_at(pp, OrderType::Sell) == e0.book_at(pp, OrderType::Sell));
            assert(e0.book_at(pp, OrderType::Buy)[i].price < e0.book_at(
                pp,
                OrderType::Sell,
            )[jj].price);
        }
    }
    assert forall|t: Seq<u8>, w: u64| #![trigger e2.ledger.locked(t, w)]
        e2.ledger.locked(t, w) == locked_residual(e2.orders@, t, w) by {
        assert(e0.ledger.locked(t, w) == locked_residual(e0.orders@, t, w));
    }
    assert forall|i: int|
        0 <= i < e2.orders@.len() && (#[trigger] e2.orders@[i]).status is Valid implies e2.ledger.is_registered(
        lock_asset(e2.orders@[i]),
    ) by {
        assert(e0.orders@[i] == e2.orders@[i]);
        assert(e0.ledger.is_registered(lock_asset(e0.orders@[i])));
    }
}

/// An order whose market was never registered rests in no book queue.
pub proof fn lemma_not_queued_unregistered(e: Engine, index: u128, pr: OrderPair)
    requires
        e.wf(),
        1 <= index <= e.orders@.len(),
        pr.first@ == e.orders@[index as int - 1].pair.first@,
        pr.second@ == e.orders@[index as int - 1].pair.second@,
        !e.pair_registered(pr),
    ensures
        !e.id_queued(index),
{
    assert forall|p: int, ot: OrderType, l: int, k: int|
        0 <= p < e.pairs@.len() && 0 <= l < e.book_at(p, ot).len() && 0 <= k < e.book_at(
            p,
            ot,
        )[l].list@.len() implies #[trigger] e.book_at(p, ot)[l].list@[k] != index by {
        if e.book_at(p, ot)[l].list@[k] == index {
            assert(book_wf(e.orders@, e.pairs@[p], ot, e.book_at(p, ot)));
            assert(level_wf(e.orders@, e.pairs@[p], ot, e.book_at(p, ot)[l]));
            assert(queued_ok(
                e.orders@,
                e.pairs@[p],
                ot,
                e.book_at(p, ot)[l].price,
                index,
            ));
            assert(e.pairs@[p].eqv(pr));
        }
    }
}

/// An order whose own book side holds no level at its price rests nowhere.
pub proof fn lemma_not_queued_no_level(e: Engine, index: u128, p: int, oldb: Seq<Bid>)
    requires
        e.wf(),
        1 <= index <= e.orders@.len(),
        0 <= p < e.pairs@.len(),
        e.pairs@[p].eqv(e.orders@[index as int - 1].pair),
        oldb == e.book_at(p, e.orders@[index as int - 1].ordertype),
        forall|l: int|
            0 <= l < oldb.len() ==> (#[trigger] oldb[l]).price != e.orders@[index as int - 1].price,
    ensures
        !e.id_queued(index),
{
    let o = e.orders@[index as int - 1];
    assert forall|pp: int, ot2: OrderType, l: int, k: int|
        0 <= pp < e.pairs@.len() && 0 <= l < e.book_at(pp, ot2).len() && 0 <= k < e.book_at(
            pp,
            ot2,
        )[l].list@.len() implies #[trigger] e.book_at(pp, ot2)[l].list@[k] != index by {
        if e.book_at(pp, ot2)[l].list@[k] == index {
            assert(book_wf(e.orders@, e.pairs@[pp], ot2, e.book_at(pp, ot2)));
            assert(level_wf(e.orders@, e.pairs@[pp], ot2, e.book_at(pp, ot2)[l]));
            assert(queued_ok(
                e.orders@,
                e.pairs@[pp],
                ot2,
                e.book_at(pp, ot2)[l].price,
                index,
            ));
            if pp != p {
                assert(e.pairs@[pp].eqv(e.pairs@[p]));
                if pp < p {
                    assert(!e.pairs@[pp].eqv(e.pairs@[p]));
                } else {
                    assert(!e.pairs@[p].eqv(e.pairs@[pp]));
                    assert(e.pairs@[p].eqv(e.pairs@[pp]));
                }
            } else {
                assert(ot2 == o.ordertype);
                assert(oldb[l].price == o.price);
            }
        }
    }
}

/// An order absent from the queue of the one level at its price rests
/// nowhere: levels of a side carry distinct prices, and other books trade
/// other markets or the other side.
pub proof fn lemma_not_queued_no_slot(e0: Engine, e2: Engine, index: u128, p: int, j: int)
    requires
        e0.wf(),
        1 <= index <= e0.orders@.len(),
        0 <= p < e0.pairs@.len(),
        e0.pairs@[p].eqv(e0.orders@[index as int - 1].pair),
        0 <= j < e0.book_at(p, e0.orders@[index as int - 1].ordertype).len(),
        e0.book_at(p, e0.orders@[index as int - 1].ordertype)[j].price == e0.orders@[index as int
            - 1].price,
        forall|k: int|
            0 <= k < e0.book_at(p, e0.orders@[index as int - 1].ordertype)[j].list@.len()
                ==> #[trigger] e0.book_at(p, e0.orders@[index as int - 1].ordertype)[j].list@[k]
                != index,
        e2.pairs@ == e0.pairs@,
        e2.books@.len() == e0.books@.len(),
        forall|pp: int, ot2: OrderType|
            0 <= pp < e0.pairs@.len() ==> #[trigger] e2.book_at(pp, ot2) == e0.book_at(pp, ot2),
    ensures
        !e2.id_queued(index),
{
    let o = e0.orders@[index as int - 1];
    let ot = o.ordertype;
    assert forall|pp: int, ot2: OrderType, l: int, k: int|
        0 <= pp < e2.pairs@.len() && 0 <= l < e2.book_at(pp, ot2).len() && 0 <= k < e2.book_at(
            pp,
            ot2,
        )[l].list@.len() implies #[trigger] e2.book_at(pp, ot2)[l].list@[k] != index by {
        assert(e2.book_at(pp, ot2) == e0.book_at(pp, ot2));
        if e0.book_at(pp, ot2)[l].list@[k] == index {
            assert(book_wf(e0.orders@, e0.pairs@[pp], ot2, e0.book_at(pp, ot2)));
            assert(level_wf(e0.orders@, e0.pairs@[pp], ot2, e0.book_at(pp, ot2)[l]));
            assert(queued_ok(
                e0.orders@,
                e0.pairs@[pp],
                ot2,
                e0.book_at(pp, ot2)[l].price,
                index,
            ));
            if pp != p {
                assert(e0.pairs@[pp].eqv(e0.pairs@[p]));
                if pp < p {
                    assert(!e0.pairs@[pp].eqv(e0.pairs@[p]));
                } else {
                    assert(!e0.pairs@[p].eqv(e0.pairs@[pp]));
                    assert(e0.pairs@[p].eqv(e0.pairs@[pp]));
                }
            } else {
                assert(ot2 == ot);
                // levels of one side carry distinct prices
                if l != j {
                    assert(price_before(ot, e0.book_at(p, ot)[l].price, e0.book_at(p, ot)[j].price)
                        || price_before(
                        ot,
                        e0.book_at(p, ot)[j].price,
                        e0.book_at(p, ot)[l].price,
                    ));
                }
            }
        }
    }
}

/// Removing one resting order from its level leaves the whole engine
/// invariant intact, and the order rests nowhere afterwards.
pub proof fn lemma_wf_after_removal(
    e0: Engine,
    e2: Engine,
    index: u128,
    p: int,
    b: int,
    ot: OrderType,
    oldb: Seq<Bid>,
    lvls2: Seq<Bid>,
    j: int,
    k: int,
)
    requires
        e0.wf(),
        1 <= index <= e0.orders@.len(),
        0 <= p < e0.pairs@.len(),
        ot == e0.orders@[index as int - 1].ordertype,
        b == Engine::book_index(p, ot),
        oldb == e0.book_at(p, ot),
        forall|l: int| 0 <= l < j ==> (#[trigger] oldb[l]).price != e0.orders@[index as int - 1].price,
        forall|l: int| 0 <= l < k ==> oldb[j].list@[l] != index,
        book_removed_at(oldb, lvls2, index, e0.orders@[index as int - 1].left, j, k),
        e2.ledger == e0.ledger,
        e2.orders@ == e0.orders@,
        e2.pairs@ == e0.pairs@,
        e2.books@.len() == e0.books@.len(),
        forall|kk: int| 0 <= kk < e2.books@.len() && kk != b ==> e2.books@[kk] == e0.books@[kk],
        e2.book_at(p, ot) == lvls2,
    ensures
        e2.wf(),
        !e2.id_queued(index),
{
    let o = e0.orders@[index as int - 1];
    let orders = e0.orders@;
    let pair = e0.pairs@[p];
    let dropped = oldb[j].list@.len() == 1;
    assert(book_wf(orders, pair, ot, oldb));
    assert(level_wf(orders, pair, ot, oldb[j]));
    assert(queued_ok(orders, pair, ot, oldb[j].price, index));
    assert(oldb[j].price == o.price);
    // the shrunk book side is still well-formed
    assert(book_wf(orders, pair, ot, lvls2)) by {
        assert forall|a: int, c: int|
            0 <= a < c < lvls2.len() implies price_before(ot, lvls2[a].price, lvls2[c].price) by {
            if dropped {
                let a0 = if a < j {
                    a
                } else {
                    a + 1
                };
                let c0 = if c < j {
                    c
                } else {
                    c + 1
                };
                assert(lvls2[a] == oldb[a0] && lvls2[c] == oldb[c0]);
                assert(price_before(ot, oldb[a0].price, oldb[c0].price));
            } else {
                assert(lvls2[a].price == oldb[a].price);
                assert(lvls2[c].price == oldb[c].price);
                assert(price_before(ot, oldb[a].price, oldb[c].price));
            }
        }
        assert forall|l: int| 0 <= l < lvls2.len() implies level_wf(
            orders,
            pair,
            ot,
            #[trigger] lvls2[l],
        ) by {
            if dropped {
                let l0 = if l < j {
                    l
                } else {
                    l + 1
                };
                assert(lvls2[l] == oldb[l0]);
                assert(level_wf(orders, pair, ot, oldb[l0]));
            } else if l != j {
                assert(lvls2[l] == oldb[l]);
                assert(level_wf(orders, pair, ot, oldb[l]));
            } else {
                let q = oldb[j].list@;
                let q2 = lvls2[j].list@;
                assert(q2 == q.remove(k));
                lemma_queue_sum_remove(orders, q, k);
                assert forall|a: int| 0 <= a < q2.len() implies queued_ok(
                    orders,
                    pair,
                    ot,
                    lvls2[j].price,
                    #[trigger] q2[a],
                ) by {
                    if a < k {
                        assert(q2[a] == q[a]);
                    } else {
                        assert(q2[a] == q[a + 1]);
                    }
                }
                assert forall|a: int, c: int| 0 <= a < c < q2.len() implies q2[a] < q2[c] by {
                    let a0 = if a < k {
                        a
                    } else {
                        a + 1
                    };
                    let c0 = if c < k {
                        c
                    } else {
                        c + 1
                    };
                    assert(q2[a] == q[a0] && q2[c] == q[c0]);
                }
            }
        }
    }
    assert forall|pp: int, ot2: OrderType|
        0 <= pp < e2.pairs@.len() implies book_wf(
        e2.orders@,
        e2.pairs@[pp],
        ot2,
        #[trigger] e2.book_at(pp, ot2),
    ) by {
        if pp == p && ot2 == ot {
            assert(e2.book_at(pp, ot2) == lvls2);
        } else {
            assert(Engine::book_index(pp, ot2) != b);
            assert(e2.book_at(pp, ot2) == e0.book_at(pp, ot2));
            assert(book_wf(e0.orders@, e0.pairs@[pp], ot2, e0.book_at(pp, ot2)));
        }
    }
    assert(e2.uncrossed()) by {
        assert forall|pp: int, i: int, jj: int|
            0 <= pp < e2.pairs@.len() && 0 <= i < e2.book_at(pp, OrderType::Buy).len() && 0 <= jj
                < e2.book_at(pp, OrderType::Sell).len() implies #[trigger] e2.book_at(
            pp,
            OrderType::Buy,
        )[i].price < #[trigger] e2.book_at(pp, OrderType::Sell)[jj].price by {
            if pp != p {
                assert(e2.book_at(pp, OrderType::Buy) == e0.book_at(pp, OrderType::Buy));
                assert(e2.book_at(pp, OrderType::Sell) == e0.book_at(pp, OrderType::Sell));
                assert(e0.book_at(pp, OrderType::Buy)[i].price < e0.book_at(
                    pp,
                    OrderType::Sell,
                )[jj].price);
            } else {
                let (own_i, opp_side) = if ot is Buy {
                    (i, OrderType::Sell)
                } else {
                    (jj, OrderType::Buy)
                };
                assert(e2.book_at(pp, opp_side) == e0.book_at(pp, opp_side));
                // the surviving level carries a price the old book held
                let i0 = if dropped && own_i >= j {
                    own_i + 1
                } else {
                    own_i
                };
                assert(lvls2[own_i].price == oldb[i0].price);
                if ot is Buy {
                    assert(e0.book_at(pp, OrderType::Buy)[i0].price < e0.book_at(
                        pp,
                        OrderType::Sell,
                    )[jj].price);
                } else {
                    assert(e0.book_at(pp, OrderType::Buy)[i].price < e0.book_at(
                        pp,
                        OrderType::Sell,
                    )[i0].price);
                }
            }
        }
    }
    assert forall|t: Seq<u8>, w: u64| #![trigger e2.ledger.locked(t, w)]
        e2.ledger.locked(t, w) == locked_residual(e2.orders@, t, w) by {
        assert(e0.ledger.locked(t, w) == locked_residual(e0.orders@, t, w));
    }
    assert forall|i: int|
        0 <= i < e2.orders@.len() && (#[trigger] e2.orders@[i]).status is Valid implies e2.ledger.is_registered(
        lock_asset(e2.orders@[i]),
    ) by {
        assert(e0.orders@[i] == e2.orders@[i]);
        assert(e0.ledger.is_registered(lock_asset(e0.orders@[i])));
    }
    // the order rests nowhere any more
    assert forall|pp: int, ot2: OrderType, l: int, kk: int|
        0 <= pp < e2.pairs@.len() && 0 <= l < e2.book_at(pp, ot2).len() && 0 <= kk < e2.book_at(
            pp,
            ot2,
        )[l].list@.len() implies #[trigger] e2.book_at(pp, ot2)[l].list@[kk] != index by {
        if e2.book_at(pp, ot2)[l].list@[kk] == index {
            if pp == p && ot2 == ot {
                assert(level_wf(orders, pair, ot, lvls2[l]));
                assert(queued_ok(orders, pair, ot, lvls2[l].price, index));
                assert(lvls2[l].price == o.price);
                if dropped {
                    let l0 = if l < j {
                        l
                    } else {
                        l + 1
                    };
                    assert(lvls2[l] == oldb[l0]);
                    assert(l0 != j);
                    assert(price_before(ot, oldb[l0].price, oldb[j].price) || price_before(
                        ot,
                        oldb[j].price,
                        oldb[l0].price,
                    ));
                } else if l != j {
                    assert(lvls2[l] == oldb[l]);
                    assert(price_before(ot, oldb[l].price, oldb[j].price) || price_before(
                        ot,
                        oldb[j].price,
                        oldb[l].price,
                    ));
                } else {
                    let q = oldb[j].list@;
                    let q2 = lvls2[j].list@;
                    assert(q2 == q.remove(k));
                    let k0 = if kk < k {
                        kk
                    } else {
                        kk + 1
                    };
                    assert(q2[kk] == q[k0]);
                    assert(k0 != k);
                    // queue entries are strictly increasing, so `index`
                    // appeared only at position k
                    if k0 < k {
                        assert(q[k0] < q[k]);
                    } else {
                        assert(q[k] < q[k0]);
                    }
                }
            } else {
                assert(e2.book_at(pp, ot2) == e0.book_at(pp, ot2));
                assert(book_wf(e0.orders@, e0.pairs@[pp], ot2, e0.book_at(pp, ot2)));
                assert(level_wf(e0.orders@, e0.pairs@[pp], ot2, e0.book_at(pp, ot2)[l]));
                assert(queued_ok(
                    e0.orders@,
                    e0.pairs@[pp],
                    ot2,
                    e0.book_at(pp, ot2)[l].price,
                    index,
                ));
                assert(o.pair.eqv(e0.pairs@[pp]));
                assert(o.pair.eqv(e0.pairs@[p]));
                if pp != p {
                    assert(e0.pairs@[pp].eqv(e0.pairs@[p]));
                    if pp < p {
                        assert(!e0.pairs@[pp].eqv(e0.pairs@[p]));
                    } else {
                        assert(!e0.pairs@[p].eqv(e0.pairs@[pp]));
                        assert(e0.pairs@[p].eqv(e0.pairs@[pp]));
                    }
                } else {
                    assert(ot2 == ot);
                }
            }
        }
    }
}

/// How a fill of `amount` changes one of its two orders: the unfilled
/// quantity drops by `amount`, the counterparty is recorded, the order
/// becomes Finished exactly when nothing is left, and its identity stands.
pub open spec fn order_updated(
    o_old: OrderInformation,
    o_new: OrderInformation,
    counterparty: u128,
    amount: u64,
) -> bool {
    &&& o_new.left == o_old.left - amount
    &&& o_new.status == (if o_old.left == amount {
        OrderStatus::Finished
    } else {
        o_old.status
    })
    &&& o_new.fill_index@ == o_old.fill_index@.push(counterparty)
    &&& o_new.who == o_old.who
    &&& o_new.ordertype == o_old.ordertype
    &&& o_new.pair == o_old.pair
    &&& o_new.amount == o_old.amount
    &&& o_new.price == o_old.price
    &&& o_new.index == o_old.index
    &&& o_new.time == o_old.time
}

impl Engine {
    /// Record one fill of `amount` base units against both of its orders:
    /// each loses `amount` of its unfilled quantity, learns the other as a
    /// counterparty, and is Finished once nothing is left. Fails with
    /// `UnknownOrder` when either id was never assigned, and with
    /// `InvariantViolation` when the ids coincide or either order has less
    /// than `amount` unfilled; on failure nothing changes. The books and the
    /// ledger are left to the matcher, which settles each fill alongside.
    pub fn modify_order_and_generate_the_deal_record(
        &mut self,
        index_a: u128,
        index_b: u128,
        amount: u64,
        _price: u64,
    ) -> (r: Result<(), DexError>)
        ensures
            r is Ok <==> {
                &&& 1 <= index_a <= old(self).orders@.len()
                &&& 1 <= index_b <= old(self).orders@.len()
                &&& index_a != index_b
                &&& old(self).orders@[index_a as int - 1].left >= amount
                &&& old(self).orders@[index_b as int - 1].left >= amount
            },
            r is Err ==> *final(self) == *old(self),
            (!(1 <= index_a <= old(self).orders@.len()) || !(1 <= index_b <= old(self).orders@.len())) ==> r == Result::<(), DexError>::Err(DexError::UnknownOrder),
            (1 <= index_a <= old(self).orders@.len() && 1 <= index_b <= old(self).orders@.len() && (
            index_a == index_b || old(self).orders@[index_a as int - 1].left < amount || old(
                self,
            ).orders@[index_b as int - 1].left < amount)) ==> r == Result::<(), DexError>::Err(
                DexError::InvariantViolation,
            ),
            r is Ok ==> {
                &&& final(self).orders@.len() == old(self).orders@.len()
                &&& order_updated(
                    old(self).orders@[index_a as int - 1],
                    final(self).orders@[index_a as int - 1],
                    index_b,
                    amount,
                )
                &&& order_updated(
                    old(self).orders@[index_b as int - 1],
                    final(self).orders@[index_b as int - 1],
                    index_a,
                    amount,
                )
                &&& forall|k: int|
                    0 <= k < old(self).orders@.len() && k != index_a - 1 && k != index_b - 1
                        ==> final(self).orders@[k] == old(self).orders@[k]
                &&& final(self).ledger == old(self).ledger
                &&& final(self).pairs@ == old(self).pairs@
                &&& final(self).books@ == old(self).books@
                &&& final(self).nodeid == old(self).nodeid
                &&& final(self).block_number == old(self).block_number
            },
    {
        let n = self.orders.len() as u128;
        if !(1 <= index_a && index_a <= n) || !(1 <= index_b && index_b <= n) {
            return Err(DexError::UnknownOrder);
        }
        if index_a == index_b {
            return Err(DexError::InvariantViolation);
        }
        let ia = (index_a - 1) as usize;
        let ib = (index_b - 1) as usize;
        if self.orders[ia].left < amount || self.orders[ib].left < amount {
            return Err(DexError::InvariantViolation);
        }
        let mut order_a = self.orders.remove(ia);
        order_a.money_change(amount);
        order_a.fill_index.push(index_b);
        self.orders.insert(ia, order_a);
        proof {
            assert(self.orders@ =~= old(self).orders@.update(ia as int, self.orders@[ia as int]));
        }
        let ghost mid = self.orders@;
        let mut order_b = self.orders.remove(ib);
        order_b.money_change(amount);
        order_b.fill_index.push(index_a);
        self.orders.insert(ib, order_b);
        proof {
            assert(self.orders@ =~= mid.update(ib as int, self.orders@[ib as int]));
        }
        Ok(())
    }

    /// Park the unfilled remainder of order `id` in its own book: join the
    /// level at its price if one exists, else splice in a fresh level so that
    /// better prices stay ahead. The order must not cross the opposite book;
    /// the matcher has already consumed everything that crossed.
    #[verifier::rlimit(100)]
    fn insert_bid_list(&mut self, p: usize, id: u128)
        requires
            old(self).wf(),
            p < old(self).pairs@.len(),
            1 <= id <= old(self).orders@.len(),
            queued_ok(
                old(self).orders@,
                old(self).pairs@[p as int],
                old(self).orders@[id as int - 1].ordertype,
                old(self).orders@[id as int - 1].price,
                id,
            ),
            old(self).queued_ids_below(id),
            forall|j: int|
                0 <= j < old(self).book_at(
                    p as int,
                    spec_opposite(old(self).orders@[id as int - 1].ordertype),
                ).len() ==> !crosses(
                    old(self).orders@[id as int - 1].ordertype,
                    old(self).orders@[id as int - 1].price,
                    (#[trigger] old(self).book_at(
                        p as int,
                        spec_opposite(old(self).orders@[id as int - 1].ordertype),
                    )[j]).price,
                ),
        ensures
            final(self).wf(),
            final(self).ledger == old(self).ledger,
            final(self).orders@ == old(self).orders@,
            final(self).pairs@ == old(self).pairs@,
            final(self).block_number == old(self).block_number,
            final(self).books@.len() == old(self).books@.len(),
            final(self).queued_ids_below((id + 1) as u128),
            final(self).id_queued(id),
            forall|pp: int, ot2: OrderType|
                0 <= pp < final(self).pairs@.len() && !(pp == p as int && ot2 == old(self).orders@[id as int - 1].ordertype) ==> #[trigger] final(self).book_at(pp, ot2)
                    == old(self).book_at(pp, ot2),
            book_inserted(
                old(self).book_at(p as int, old(self).orders@[id as int - 1].ordertype),
                final(self).book_at(p as int, old(self).orders@[id as int - 1].ordertype),
                old(self).orders@[id as int - 1].ordertype,
                old(self).orders@[id as int - 1].price,
                old(self).orders@[id as int - 1].left,
                id,
            ),
    {
        let no = self.orders.len();
        proof {
            assert(id - 1 < no);
        }
        let idx = (id - 1) as usize;
        let ot = self.orders[idx].ordertype;
        let price = self.orders[idx].price;
        let left = self.orders[idx].left;
        let nb = self.books.len();
        proof {
            assert(2 * (p as int) + 1 < nb);
        }
        let b: usize = match ot {
            OrderType::Buy => 2 * p,
            OrderType::Sell => 2 * p + 1,
        };
        proof {
            assert(Engine::book_index(p as int, ot) == b);
            assert(old(self).book_at(p as int, ot) == self.books@[b as int]@);
        }
        let mut levels: Vec<Bid> = Vec::new();
        self.books.set_and_swap(b, &mut levels);
        let ghost oldb = levels@;
        let mut j: usize = 0;
        while j < levels.len() && price_before_exec(ot, levels[j].price, price)
            invariant
                j <= levels@.len(),
                forall|k: int| 0 <= k < j ==> price_before(ot, (#[trigger] levels@[k]).price, price),
            decreases levels@.len() - j,
        {
            j = j + 1;
        }
        if j < levels.len() && levels[j].price == price {
            // an existing level at this price: extend its queue and sum
            let mut lvl = levels.remove(j);
            let ll = lvl.list.len();
            proof {
                lemma_queue_sum_le(self.orders@, lvl.list@);
                assert((ll as int) * (u64::MAX as int) + (u64::MAX as int) <= u128::MAX)
                    by (nonlinear_arith)
                    requires
                        ll as int <= 0xffff_ffff_ffff_ffffu64 as int,
                ;
                assert(level_wf(self.orders@, self.pairs@[p as int], ot, oldb[j as int]));
            }
            lvl.sum = lvl.sum + (left as u128);
            lvl.list.push(id);
            levels.insert(j, lvl);
            proof {
                assert(levels@ =~= oldb.update(j as int, levels@[j as int]));
                lemma_queue_sum_push(self.orders@, oldb[j as int].list@, id);
            }
        } else {
            // no level at this price: splice a new one in at position j
            let nid = self.new_nodeid();
            let mut list: Vec<u128> = Vec::new();
            list.push(id);
            let lvl = Bid { nodeid: nid, price, sum: left as u128, list };
            proof {
                assert(lvl.list@ =~= seq![id]);
                assert(seq![id].skip(1) =~= Seq::<u128>::empty());
                assert(queue_sum(self.orders@, Seq::<u128>::empty()) == 0);
            }
            levels.insert(j, lvl);
        }
        self.books.set_and_swap(b, &mut levels);
        proof {
            let e1 = *old(self);
            let e2 = *self;
            assert(e2.books@ =~= e1.books@.update(b as int, e2.books@[b as int]));
            let newb = e2.book_at(p as int, ot);
            assert(newb == e2.books@[b as int]@);
            assert(oldb == e1.book_at(p as int, ot));
            assert(book_wf(e1.orders@, e1.pairs@[p as int], ot, oldb));
            assert(book_inserted_at(oldb, newb, ot, price, left, id, j as int));
            assert forall|l: int, k: int|
                0 <= l < oldb.len() && 0 <= k < oldb[l].list@.len() implies #[trigger] oldb[l].list@[k]
                < id by {
                assert(e1.book_at(p as int, ot)[l].list@[k] < id);
            }
            lemma_insert_preserves_book(
                e1.orders@,
                e1.pairs@[p as int],
                ot,
                oldb,
                newb,
                price,
                left,
                id,
                j as int,
            );
            assert forall|pp: int, ot2: OrderType|
                0 <= pp < e2.pairs@.len() && !(pp == p as int && ot2 == ot) implies #[trigger] e2.book_at(
                pp,
                ot2,
            ) == e1.book_at(pp, ot2) by {
                assert(Engine::book_index(pp, ot2) != b as int);
            }
            assert forall|pp: int, ot2: OrderType|
                0 <= pp < e2.pairs@.len() implies book_wf(
                e2.orders@,
                e2.pairs@[pp],
                ot2,
                #[trigger] e2.book_at(pp, ot2),
            ) by {
                assert(book_wf(e1.orders@, e1.pairs@[pp], ot2, e1.book_at(pp, ot2)));
                if !(pp == p as int && ot2 == ot) {
                    assert(e2.book_at(pp, ot2) == e1.book_at(pp, ot2));
                }
            }
            // each new-book level carries either the inserted price, which the
            // opposite side does not cross, or a price the old book held
            assert(e2.uncrossed()) by {
                assert forall|pp: int, i: int, jj: int|
                    0 <= pp < e2.pairs@.len() && 0 <= i < e2.book_at(pp, OrderType::Buy).len() && 0
                        <= jj < e2.book_at(pp, OrderType::Sell).len() implies #[trigger] e2.book_at(
                    pp,
                    OrderType::Buy,
                )[i].price < #[trigger] e2.book_at(pp, OrderType::Sell)[jj].price by {
                    if pp != p as int {
                        assert(e2.book_at(pp, OrderType::Buy) == e1.book_at(pp, OrderType::Buy));
                        assert(e2.book_at(pp, OrderType::Sell) == e1.book_at(pp, OrderType::Sell));
                        assert(e1.book_at(pp, OrderType::Buy)[i].price < e1.book_at(
                            pp,
                            OrderType::Sell,
                        )[jj].price);
                    } else {
                        let (own_i, opp_i, opp_ot) = if ot is Buy {
                            (i, jj, OrderType::Sell)
                        } else {
                            (jj, i, OrderType::Buy)
                        };
                        assert(e2.book_at(pp, opp_ot) == e1.book_at(pp, opp_ot));
                        // locate the own-side level in the old book, unless it
                        // is the fresh one at the inserted price
                        if (j as int) < oldb.len() && oldb[j as int].price == price {
                            assert(newb[own_i].price == oldb[own_i].price);
                            assert(e1.book_at(pp, OrderType::Buy)[i].price < e1.book_at(
                                pp,
                                OrderType::Sell,
                            )[jj].price);
                        } else {
                            if own_i < j as int {
                                assert(newb[own_i] == oldb[own_i]);
                                assert(e1.book_at(pp, OrderType::Buy)[i].price < e1.book_at(
                                    pp,
                                    OrderType::Sell,
                                )[jj].price);
                            } else if own_i > j as int {
                                assert(newb[own_i] == oldb[own_i - 1]);
                                if ot is Buy {
                                    assert(e1.book_at(pp, OrderType::Buy)[own_i - 1].price
                                        < e1.book_at(pp, OrderType::Sell)[jj].price);
                                } else {
                                    assert(e1.book_at(pp, OrderType::Buy)[i].price < e1.book_at(
                                        pp,
                                        OrderType::Sell,
                                    )[own_i - 1].price);
                                }
                            } else {
                                assert(newb[own_i].price == price);
                                assert(!crosses(ot, price, e1.book_at(pp, opp_ot)[opp_i].price));
                            }
                        }
                    }
                }
            }
            assert forall|t: Seq<u8>, w: u64| #![trigger e2.ledger.locked(t, w)]
                e2.ledger.locked(t, w) == locked_residual(e2.orders@, t, w) by {
                assert(e1.ledger.locked(t, w) == locked_residual(e1.orders@, t, w));
            }
            assert forall|i: int|
                0 <= i < e2.orders@.len() && (#[trigger] e2.orders@[i]).status is Valid implies e2.ledger.is_registered(
                lock_asset(e2.orders@[i]),
            ) by {
                assert(e1.orders@[i] == e2.orders@[i]);
                assert(e1.ledger.is_registered(lock_asset(e1.orders@[i])));
            }
            assert(e2.queued_ids_below((id + 1) as u128)) by {
                assert forall|pp: int, ot2: OrderType, l: int, k: int|
                    0 <= pp < e2.pairs@.len() && 0 <= l < e2.book_at(pp, ot2).len() && 0 <= k
                        < e2.book_at(pp, ot2)[l].list@.len() implies #[trigger] e2.book_at(
                    pp,
                    ot2,
                )[l].list@[k] < id + 1 by {
                    if pp == p as int && ot2 == ot {
                        if (j as int) < oldb.len() && oldb[j as int].price == price {
                            if l == j as int {
                                if k < oldb[l].list@.len() {
                                    assert(newb[l].list@[k] == oldb[l].list@[k]);
                                    assert(e1.book_at(pp, ot2)[l].list@[k] < id);
                                } else {
                                    assert(newb[l].list@[k] == id);
                                }
                            } else {
                                assert(newb[l] == oldb[l]);
                                assert(e1.book_at(pp, ot2)[l].list@[k] < id);
                            }
                        } else {
                            if l < j as int {
                                assert(newb[l] == oldb[l]);
                                assert(e1.book_at(pp, ot2)[l].list@[k] < id);
                            } else if l > j as int {
                                assert(newb[l] == oldb[l - 1]);
                                assert(e1.book_at(pp, ot2)[l - 1].list@[k] < id);
                            } else {
                                assert(newb[l].list@[k] == id);
                            }
                        }
                    } else {
                        assert(e2.book_at(pp, ot2) == e1.book_at(pp, ot2));
                        assert(e1.book_at(pp, ot2)[l].list@[k] < id);
                    }
                }
            }
            assert(e2.id_queued(id)) by {
                if (j as int) < oldb.len() && oldb[j as int].price == price {
                    assert(newb[j as int].list@[oldb[j as int].list@.len() as int] == id);
                } else {
                    assert(newb[j as int].list@[0] == id);
                }
                assert(e2.book_at(p as int, ot)[j as int].list@.len() > 0);
            }
        }
    }

    /// Match the fresh order `taker_id` against the opposite side of its
    /// market's book, best price first. Each fill trades at the resting
    /// maker's price, settles through the ledger (refunding a buyer's
    /// over-lock), is recorded on both orders, and shrinks or removes the
    /// maker's level; matching stops when the taker is spent or the best
    /// remaining level no longer crosses. The contract pins the whole
    /// outcome to `match_model`: exactly the modelled fills happen, in that
    /// order, and nothing else moves.
    #[verifier::rlimit(100)]
    fn do_match(&mut self, p: usize, taker_id: u128)
        requires
            old(self).wf(),
            p < old(self).pairs@.len(),
            1 <= taker_id <= old(self).orders@.len(),
            old(self).queued_ids_below(taker_id),
            old(self).orders@[taker_id as int - 1].status is Valid,
            old(self).orders@[taker_id as int - 1].pair.eqv(old(self).pairs@[p as int]),
        ensures
            final(self).wf(),
            final(self).pairs@ == old(self).pairs@,
            final(self).nodeid == old(self).nodeid,
            final(self).block_number == old(self).block_number,
            final(self).ledger.types@ == old(self).ledger.types@,
            final(self).books@.len() == old(self).books@.len(),
            final(self).orders@.len() == old(self).orders@.len(),
            forall|k: int|
                0 <= k < old(self).orders@.len() ==> order_evolved(
                    old(self).orders@[k],
                    #[trigger] final(self).orders@[k],
                ),
            forall|t: Seq<u8>|
                #![trigger final(self).ledger.total(t)]
                final(self).ledger.total(t) == old(self).ledger.total(t),
            final(self).queued_ids_below(taker_id),
            forall|pp: int, ot2: OrderType|
                0 <= pp < old(self).pairs@.len() && !(pp == p as int && ot2 == spec_opposite(
                    old(self).orders@[taker_id as int - 1].ordertype,
                )) ==> #[trigger] final(self).book_at(pp, ot2) == old(self).book_at(pp, ot2),
            final(self).orders@[taker_id as int - 1].status == (if final(self).orders@[taker_id as int
                - 1].left == 0 {
                OrderStatus::Finished
            } else {
                OrderStatus::Valid
            }),
            final(self).orders@[taker_id as int - 1].left > 0 ==> forall|j: int|
                0 <= j < final(self).book_at(
                    p as int,
                    spec_opposite(old(self).orders@[taker_id as int - 1].ordertype),
                ).len() ==> !crosses(
                    old(self).orders@[taker_id as int - 1].ordertype,
                    old(self).orders@[taker_id as int - 1].price,
                    (#[trigger] final(self).book_at(
                        p as int,
                        spec_opposite(old(self).orders@[taker_id as int - 1].ordertype),
                    )[j]).price,
                ),
            final(self).orders@[taker_id as int - 1].left == old(self).orders@[taker_id as int
                - 1].left ==> final(self).ledger == old(self).ledger && final(self).orders@ == old(self).orders@ && final(self).books@ == old(self).books@,
            // the matching model: exactly these fills happened, in this order
            final(self).orders@[taker_id as int - 1].left == old(self).match_outcome(
                p as int,
                taker_id,
            ).left,
            book_model(
                final(self).book_at(
                    p as int,
                    spec_opposite(old(self).orders@[taker_id as int - 1].ordertype),
                ),
            ) == old(self).match_outcome(p as int, taker_id).book,
            final(self).orders@[taker_id as int - 1].fill_index@ == old(self).orders@[taker_id as int
                - 1].fill_index@ + fills_makers(old(self).match_outcome(p as int, taker_id).fills),
            makers_updated(
                old(self).match_outcome(p as int, taker_id).fills,
                old(self).orders@,
                final(self).orders@,
                taker_id,
            ),
            non_parties_unchanged(
                old(self).match_outcome(p as int, taker_id).fills,
                old(self).orders@,
                final(self).orders@,
                taker_id,
            ),
            forall|t: Seq<u8>, w: u64|
                #![trigger final(self).ledger.free(t, w)]
                final(self).ledger.free(t, w) as int == old(self).ledger.free(t, w)
                    + fills_free_delta(
                    old(self).match_outcome(p as int, taker_id).fills,
                    old(self).orders@[taker_id as int - 1].ordertype,
                    old(self).orders@[taker_id as int - 1].price,
                    old(self).orders@[taker_id as int - 1].who,
                    old(self).orders@[taker_id as int - 1].pair.first@,
                    old(self).orders@[taker_id as int - 1].pair.second@,
                    t,
                    w,
                ),
            forall|t: Seq<u8>, w: u64|
                #![trigger final(self).ledger.locked(t, w)]
                final(self).ledger.locked(t, w) as int == old(self).ledger.locked(t, w)
                    + fills_locked_delta(
                    old(self).match_outcome(p as int, taker_id).fills,
                    old(self).orders@[taker_id as int - 1].ordertype,
                    old(self).orders@[taker_id as int - 1].price,
                    old(self).orders@[taker_id as int - 1].who,
                    old(self).orders@[taker_id as int - 1].pair.first@,
                    old(self).orders@[taker_id as int - 1].pair.second@,
                    t,
                    w,
                ),
    {
        let no = self.orders.len();
        proof {
            assert(taker_id - 1 < no);
        }
        let t_idx = (taker_id - 1) as usize;
        let ot = self.orders[t_idx].ordertype;
        let taker_price = self.orders[t_idx].price;
        let taker_who = self.orders[t_idx].who;
        let find_type = opposite(ot);
        let base = clone_bytes(&self.orders[t_idx].pair.first);
        let quote = clone_bytes(&self.orders[t_idx].pair.second);
        let nb = self.books.len();
        proof {
            assert(2 * (p as int) + 1 < nb);
        }
        let b: usize = match find_type {
            OrderType::Buy => 2 * p,
            OrderType::Sell => 2 * p + 1,
        };
        proof {
            assert(Engine::book_index(p as int, find_type) == b);
            assert(old(self).book_at(p as int, find_type) == self.books@[b as int]@);
        }
        let mut levels: Vec<Bid> = Vec::new();
        self.books.set_and_swap(b, &mut levels);
        let ghost e0 = *old(self);
        let ghost oldopp = e0.book_at(p as int, find_type);
        let ghost book_vec0 = levels;
        let ghost m0 = e0.match_outcome(p as int, taker_id);
        let ghost mut fills: Seq<Fill> = Seq::<Fill>::empty();
        let ghost tfi0 = e0.orders@[t_idx as int].fill_index@;
        proof {
            assert(levels@ == oldopp);
            assert(book_vec0 == e0.books@[b as int]);
            assert(m0 == match_model(
                e0.orders@,
                book_model(oldopp),
                ot,
                taker_price,
                e0.orders@[t_idx as int].left,
            ));
            assert(Seq::<Fill>::empty() + m0.fills =~= m0.fills);
            assert(tfi0 + fills_makers(fills) =~= tfi0) by {
                assert(fills_makers(fills).len() == 0);
            }
            assert forall|t2: Seq<u8>, w: u64|
                #![trigger self.ledger.free(t2, w)]
                #![trigger self.ledger.locked(t2, w)]
                self.ledger.free(t2, w) as int == e0.ledger.free(t2, w) + fills_free_delta(
                    fills,
                    ot,
                    taker_price,
                    taker_who,
                    base@,
                    quote@,
                    t2,
                    w,
                ) && self.ledger.locked(t2, w) as int == e0.ledger.locked(t2, w)
                + fills_locked_delta(fills, ot, taker_price, taker_who, base@, quote@, t2, w) by {}
            assert(book_wf(e0.orders@, e0.pairs@[p as int], find_type, oldopp));
            assert forall|l: int, k: int|
                0 <= l < levels@.len() && 0 <= k < levels@[l].list@.len() implies #[trigger] levels@[l].list@[k]
                < taker_id by {
                assert(e0.book_at(p as int, find_type)[l].list@[k] < taker_id);
            }
            assert forall|pp: int, ot2: OrderType|
                0 <= pp < e0.pairs@.len() && !(pp == p as int && ot2 == find_type) implies book_wf(
                self.orders@,
                self.pairs@[pp],
                ot2,
                #[trigger] self.book_at(pp, ot2),
            ) && self.book_at(pp, ot2) == e0.book_at(pp, ot2) by {
                assert(Engine::book_index(pp, ot2) != b as int);
                assert(book_wf(e0.orders@, e0.pairs@[pp], ot2, e0.book_at(pp, ot2)));
            }
        }
        while self.orders[t_idx].left > 0 && levels.len() > 0 && crosses_exec(
            ot,
            taker_price,
            levels[0].price,
        )
            invariant
                // the fixed frame
                t_idx == taker_id - 1,
                taker_id - 1 < self.orders@.len(),
                no == e0.orders@.len(),
                p < e0.pairs@.len(),
                e0 == *old(self),
                e0.wf(),
                e0.queued_ids_below(taker_id),
                e0.orders@[t_idx as int].status is Valid,
                e0.orders@[t_idx as int].pair.eqv(e0.pairs@[p as int]),
                oldopp == e0.book_at(p as int, find_type),
                b == Engine::book_index(p as int, find_type),
                b < e0.books@.len(),
                find_type == spec_opposite(ot),
                ot == e0.orders@[t_idx as int].ordertype,
                taker_price == e0.orders@[t_idx as int].price,
                taker_who == e0.orders@[t_idx as int].who,
                base@ == e0.orders@[t_idx as int].pair.first@,
                quote@ == e0.orders@[t_idx as int].pair.second@,
                // untouched engine parts
                self.pairs@ == e0.pairs@,
                self.nodeid == e0.nodeid,
                self.block_number == e0.block_number,
                self.ledger.types@ == e0.ledger.types@,
                self.books@.len() == e0.books@.len(),
                forall|k: int|
                    0 <= k < self.books@.len() && k != b ==> self.books@[k] == e0.books@[k],
                self.books@[b as int]@.len() == 0,
                // the orders only evolve
                self.orders@.len() == e0.orders@.len(),
                orders_wf(self.orders@),
                forall|k: int|
                    0 <= k < self.orders@.len() ==> order_evolved(
                        e0.orders@[k],
                        #[trigger] self.orders@[k],
                    ),
                // the detached book side stays well-formed
                self.ledger.wf(),
                book_wf(self.orders@, e0.pairs@[p as int], find_type, levels@),
                forall|i: int|
                    0 <= i < levels@.len() ==> price_present(oldopp, (#[trigger] levels@[i]).price),
                forall|l: int, k: int|
                    0 <= l < levels@.len() && 0 <= k < levels@[l].list@.len()
                        ==> #[trigger] levels@[l].list@[k] < taker_id,
                // untouched books stay well-formed against the moving orders
                forall|pp: int, ot2: OrderType|
                    0 <= pp < e0.pairs@.len() && !(pp == p as int && ot2 == find_type) ==> book_wf(
                        self.orders@,
                        self.pairs@[pp],
                        ot2,
                        #[trigger] self.book_at(pp, ot2),
                    ) && self.book_at(pp, ot2) == e0.book_at(pp, ot2),
                // the collateral accounting and conservation
                forall|t2: Seq<u8>, w: u64|
                    #![trigger self.ledger.locked(t2, w)]
                    self.ledger.locked(t2, w) == locked_residual(self.orders@, t2, w),
                forall|t2: Seq<u8>|
                    #![trigger self.ledger.total(t2)]
                    self.ledger.total(t2) == e0.ledger.total(t2),
                // an untouched taker means nothing has happened yet
                book_vec0 == e0.books@[b as int],
                self.orders@[t_idx as int].left == e0.orders@[t_idx as int].left ==> self.ledger
                    == e0.ledger && self.orders@ == e0.orders@ && levels == book_vec0,
                // the fills done so far plus the model of what remains make
                // up exactly the promised outcome
                m0 == e0.match_outcome(p as int, taker_id),
                tfi0 == e0.orders@[t_idx as int].fill_index@,
                model_decomposes(
                    m0,
                    fills,
                    e0.orders@,
                    book_model(levels@),
                    ot,
                    taker_price,
                    self.orders@[t_idx as int].left,
                ),
                // while matching continues, every queued maker is untouched
                // and not yet filled
                self.orders@[t_idx as int].left > 0 ==> forall|l: int, k: int|
                    #![trigger levels@[l].list@[k]]
                    0 <= l < levels@.len() && 0 <= k < levels@[l].list@.len()
                        ==> self.orders@[levels@[l].list@[k] as int - 1] == e0.orders@[levels@[l].list@[k] as int
                        - 1] && !is_maker(fills, levels@[l].list@[k]),
                // the ledger reflects exactly the fills done so far
                forall|t2: Seq<u8>, w: u64|
                    #![trigger self.ledger.free(t2, w)]
                    self.ledger.free(t2, w) as int == e0.ledger.free(t2, w) + fills_free_delta(
                        fills,
                        ot,
                        taker_price,
                        taker_who,
                        base@,
                        quote@,
                        t2,
                        w,
                    ),
                forall|t2: Seq<u8>, w: u64|
                    #![trigger self.ledger.locked(t2, w)]
                    self.ledger.locked(t2, w) as int == e0.ledger.locked(t2, w)
                        + fills_locked_delta(
                        fills,
                        ot,
                        taker_price,
                        taker_who,
                        base@,
                        quote@,
                        t2,
                        w,
                    ),
                // the orders reflect exactly the fills done so far
                makers_updated(fills, e0.orders@, self.orders@, taker_id),
                non_parties_unchanged(fills, e0.orders@, self.orders@, taker_id),
                self.orders@[t_idx as int].fill_index@ == tfi0 + fills_makers(fills),
            decreases self.orders@[t_idx as int].left,
        {
            let ghost s_in = *self;
            let ghost orders0 = self.orders@;
            let ghost ledger0 = self.ledger;
            proof {
                assert(level_wf(self.orders@, e0.pairs@[p as int], find_type, levels@[0]));
            }
            let maker_id = levels[0].list[0];
            proof {
                assert(queued_ok(
                    self.orders@,
                    e0.pairs@[p as int],
                    find_type,
                    levels@[0].price,
                    maker_id,
                ));
                assert(maker_id < taker_id);
                assert(maker_id - 1 < no);
            }
            let m_idx = (maker_id - 1) as usize;
            let maker_price = levels[0].price;
            let maker_who = self.orders[m_idx].who;
            let maker_left = self.orders[m_idx].left;
            let taker_left = self.orders[t_idx].left;
            let fill = if taker_left < maker_left {
                taker_left
            } else {
                maker_left
            };
            let ghost newf = Fill {
                maker_id,
                maker_who,
                qty: fill,
                price: maker_price,
            };
            let seller: u64;
            let buyer: u64;
            let lock_price: u64;
            match ot {
                OrderType::Buy => {
                    seller = maker_who;
                    buyer = taker_who;
                    lock_price = taker_price;
                },
                OrderType::Sell => {
                    seller = taker_who;
                    buyer = maker_who;
                    lock_price = maker_price;
                },
            }
            proof {
                let tko = orders0[t_idx as int];
                let mko = orders0[m_idx as int];
                assert(order_rec_wf(tko, t_idx as int));
                assert(order_rec_wf(mko, m_idx as int));
                assert(order_evolved(e0.orders@[t_idx as int], tko));
                assert(tko.price == taker_price && tko.who == taker_who && tko.ordertype == ot);
                assert(tko.pair.first@ == base@ && tko.pair.second@ == quote@);
                assert(mko.price == maker_price && mko.who == maker_who && mko.left == maker_left);
                // the taker is still open: something is left and it never was canceled
                assert(tko.status is Valid);
                // both orders of the fill trade the same market
                assert(mko.pair.first@ == base@ && mko.pair.second@ == quote@);
                vstd::arithmetic::mul::lemma_mul_inequality(
                    fill as int,
                    tko.left as int,
                    tko.price as int,
                );
                vstd::arithmetic::mul::lemma_mul_inequality(
                    tko.left as int,
                    tko.amount as int,
                    tko.price as int,
                );
                vstd::arithmetic::mul::lemma_mul_inequality(
                    fill as int,
                    mko.left as int,
                    mko.price as int,
                );
                vstd::arithmetic::mul::lemma_mul_inequality(
                    mko.left as int,
                    mko.amount as int,
                    mko.price as int,
                );
                // the buyer's and seller's collateral cover this fill
                if quote@ == base@ && buyer == seller {
                    lemma_residual_ge_two(orders0, t_idx as int, m_idx as int, quote@, buyer);
                } else {
                    match ot {
                        OrderType::Buy => {
                            lemma_residual_ge_contrib(orders0, t_idx as int, quote@, buyer);
                            lemma_residual_ge_contrib(orders0, m_idx as int, base@, seller);
                        },
                        OrderType::Sell => {
                            lemma_residual_ge_contrib(orders0, m_idx as int, quote@, buyer);
                            lemma_residual_ge_contrib(orders0, t_idx as int, base@, seller);
                        },
                    }
                }
                assert(fill * lock_price <= u64::MAX) by {
                    match ot {
                        OrderType::Buy => {
                            vstd::arithmetic::mul::lemma_mul_inequality(
                                fill as int,
                                tko.left as int,
                                lock_price as int,
                            );
                            vstd::arithmetic::mul::lemma_mul_inequality(
                                tko.left as int,
                                tko.amount as int,
                                lock_price as int,
                            );
                            vstd::arithmetic::mul::lemma_mul_is_commutative(
                                tko.price as int,
                                tko.amount as int,
                            );
                            assert(tko.price * tko.amount <= u64::MAX);
                        },
                        OrderType::Sell => {
                            vstd::arithmetic::mul::lemma_mul_inequality(
                                fill as int,
                                mko.left as int,
                                lock_price as int,
                            );
                            vstd::arithmetic::mul::lemma_mul_inequality(
                                mko.left as int,
                                mko.amount as int,
                                lock_price as int,
                            );
                            vstd::arithmetic::mul::lemma_mul_is_commutative(
                                mko.price as int,
                                mko.amount as int,
                            );
                            assert(mko.price * mko.amount <= u64::MAX);
                        },
                    }
                }
            }
            self.ledger.exchange_token(seller, buyer, &base, &quote, fill, maker_price, lock_price);
            let r = self.modify_order_and_generate_the_deal_record(
                maker_id,
                taker_id,
                fill,
                maker_price,
            );
            proof {
                assert(r is Ok);
                let orders2 = self.orders@;
                assert(orders2 =~= orders0.update(m_idx as int, orders2[m_idx as int]).update(
                    t_idx as int,
                    orders2[t_idx as int],
                ));
                let tko = orders0[t_idx as int];
                let mko = orders0[m_idx as int];
                // the two orders keep accounting for exactly the locked funds
                lemma_fill_accounting(
                    ledger0,
                    self.ledger,
                    orders0,
                    orders2,
                    m_idx as int,
                    t_idx as int,
                    base@,
                    quote@,
                    fill,
                    lock_price,
                    seller,
                    buyer,
                    ot,
                );
                // order records stay well-formed and only evolve
                assert forall|k: int| 0 <= k < orders2.len() implies order_rec_wf(
                    #[trigger] orders2[k],
                    k,
                ) by {
                    assert(order_rec_wf(orders0[k], k));
                }
                assert forall|k: int| 0 <= k < orders2.len() implies order_evolved(
                    e0.orders@[k],
                    #[trigger] orders2[k],
                ) by {
                    assert(order_evolved(e0.orders@[k], orders0[k]));
                }
            }
            let ghost orders2 = self.orders@;
            proof {
                // the maker sits nowhere in this book side but at the queue head
                assert forall|l: int, k: int|
                    0 <= l < levels@.len() && 0 <= k < levels@[l].list@.len() && !(l == 0 && k == 0)
                        implies #[trigger] levels@[l].list@[k] != maker_id by {
                    assert(level_wf(orders0, e0.pairs@[p as int], find_type, levels@[l]));
                    if l == 0 {
                        assert(levels@[0].list@[0] < levels@[0].list@[k]);
                    } else {
                        assert(price_before(ot, levels@[0].price, levels@[l].price) || price_before(
                            find_type,
                            levels@[0].price,
                            levels@[l].price,
                        ));
                        assert(queued_ok(
                            orders0,
                            e0.pairs@[p as int],
                            find_type,
                            levels@[l].price,
                            levels@[l].list@[k],
                        ));
                    }
                }
            }
            let ghost lvls0 = levels@;
            let mut lvl = levels.remove(0);
            let ghost q = lvl.list@;
            proof {
                lemma_queue_sum_head(orders0, q);
                assert(left_of(orders0, maker_id) == maker_left);
                assert(lvl.sum >= fill as u128);
                // the rest of the queue references untouched orders
                assert forall|k: int|
                    1 <= k < q.len() implies left_of(orders2, #[trigger] q[k]) == left_of(
                    orders0,
                    q[k],
                ) && queued_ok(orders2, e0.pairs@[p as int], find_type, lvl.price, q[k]) by {
                    assert(lvls0[0].list@[k] != maker_id);
                    assert(q[k] < taker_id);
                    assert(queued_ok(orders0, e0.pairs@[p as int], find_type, lvl.price, q[k]));
                    assert(orders2[q[k] as int - 1] == orders0[q[k] as int - 1]);
                }
                assert forall|k: int|
                    0 <= k < q.skip(1).len() implies left_of(orders2, #[trigger] q.skip(1)[k])
                        == left_of(orders0, q.skip(1)[k]) by {
                    assert(q.skip(1)[k] == q[k + 1]);
                }
                lemma_queue_sum_congruent(orders0, orders2, q.skip(1));
                lemma_queue_sum_nonneg(orders0, q.skip(1));
                lemma_queue_sum_head(orders2, q);
            }
            lvl.sum = lvl.sum - (fill as u128);
            if fill == maker_left {
                let _ = lvl.list.remove(0);
                proof {
                    assert(lvl.list@ =~= q.skip(1));
                }
                if lvl.list.len() > 0 {
                    levels.insert(0, lvl);
                    proof {
                        assert(levels@ =~= lvls0.update(0, levels@[0]));
                    }
                } else {
                    proof {
                        assert(levels@ =~= lvls0.skip(1));
                    }
                }
            } else {
                levels.insert(0, lvl);
                proof {
                    assert(levels@ =~= lvls0.update(0, levels@[0]));
                }
            }
            proof {
                let lvls2 = levels@;
                let pair = e0.pairs@[p as int];
                let dropped = fill == maker_left && q.len() == 1;
                // the book side is well-formed again
                assert forall|l: int| 0 <= l < lvls2.len() implies level_wf(
                    orders2,
                    pair,
                    find_type,
                    #[trigger] lvls2[l],
                ) by {
                    if dropped {
                        assert(lvls2[l] == lvls0[l + 1]);
                        assert(level_wf(orders0, pair, find_type, lvls0[l + 1]));
                        assert forall|k: int|
                            0 <= k < lvls0[l + 1].list@.len() implies #[trigger] lvls0[l
                            + 1].list@[k] != maker_id && lvls0[l + 1].list@[k] != taker_id by {
                            assert(lvls0[l + 1].list@[k] < taker_id);
                        }
                        lemma_level_wf_two_changed(
                            orders0,
                            orders2,
                            pair,
                            find_type,
                            lvls0[l + 1],
                            maker_id,
                            taker_id,
                        );
                    } else if l > 0 {
                        assert(lvls2[l] == lvls0[l]);
                        assert(level_wf(orders0, pair, find_type, lvls0[l]));
                        assert forall|k: int|
                            0 <= k < lvls0[l].list@.len() implies #[trigger] lvls0[l].list@[k]
                            != maker_id && lvls0[l].list@[k] != taker_id by {
                            assert(lvls0[l].list@[k] < taker_id);
                        }
                        lemma_level_wf_two_changed(
                            orders0,
                            orders2,
                            pair,
                            find_type,
                            lvls0[l],
                            maker_id,
                            taker_id,
                        );
                    } else {
                        // the head level after this fill
                        if fill == maker_left {
                            assert(lvls2[0].list@ == q.skip(1));
                            assert(lvls2[0].sum == queue_sum(orders2, q.skip(1)));
                        } else {
                            assert(lvls2[0].list@ == q);
                            assert(orders2[m_idx as int].left == maker_left - fill);
                            assert(orders2[m_idx as int].status is Valid);
                            assert(queue_sum(orders2, q) == left_of(orders2, q[0]) + queue_sum(
                                orders2,
                                q.skip(1),
                            ));
                            assert(lvls2[0].sum == queue_sum(orders2, q));
                            assert forall|k: int| 0 <= k < q.len() implies queued_ok(
                                orders2,
                                pair,
                                find_type,
                                lvls2[0].price,
                                #[trigger] q[k],
                            ) by {
                                if k > 0 {
                                    assert(queued_ok(
                                        orders0,
                                        pair,
                                        find_type,
                                        lvls0[0].price,
                                        q[k],
                                    ));
                                    assert(orders2[q[k] as int - 1] == orders0[q[k] as int - 1]);
                                }
                            }
                        }
                    }
                }
                // sortedness is inherited from the old arrangement
                assert forall|a: int, c: int|
                    0 <= a < c < lvls2.len() implies price_before(
                    find_type,
                    lvls2[a].price,
                    lvls2[c].price,
                ) by {
                    if dropped {
                        assert(lvls2[a] == lvls0[a + 1] && lvls2[c] == lvls0[c + 1]);
                        assert(price_before(
                            find_type,
                            lvls0[a + 1].price,
                            lvls0[c + 1].price,
                        ));
                    } else {
                        assert(lvls2[a].price == lvls0[a].price);
                        assert(lvls2[c].price == lvls0[c].price);
                        assert(price_before(
                            find_type,
                            lvls0[a].price,
                            lvls0[c].price,
                        ));
                    }
                }
                // old prices survive, old bounds on ids survive
                assert forall|i: int| 0 <= i < lvls2.len() implies price_present(
                    oldopp,
                    (#[trigger] lvls2[i]).price,
                ) by {
                    if dropped {
                        assert(lvls2[i].price == lvls0[i + 1].price);
                        assert(price_present(oldopp, lvls0[i + 1].price));
                    } else {
                        assert(lvls2[i].price == lvls0[i].price);
                        assert(price_present(oldopp, lvls0[i].price));
                    }
                }
                assert forall|l: int, k: int|
                    0 <= l < lvls2.len() && 0 <= k < lvls2[l].list@.len() implies #[trigger] lvls2[l].list@[k]
                    < taker_id by {
                    if dropped {
                        assert(lvls2[l].list@[k] == lvls0[l + 1].list@[k]);
                    } else if l > 0 {
                        assert(lvls2[l].list@[k] == lvls0[l].list@[k]);
                    } else {
                        if fill == maker_left {
                            assert(lvls2[0].list@[k] == q[k + 1]);
                        } else {
                            assert(lvls2[0].list@[k] == q[k]);
                        }
                    }
                }
                // untouched books keep their shape against the updated orders
                assert forall|pp: int, ot2: OrderType|
                    0 <= pp < e0.pairs@.len() && !(pp == p as int && ot2 == find_type) implies book_wf(
                    orders2,
                    self.pairs@[pp],
                    ot2,
                    #[trigger] self.book_at(pp, ot2),
                ) && self.book_at(pp, ot2) == e0.book_at(pp, ot2) by {
                    let bk = self.book_at(pp, ot2);
                    assert(bk == s_in.book_at(pp, ot2));
                    assert(book_wf(s_in.orders@, s_in.pairs@[pp], ot2, s_in.book_at(pp, ot2)));
                    assert(book_wf(orders0, self.pairs@[pp], ot2, bk));
                    assert forall|l: int, k: int|
                        0 <= l < bk.len() && 0 <= k < bk[l].list@.len() implies #[trigger] bk[l].list@[k]
                        < taker_id by {
                        assert(e0.book_at(pp, ot2)[l].list@[k] < taker_id);
                    }
                    lemma_untouched_book_after_fill(
                        orders0,
                        orders2,
                        e0.pairs@,
                        pp,
                        p as int,
                        ot2,
                        find_type,
                        bk,
                        maker_id,
                        taker_id,
                    );
                }
                // progress: the taker lost exactly this fill
                assert(orders2[t_idx as int].left == taker_left - fill);
                assert(fill >= 1);
            }
            proof {
                // one fill happened: unfold the model by one step and carry
                // the bookkeeping of fills, balances and order records
                let bm = book_model(lvls0);
                assert(lvls0[0].list@[0] == maker_id);
                assert(orders0[m_idx as int] == e0.orders@[m_idx as int]);
                assert(left_of(e0.orders@, maker_id) == maker_left);
                assert(who_of(e0.orders@, maker_id) == maker_who);
                lemma_model_step(e0.orders@, lvls0, ot, taker_price, taker_left);
                let lvls2 = levels@;
                let rest_entry = match_model(e0.orders@, bm, ot, taker_price, taker_left);
                if fill == maker_left {
                    if q.len() == 1 {
                        assert forall|i: int|
                            0 <= i < book_model(lvls2).len() implies book_model(lvls2)[i]
                            == bm.skip(1)[i] by {
                            assert(lvls2[i] == lvls0[i + 1]);
                        }
                        assert(book_model(lvls2) =~= bm.skip(1));
                    } else {
                        let bm2 = bm.update(
                            0,
                            LevelModel { price: maker_price, queue: q.skip(1) },
                        );
                        assert forall|i: int|
                            0 <= i < book_model(lvls2).len() implies book_model(lvls2)[i]
                            == bm2[i] by {
                            if i == 0 {
                                assert(lvls2[0].price == maker_price);
                                assert(lvls2[0].list@ == q.skip(1));
                            } else {
                                assert(lvls2[i] == lvls0[i]);
                            }
                        }
                        assert(book_model(lvls2) =~= bm2);
                    }
                    let rest2 = match_model(
                        e0.orders@,
                        book_model(lvls2),
                        ot,
                        taker_price,
                        (taker_left - fill) as u64,
                    );
                    assert(rest_entry == (MatchModel {
                        left: rest2.left,
                        book: rest2.book,
                        fills: seq![newf] + rest2.fills,
                    }));
                    assert(fills + (seq![newf] + rest2.fills) =~= fills.push(newf) + rest2.fills);
                } else {
                    // the taker was exhausted by a partial fill
                    assert forall|i: int|
                        0 <= i < book_model(lvls2).len() implies book_model(lvls2)[i] == bm[i] by {
                        if i == 0 {
                            assert(lvls2[0].price == maker_price);
                            assert(lvls2[0].list@ == q);
                        } else {
                            assert(lvls2[i] == lvls0[i]);
                        }
                    }
                    assert(book_model(lvls2) =~= bm);
                    assert(rest_entry == (MatchModel { left: 0u64, book: bm, fills: seq![newf] }));
                    let rest_new = match_model(e0.orders@, book_model(lvls2), ot, taker_price, 0u64);
                    assert(rest_new.fills == Seq::<Fill>::empty());
                    assert(fills + seq![newf] =~= fills.push(newf) + rest_new.fills);
                }
                // the ledger gained exactly this fill's movements
                vstd::arithmetic::mul::lemma_mul_basics(fill as int);
                assert forall|t2: Seq<u8>, w: u64|
                    #![trigger self.ledger.free(t2, w)]
                    #![trigger self.ledger.locked(t2, w)]
                    self.ledger.free(t2, w) as int == e0.ledger.free(t2, w) + fills_free_delta(
                        fills.push(newf),
                        ot,
                        taker_price,
                        taker_who,
                        base@,
                        quote@,
                        t2,
                        w,
                    ) && self.ledger.locked(t2, w) as int == e0.ledger.locked(t2, w)
                    + fills_locked_delta(
                    fills.push(newf),
                    ot,
                    taker_price,
                    taker_who,
                    base@,
                    quote@,
                    t2,
                    w,
                ) by {
                    lemma_fills_delta_push(
                        fills,
                        newf,
                        ot,
                        taker_price,
                        taker_who,
                        base@,
                        quote@,
                        t2,
                        w,
                    );
                    assert(ledger0.free(t2, w) as int == e0.ledger.free(t2, w) + fills_free_delta(
                        fills,
                        ot,
                        taker_price,
                        taker_who,
                        base@,
                        quote@,
                        t2,
                        w,
                    ));
                    assert(ledger0.locked(t2, w) as int == e0.ledger.locked(t2, w)
                        + fills_locked_delta(
                        fills,
                        ot,
                        taker_price,
                        taker_who,
                        base@,
                        quote@,
                        t2,
                        w,
                    ));
                }
                // each earlier maker's record was untouched by this fill
                lemma_fills_makers_push(fills, newf);
                assert(!is_maker(fills, maker_id));
                assert forall|i: int| 0 <= i < fills.push(newf).len() implies {
                    let f = #[trigger] fills.push(newf)[i];
                    &&& 1 <= f.maker_id && f.maker_id <= e0.orders@.len()
                    &&& f.maker_id != taker_id
                    &&& f.maker_who == e0.orders@[f.maker_id as int - 1].who
                    &&& f.qty <= e0.orders@[f.maker_id as int - 1].left
                    &&& f.price == e0.orders@[f.maker_id as int - 1].price
                    &&& order_updated(
                        e0.orders@[f.maker_id as int - 1],
                        orders2[f.maker_id as int - 1],
                        taker_id,
                        f.qty,
                    )
                } by {
                    if i < fills.len() {
                        assert(fills.push(newf)[i] == fills[i]);
                        assert(fills[i].maker_id != maker_id);
                        assert(orders2[fills[i].maker_id as int - 1] == orders0[fills[i].maker_id as int
                            - 1]);
                    } else {
                        assert(fills.push(newf)[i] == newf);
                        assert(queued_ok(
                            orders0,
                            e0.pairs@[p as int],
                            find_type,
                            maker_price,
                            maker_id,
                        ));
                    }
                }
                assert forall|k: int|
                    0 <= k < e0.orders@.len() && k != taker_id - 1 && !is_maker(
                        fills.push(newf),
                        (k + 1) as u128,
                    ) implies #[trigger] orders2[k] == e0.orders@[k] by {
                    assert(!is_maker(fills, (k + 1) as u128));
                    assert((k + 1) as u128 != maker_id);
                    assert(orders2[k] == orders0[k]);
                }
                // the taker's fill record gained this maker
                assert(orders2[t_idx as int].fill_index@ == tfi0 + fills_makers(fills.push(newf)))
                    by {
                    assert(orders2[t_idx as int].fill_index@ == orders0[t_idx as int].fill_index@.push(
                        maker_id,
                    ));
                    assert((tfi0 + fills_makers(fills)).push(maker_id) =~= tfi0 + fills_makers(
                        fills,
                    ).push(maker_id));
                }
                // makers still queued were untouched and are still unfilled
                if taker_left - fill > 0 {
                    assert forall|l: int, k: int|
                        #![trigger lvls2[l].list@[k]]
                        0 <= l < lvls2.len() && 0 <= k < lvls2[l].list@.len() implies orders2[lvls2[l].list@[k] as int
                        - 1] == e0.orders@[lvls2[l].list@[k] as int - 1] && !is_maker(
                        fills.push(newf),
                        lvls2[l].list@[k],
                    ) by {
                        let dropped = fill == maker_left && q.len() == 1;
                        let id = lvls2[l].list@[k];
                        if dropped {
                            assert(lvls2[l] == lvls0[l + 1]);
                            assert(lvls0[l + 1].list@[k] != maker_id);
                        } else if l > 0 {
                            assert(lvls2[l] == lvls0[l]);
                            assert(lvls0[l].list@[k] != maker_id);
                        } else {
                            assert(lvls2[0].list@[k] == q[k + 1]);
                            assert(lvls0[0].list@[k + 1] != maker_id);
                        }
                        assert(id != maker_id);
                        assert(id < taker_id);
                        assert(orders2[id as int - 1] == orders0[id as int - 1]);
                    }
                }
                fills = fills.push(newf);
            }
        }
        let ghost s_exit = *self;
        let ghost lvls_exit = levels@;
        let ghost lvl_vec_exit = levels;
        self.books.set_and_swap(b, &mut levels);
        proof {
            let e2 = *self;
            assert forall|k: int|
                0 <= k < e2.books@.len() && k != b as int implies e2.books@[k] == e0.books@[k] by {
                assert(s_exit.books@[k] == e0.books@[k]);
            }
            assert(e2.books@ =~= e0.books@.update(b as int, e2.books@[b as int]));
            let newopp = e2.book_at(p as int, find_type);
            assert(newopp == lvls_exit);
            assert(e2.orders@ == s_exit.orders@ && e2.ledger == s_exit.ledger);
            assert forall|pp: int, ot2: OrderType|
                0 <= pp < e0.pairs@.len() && !(pp == p as int && ot2 == find_type) implies #[trigger] e2.book_at(
                pp,
                ot2,
            ) == e0.book_at(pp, ot2) by {
                assert(Engine::book_index(pp, ot2) != b as int);
            }
            assert forall|pp: int, ot2: OrderType|
                0 <= pp < e2.pairs@.len() implies book_wf(
                e2.orders@,
                e2.pairs@[pp],
                ot2,
                #[trigger] e2.book_at(pp, ot2),
            ) by {
                if pp == p as int && ot2 == find_type {
                    assert(e2.book_at(pp, ot2) == lvls_exit);
                    assert(book_wf(s_exit.orders@, e0.pairs@[p as int], find_type, lvls_exit));
                } else {
                    assert(book_wf(s_exit.orders@, s_exit.pairs@[pp], ot2, s_exit.book_at(pp, ot2)));
                    assert(e2.book_at(pp, ot2) == s_exit.book_at(pp, ot2));
                }
            }
            // no level still crosses an unfinished taker
            assert(e2.orders@[t_idx as int].left > 0 ==> forall|j: int|
                0 <= j < newopp.len() ==> !crosses(
                    ot,
                    taker_price,
                    (#[trigger] newopp[j]).price,
                )) by {
                if e2.orders@[t_idx as int].left > 0 && newopp.len() > 0 {
                    assert(!crosses(ot, taker_price, newopp[0].price));
                    assert forall|j: int| 0 <= j < newopp.len() implies !crosses(
                        ot,
                        taker_price,
                        (#[trigger] newopp[j]).price,
                    ) by {
                        if j > 0 {
                            assert(price_before(find_type, newopp[0].price, newopp[j].price));
                        }
                    }
                }
            }
            // the books stay uncrossed: surviving levels carry old prices
            assert(e2.uncrossed()) by {
                assert forall|pp: int, i: int, jj: int|
                    0 <= pp < e2.pairs@.len() && 0 <= i < e2.book_at(pp, OrderType::Buy).len() && 0
                        <= jj < e2.book_at(pp, OrderType::Sell).len() implies #[trigger] e2.book_at(
                    pp,
                    OrderType::Buy,
                )[i].price < #[trigger] e2.book_at(pp, OrderType::Sell)[jj].price by {
                    if pp != p as int {
                        assert(e2.book_at(pp, OrderType::Buy) == e0.book_at(pp, OrderType::Buy));
                        assert(e2.book_at(pp, OrderType::Sell) == e0.book_at(pp, OrderType::Sell));
                        assert(e0.book_at(pp, OrderType::Buy)[i].price < e0.book_at(
                            pp,
                            OrderType::Sell,
                        )[jj].price);
                    } else {
                        let (own_i, opp_side) = if find_type is Buy {
                            (i, OrderType::Sell)
                        } else {
                            (jj, OrderType::Buy)
                        };
                        assert(e2.book_at(pp, opp_side) == e0.book_at(pp, opp_side));
                        assert(price_present(oldopp, newopp[own_i].price));
                        let k = choose|k: int|
                            0 <= k < oldopp.len() && (#[trigger] oldopp[k]).price
                                == newopp[own_i].price;
                        if find_type is Buy {
                            assert(e0.book_at(pp, OrderType::Buy)[k].price < e0.book_at(
                                pp,
                                OrderType::Sell,
                            )[jj].price);
                        } else {
                            assert(e0.book_at(pp, OrderType::Buy)[i].price < e0.book_at(
                                pp,
                                OrderType::Sell,
                            )[k].price);
                        }
                    }
                }
            }
            // the open orders still hold registered collateral
            assert forall|i: int|
                0 <= i < e2.orders@.len() && (#[trigger] e2.orders@[i]).status is Valid implies e2.ledger.is_registered(
                lock_asset(e2.orders@[i]),
            ) by {
                assert(s_exit.orders@[i] == e2.orders@[i]);
                assert(order_evolved(e0.orders@[i], s_exit.orders@[i]));
                assert(e0.orders@[i].status is Valid);
                assert(lock_asset(e2.orders@[i]) == lock_asset(e0.orders@[i]));
                assert(e0.ledger.is_registered(lock_asset(e0.orders@[i])));
                assert(e2.ledger.precision(lock_asset(e0.orders@[i])) == e0.ledger.precision(
                    lock_asset(e0.orders@[i]),
                ));
            }
            // an untouched taker means nothing at all happened
            if e2.orders@[t_idx as int].left == e0.orders@[t_idx as int].left {
                assert(lvl_vec_exit == book_vec0);
                assert(e2.books@[b as int] == e0.books@[b as int]);
                assert(e2.books@ =~= e0.books@);
            }
            // the taker is open exactly while something is left
            assert(order_evolved(e0.orders@[t_idx as int], e2.orders@[t_idx as int]));
            assert(order_rec_wf(e2.orders@[t_idx as int], t_idx as int));
            // the exit condition is exactly where the model bottoms out, so
            // the fills done are the promised ones
            let cur_left = s_exit.orders@[t_idx as int].left;
            let bmx = book_model(lvls_exit);
            assert(bmx.len() == lvls_exit.len());
            if lvls_exit.len() > 0 {
                assert(bmx[0].price == lvls_exit[0].price);
            }
            let rest = match_model(e0.orders@, bmx, ot, taker_price, cur_left);
            assert(rest == (MatchModel { left: cur_left, book: bmx, fills: Seq::<Fill>::empty() }));
            assert(fills + Seq::<Fill>::empty() =~= fills);
            assert(m0.left == cur_left && m0.book == bmx && m0.fills == fills);
            assert(e2.orders@[t_idx as int].left == m0.left);
            assert(book_model(e2.book_at(p as int, find_type)) == m0.book);
            assert forall|t2: Seq<u8>, w: u64|
                #![trigger e2.ledger.free(t2, w)]
                #![trigger e2.ledger.locked(t2, w)]
                e2.ledger.free(t2, w) as int == e0.ledger.free(t2, w) + fills_free_delta(
                    m0.fills,
                    ot,
                    taker_price,
                    taker_who,
                    base@,
                    quote@,
                    t2,
                    w,
                ) && e2.ledger.locked(t2, w) as int == e0.ledger.locked(t2, w) + fills_locked_delta(
                    m0.fills,
                    ot,
                    taker_price,
                    taker_who,
                    base@,
                    quote@,
                    t2,
                    w,
                ) by {
                assert(s_exit.ledger.free(t2, w) as int == e0.ledger.free(t2, w) + fills_free_delta(
                    fills,
                    ot,
                    taker_price,
                    taker_who,
                    base@,
                    quote@,
                    t2,
                    w,
                ));
                assert(s_exit.ledger.locked(t2, w) as int == e0.ledger.locked(t2, w)
                    + fills_locked_delta(fills, ot, taker_price, taker_who, base@, quote@, t2, w));
            }
            assert(makers_updated(m0.fills, e0.orders@, e2.orders@, taker_id)) by {
                assert(makers_updated(fills, e0.orders@, s_exit.orders@, taker_id));
            }
            assert(non_parties_unchanged(m0.fills, e0.orders@, e2.orders@, taker_id)) by {
                assert(non_parties_unchanged(fills, e0.orders@, s_exit.orders@, taker_id));
            }
            assert(e2.orders@[t_idx as int].fill_index@ == tfi0 + fills_makers(m0.fills)) by {
                assert(s_exit.orders@[t_idx as int].fill_index@ == tfi0 + fills_makers(fills));
            }
        }
    }

    /// Reserve the submission's collateral: the full payment `price * amount`
    /// of quote for a buy, `amount` of base for a sell. Succeeds exactly when
    /// the collateral asset is registered and the submitter's free balance
    /// covers the collateral; on failure nothing changes. Success leaves the
    /// locked funds unaccounted by any order until the order is recorded.
    pub fn enough_token_and_lock(
        &mut self,
        who: u64,
        ordertype: OrderType,
        pair: &OrderPair,
        price: u64,
        amount: u64,
    ) -> (r: Result<(), DexError>)
        requires
            old(self).wf(),
            lock_amount(ordertype, price, amount) <= u64::MAX,
        ensures
            final(self).pairs@ == old(self).pairs@,
            final(self).books@ == old(self).books@,
            final(self).orders@ == old(self).orders@,
            final(self).nodeid == old(self).nodeid,
            final(self).block_number == old(self).block_number,
            final(self).ledger.types@ == old(self).ledger.types@,
            final(self).ledger.wf(),
            r is Ok <==> old(self).ledger.is_registered(lock_asset_of(*pair, ordertype)) && old(self).ledger.free(lock_asset_of(*pair, ordertype), who) >= lock_amount(
                ordertype,
                price,
                amount,
            ),
            r is Err ==> *final(self) == *old(self),
            !old(self).ledger.is_registered(lock_asset_of(*pair, ordertype)) ==> r == Result::<
                (),
                DexError,
            >::Err(DexError::UnknownAsset),
            old(self).ledger.is_registered(lock_asset_of(*pair, ordertype)) && old(self).ledger.free(lock_asset_of(*pair, ordertype), who) < lock_amount(
                ordertype,
                price,
                amount,
            ) ==> r == Result::<(), DexError>::Err(DexError::InsufficientFree),
            r is Ok ==> forall|t: Seq<u8>, w: u64|
                #![trigger final(self).ledger.free(t, w)]
                final(self).ledger.free(t, w) as int == old(self).ledger.free(t, w) - (if t
                    == lock_asset_of(*pair, ordertype) && w == who {
                    lock_amount(ordertype, price, amount)
                } else {
                    0
                }),
            r is Ok ==> forall|t: Seq<u8>, w: u64|
                #![trigger final(self).ledger.locked(t, w)]
                final(self).ledger.locked(t, w) as int == old(self).ledger.locked(t, w) + (if t
                    == lock_asset_of(*pair, ordertype) && w == who {
                    lock_amount(ordertype, price, amount)
                } else {
                    0
                }),
            forall|t: Seq<u8>|
                #![trigger final(self).ledger.total(t)]
                final(self).ledger.total(t) == old(self).ledger.total(t),
    {
        let tokentype: Vec<u8> = match ordertype {
            OrderType::Buy => clone_bytes(&pair.second),
            OrderType::Sell => clone_bytes(&pair.first),
        };
        let value: u64 = match ordertype {
            OrderType::Buy => price * amount,
            OrderType::Sell => amount,
        };
        self.ledger.lock(who, &tokentype, value)
    }

    /// Append a fresh order record; ids follow arrival order, so the record
    /// for order `index` sits at position `index - 1`.
    pub fn save_new_order(&mut self, order: OrderInformation)
        requires
            order.index == old(self).orders@.len() + 1,
        ensures
            final(self).orders@ == old(self).orders@.push(order),
            final(self).pairs@ == old(self).pairs@,
            final(self).books@ == old(self).books@,
            final(self).ledger == old(self).ledger,
            final(self).nodeid == old(self).nodeid,
            final(self).block_number == old(self).block_number,
    {
        self.orders.push(order);
    }

    /// Run a fresh order through the matcher and park whatever is left on its
    /// own side of the book.
    pub fn insert_and_match_order(&mut self, p: usize, index: u128)
        requires
            old(self).wf(),
            p < old(self).pairs@.len(),
            1 <= index <= old(self).orders@.len(),
            old(self).queued_ids_below(index),
            old(self).orders@[index as int - 1].status is Valid,
            old(self).orders@[index as int - 1].pair.eqv(old(self).pairs@[p as int]),
        ensures
            final(self).wf(),
            final(self).pairs@ == old(self).pairs@,
            final(self).block_number == old(self).block_number,
            final(self).ledger.types@ == old(self).ledger.types@,
            final(self).orders@.len() == old(self).orders@.len(),
            forall|t: Seq<u8>|
                #![trigger final(self).ledger.total(t)]
                final(self).ledger.total(t) == old(self).ledger.total(t),
            forall|k: int|
                0 <= k < old(self).orders@.len() ==> order_evolved(
                    old(self).orders@[k],
                    #[trigger] final(self).orders@[k],
                ),
            final(self).orders@[index as int - 1].status == (if final(self).orders@[index as int
                - 1].left == 0 {
                OrderStatus::Finished
            } else {
                OrderStatus::Valid
            }),
            final(self).orders@[index as int - 1].left > 0 ==> final(self).id_queued(index),
            forall|pp: int, ot2: OrderType|
                0 <= pp < old(self).pairs@.len() && pp != p as int
                    ==> #[trigger] final(self).book_at(pp, ot2) == old(self).book_at(pp, ot2),
            final(self).orders@[index as int - 1].left == old(self).orders@[index as int - 1].left
                ==> {
                &&& final(self).ledger == old(self).ledger
                &&& final(self).orders@ == old(self).orders@
                &&& final(self).book_at(p as int, spec_opposite(old(self).orders@[index as int - 1].ordertype))
                    == old(self).book_at(p as int, spec_opposite(old(self).orders@[index as int - 1].ordertype))
                &&& book_inserted(
                    old(self).book_at(p as int, old(self).orders@[index as int - 1].ordertype),
                    final(self).book_at(p as int, old(self).orders@[index as int - 1].ordertype),
                    old(self).orders@[index as int - 1].ordertype,
                    old(self).orders@[index as int - 1].price,
                    old(self).orders@[index as int - 1].left,
                    index,
                )
            },
            // the matching model, and the parking of the remainder
            final(self).orders@[index as int - 1].left == old(self).match_outcome(
                p as int,
                index,
            ).left,
            book_model(
                final(self).book_at(
                    p as int,
                    spec_opposite(old(self).orders@[index as int - 1].ordertype),
                ),
            ) == old(self).match_outcome(p as int, index).book,
            final(self).orders@[index as int - 1].fill_index@ == old(self).orders@[index as int
                - 1].fill_index@ + fills_makers(old(self).match_outcome(p as int, index).fills),
            makers_updated(
                old(self).match_outcome(p as int, index).fills,
                old(self).orders@,
                final(self).orders@,
                index,
            ),
            non_parties_unchanged(
                old(self).match_outcome(p as int, index).fills,
                old(self).orders@,
                final(self).orders@,
                index,
            ),
            forall|t: Seq<u8>, w: u64|
                #![trigger final(self).ledger.free(t, w)]
                final(self).ledger.free(t, w) as int == old(self).ledger.free(t, w)
                    + fills_free_delta(
                    old(self).match_outcome(p as int, index).fills,
                    old(self).orders@[index as int - 1].ordertype,
                    old(self).orders@[index as int - 1].price,
                    old(self).orders@[index as int - 1].who,
                    old(self).orders@[index as int - 1].pair.first@,
                    old(self).orders@[index as int - 1].pair.second@,
                    t,
                    w,
                ),
            forall|t: Seq<u8>, w: u64|
                #![trigger final(self).ledger.locked(t, w)]
                final(self).ledger.locked(t, w) as int == old(self).ledger.locked(t, w)
                    + fills_locked_delta(
                    old(self).match_outcome(p as int, index).fills,
                    old(self).orders@[index as int - 1].ordertype,
                    old(self).orders@[index as int - 1].price,
                    old(self).orders@[index as int - 1].who,
                    old(self).orders@[index as int - 1].pair.first@,
                    old(self).orders@[index as int - 1].pair.second@,
                    t,
                    w,
                ),
            old(self).match_outcome(p as int, index).left > 0 ==> book_inserted(
                old(self).book_at(p as int, old(self).orders@[index as int - 1].ordertype),
                final(self).book_at(p as int, old(self).orders@[index as int - 1].ordertype),
                old(self).orders@[index as int - 1].ordertype,
                old(self).orders@[index as int - 1].price,
                old(self).match_outcome(p as int, index).left,
                index,
            ) && final(self).id_queued(index),
            old(self).match_outcome(p as int, index).left == 0 ==> final(self).book_at(
                p as int,
                old(self).orders@[index as int - 1].ordertype,
            ) == old(self).book_at(p as int, old(self).orders@[index as int - 1].ordertype),
    {
        let n = self.orders.len();
        proof {
            assert(index - 1 < n);
        }
        let idx = (index - 1) as usize;
        let ghost e0 = *old(self);
        let ghost ot = e0.orders@[index as int - 1].ordertype;
        let ghost m0 = e0.match_outcome(p as int, index);
        self.do_match(p, index);
        let ghost e1 = *self;
        if self.orders[idx].left > 0 {
            proof {
                assert(e1.orders@[index as int - 1].status is Valid);
                assert(order_evolved(e0.orders@[index as int - 1], e1.orders@[index as int - 1]));
                assert(queued_ok(
                    e1.orders@,
                    e1.pairs@[p as int],
                    e1.orders@[index as int - 1].ordertype,
                    e1.orders@[index as int - 1].price,
                    index,
                ));
                assert forall|j: int|
                    0 <= j < e1.book_at(
                        p as int,
                        spec_opposite(e1.orders@[index as int - 1].ordertype),
                    ).len() implies !crosses(
                    e1.orders@[index as int - 1].ordertype,
                    e1.orders@[index as int - 1].price,
                    (#[trigger] e1.book_at(
                        p as int,
                        spec_opposite(e1.orders@[index as int - 1].ordertype),
                    )[j]).price,
                ) by {
                    assert(!crosses(
                        e0.orders@[index as int - 1].ordertype,
                        e0.orders@[index as int - 1].price,
                        e1.book_at(
                            p as int,
                            spec_opposite(e0.orders@[index as int - 1].ordertype),
                        )[j].price,
                    ));
                }
            }
            self.insert_bid_list(p, index);
            proof {
                assert forall|pp: int, ot2: OrderType|
                    0 <= pp < e0.pairs@.len() && pp != p as int implies #[trigger] self.book_at(
                    pp,
                    ot2,
                ) == e0.book_at(pp, ot2) by {
                    assert(self.book_at(pp, ot2) == e1.book_at(pp, ot2));
                    assert(e1.book_at(pp, ot2) == e0.book_at(pp, ot2));
                }
                if self.orders@[index as int - 1].left == e0.orders@[index as int - 1].left {
                    assert(e1.ledger == e0.ledger && e1.orders@ == e0.orders@ && e1.books@
                        == e0.books@);
                    assert(self.book_at(p as int, spec_opposite(ot)) == e1.book_at(
                        p as int,
                        spec_opposite(ot),
                    ));
                    assert(e1.book_at(p as int, spec_opposite(ot)) == e0.book_at(
                        p as int,
                        spec_opposite(ot),
                    ));
                    assert(e1.book_at(p as int, ot) == e0.book_at(p as int, ot));
                }
            }
        } else {
            proof {
                assert forall|pp: int, ot2: OrderType|
                    0 <= pp < e0.pairs@.len() && pp != p as int implies #[trigger] self.book_at(
                    pp,
                    ot2,
                ) == e0.book_at(pp, ot2) by {
                    assert(e1.book_at(pp, ot2) == e0.book_at(pp, ot2));
                }
            }
        }
    }

    /// Validate a submission, lock its collateral, record it, match it, and
    /// park any remainder: the whole submission pipeline. Exactly the
    /// requests with a positive amount and price on a registered market, a
    /// collateral product that fits, and a covering free balance go through;
    /// a rejected request changes nothing.
    pub fn check_order(
        &mut self,
        who: u64,
        pair: OrderPair,
        ordertype: OrderType,
        amount: u64,
        price: u64,
    ) -> (r: Result<(), DexError>)
        requires
            old(self).wf(),
        ensures
            final(self).wf(),
            final(self).pairs@ == old(self).pairs@,
            final(self).block_number == old(self).block_number,
            final(self).ledger.types@ == old(self).ledger.types@,
            forall|t: Seq<u8>|
                #![trigger final(self).ledger.total(t)]
                final(self).ledger.total(t) == old(self).ledger.total(t),
            r is Ok <==> {
                &&& amount >= 1
                &&& price >= 1
                &&& old(self).pair_registered(pair)
                &&& price * amount <= u64::MAX
                &&& old(self).ledger.is_registered(lock_asset_of(pair, ordertype))
                &&& old(self).ledger.free(lock_asset_of(pair, ordertype), who) >= lock_amount(
                    ordertype,
                    price,
                    amount,
                )
            },
            r is Err ==> *final(self) == *old(self),
            (amount == 0 || price == 0 || !old(self).pair_registered(pair)) ==> r == Result::<
                (),
                DexError,
            >::Err(DexError::BadRequest),
            (amount >= 1 && price >= 1 && old(self).pair_registered(pair) && price * amount
                > u64::MAX) ==> r == Result::<(), DexError>::Err(DexError::Overflow),
            (amount >= 1 && price >= 1 && old(self).pair_registered(pair) && price * amount
                <= u64::MAX && !old(self).ledger.is_registered(lock_asset_of(pair, ordertype)))
                ==> r == Result::<(), DexError>::Err(DexError::UnknownAsset),
            (amount >= 1 && price >= 1 && old(self).pair_registered(pair) && price * amount
                <= u64::MAX && old(self).ledger.is_registered(lock_asset_of(pair, ordertype))
                && old(self).ledger.free(lock_asset_of(pair, ordertype), who) < lock_amount(
                ordertype,
                price,
                amount,
            )) ==> r == Result::<(), DexError>::Err(DexError::InsufficientFree),
            r is Ok ==> {
                &&& final(self).orders@.len() == old(self).orders@.len() + 1
                &&& final(self).orders@[old(self).orders@.len() as int].who == who
                &&& final(self).orders@[old(self).orders@.len() as int].ordertype == ordertype
                &&& final(self).orders@[old(self).orders@.len() as int].pair == pair
                &&& final(self).orders@[old(self).orders@.len() as int].amount == amount
                &&& final(self).orders@[old(self).orders@.len() as int].price == price
                &&& final(self).orders@[old(self).orders@.len() as int].index == old(self).orders@.len() + 1
                &&& final(self).orders@[old(self).orders@.len() as int].time == old(self).block_number
                &&& final(self).orders@[old(self).orders@.len() as int].left <= amount
                &&& final(self).orders@[old(self).orders@.len() as int].status == (if final(self).orders@[old(self).orders@.len() as int].left == 0 {
                    OrderStatus::Finished
                } else {
                    OrderStatus::Valid
                })
                &&& (final(self).orders@[old(self).orders@.len() as int].left > 0 ==> final(self).id_queued((old(self).orders@.len() + 1) as u128))
                &&& forall|k: int|
                    0 <= k < old(self).orders@.len() ==> order_evolved(
                        old(self).orders@[k],
                        #[trigger] final(self).orders@[k],
                    )
            },
            // a submission that crossed nothing only locked its collateral
            // and parked itself on the book
            r is Ok && final(self).orders@[old(self).orders@.len() as int].left == amount ==> {
                &&& forall|k: int|
                    0 <= k < old(self).orders@.len() ==> #[trigger] final(self).orders@[k] == old(self).orders@[k]
                &&& forall|t: Seq<u8>, w: u64|
                    #![trigger final(self).ledger.free(t, w)]
                    final(self).ledger.free(t, w) as int == old(self).ledger.free(t, w) - (if t
                        == lock_asset_of(pair, ordertype) && w == who {
                        lock_amount(ordertype, price, amount)
                    } else {
                        0
                    })
                &&& forall|t: Seq<u8>, w: u64|
                    #![trigger final(self).ledger.locked(t, w)]
                    final(self).ledger.locked(t, w) as int == old(self).ledger.locked(t, w) + (if t
                        == lock_asset_of(pair, ordertype) && w == who {
                        lock_amount(ordertype, price, amount)
                    } else {
                        0
                    })
                &&& exists|pi: int|
                    {
                        &&& 0 <= pi < old(self).pairs@.len()
                        &&& (#[trigger] old(self).pairs@[pi]).eqv(pair)
                        &&& (forall|pp: int, ot2: OrderType|
                            0 <= pp < old(self).pairs@.len() && !(pp == pi && ot2 == ordertype)
                                ==> #[trigger] final(self).book_at(pp, ot2) == old(self).book_at(
                                pp,
                                ot2,
                            ))
                        &&& book_inserted(
                            old(self).book_at(pi, ordertype),
                            final(self).book_at(pi, ordertype),
                            ordertype,
                            price,
                            amount,
                            (old(self).orders@.len() + 1) as u128,
                        )
                    }
            },
            // the matching model, unconditionally: exactly the fills that the
            // opposite book owes this submission happen, at the makers'
            // prices, and the remainder is parked on the submission's side
            r is Ok ==> exists|pi: int|
                {
                    &&& 0 <= pi < old(self).pairs@.len()
                    &&& (#[trigger] old(self).pairs@[pi]).eqv(pair)
                    &&& ({
                        let m = match_model(
                            old(self).orders@,
                            book_model(old(self).book_at(pi, spec_opposite(ordertype))),
                            ordertype,
                            price,
                            amount,
                        );
                        let new_id = (old(self).orders@.len() + 1) as u128;
                        &&& final(self).orders@[old(self).orders@.len() as int].left == m.left
                        &&& book_model(final(self).book_at(pi, spec_opposite(ordertype)))
                            == m.book
                        &&& final(self).orders@[old(self).orders@.len() as int].fill_index@
                            == fills_makers(m.fills)
                        &&& makers_updated(m.fills, old(self).orders@, final(self).orders@, new_id)
                        &&& non_parties_unchanged(
                            m.fills,
                            old(self).orders@,
                            final(self).orders@,
                            new_id,
                        )
                        &&& (forall|t: Seq<u8>, w: u64|
                            #![trigger final(self).ledger.free(t, w)]
                            final(self).ledger.free(t, w) as int == old(self).ledger.free(t, w) - (
                            if t == lock_asset_of(pair, ordertype) && w == who {
                                lock_amount(ordertype, price, amount)
                            } else {
                                0
                            }) + fills_free_delta(
                                m.fills,
                                ordertype,
                                price,
                                who,
                                pair.first@,
                                pair.second@,
                                t,
                                w,
                            ))
                        &&& (forall|t: Seq<u8>, w: u64|
                            #![trigger final(self).ledger.locked(t, w)]
                            final(self).ledger.locked(t, w) as int == old(self).ledger.locked(t, w)
                                + (if t == lock_asset_of(pair, ordertype) && w == who {
                                lock_amount(ordertype, price, amount)
                            } else {
                                0
                            }) + fills_locked_delta(
                                m.fills,
                                ordertype,
                                price,
                                who,
                                pair.first@,
                                pair.second@,
                                t,
                                w,
                            ))
                        &&& (m.left > 0 ==> book_inserted(
                            old(self).book_at(pi, ordertype),
                            final(self).book_at(pi, ordertype),
                            ordertype,
                            price,
                            m.left,
                            new_id,
                        ) && final(self).id_queued(new_id))
                        &&& (m.left == 0 ==> final(self).book_at(pi, ordertype) == old(
                            self,
                        ).book_at(pi, ordertype))
                    })
                },
    {
        if price == 0 {
            return Err(DexError::BadRequest);
        }
        if amount == 0 {
            return Err(DexError::BadRequest);
        }
        let pi = match self.find_pair(&pair) {
            Some(pi) => pi,
            None => {
                return Err(DexError::BadRequest);
            },
        };
        if price.checked_mul(amount).is_none() {
            proof {
                assert(lock_amount(ordertype, price, amount) > u64::MAX || ordertype is Sell);
                if ordertype is Sell {
                    assert(lock_amount(ordertype, price, amount) <= u64::MAX);
                }
            }
            return Err(DexError::Overflow);
        }
        proof {
            vstd::arithmetic::mul::lemma_mul_strictly_positive(price as int, amount as int);
        }
        if let Err(e) = self.enough_token_and_lock(who, ordertype, &pair, price, amount) {
            return Err(e);
        }
        let index = self.orders.len() as u128 + 1;
        let time = self.block_number;
        let ghost e_locked = *self;
        let order = OrderInformation::new(who, ordertype, pair, amount, price, index, time);
        self.save_new_order(order);
        proof {
            let e1 = *old(self);
            let e2 = *self;
            let o = e2.orders@[e1.orders@.len() as int];
            assert(lock_asset(o) == lock_asset_of(o.pair, ordertype));
            assert(residual_lock(o) == lock_amount(ordertype, price, amount));
            assert forall|t: Seq<u8>, w: u64| #![trigger e2.ledger.locked(t, w)]
                e2.ledger.locked(t, w) as int == e1.ledger.locked(t, w) + (if t == lock_asset(o)
                    && w == o.who {
                    residual_lock(o)
                } else {
                    0
                }) by {
                assert(e_locked.ledger.locked(t, w) as int == e1.ledger.locked(t, w) + (if t
                    == lock_asset_of(o.pair, ordertype) && w == who {
                    lock_amount(ordertype, price, amount)
                } else {
                    0
                }));
            }
            lemma_wf_after_new_order(e1, e2, o);
        }
        let ghost e_saved = *self;
        self.insert_and_match_order(pi, index);
        proof {
            assert forall|t: Seq<u8>| #![trigger self.ledger.total(t)]
                self.ledger.total(t) == old(self).ledger.total(t) by {
                assert(e_locked.ledger.total(t) == old(self).ledger.total(t));
            }
            // relate the outcome promised against the recorded state to the
            // model over the state the caller saw: the fresh record changes
            // nothing the model reads
            let e1 = *old(self);
            let n0 = e1.orders@.len() as int;
            let o = e_saved.orders@[n0];
            let opp = spec_opposite(ordertype);
            let bm1 = book_model(e1.book_at(pi as int, opp));
            assert forall|pp: int, ot2: OrderType|
                0 <= pp < e1.pairs@.len() implies #[trigger] e_saved.book_at(pp, ot2)
                == e1.book_at(pp, ot2) by {
                assert(e_saved.books@[Engine::book_index(pp, ot2)] == e1.books@[Engine::book_index(
                    pp,
                    ot2,
                )]);
            }
            assert forall|l: int, k: int|
                0 <= l < bm1.len() && 0 <= k < bm1[l].queue.len() implies 1 <= #[trigger] bm1[l].queue[k]
                && bm1[l].queue[k] <= e1.orders@.len() by {
                assert(bm1[l].queue == e1.book_at(pi as int, opp)[l].list@);
                assert(book_wf(e1.orders@, e1.pairs@[pi as int], opp, e1.book_at(pi as int, opp)));
                assert(level_wf(
                    e1.orders@,
                    e1.pairs@[pi as int],
                    opp,
                    e1.book_at(pi as int, opp)[l],
                ));
                assert(queued_ok(
                    e1.orders@,
                    e1.pairs@[pi as int],
                    opp,
                    e1.book_at(pi as int, opp)[l].price,
                    e1.book_at(pi as int, opp)[l].list@[k],
                ));
            }
            lemma_match_model_push(e1.orders@, o, bm1, ordertype, price, amount);
            let m = match_model(e1.orders@, bm1, ordertype, price, amount);
            assert(e_saved.match_outcome(pi as int, index) == m) by {
                assert(e_saved.orders@ =~= e1.orders@.push(o));
                assert(book_model(e_saved.book_at(pi as int, opp)) == bm1);
            }
            // transfer the per-order clauses from the recorded state's order
            // map to the caller's: every maker predates the new record
            assert(makers_updated(m.fills, e1.orders@, self.orders@, index)) by {
                assert(makers_updated(m.fills, e_saved.orders@, self.orders@, index));
                assert forall|i: int| 0 <= i < m.fills.len() implies {
                    let f = #[trigger] m.fills[i];
                    &&& 1 <= f.maker_id && f.maker_id <= e1.orders@.len()
                    &&& f.maker_id != index
                    &&& f.maker_who == e1.orders@[f.maker_id as int - 1].who
                    &&& f.qty <= e1.orders@[f.maker_id as int - 1].left
                    &&& f.price == e1.orders@[f.maker_id as int - 1].price
                    &&& order_updated(
                        e1.orders@[f.maker_id as int - 1],
                        self.orders@[f.maker_id as int - 1],
                        index,
                        f.qty,
                    )
                } by {
                    assert(e_saved.orders@[m.fills[i].maker_id as int - 1] == e1.orders@[m.fills[i].maker_id as int
                        - 1]);
                }
            }
            assert(non_parties_unchanged(m.fills, e1.orders@, self.orders@, index)) by {
                assert(non_parties_unchanged(m.fills, e_saved.orders@, self.orders@, index));
                assert forall|k: int|
                    0 <= k < e1.orders@.len() && k != index - 1 && !is_maker(
                        m.fills,
                        (k + 1) as u128,
                    ) implies #[trigger] self.orders@[k] == e1.orders@[k] by {
                    assert(self.orders@[k] == e_saved.orders@[k]);
                    assert(e_saved.orders@[k] == e1.orders@[k]);
                }
            }
            // the new record's fill list is exactly the makers, in order
            assert(o.fill_index@ =~= Seq::<u128>::empty());
            assert(self.orders@[n0].fill_index@ == fills_makers(m.fills)) by {
                assert(self.orders@[n0].fill_index@ == o.fill_index@ + fills_makers(m.fills));
                assert(o.fill_index@ + fills_makers(m.fills) =~= fills_makers(m.fills));
            }
            // the ledger: first the lock, then exactly the fills' movements
            assert forall|t: Seq<u8>, w: u64|
                #![trigger self.ledger.free(t, w)]
                #![trigger self.ledger.locked(t, w)]
                self.ledger.free(t, w) as int == e1.ledger.free(t, w) - (if t == lock_asset_of(
                    pair,
                    ordertype,
                ) && w == who {
                    lock_amount(ordertype, price, amount)
                } else {
                    0
                }) + fills_free_delta(m.fills, ordertype, price, who, pair.first@, pair.second@, t, w)
                    && self.ledger.locked(t, w) as int == e1.ledger.locked(t, w) + (if t
                    == lock_asset_of(pair, ordertype) && w == who {
                    lock_amount(ordertype, price, amount)
                } else {
                    0
                }) + fills_locked_delta(
                    m.fills,
                    ordertype,
                    price,
                    who,
                    pair.first@,
                    pair.second@,
                    t,
                    w,
                ) by {
                assert(e_saved.ledger.free(t, w) as int == e1.ledger.free(t, w) - (if t
                    == lock_asset_of(pair, ordertype) && w == who {
                    lock_amount(ordertype, price, amount)
                } else {
                    0
                }));
                assert(e_saved.ledger.locked(t, w) as int == e1.ledger.locked(t, w) + (if t
                    == lock_asset_of(pair, ordertype) && w == who {
                    lock_amount(ordertype, price, amount)
                } else {
                    0
                }));
                assert(o.pair.first@ == pair.first@ && o.pair.second@ == pair.second@);
            }
            // the books: the opposite side is the model's remainder, the own
            // side holds the remainder order exactly when something is left
            assert(book_model(self.book_at(pi as int, opp)) == m.book);
            if m.left > 0 {
                assert(book_inserted(
                    e1.book_at(pi as int, ordertype),
                    self.book_at(pi as int, ordertype),
                    ordertype,
                    price,
                    m.left,
                    index,
                )) by {
                    assert(e_saved.book_at(pi as int, ordertype) == e1.book_at(
                        pi as int,
                        ordertype,
                    ));
                    assert(e_saved.orders@[n0].price == price && e_saved.orders@[n0].ordertype
                        == ordertype);
                }
            } else {
                assert(self.book_at(pi as int, ordertype) == e1.book_at(pi as int, ordertype));
            }
        }
        Ok(())
    }

    /// Submit an order: validate it, lock its collateral, match it against
    /// the opposite side of the book, and park any remainder. The public
    /// submission entry point.
    pub fn put_order_and_match(
        &mut self,
        who: u64,
        orderpair: OrderPair,
        ordertype: OrderType,
        amount: u64,
        price: u64,
    ) -> (r: Result<(), DexError>)
        requires
            old(self).wf(),
        ensures
            final(self).wf(),
            final(self).pairs@ == old(self).pairs@,
            final(self).block_number == old(self).block_number,
            final(self).ledger.types@ == old(self).ledger.types@,
            forall|t: Seq<u8>|
                #![trigger final(self).ledger.total(t)]
                final(self).ledger.total(t) == old(self).ledger.total(t),
            r is Ok <==> {
                &&& amount >= 1
                &&& price >= 1
                &&& old(self).pair_registered(orderpair)
                &&& price * amount <= u64::MAX
                &&& old(self).ledger.is_registered(lock_asset_of(orderpair, ordertype))
                &&& old(self).ledger.free(lock_asset_of(orderpair, ordertype), who) >= lock_amount(
                    ordertype,
                    price,
                    amount,
                )
            },
            r is Err ==> *final(self) == *old(self),
            (amount == 0 || price == 0 || !old(self).pair_registered(orderpair)) ==> r == Result::<
                (),
                DexError,
            >::Err(DexError::BadRequest),
            (amount >= 1 && price >= 1 && old(self).pair_registered(orderpair) && price * amount
                > u64::MAX) ==> r == Result::<(), DexError>::Err(DexError::Overflow),
            (amount >= 1 && price >= 1 && old(self).pair_registered(orderpair) && price * amount
                <= u64::MAX && !old(self).ledger.is_registered(lock_asset_of(orderpair, ordertype)))
                ==> r == Result::<(), DexError>::Err(DexError::UnknownAsset),
            (amount >= 1 && price >= 1 && old(self).pair_registered(orderpair) && price * amount
                <= u64::MAX && old(self).ledger.is_registered(lock_asset_of(orderpair, ordertype))
                && old(self).ledger.free(lock_asset_of(orderpair, ordertype), who) < lock_amount(
                ordertype,
                price,
                amount,
            )) ==> r == Result::<(), DexError>::Err(DexError::InsufficientFree),
            r is Ok ==> {
                &&& final(self).orders@.len() == old(self).orders@.len() + 1
                &&& final(self).orders@[old(self).orders@.len() as int].who == who
                &&& final(self).orders@[old(self).orders@.len() as int].ordertype == ordertype
                &&& final(self).orders@[old(self).orders@.len() as int].pair == orderpair
                &&& final(self).orders@[old(self).orders@.len() as int].amount == amount
                &&& final(self).orders@[old(self).orders@.len() as int].price == price
                &&& final(self).orders@[old(self).orders@.len() as int].index == old(self).orders@.len() + 1
                &&& final(self).orders@[old(self).orders@.len() as int].left <= amount
                &&& final(self).orders@[old(self).orders@.len() as int].status == (if final(self).orders@[old(self).orders@.len() as int].left == 0 {
                    OrderStatus::Finished
                } else {
                    OrderStatus::Valid
                })
                &&& (final(self).orders@[old(self).orders@.len() as int].left > 0 ==> final(self).id_queued((old(self).orders@.len() + 1) as u128))
                &&& forall|k: int|
                    0 <= k < old(self).orders@.len() ==> order_evolved(
                        old(self).orders@[k],
                        #[trigger] final(self).orders@[k],
                    )
            },
            // a submission that crossed nothing only locked its collateral
            r is Ok && final(self).orders@[old(self).orders@.len() as int].left == amount ==> {
                &&& forall|t: Seq<u8>, w: u64|
                    #![trigger final(self).ledger.free(t, w)]
                    final(self).ledger.free(t, w) as int == old(self).ledger.free(t, w) - (if t
                        == lock_asset_of(orderpair, ordertype) && w == who {
                        lock_amount(ordertype, price, amount)
                    } else {
                        0
                    })
                &&& forall|t: Seq<u8>, w: u64|
                    #![trigger final(self).ledger.locked(t, w)]
                    final(self).ledger.locked(t, w) as int == old(self).ledger.locked(t, w) + (if t
                        == lock_asset_of(orderpair, ordertype) && w == who {
                        lock_amount(ordertype, price, amount)
                    } else {
                        0
                    })
            },
            // the matching model, unconditionally: exactly the fills that the
            // opposite book owes this submission happen, at the makers'
            // prices, and the remainder is parked on the submission's side
            r is Ok ==> exists|pi: int|
                {
                    &&& 0 <= pi < old(self).pairs@.len()
                    &&& (#[trigger] old(self).pairs@[pi]).eqv(orderpair)
                    &&& ({
                        let m = match_model(
                            old(self).orders@,
                            book_model(old(self).book_at(pi, spec_opposite(ordertype))),
                            ordertype,
                            price,
                            amount,
                        );
                        let new_id = (old(self).orders@.len() + 1) as u128;
                        &&& final(self).orders@[old(self).orders@.len() as int].left == m.left
                        &&& book_model(final(self).book_at(pi, spec_opposite(ordertype)))
                            == m.book
                        &&& final(self).orders@[old(self).orders@.len() as int].fill_index@
                            == fills_makers(m.fills)
                        &&& makers_updated(m.fills, old(self).orders@, final(self).orders@, new_id)
                        &&& non_parties_unchanged(
                            m.fills,
                            old(self).orders@,
                            final(self).orders@,
                            new_id,
                        )
                        &&& (forall|t: Seq<u8>, w: u64|
                            #![trigger final(self).ledger.free(t, w)]
                            final(self).ledger.free(t, w) as int == old(self).ledger.free(t, w) - (
                            if t == lock_asset_of(orderpair, ordertype) && w == who {
                                lock_amount(ordertype, price, amount)
                            } else {
                                0
                            }) + fills_free_delta(
                                m.fills,
                                ordertype,
                                price,
                                who,
                                orderpair.first@,
                                orderpair.second@,
                                t,
                                w,
                            ))
                        &&& (forall|t: Seq<u8>, w: u64|
                            #![trigger final(self).ledger.locked(t, w)]
                            final(self).ledger.locked(t, w) as int == old(self).ledger.locked(t, w)
                                + (if t == lock_asset_of(orderpair, ordertype) && w == who {
                                lock_amount(ordertype, price, amount)
                            } else {
                                0
                            }) + fills_locked_delta(
                                m.fills,
                                ordertype,
                                price,
                                who,
                                orderpair.first@,
                                orderpair.second@,
                                t,
                                w,
                            ))
                        &&& (m.left > 0 ==> book_inserted(
                            old(self).book_at(pi, ordertype),
                            final(self).book_at(pi, ordertype),
                            ordertype,
                            price,
                            m.left,
                            new_id,
                        ) && final(self).id_queued(new_id))
                        &&& (m.left == 0 ==> final(self).book_at(pi, ordertype) == old(
                            self,
                        ).book_at(pi, ordertype))
                    })
                },
    {
        self.check_order(who, orderpair, ordertype, amount, price)
    }

    /// Remove the resting order `index` from its book, shrinking its level by
    /// its unfilled quantity and unlinking the level when it empties. The
    /// order record and the ledger are untouched; an order that is not
    /// resting anywhere leaves the books unchanged.
    #[verifier::rlimit(100)]
    fn cancel_bid(&mut self, index: u128)
        requires
            old(self).wf(),
            1 <= index <= old(self).orders@.len(),
        ensures
            final(self).wf(),
            final(self).ledger == old(self).ledger,
            final(self).orders@ == old(self).orders@,
            final(self).pairs@ == old(self).pairs@,
            final(self).nodeid == old(self).nodeid,
            final(self).block_number == old(self).block_number,
            !final(self).id_queued(index),
            forall|pp: int, ot2: OrderType|
                0 <= pp < final(self).pairs@.len() ==> (#[trigger] final(self).book_at(pp, ot2)
                    == old(self).book_at(pp, ot2) || exists|j: int, k: int|
                    #[trigger] book_removed_at(
                        old(self).book_at(pp, ot2),
                        final(self).book_at(pp, ot2),
                        index,
                        old(self).orders@[index as int - 1].left,
                        j,
                        k,
                    )),
    {
        let no = self.orders.len();
        proof {
            assert(index - 1 < no);
        }
        let idx = (index - 1) as usize;
        let ot = self.orders[idx].ordertype;
        let price = self.orders[idx].price;
        let left = self.orders[idx].left;
        let first = clone_bytes(&self.orders[idx].pair.first);
        let second = clone_bytes(&self.orders[idx].pair.second);
        let pr = OrderPair { first, second };
        let ghost e0 = *old(self);
        let ghost o = e0.orders@[index as int - 1];
        let pi = match self.find_pair(&pr) {
            Some(pi) => pi,
            None => {
                proof {
                    lemma_not_queued_unregistered(e0, index, pr);
                }
                return ;
            },
        };
        let nb = self.books.len();
        proof {
            assert(2 * (pi as int) + 1 < nb);
        }
        let b: usize = match ot {
            OrderType::Buy => 2 * pi,
            OrderType::Sell => 2 * pi + 1,
        };
        proof {
            assert(Engine::book_index(pi as int, ot) == b);
            assert(e0.book_at(pi as int, ot) == self.books@[b as int]@);
        }
        let mut levels: Vec<Bid> = Vec::new();
        let ghost placeholder = levels;
        self.books.set_and_swap(b, &mut levels);
        let ghost book_vec0 = levels;
        let ghost oldb = levels@;
        // the one level that could queue this order carries its price
        let mut j: usize = 0;
        while j < levels.len() && levels[j].price != price
            invariant
                j <= levels@.len(),
                forall|l: int| 0 <= l < j ==> (#[trigger] levels@[l]).price != price,
            decreases levels@.len() - j,
        {
            j = j + 1;
        }
        if j == levels.len() {
            self.books.set_and_swap(b, &mut levels);
            proof {
                assert(self.books@[b as int] == book_vec0);
                assert forall|pp: int, ot2: OrderType|
                    0 <= pp < e0.pairs@.len() implies #[trigger] self.book_at(pp, ot2)
                    == e0.book_at(pp, ot2) by {
                    if Engine::book_index(pp, ot2) != b as int {
                        assert(self.books@[Engine::book_index(pp, ot2)] == e0.books@[Engine::book_index(
                            pp,
                            ot2,
                        )]);
                    }
                }
                lemma_wf_books_views_equal(e0, *self);
                lemma_not_queued_no_level(e0, index, pi as int, oldb);
                assert(!self.id_queued(index)) by {
                    assert forall|pp: int, ot2: OrderType, l: int, kk: int|
                        0 <= pp < self.pairs@.len() && 0 <= l < self.book_at(pp, ot2).len() && 0
                            <= kk < self.book_at(pp, ot2)[l].list@.len() implies #[trigger] self.book_at(
                        pp,
                        ot2,
                    )[l].list@[kk] != index by {
                        assert(self.book_at(pp, ot2) == e0.book_at(pp, ot2));
                        assert(e0.book_at(pp, ot2)[l].list@[kk] != index);
                    }
                }
            }
            return ;
        }
        let mut lvl = levels.remove(j);
        let ghost q = lvl.list@;
        let mut k: usize = 0;
        while k < lvl.list.len() && lvl.list[k] != index
            invariant
                k <= lvl.list@.len(),
                lvl.list@ == q,
                forall|l: int| 0 <= l < k ==> q[l] != index,
            decreases lvl.list@.len() - k,
        {
            k = k + 1;
        }
        if k == lvl.list.len() {
            levels.insert(j, lvl);
            let ghost lvls_back = levels@;
            self.books.set_and_swap(b, &mut levels);
            proof {
                assert(lvls_back =~= oldb);
                assert(self.books@[b as int]@ == lvls_back);
                assert forall|pp: int, ot2: OrderType|
                    0 <= pp < e0.pairs@.len() implies #[trigger] self.book_at(pp, ot2)
                    == e0.book_at(pp, ot2) by {
                    if Engine::book_index(pp, ot2) != b as int {
                        assert(self.books@[Engine::book_index(pp, ot2)] == e0.books@[Engine::book_index(
                            pp,
                            ot2,
                        )]);
                    }
                }
                lemma_wf_books_views_equal(e0, *self);
                lemma_not_queued_no_slot(e0, *self, index, pi as int, j as int);
            }
            return ;
        }
        let _ = lvl.list.remove(k);
        proof {
            assert(level_wf(e0.orders@, e0.pairs@[pi as int], ot, oldb[j as int]));
            lemma_queue_sum_remove(e0.orders@, q, k as int);
            lemma_queue_sum_nonneg(e0.orders@, q.remove(k as int));
            assert(left_of(e0.orders@, q[k as int]) == left);
            assert(lvl.sum >= left as u128);
        }
        lvl.sum = lvl.sum - (left as u128);
        if lvl.list.len() > 0 {
            levels.insert(j, lvl);
            proof {
                assert(levels@ =~= oldb.update(j as int, levels@[j as int]));
            }
        } else {
            proof {
                assert(levels@ =~= oldb.remove(j as int));
            }
        }
        let ghost lvls2 = levels@;
        self.books.set_and_swap(b, &mut levels);
        proof {
            let e2 = *self;
            assert(e2.books@ =~= e0.books@.update(b as int, e2.books@[b as int]));
            assert(e2.book_at(pi as int, ot) == lvls2);
            assert(book_removed_at(oldb, lvls2, index, left, j as int, k as int));
            lemma_wf_after_removal(e0, e2, index, pi as int, b as int, ot, oldb, lvls2, j as int, k as int);
        }
    }

    /// Cancel an open order: only its owner may cancel, only while it is
    /// open. The order leaves its book, its residual collateral returns to
    /// the owner's free balance, and the record is kept as Canceled with its
    /// unfilled quantity intact, for audit. A rejected request changes
    /// nothing.
    #[verifier::rlimit(100)]
    pub fn do_cancel_order(&mut self, who: u64, _order: OrderPair, index: u128) -> (r: Result<
        (),
        DexError,
    >)
        requires
            old(self).wf(),
        ensures
            final(self).wf(),
            final(self).pairs@ == old(self).pairs@,
            final(self).block_number == old(self).block_number,
            final(self).ledger.types@ == old(self).ledger.types@,
            forall|t: Seq<u8>|
                #![trigger final(self).ledger.total(t)]
                final(self).ledger.total(t) == old(self).ledger.total(t),
            r is Ok <==> 1 <= index <= old(self).orders@.len() && old(self).orders@[index as int
                - 1].who == who && old(self).orders@[index as int - 1].status is Valid,
            (index < 1 || index > old(self).orders@.len()) ==> r == Result::<(), DexError>::Err(
                DexError::UnknownOrder,
            ),
            (1 <= index <= old(self).orders@.len() && old(self).orders@[index as int - 1].who
                != who) ==> r == Result::<(), DexError>::Err(DexError::NotPermitted),
            (1 <= index <= old(self).orders@.len() && old(self).orders@[index as int - 1].who
                == who && !(old(self).orders@[index as int - 1].status is Valid)) ==> r == Result::<
                (),
                DexError,
            >::Err(DexError::NotCancelable),
            r is Err ==> *final(self) == *old(self),
            r is Ok ==> {
                &&& final(self).orders@.len() == old(self).orders@.len()
                &&& (forall|k: int|
                    0 <= k < old(self).orders@.len() && k != index - 1
                        ==> #[trigger] final(self).orders@[k] == old(self).orders@[k])
                &&& final(self).orders@[index as int - 1] == (OrderInformation {
                    status: OrderStatus::Canceled,
                    ..old(self).orders@[index as int - 1]
                })
                &&& !final(self).id_queued(index)
                &&& (forall|t: Seq<u8>, w: u64|
                    #![trigger final(self).ledger.free(t, w)]
                    final(self).ledger.free(t, w) as int == old(self).ledger.free(t, w) + (if t
                        == lock_asset(old(self).orders@[index as int - 1]) && w == who {
                        residual_lock(old(self).orders@[index as int - 1])
                    } else {
                        0
                    }))
                &&& (forall|t: Seq<u8>, w: u64|
                    #![trigger final(self).ledger.locked(t, w)]
                    final(self).ledger.locked(t, w) as int == old(self).ledger.locked(t, w) - (if t
                        == lock_asset(old(self).orders@[index as int - 1]) && w == who {
                        residual_lock(old(self).orders@[index as int - 1])
                    } else {
                        0
                    }))
                &&& (forall|pp: int, ot2: OrderType|
                    0 <= pp < final(self).pairs@.len() ==> (#[trigger] final(self).book_at(pp, ot2)
                        == old(self).book_at(pp, ot2) || exists|j: int, k: int|
                        #[trigger] book_removed_at(
                            old(self).book_at(pp, ot2),
                            final(self).book_at(pp, ot2),
                            index,
                            old(self).orders@[index as int - 1].left,
                            j,
                            k,
                        )))
            },
    {
        let n128 = self.orders.len() as u128;
        if !(1 <= index && index <= n128) {
            return Err(DexError::UnknownOrder);
        }
        let no = self.orders.len();
        proof {
            assert(index - 1 < no);
        }
        let idx = (index - 1) as usize;
        if self.orders[idx].who != who {
            return Err(DexError::NotPermitted);
        }
        match self.orders[idx].status {
            OrderStatus::Valid => {},
            _ => {
                return Err(DexError::NotCancelable);
            },
        }
        // pull the order off the books first, while every invariant holds
        self.cancel_bid(index);
        let ghost e1 = *self;
        // mark the record canceled; its unfilled quantity stays, for audit
        let mut o = self.orders.remove(idx);
        o.status = OrderStatus::Canceled;
        let left = o.left;
        let price = o.price;
        let tokentype: Vec<u8> = match o.ordertype {
            OrderType::Buy => clone_bytes(&o.pair.second),
            OrderType::Sell => clone_bytes(&o.pair.first),
        };
        proof {
            assert(order_rec_wf(e1.orders@[idx as int], idx as int));
            vstd::arithmetic::mul::lemma_mul_inequality(left as int, o.amount as int, price as int);
            vstd::arithmetic::mul::lemma_mul_is_commutative(price as int, o.amount as int);
            vstd::arithmetic::mul::lemma_mul_is_commutative(price as int, left as int);
        }
        let unlock_amt: u64 = match o.ordertype {
            OrderType::Buy => price * left,
            OrderType::Sell => left,
        };
        self.orders.insert(idx, o);
        let ghost o2 = self.orders@[idx as int];
        proof {
            assert(self.orders@ =~= e1.orders@.update(idx as int, o2));
            assert(unlock_amt == residual_lock(e1.orders@[idx as int]));
            assert(tokentype@ == lock_asset(e1.orders@[idx as int]));
            // the record still accounts for its collateral, so the unlock holds
            assert(self.ledger.locked(tokentype@, who) >= unlock_amt) by {
                lemma_residual_ge_contrib(e1.orders@, idx as int, tokentype@, who);
                assert(e1.ledger.locked(tokentype@, who) == locked_residual(
                    e1.orders@,
                    tokentype@,
                    who,
                ));
            }
            assert(self.ledger.is_registered(tokentype@)) by {
                assert(e1.ledger.is_registered(lock_asset(e1.orders@[idx as int])));
            }
        }
        let r2 = self.ledger.unlock(who, &tokentype, unlock_amt);
        proof {
            assert(r2 is Ok);
            let e2 = *self;
            assert(e2.books@ == e1.books@);
            assert forall|pp: int, ot2: OrderType|
                0 <= pp < e2.pairs@.len() implies book_wf(
                e2.orders@,
                e2.pairs@[pp],
                ot2,
                #[trigger] e2.book_at(pp, ot2),
            ) by {
                assert(e2.book_at(pp, ot2) == e1.book_at(pp, ot2));
                assert(book_wf(e1.orders@, e1.pairs@[pp], ot2, e1.book_at(pp, ot2)));
                assert forall|l: int, k: int|
                    0 <= l < e1.book_at(pp, ot2).len() && 0 <= k < e1.book_at(
                        pp,
                        ot2,
                    )[l].list@.len() implies #[trigger] e1.book_at(pp, ot2)[l].list@[k] != index by {
                    if e1.book_at(pp, ot2)[l].list@[k] == index {
                        assert(e1.id_queued(index));
                    }
                }
                lemma_book_wf_two_changed(
                    e1.orders@,
                    e2.orders@,
                    e1.pairs@[pp],
                    ot2,
                    e1.book_at(pp, ot2),
                    index,
                    index,
                );
            }
            assert(e2.uncrossed()) by {
                assert forall|pp: int, i: int, jj: int|
                    0 <= pp < e2.pairs@.len() && 0 <= i < e2.book_at(pp, OrderType::Buy).len() && 0
                        <= jj < e2.book_at(pp, OrderType::Sell).len() implies #[trigger] e2.book_at(
                    pp,
                    OrderType::Buy,
                )[i].price < #[trigger] e2.book_at(pp, OrderType::Sell)[jj].price by {
                    assert(e2.book_at(pp, OrderType::Buy) == e1.book_at(pp, OrderType::Buy));
                    assert(e2.book_at(pp, OrderType::Sell) == e1.book_at(pp, OrderType::Sell));
                    assert(e1.book_at(pp, OrderType::Buy)[i].price < e1.book_at(
                        pp,
                        OrderType::Sell,
                    )[jj].price);
                }
            }
            assert forall|t: Seq<u8>, w: u64| #![trigger e2.ledger.locked(t, w)]
                e2.ledger.locked(t, w) == locked_residual(e2.orders@, t, w) by {
                lemma_residual_update(e1.orders@, idx as int, o2, t, w);
                assert(e1.ledger.locked(t, w) == locked_residual(e1.orders@, t, w));
            }
            assert forall|i: int|
                0 <= i < e2.orders@.len() && (#[trigger] e2.orders@[i]).status is Valid implies e2.ledger.is_registered(
                lock_asset(e2.orders@[i]),
            ) by {
                assert(e2.orders@[i] == e1.orders@[i]);
                assert(e1.ledger.is_registered(lock_asset(e1.orders@[i])));
                assert(e2.ledger.precision(lock_asset(e1.orders@[i])) == e1.ledger.precision(
                    lock_asset(e1.orders@[i]),
                ));
            }
            assert forall|i: int| 0 <= i < e2.orders@.len() implies order_rec_wf(
                #[trigger] e2.orders@[i],
                i,
            ) by {
                assert(order_rec_wf(e1.orders@[i], i));
            }
            assert(!e2.id_queued(index)) by {
                assert forall|pp: int, ot2: OrderType, l: int, k: int|
                    0 <= pp < e2.pairs@.len() && 0 <= l < e2.book_at(pp, ot2).len() && 0 <= k
                        < e2.book_at(pp, ot2)[l].list@.len() implies #[trigger] e2.book_at(
                    pp,
                    ot2,
                )[l].list@[k] != index by {
                    assert(e2.book_at(pp, ot2) == e1.book_at(pp, ot2));
                    if e1.book_at(pp, ot2)[l].list@[k] == index {
                        assert(e1.id_queued(index));
                    }
                }
            }
            assert forall|t: Seq<u8>| #![trigger e2.ledger.total(t)]
                e2.ledger.total(t) == old(self).ledger.total(t) by {
                assert(e1.ledger.total(t) == old(self).ledger.total(t));
            }
            assert forall|pp: int, ot2: OrderType|
                0 <= pp < e2.pairs@.len() implies (#[trigger] e2.book_at(pp, ot2) == old(self).book_at(pp, ot2) || exists|j: int, k: int|
                #[trigger] book_removed_at(
                    old(self).book_at(pp, ot2),
                    e2.book_at(pp, ot2),
                    index,
                    old(self).orders@[index as int - 1].left,
                    j,
                    k,
                )) by {
                assert(e2.book_at(pp, ot2) == e1.book_at(pp, ot2));
                if e1.book_at(pp, ot2) != old(self).book_at(pp, ot2) {
                    let (j, k) = choose|j: int, k: int|
                        #[trigger] book_removed_at(
                            old(self).book_at(pp, ot2),
                            e1.book_at(pp, ot2),
                            index,
                            old(self).orders@[index as int - 1].left,
                            j,
                            k,
                        );
                    assert(book_removed_at(
                        old(self).book_at(pp, ot2),
                        e2.book_at(pp, ot2),
                        index,
                        old(self).orders@[index as int - 1].left,
                        j,
                        k,
                    ));
                }
            }
        }
        Ok(())
    }

    /// Cancel an open order. The public cancellation entry point: only the
    /// owner may cancel, only while the order is open; the residual
    /// collateral returns to the owner's free balance and the order leaves
    /// the book.
    pub fn cancel_order(&mut self, who: u64, orderpair: OrderPair, index: u128) -> (r: Result<
        (),
        DexError,
    >)
        requires
            old(self).wf(),
        ensures
            final(self).wf(),
            final(self).pairs@ == old(self).pairs@,
            final(self).block_number == old(self).block_number,
            final(self).ledger.types@ == old(self).ledger.types@,
            forall|t: Seq<u8>|
                #![trigger final(self).ledger.total(t)]
                final(self).ledger.total(t) == old(self).ledger.total(t),
            r is Ok <==> 1 <= index <= old(self).orders@.len() && old(self).orders@[index as int
                - 1].who == who && old(self).orders@[index as int - 1].status is Valid,
            r is Err ==> *final(self) == *old(self),
            r is Ok ==> {
                &&& final(self).orders@.len() == old(self).orders@.len()
                &&& (forall|k: int|
                    0 <= k < old(self).orders@.len() && k != index - 1
                        ==> #[trigger] final(self).orders@[k] == old(self).orders@[k])
                &&& final(self).orders@[index as int - 1] == (OrderInformation {
                    status: OrderStatus::Canceled,
                    ..old(self).orders@[index as int - 1]
                })
                &&& !final(self).id_queued(index)
                &&& (forall|t: Seq<u8>, w: u64|
                    #![trigger final(self).ledger.free(t, w)]
                    final(self).ledger.free(t, w) as int == old(self).ledger.free(t, w) + (if t
                        == lock_asset(old(self).orders@[index as int - 1]) && w == who {
                        residual_lock(old(self).orders@[index as int - 1])
                    } else {
                        0
                    }))
                &&& (forall|t: Seq<u8>, w: u64|
                    #![trigger final(self).ledger.locked(t, w)]
                    final(self).ledger.locked(t, w) as int == old(self).ledger.locked(t, w) - (if t
                        == lock_asset(old(self).orders@[index as int - 1]) && w == who {
                        residual_lock(old(self).orders@[index as int - 1])
                    } else {
                        0
                    }))
            },
    {
        self.do_cancel_order(who, orderpair, index)
    }

    /// The next node id for a fresh price level; the counter wraps to zero
    /// when exhausted.
    fn new_nodeid(&mut self) -> (r: u128)
        ensures
            *final(self) == (Engine { nodeid: r, ..*old(self) }),
            r == if old(self).nodeid == u128::MAX {
                0u128
            } else {
                (old(self).nodeid + 1) as u128
            },
    {
        let last_nodeid: u128 = match self.nodeid.checked_add(1) {
            Some(b) => b,
            None => 0,
        };
        self.nodeid = last_nodeid;
        last_nodeid
    }
}

/// Every price level of a well-formed engine aggregates exactly the unfilled
/// quantities of the orders queued at it.
pub proof fn lemma_level_sum_is_queue_sum(e: Engine, p: int, ot: OrderType, l: int)
    requires
        e.wf(),
        0 <= p < e.pairs@.len(),
        0 <= l < e.book_at(p, ot).len(),
    ensures
        e.book_at(p, ot)[l].sum == queue_sum(e.orders@, e.book_at(p, ot)[l].list@),
        e.book_at(p, ot)[l].list@.len() > 0,
{
    assert(book_wf(e.orders@, e.pairs@[p], ot, e.book_at(p, ot)));
    assert(level_wf(e.orders@, e.pairs@[p], ot, e.book_at(p, ot)[l]));
}

/// In a well-formed engine the books stand best-first: a buy book descends
/// and a sell book ascends strictly, so no side holds two levels at one price.
pub proof fn lemma_book_sorted(e: Engine, p: int, ot: OrderType, i: int, j: int)
    requires
        e.wf(),
        0 <= p < e.pairs@.len(),
        0 <= i < j < e.book_at(p, ot).len(),
    ensures
        price_before(ot, e.book_at(p, ot)[i].price, e.book_at(p, ot)[j].price),
{
    assert(book_wf(e.orders@, e.pairs@[p], ot, e.book_at(p, ot)));
}

/// Every order referenced from a book queue of a well-formed engine is an
/// existing, open, unfilled order of that market, side and price, and the
/// queue serves arrivals first: later positions hold later orders.
pub proof fn lemma_booked_orders_open(e: Engine, p: int, ot: OrderType, l: int, k: int)
    requires
        e.wf(),
        0 <= p < e.pairs@.len(),
        0 <= l < e.book_at(p, ot).len(),
        0 <= k < e.book_at(p, ot)[l].list@.len(),
    ensures
        queued_ok(e.orders@, e.pairs@[p], ot, e.book_at(p, ot)[l].price, e.book_at(p, ot)[l].list@[k]),
        e.orders@[e.book_at(p, ot)[l].list@[k] as int - 1].status is Valid,
        e.orders@[e.book_at(p, ot)[l].list@[k] as int - 1].left > 0,
        forall|k2: int|
            k < k2 < e.book_at(p, ot)[l].list@.len() ==> e.book_at(p, ot)[l].list@[k]
                < #[trigger] e.book_at(p, ot)[l].list@[k2],
{
    assert(book_wf(e.orders@, e.pairs@[p], ot, e.book_at(p, ot)));
    assert(level_wf(e.orders@, e.pairs@[p], ot, e.book_at(p, ot)[l]));
}

/// A well-formed engine never holds a crossed book: every resting buy of a
/// market is priced strictly below every resting sell of the same market.
pub proof fn lemma_no_crossed_book(e: Engine, p: int, lb: int, kb: int, ls: int, ks: int)
    requires
        e.wf(),
        0 <= p < e.pairs@.len(),
        0 <= lb < e.book_at(p, OrderType::Buy).len(),
        0 <= kb < e.book_at(p, OrderType::Buy)[lb].list@.len(),
        0 <= ls < e.book_at(p, OrderType::Sell).len(),
        0 <= ks < e.book_at(p, OrderType::Sell)[ls].list@.len(),
    ensures
        e.orders@[e.book_at(p, OrderType::Buy)[lb].list@[kb] as int - 1].price < e.orders@[e.book_at(
            p,
            OrderType::Sell,
        )[ls].list@[ks] as int - 1].price,
{
    assert(book_wf(e.orders@, e.pairs@[p], OrderType::Buy, e.book_at(p, OrderType::Buy)));
    assert(level_wf(
        e.orders@,
        e.pairs@[p],
        OrderType::Buy,
        e.book_at(p, OrderType::Buy)[lb],
    ));
    assert(queued_ok(
        e.orders@,
        e.pairs@[p],
        OrderType::Buy,
        e.book_at(p, OrderType::Buy)[lb].price,
        e.book_at(p, OrderType::Buy)[lb].list@[kb],
    ));
    assert(book_wf(e.orders@, e.pairs@[p], OrderType::Sell, e.book_at(p, OrderType::Sell)));
    assert(level_wf(
        e.orders@,
        e.pairs@[p],
        OrderType::Sell,
        e.book_at(p, OrderType::Sell)[ls],
    ));
    assert(queued_ok(
        e.orders@,
        e.pairs@[p],
        OrderType::Sell,
        e.book_at(p, OrderType::Sell)[ls].price,
        e.book_at(p, OrderType::Sell)[ls].list@[ks],
    ));
}

/// In a well-formed engine every locked balance is exactly the collateral of
/// the open orders of that account in that asset: every open buy holds
/// `price * left` of quote, every open sell holds `left` of base, and nothing
/// else is locked.
pub proof fn lemma_locked_is_order_collateral(e: Engine, t: Seq<u8>, w: u64)
    requires
        e.wf(),
    ensures
        e.ledger.locked(t, w) == locked_residual(e.orders@, t, w),
{
}

/// In a well-formed engine an order record is Finished exactly when nothing
/// of it is left unfilled, unless its owner canceled it.
pub proof fn lemma_left_zero_iff_finished(e: Engine, i: int)
    requires
        e.wf(),
        0 <= i < e.orders@.len(),
        !(e.orders@[i].status is Canceled),
    ensures
        e.orders@[i].left == 0 <==> e.orders@[i].status is Finished,
{
    assert(order_rec_wf(e.orders@[i], i));
}

/// Submitting an order that crossed nothing and then canceling it restores
/// the submitter's balances exactly. A submission that matched nothing only
/// moved the order's collateral from the free to the locked partition (the
/// no-match clause of `check_order`, with `residual_lock` equal to the
/// submission's `lock_amount` while the order is wholly unfilled); canceling
/// the still-unfilled order moves the same collateral back (the success
/// clause of `cancel_order`). Nothing else about any balance changed.
pub proof fn lemma_submit_then_cancel_restores_balances(
    e0: Engine,
    e1: Engine,
    e2: Engine,
    who: u64,
    o: OrderInformation,
)
    requires
        o.left == o.amount,
        o.who == who,
        forall|t: Seq<u8>, w: u64|
            #![trigger e1.ledger.free(t, w)]
            e1.ledger.free(t, w) as int == e0.ledger.free(t, w) - (if t == lock_asset(o) && w
                == who {
                residual_lock(o)
            } else {
                0
            }),
        forall|t: Seq<u8>, w: u64|
            #![trigger e1.ledger.locked(t, w)]
            e1.ledger.locked(t, w) as int == e0.ledger.locked(t, w) + (if t == lock_asset(o) && w
                == who {
                residual_lock(o)
            } else {
                0
            }),
        forall|t: Seq<u8>, w: u64|
            #![trigger e2.ledger.free(t, w)]
            e2.ledger.free(t, w) as int == e1.ledger.free(t, w) + (if t == lock_asset(o) && w
                == who {
                residual_lock(o)
            } else {
                0
            }),
        forall|t: Seq<u8>, w: u64|
            #![trigger e2.ledger.locked(t, w)]
            e2.ledger.locked(t, w) as int == e1.ledger.locked(t, w) - (if t == lock_asset(o) && w
                == who {
                residual_lock(o)
            } else {
                0
            }),
    ensures
        forall|t: Seq<u8>, w: u64|
            #![trigger e2.ledger.free(t, w)]
            e2.ledger.free(t, w) == e0.ledger.free(t, w),
        forall|t: Seq<u8>, w: u64|
            #![trigger e2.ledger.locked(t, w)]
            e2.ledger.locked(t, w) == e0.ledger.locked(t, w),
{
    assert forall|t: Seq<u8>, w: u64|
        e2.ledger.free(t, w) == e0.ledger.free(t, w) && e2.ledger.locked(t, w) == e0.ledger.locked(
        t,
        w,
    ) by {
        assert(e1.ledger.free(t, w) as int == e0.ledger.free(t, w) - (if t == lock_asset(o) && w
            == who {
            residual_lock(o)
        } else {
            0
        }));
        assert(e1.ledger.locked(t, w) as int == e0.ledger.locked(t, w) + (if t == lock_asset(o)
            && w == who {
            residual_lock(o)
        } else {
            0
        }));
    }
}

/// Books, orders and pairs untouched, the registry untouched, and every
/// locked balance untouched: the engine invariant survives a ledger
/// operation that only moves free balances.
pub proof fn lemma_wf_after_ledger_op(e1: Engine, e2: Engine)
    requires
        e1.wf(),
        e2.books@ == e1.books@,
        e2.orders@ == e1.orders@,
        e2.pairs@ == e1.pairs@,
        e2.ledger.types@ == e1.ledger.types@,
        e2.ledger.wf(),
        forall|t: Seq<u8>, w: u64|
            #![trigger e2.ledger.locked(t, w)]
            e2.ledger.locked(t, w) == e1.ledger.locked(t, w),
    ensures
        e2.wf(),
{
    assert forall|p: int, ot: OrderType|
        0 <= p < e2.pairs@.len() implies book_wf(
        e2.orders@,
        e2.pairs@[p],
        ot,
        #[trigger] e2.book_at(p, ot),
    ) by {
        assert(e2.book_at(p, ot) == e1.book_at(p, ot));
        assert(book_wf(e1.orders@, e1.pairs@[p], ot, e1.book_at(p, ot)));
    }
    assert(e2.uncrossed()) by {
        assert forall|p: int, i: int, j: int|
            0 <= p < e2.pairs@.len() && 0 <= i < e2.book_at(p, OrderType::Buy).len() && 0 <= j
                < e2.book_at(p, OrderType::Sell).len() implies #[trigger] e2.book_at(
            p,
            OrderType::Buy,
        )[i].price < #[trigger] e2.book_at(p, OrderType::Sell)[j].price by {
            assert(e2.book_at(p, OrderType::Buy) == e1.book_at(p, OrderType::Buy));
            assert(e2.book_at(p, OrderType::Sell) == e1.book_at(p, OrderType::Sell));
            assert(e1.book_at(p, OrderType::Buy)[i].price < e1.book_at(p, OrderType::Sell)[j].price);
        }
    }
    assert forall|t: Seq<u8>, w: u64| #![trigger e2.ledger.locked(t, w)]
        e2.ledger.locked(t, w) == locked_residual(e2.orders@, t, w) by {
        assert(e1.ledger.locked(t, w) == locked_residual(e1.orders@, t, w));
    }
    assert forall|i: int|
        0 <= i < e2.orders@.len() && (#[trigger] e2.orders@[i]).status is Valid implies e2.ledger.is_registered(
        lock_asset(e2.orders@[i]),
    ) by {
        assert(e1.orders@[i] == e2.orders@[i]);
        assert(e1.ledger.is_registered(lock_asset(e1.orders@[i])));
    }
}

/// Like `lemma_wf_after_ledger_op`, for an operation that only touches the
/// registry: balances untouched, registrations only added or re-priced.
pub proof fn lemma_wf_after_ledger_op_types(e1: Engine, e2: Engine)
    requires
        e1.wf(),
        e2.books@ == e1.books@,
        e2.orders@ == e1.orders@,
        e2.pairs@ == e1.pairs@,
        e2.ledger.entries@ == e1.ledger.entries@,
        e2.ledger.wf(),
        forall|t: Seq<u8>| e1.ledger.is_registered(t) ==> #[trigger] e2.ledger.is_registered(t),
    ensures
        e2.wf(),
{
    assert forall|p: int, ot: OrderType|
        0 <= p < e2.pairs@.len() implies book_wf(
        e2.orders@,
        e2.pairs@[p],
        ot,
        #[trigger] e2.book_at(p, ot),
    ) by {
        assert(e2.book_at(p, ot) == e1.book_at(p, ot));
        assert(book_wf(e1.orders@, e1.pairs@[p], ot, e1.book_at(p, ot)));
    }
    assert(e2.uncrossed()) by {
        assert forall|p: int, i: int, j: int|
            0 <= p < e2.pairs@.len() && 0 <= i < e2.book_at(p, OrderType::Buy).len() && 0 <= j
                < e2.book_at(p, OrderType::Sell).len() implies #[trigger] e2.book_at(
            p,
            OrderType::Buy,
        )[i].price < #[trigger] e2.book_at(p, OrderType::Sell)[j].price by {
            assert(e2.book_at(p, OrderType::Buy) == e1.book_at(p, OrderType::Buy));
            assert(e2.book_at(p, OrderType::Sell) == e1.book_at(p, OrderType::Sell));
            assert(e1.book_at(p, OrderType::Buy)[i].price < e1.book_at(p, OrderType::Sell)[j].price);
        }
    }
    assert forall|t: Seq<u8>, w: u64| #![trigger e2.ledger.locked(t, w)]
        e2.ledger.locked(t, w) == locked_residual(e2.orders@, t, w) by {
        assert(e1.ledger.locked(t, w) == locked_residual(e1.orders@, t, w));
    }
    assert forall|i: int|
        0 <= i < e2.orders@.len() && (#[trigger] e2.orders@[i]).status is Valid implies e2.ledger.is_registered(
        lock_asset(e2.orders@[i]),
    ) by {
        assert(e1.orders@[i] == e2.orders@[i]);
        assert(e1.ledger.is_registered(lock_asset(e1.orders@[i])));
    }
}

} // verus!
