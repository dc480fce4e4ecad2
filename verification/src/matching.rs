//! The specification-level model of matching. `match_model` computes, from
//! the opposite book side and the taker's side, price and quantity, exactly
//! which fills happen, what remains of the taker, and what remains of the
//! book; `fills_free_delta` and `fills_locked_delta` say what those fills do
//! to every balance cell. The matcher is specified against this model, so a
//! matcher that trades at the wrong price, pays the wrong party, skips a
//! crossing level or fails to trade at all is rejected by its own contract.

use vstd::prelude::*;

use crate::book::crosses;
use crate::book::left_of;
use crate::book::Bid;
use crate::types::OrderInformation;
use crate::types::OrderType;

verus! {

/// The matching-relevant shadow of one price level: its price and its queue
/// of resting order ids, in arrival order.
pub struct LevelModel {
    pub price: u64,
    pub queue: Seq<u128>,
}

/// One fill: `qty` base units traded against the resting order `maker_id` of
/// account `maker_who`, at the maker's level price.
pub struct Fill {
    pub maker_id: u128,
    pub maker_who: u64,
    pub qty: u64,
    pub price: u64,
}

/// What matching leaves behind: the taker's unfilled remainder, the opposite
/// book side that survives, and the fills in execution order.
pub struct MatchModel {
    pub left: u64,
    pub book: Seq<LevelModel>,
    pub fills: Seq<Fill>,
}

/// The matching-relevant shadow of a whole book side.
pub open spec fn book_model(levels: Seq<Bid>) -> Seq<LevelModel> {
    Seq::new(
        levels.len(),
        |i: int| LevelModel { price: levels[i].price, queue: levels[i].list@ },
    )
}

/// The account owning order `id`; immaterial for ids out of range.
pub open spec fn who_of(orders: Seq<OrderInformation>, id: u128) -> u64 {
    if 1 <= id && id <= orders.len() {
        orders[id as int - 1].who
    } else {
        0u64
    }
}

/// The complete outcome of matching a taker of side `ot`, limit `tp` and
/// unfilled quantity `left` against the opposite book side `book`, walking
/// best price first and each queue in arrival order. Each step fills
/// `min(left, maker's left)` against the queue head: a consumed maker leaves
/// its queue (an emptied level leaves the book) and matching goes on; a
/// partial fill exhausts the taker and stops. Maker quantities are read from
/// `orders`; a maker's quantity changes only on the fill that stops the walk,
/// so the original records suffice.
pub open spec fn match_model(
    orders: Seq<OrderInformation>,
    book: Seq<LevelModel>,
    ot: OrderType,
    tp: u64,
    left: u64,
) -> MatchModel
    decreases book.len(), (if book.len() > 0 {
        book[0].queue.len()
    } else {
        0
    }),
{
    if left == 0 || book.len() == 0 || !crosses(ot, tp, book[0].price) {
        MatchModel { left, book, fills: Seq::empty() }
    } else if book[0].queue.len() == 0 {
        // a well-formed book has no empty queue; consume it for totality
        match_model(orders, book.skip(1), ot, tp, left)
    } else {
        let mid = book[0].queue[0];
        let ml = left_of(orders, mid);
        let f = Fill {
            maker_id: mid,
            maker_who: who_of(orders, mid),
            qty: if left < ml {
                left
            } else {
                ml
            },
            price: book[0].price,
        };
        if ml <= left {
            // the maker is consumed and leaves the queue
            let book2 = if book[0].queue.len() == 1 {
                book.skip(1)
            } else {
                book.update(0, LevelModel { price: book[0].price, queue: book[0].queue.skip(1) })
            };
            let rest = match_model(orders, book2, ot, tp, (left - ml) as u64);
            MatchModel { left: rest.left, book: rest.book, fills: seq![f] + rest.fills }
        } else {
            // the taker is exhausted by a partial fill of the queue head
            MatchModel { left: 0u64, book, fills: seq![f] }
        }
    }
}

/// What one fill does to the free balance of `(t, w)`. The buy side's lock
/// price is the buyer's own limit: the taker's limit `tp` when the taker
/// buys, the maker's level price when the maker buys (then nothing was
/// over-locked). Per fill, the buyer's over-lock `qty * (lock − price)`
/// returns to the buyer's free quote, the payment `qty * price` reaches the
/// seller's free quote, and `qty` base reaches the buyer's free balance.
pub open spec fn fill_free_delta(
    f: Fill,
    ot: OrderType,
    tp: u64,
    twho: u64,
    bse: Seq<u8>,
    qte: Seq<u8>,
    t: Seq<u8>,
    w: u64,
) -> int {
    match ot {
        OrderType::Buy => (if t == qte && w == twho {
            f.qty * (tp - f.price)
        } else {
            0
        }) + (if t == qte && w == f.maker_who {
            f.qty * f.price
        } else {
            0
        }) + (if t == bse && w == twho {
            f.qty as int
        } else {
            0
        }),
        OrderType::Sell => (if t == qte && w == twho {
            f.qty * f.price
        } else {
            0
        }) + (if t == bse && w == f.maker_who {
            f.qty as int
        } else {
            0
        }),
    }
}

/// What one fill does to the locked balance of `(t, w)`: the buyer's quote
/// lock shrinks by `qty` times the buyer's own limit (payment plus refund),
/// the seller's base lock by `qty`.
pub open spec fn fill_locked_delta(
    f: Fill,
    ot: OrderType,
    tp: u64,
    twho: u64,
    bse: Seq<u8>,
    qte: Seq<u8>,
    t: Seq<u8>,
    w: u64,
) -> int {
    match ot {
        OrderType::Buy => (if t == qte && w == twho {
            -(f.qty * tp)
        } else {
            0
        }) + (if t == bse && w == f.maker_who {
            -(f.qty as int)
        } else {
            0
        }),
        OrderType::Sell => (if t == qte && w == f.maker_who {
            -(f.qty * f.price)
        } else {
            0
        }) + (if t == bse && w == twho {
            -(f.qty as int)
        } else {
            0
        }),
    }
}

/// The free-balance change at `(t, w)` accumulated over a fill sequence.
pub open spec fn fills_free_delta(
    fills: Seq<Fill>,
    ot: OrderType,
    tp: u64,
    twho: u64,
    bse: Seq<u8>,
    qte: Seq<u8>,
    t: Seq<u8>,
    w: u64,
) -> int
    decreases fills.len(),
{
    if fills.len() == 0 {
        0
    } else {
        fill_free_delta(fills[0], ot, tp, twho, bse, qte, t, w) + fills_free_delta(
            fills.skip(1),
            ot,
            tp,
            twho,
            bse,
            qte,
            t,
            w,
        )
    }
}

/// The locked-balance change at `(t, w)` accumulated over a fill sequence.
pub open spec fn fills_locked_delta(
    fills: Seq<Fill>,
    ot: OrderType,
    tp: u64,
    twho: u64,
    bse: Seq<u8>,
    qte: Seq<u8>,
    t: Seq<u8>,
    w: u64,
) -> int
    decreases fills.len(),
{
    if fills.len() == 0 {
        0
    } else {
        fill_locked_delta(fills[0], ot, tp, twho, bse, qte, t, w) + fills_locked_delta(
            fills.skip(1),
            ot,
            tp,
            twho,
            bse,
            qte,
            t,
            w,
        )
    }
}

/// The maker ids of a fill sequence, in execution order: what the taker's
/// fill record gains.
pub open spec fn fills_makers(fills: Seq<Fill>) -> Seq<u128> {
    fills.map_values(|f: Fill| f.maker_id)
}

/// Whether `id` is the maker of some fill of the sequence.
pub open spec fn is_maker(fills: Seq<Fill>, id: u128) -> bool {
    exists|i: int| 0 <= i < fills.len() && (#[trigger] fills[i]).maker_id == id
}

/// Appending one fill extends the deltas by that fill's movements.
pub proof fn lemma_fills_delta_push(
    fills: Seq<Fill>,
    f: Fill,
    ot: OrderType,
    tp: u64,
    twho: u64,
    bse: Seq<u8>,
    qte: Seq<u8>,
    t: Seq<u8>,
    w: u64,
)
    ensures
        fills_free_delta(fills.push(f), ot, tp, twho, bse, qte, t, w) == fills_free_delta(
            fills,
            ot,
            tp,
            twho,
            bse,
            qte,
            t,
            w,
        ) + fill_free_delta(f, ot, tp, twho, bse, qte, t, w),
        fills_locked_delta(fills.push(f), ot, tp, twho, bse, qte, t, w) == fills_locked_delta(
            fills,
            ot,
            tp,
            twho,
            bse,
            qte,
            t,
            w,
        ) + fill_locked_delta(f, ot, tp, twho, bse, qte, t, w),
    decreases fills.len(),
{
    if fills.len() == 0 {
        assert(fills.push(f)[0] == f);
        assert(fills.push(f).skip(1) =~= Seq::<Fill>::empty());
        assert(fills_free_delta(Seq::<Fill>::empty(), ot, tp, twho, bse, qte, t, w) == 0);
        assert(fills_locked_delta(Seq::<Fill>::empty(), ot, tp, twho, bse, qte, t, w) == 0);
    } else {
        assert(fills.push(f)[0] == fills[0]);
        assert(fills.push(f).skip(1) =~= fills.skip(1).push(f));
        lemma_fills_delta_push(fills.skip(1), f, ot, tp, twho, bse, qte, t, w);
    }
}

/// Appending one fill appends its maker to the maker record, and a maker of
/// the longer sequence is the new one or a maker of the shorter.
pub proof fn lemma_fills_makers_push(fills: Seq<Fill>, f: Fill)
    ensures
        fills_makers(fills.push(f)) =~= fills_makers(fills).push(f.maker_id),
        forall|id: u128| is_maker(fills.push(f), id) <==> (is_maker(fills, id) || id == f.maker_id),
{
    assert forall|id: u128|
        is_maker(fills.push(f), id) <==> (is_maker(fills, id) || id == f.maker_id) by {
        if is_maker(fills.push(f), id) {
            let i = choose|i: int|
                0 <= i < fills.push(f).len() && (#[trigger] fills.push(f)[i]).maker_id == id;
            if i < fills.len() {
                assert(fills[i].maker_id == id);
            }
        }
        if is_maker(fills, id) {
            let i = choose|i: int| 0 <= i < fills.len() && (#[trigger] fills[i]).maker_id == id;
            assert(fills.push(f)[i].maker_id == id);
        }
        if id == f.maker_id {
            assert(fills.push(f)[fills.len() as int].maker_id == id);
        }
    }
}

/// The total base quantity of a fill sequence.
pub open spec fn fills_qty_sum(fills: Seq<Fill>) -> int
    decreases fills.len(),
{
    if fills.len() == 0 {
        0
    } else {
        fills[0].qty + fills_qty_sum(fills.skip(1))
    }
}

/// Matching conserves the base quantity: what the taker came with is what it
/// leaves with plus what the fills traded.
pub proof fn lemma_match_quantity_conserved(
    orders: Seq<OrderInformation>,
    book: Seq<LevelModel>,
    ot: OrderType,
    tp: u64,
    left: u64,
)
    ensures
        ({
            let m = match_model(orders, book, ot, tp, left);
            m.left + fills_qty_sum(m.fills) == left
        }),
    decreases book.len(), (if book.len() > 0 {
        book[0].queue.len()
    } else {
        0
    }),
{
    let m = match_model(orders, book, ot, tp, left);
    if left == 0 || book.len() == 0 || !crosses(ot, tp, book[0].price) {
        assert(fills_qty_sum(Seq::<Fill>::empty()) == 0);
    } else if book[0].queue.len() == 0 {
        lemma_match_quantity_conserved(orders, book.skip(1), ot, tp, left);
    } else {
        let mid = book[0].queue[0];
        let ml = left_of(orders, mid);
        let f = Fill {
            maker_id: mid,
            maker_who: who_of(orders, mid),
            qty: if left < ml {
                left
            } else {
                ml
            },
            price: book[0].price,
        };
        if ml <= left {
            let book2 = if book[0].queue.len() == 1 {
                book.skip(1)
            } else {
                book.update(0, LevelModel { price: book[0].price, queue: book[0].queue.skip(1) })
            };
            lemma_match_quantity_conserved(orders, book2, ot, tp, (left - ml) as u64);
            let rest = match_model(orders, book2, ot, tp, (left - ml) as u64);
            assert((seq![f] + rest.fills)[0] == f);
            assert((seq![f] + rest.fills).skip(1) =~= rest.fills);
        } else {
            assert((seq![f])[0] == f);
            assert(seq![f].skip(1) =~= Seq::<Fill>::empty());
            assert(fills_qty_sum(Seq::<Fill>::empty()) == 0);
        }
    }
}

/// Every fill settles at a crossing level's price: a buy taker never pays
/// above its limit, a sell taker never sells below it.
pub proof fn lemma_match_fills_cross(
    orders: Seq<OrderInformation>,
    book: Seq<LevelModel>,
    ot: OrderType,
    tp: u64,
    left: u64,
)
    ensures
        forall|i: int|
            0 <= i < match_model(orders, book, ot, tp, left).fills.len() ==> crosses(
                ot,
                tp,
                (#[trigger] match_model(orders, book, ot, tp, left).fills[i]).price,
            ),
    decreases book.len(), (if book.len() > 0 {
        book[0].queue.len()
    } else {
        0
    }),
{
    let m = match_model(orders, book, ot, tp, left);
    if left == 0 || book.len() == 0 || !crosses(ot, tp, book[0].price) {
    } else if book[0].queue.len() == 0 {
        lemma_match_fills_cross(orders, book.skip(1), ot, tp, left);
        let rest = match_model(orders, book.skip(1), ot, tp, left);
        assert forall|i: int| 0 <= i < m.fills.len() implies crosses(
            ot,
            tp,
            (#[trigger] m.fills[i]).price,
        ) by {
            assert(m.fills[i] == rest.fills[i]);
        }
    } else {
        let mid = book[0].queue[0];
        let ml = left_of(orders, mid);
        let f = Fill {
            maker_id: mid,
            maker_who: who_of(orders, mid),
            qty: if left < ml {
                left
            } else {
                ml
            },
            price: book[0].price,
        };
        if ml <= left {
            let book2 = if book[0].queue.len() == 1 {
                book.skip(1)
            } else {
                book.update(0, LevelModel { price: book[0].price, queue: book[0].queue.skip(1) })
            };
            lemma_match_fills_cross(orders, book2, ot, tp, (left - ml) as u64);
            let rest = match_model(orders, book2, ot, tp, (left - ml) as u64);
            assert forall|i: int| 0 <= i < m.fills.len() implies crosses(
                ot,
                tp,
                (#[trigger] m.fills[i]).price,
            ) by {
                if i == 0 {
                    assert(m.fills[0] == f);
                } else {
                    assert(m.fills[i] == rest.fills[i - 1]);
                }
            }
        } else {
            assert forall|i: int| 0 <= i < m.fills.len() implies crosses(
                ot,
                tp,
                (#[trigger] m.fills[i]).price,
            ) by {
                assert(m.fills[i] == f);
            }
        }
    }
}

/// The matching outcome reads of its order map only the queued makers'
/// records, so appending a fresh record (the incoming taker's own) changes
/// nothing about it.
pub proof fn lemma_match_model_push(
    orders: Seq<OrderInformation>,
    o: OrderInformation,
    book: Seq<LevelModel>,
    ot: OrderType,
    tp: u64,
    left: u64,
)
    requires
        forall|l: int, k: int|
            0 <= l < book.len() && 0 <= k < book[l].queue.len() ==> 1 <= #[trigger] book[l].queue[k]
                && book[l].queue[k] <= orders.len(),
    ensures
        match_model(orders.push(o), book, ot, tp, left) == match_model(orders, book, ot, tp, left),
    decreases book.len(), (if book.len() > 0 {
        book[0].queue.len()
    } else {
        0
    }),
{
    if left == 0 || book.len() == 0 || !crosses(ot, tp, book[0].price) {
    } else if book[0].queue.len() == 0 {
        assert forall|l: int, k: int|
            0 <= l < book.skip(1).len() && 0 <= k < book.skip(1)[l].queue.len() implies 1
            <= #[trigger] book.skip(1)[l].queue[k] && book.skip(1)[l].queue[k] <= orders.len() by {
            assert(book.skip(1)[l] == book[l + 1]);
        }
        lemma_match_model_push(orders, o, book.skip(1), ot, tp, left);
    } else {
        let mid = book[0].queue[0];
        assert(1 <= mid && mid <= orders.len());
        assert(orders.push(o)[mid as int - 1] == orders[mid as int - 1]);
        assert(left_of(orders.push(o), mid) == left_of(orders, mid));
        assert(who_of(orders.push(o), mid) == who_of(orders, mid));
        let ml = left_of(orders, mid);
        if ml <= left {
            let book2 = if book[0].queue.len() == 1 {
                book.skip(1)
            } else {
                book.update(0, LevelModel { price: book[0].price, queue: book[0].queue.skip(1) })
            };
            assert forall|l: int, k: int|
                0 <= l < book2.len() && 0 <= k < book2[l].queue.len() implies 1
                <= #[trigger] book2[l].queue[k] && book2[l].queue[k] <= orders.len() by {
                if book[0].queue.len() == 1 {
                    assert(book2[l] == book[l + 1]);
                } else {
                    if l == 0 {
                        assert(book2[0].queue[k] == book[0].queue[k + 1]);
                    } else {
                        assert(book2[l] == book[l]);
                    }
                }
            }
            lemma_match_model_push(orders, o, book2, ot, tp, (left - ml) as u64);
        }
    }
}

} // verus!

