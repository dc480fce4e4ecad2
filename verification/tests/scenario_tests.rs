use dex::engine::Engine;
use dex::types::DexError;
use dex::types::OrderPair;
use dex::types::OrderStatus;
use dex::types::OrderType;

fn base() -> Vec<u8> {
    vec![1u8, 2u8]
}

fn quote() -> Vec<u8> {
    vec![3u8, 4u8]
}

fn pair() -> OrderPair {
    OrderPair { first: base(), second: quote() }
}

fn ready_engine() -> Engine {
    let mut e = Engine::new();
    e.init_token();
    assert!(e.add_new_order_pair(pair()).is_ok());
    e
}

#[test]
fn zero_amount_and_zero_price_rejected_without_balance_change() {
    let mut e = ready_engine();
    assert!(e.depositing_token(10, base(), 1000).is_ok());
    assert_eq!(
        e.put_order_and_match(10, pair(), OrderType::Sell, 0, 100),
        Err(DexError::BadRequest)
    );
    assert_eq!(
        e.put_order_and_match(10, pair(), OrderType::Sell, 10, 0),
        Err(DexError::BadRequest)
    );
    assert_eq!(e.free_token((base(), 10)), 1000);
    assert_eq!(e.locked_token((base(), 10)), 0);
    assert_eq!(e.order_index(), 0);
}

#[test]
fn unregistered_pair_rejected() {
    let mut e = Engine::new();
    e.init_token();
    assert_eq!(
        e.put_order_and_match(10, pair(), OrderType::Sell, 10, 100),
        Err(DexError::BadRequest)
    );
}

#[test]
fn price_amount_overflow_rejected() {
    let mut e = ready_engine();
    assert!(e.depositing_token(10, base(), 1000).is_ok());
    assert_eq!(
        e.put_order_and_match(10, pair(), OrderType::Sell, 2, u64::MAX),
        Err(DexError::Overflow)
    );
    assert_eq!(
        e.put_order_and_match(10, pair(), OrderType::Buy, u64::MAX, 2),
        Err(DexError::Overflow)
    );
    assert_eq!(e.free_token((base(), 10)), 1000);
    assert_eq!(e.locked_token((base(), 10)), 0);
}

#[test]
fn unknown_asset_when_pair_has_unregistered_token() {
    let mut e = Engine::new();
    // the pair is registered, but no token type is
    assert!(e.add_new_order_pair(pair()).is_ok());
    assert_eq!(
        e.put_order_and_match(10, pair(), OrderType::Sell, 10, 100),
        Err(DexError::UnknownAsset)
    );
}

#[test]
fn exact_cross_finishes_both_and_empties_book() {
    let mut e = ready_engine();
    assert!(e.depositing_token(40, base(), 1000).is_ok());
    assert!(e.depositing_token(41, quote(), 100000).is_ok());
    assert!(e.put_order_and_match(40, pair(), OrderType::Sell, 100, 100).is_ok());
    assert!(e.put_order_and_match(41, pair(), OrderType::Buy, 100, 100).is_ok());
    let o1 = e.order_info(1).unwrap();
    assert_eq!(o1.status, OrderStatus::Finished);
    assert_eq!(o1.left, 0);
    let o2 = e.order_info(2).unwrap();
    assert_eq!(o2.status, OrderStatus::Finished);
    assert_eq!(o2.left, 0);
    assert_eq!(o1.fill_index, vec![2u128]);
    assert_eq!(o2.fill_index, vec![1u128]);
    assert!(e.bidlist_for(&pair(), OrderType::Sell).unwrap().is_empty());
    assert!(e.bidlist_for(&pair(), OrderType::Buy).unwrap().is_empty());
    // the goods and the payment both moved in full
    assert_eq!(e.free_token((base(), 40)), 900);
    assert_eq!(e.free_token((quote(), 40)), 10000);
    assert_eq!(e.free_token((base(), 41)), 100);
    assert_eq!(e.free_token((quote(), 41)), 90000);
    assert_eq!(e.locked_token((base(), 40)), 0);
    assert_eq!(e.locked_token((quote(), 41)), 0);
}

#[test]
fn self_match_conserves_balances() {
    let mut e = ready_engine();
    assert!(e.depositing_token(50, base(), 1000).is_ok());
    assert!(e.depositing_token(50, quote(), 2000).is_ok());
    assert!(e.put_order_and_match(50, pair(), OrderType::Sell, 10, 100).is_ok());
    assert!(e.put_order_and_match(50, pair(), OrderType::Buy, 10, 100).is_ok());
    // the self-trade settled; all balances are back, nothing stays locked
    assert_eq!(e.free_token((base(), 50)), 1000);
    assert_eq!(e.locked_token((base(), 50)), 0);
    assert_eq!(e.free_token((quote(), 50)), 2000);
    assert_eq!(e.locked_token((quote(), 50)), 0);
    assert_eq!(e.order_info(1).unwrap().status, OrderStatus::Finished);
    assert_eq!(e.order_info(2).unwrap().status, OrderStatus::Finished);
}

#[test]
fn partial_maker_fill_scenario() {
    // scenario: a partial fill of a resting sell, with price improvement
    let mut e = ready_engine();
    assert!(e.depositing_token(10, base(), 10000).is_ok());
    assert!(e.depositing_token(11, quote(), 10000).is_ok());
    assert!(e.put_order_and_match(10, pair(), OrderType::Sell, 100, 100).is_ok());
    assert!(e.put_order_and_match(11, pair(), OrderType::Buy, 50, 105).is_ok());
    // trade at 100 for 50: the buyer's lock at 105 is refunded per fill
    assert_eq!(e.free_token((base(), 10)), 9900);
    assert_eq!(e.locked_token((base(), 10)), 50);
    assert_eq!(e.free_token((quote(), 10)), 5000);
    assert_eq!(e.free_token((base(), 11)), 50);
    assert_eq!(e.free_token((quote(), 11)), 5000);
    assert_eq!(e.locked_token((quote(), 11)), 0);
    // the taker finished; the maker still rests with 50 left
    assert_eq!(e.order_info(2).unwrap().status, OrderStatus::Finished);
    assert_eq!(e.order_info(1).unwrap().status, OrderStatus::Valid);
    assert_eq!(e.order_info(1).unwrap().left, 50);
    let asks = e.bidlist_for(&pair(), OrderType::Sell).unwrap();
    assert_eq!(asks.len(), 1);
    assert_eq!(asks[0].price, 100);
    assert_eq!(asks[0].sum, 50u128);
    assert_eq!(asks[0].list, vec![1u128]);
}

#[test]
fn cancel_resting_order_scenario() {
    // continuing the partial-fill scenario: a non-crossing buy is canceled
    let mut e = ready_engine();
    assert!(e.depositing_token(10, base(), 10000).is_ok());
    assert!(e.depositing_token(11, quote(), 10000).is_ok());
    assert!(e.put_order_and_match(10, pair(), OrderType::Sell, 100, 100).is_ok());
    assert!(e.put_order_and_match(11, pair(), OrderType::Buy, 50, 105).is_ok());
    assert!(e.put_order_and_match(11, pair(), OrderType::Buy, 50, 95).is_ok());
    assert_eq!(e.free_token((quote(), 11)), 250);
    assert_eq!(e.locked_token((quote(), 11)), 4750);
    assert!(e.cancel_order(11, pair(), 3).is_ok());
    // the free quote is back in full; the order is Canceled; no bid remains
    assert_eq!(e.free_token((quote(), 11)), 5000);
    assert_eq!(e.locked_token((quote(), 11)), 0);
    assert_eq!(e.order_info(3).unwrap().status, OrderStatus::Canceled);
    let bids = e.bidlist_for(&pair(), OrderType::Buy).unwrap();
    assert!(bids.iter().all(|lvl| lvl.price != 95));
    assert!(bids.is_empty());
    // canceling again is a user error
    assert_eq!(e.cancel_order(11, pair(), 3), Err(DexError::NotCancelable));
}

#[test]
fn multi_level_sweep_with_price_improvement() {
    let mut e = ready_engine();
    assert!(e.depositing_token(10, base(), 10000).is_ok());
    assert!(e.depositing_token(12, quote(), 30000).is_ok());
    assert!(e.put_order_and_match(10, pair(), OrderType::Sell, 100, 100).is_ok());
    assert!(e.put_order_and_match(10, pair(), OrderType::Sell, 100, 105).is_ok());
    assert!(e.put_order_and_match(12, pair(), OrderType::Buy, 105, 120).is_ok());
    // fills: 100 at 100, then 5 at 105; the rest of the lock is refunded
    assert_eq!(e.free_token((base(), 12)), 105);
    assert_eq!(e.free_token((quote(), 12)), 19475);
    assert_eq!(e.locked_token((quote(), 12)), 0);
    assert_eq!(e.free_token((quote(), 10)), 10525);
    assert_eq!(e.locked_token((base(), 10)), 95);
    // the first ask is gone; the second shrank
    let asks = e.bidlist_for(&pair(), OrderType::Sell).unwrap();
    assert_eq!(asks.len(), 1);
    assert_eq!(asks[0].price, 105);
    assert_eq!(asks[0].sum, 95u128);
}

#[test]
fn non_crossing_orders_rest() {
    let mut e = ready_engine();
    assert!(e.depositing_token(20, base(), 100).is_ok());
    assert!(e.depositing_token(21, quote(), 10000).is_ok());
    assert!(e.put_order_and_match(20, pair(), OrderType::Sell, 10, 200).is_ok());
    assert!(e.put_order_and_match(21, pair(), OrderType::Buy, 10, 150).is_ok());
    // no fill: one ask at 200, one bid at 150, collateral locked
    let asks = e.bidlist_for(&pair(), OrderType::Sell).unwrap();
    assert_eq!(asks.len(), 1);
    assert_eq!(asks[0].price, 200);
    assert_eq!(asks[0].sum, 10u128);
    let bids = e.bidlist_for(&pair(), OrderType::Buy).unwrap();
    assert_eq!(bids.len(), 1);
    assert_eq!(bids[0].price, 150);
    assert_eq!(bids[0].sum, 10u128);
    assert_eq!(e.locked_token((base(), 20)), 10);
    assert_eq!(e.locked_token((quote(), 21)), 1500);
    assert_eq!(e.order_info(1).unwrap().status, OrderStatus::Valid);
    assert_eq!(e.order_info(2).unwrap().status, OrderStatus::Valid);
}

#[test]
fn fifo_within_a_level() {
    let mut e = ready_engine();
    assert!(e.depositing_token(30, base(), 100).is_ok());
    assert!(e.depositing_token(31, base(), 100).is_ok());
    assert!(e.depositing_token(32, quote(), 10000).is_ok());
    assert!(e.put_order_and_match(30, pair(), OrderType::Sell, 10, 100).is_ok());
    assert!(e.put_order_and_match(31, pair(), OrderType::Sell, 10, 100).is_ok());
    // both sellers queue at one level, in arrival order
    let asks = e.bidlist_for(&pair(), OrderType::Sell).unwrap();
    assert_eq!(asks.len(), 1);
    assert_eq!(asks[0].list, vec![1u128, 2u128]);
    assert_eq!(asks[0].sum, 20u128);
    assert!(e.put_order_and_match(32, pair(), OrderType::Buy, 15, 100).is_ok());
    // the earlier seller is filled in full, the later one in part
    assert_eq!(e.order_info(1).unwrap().status, OrderStatus::Finished);
    assert_eq!(e.order_info(1).unwrap().left, 0);
    assert_eq!(e.order_info(2).unwrap().status, OrderStatus::Valid);
    assert_eq!(e.order_info(2).unwrap().left, 5);
    let asks = e.bidlist_for(&pair(), OrderType::Sell).unwrap();
    assert_eq!(asks.len(), 1);
    assert_eq!(asks[0].sum, 5u128);
    assert_eq!(asks[0].list, vec![2u128]);
}

#[test]
fn submit_then_cancel_restores_balances() {
    let mut e = ready_engine();
    assert!(e.depositing_token(60, quote(), 10000).is_ok());
    assert!(e.put_order_and_match(60, pair(), OrderType::Buy, 50, 95).is_ok());
    assert_eq!(e.free_token((quote(), 60)), 5250);
    assert_eq!(e.locked_token((quote(), 60)), 4750);
    assert!(e.cancel_order(60, pair(), 1).is_ok());
    assert_eq!(e.free_token((quote(), 60)), 10000);
    assert_eq!(e.locked_token((quote(), 60)), 0);
    assert!(e.bidlist_for(&pair(), OrderType::Buy).unwrap().is_empty());
}

#[test]
fn replay_gives_identical_state() {
    let mut runs: Vec<Engine> = Vec::new();
    for _ in 0..2 {
        let mut e = ready_engine();
        assert!(e.depositing_token(10, base(), 10000).is_ok());
        assert!(e.depositing_token(11, quote(), 10000).is_ok());
        assert!(e.depositing_token(12, quote(), 30000).is_ok());
        assert!(e.put_order_and_match(10, pair(), OrderType::Sell, 100, 100).is_ok());
        assert!(e.put_order_and_match(11, pair(), OrderType::Buy, 50, 95).is_ok());
        assert!(e.put_order_and_match(11, pair(), OrderType::Buy, 50, 105).is_ok());
        assert!(e.put_order_and_match(10, pair(), OrderType::Sell, 100, 105).is_ok());
        assert!(e.put_order_and_match(12, pair(), OrderType::Buy, 105, 120).is_ok());
        assert!(e.cancel_order(11, pair(), 2).is_ok());
        runs.push(e);
    }
    let a = &runs[0];
    let b = &runs[1];
    assert_eq!(a.order_index(), b.order_index());
    let mut id: u128 = 1;
    while id <= a.order_index() {
        let oa = a.order_info(id).unwrap();
        let ob = b.order_info(id).unwrap();
        assert_eq!(oa.who, ob.who);
        assert_eq!(oa.ordertype, ob.ordertype);
        assert_eq!(oa.amount, ob.amount);
        assert_eq!(oa.price, ob.price);
        assert_eq!(oa.left, ob.left);
        assert_eq!(oa.status, ob.status);
        assert_eq!(oa.index, ob.index);
        assert_eq!(oa.fill_index, ob.fill_index);
        assert_eq!(oa.pair.first, ob.pair.first);
        assert_eq!(oa.pair.second, ob.pair.second);
        id += 1;
    }
    for who in [10u64, 11, 12] {
        assert_eq!(a.free_token((base(), who)), b.free_token((base(), who)));
        assert_eq!(a.locked_token((base(), who)), b.locked_token((base(), who)));
        assert_eq!(a.free_token((quote(), who)), b.free_token((quote(), who)));
        assert_eq!(a.locked_token((quote(), who)), b.locked_token((quote(), who)));
    }
    for ot in [OrderType::Buy, OrderType::Sell] {
        let la = a.bidlist_for(&pair(), ot).unwrap();
        let lb = b.bidlist_for(&pair(), ot).unwrap();
        assert_eq!(la.len(), lb.len());
        for (x, y) in la.iter().zip(lb.iter()) {
            assert_eq!(x.price, y.price);
            assert_eq!(x.sum, y.sum);
            assert_eq!(x.list, y.list);
            assert_eq!(x.nodeid, y.nodeid);
        }
    }
}

#[test]
fn cancel_error_kinds() {
    let mut e = ready_engine();
    assert!(e.depositing_token(10, base(), 100).is_ok());
    assert_eq!(e.cancel_order(10, pair(), 99), Err(DexError::UnknownOrder));
    assert_eq!(e.cancel_order(10, pair(), 0), Err(DexError::UnknownOrder));
    assert!(e.put_order_and_match(10, pair(), OrderType::Sell, 10, 100).is_ok());
    assert_eq!(e.cancel_order(11, pair(), 1), Err(DexError::NotPermitted));
    assert!(e.cancel_order(10, pair(), 1).is_ok());
    assert_eq!(e.cancel_order(10, pair(), 1), Err(DexError::NotCancelable));
}

#[test]
fn duplicate_pair_rejected() {
    let mut e = Engine::new();
    e.init_token();
    assert!(e.is_vaild_pair(&pair()).is_err());
    assert!(e.add_new_order_pair(pair()).is_ok());
    assert!(e.is_vaild_pair(&pair()).is_ok());
    assert_eq!(e.add_new_order_pair(pair()), Err(DexError::PairExists));
    assert_eq!(e.order_pair_list().len(), 1);
    // the reversed pair is a different market
    let reversed = OrderPair { first: quote(), second: base() };
    assert!(e.add_new_order_pair(reversed).is_ok());
}

#[test]
fn orders_carry_the_block_number_and_level_node_ids_count_up() {
    let mut e = ready_engine();
    e.set_block_number(7);
    assert!(e.depositing_token(10, base(), 100).is_ok());
    assert!(e.put_order_and_match(10, pair(), OrderType::Sell, 10, 100).is_ok());
    let o = e.order_info(1).unwrap();
    assert_eq!(o.time, 7);
    assert_eq!(o.index, 1);
    assert_eq!(e.order_index(), 1);
    let asks = e.bidlist_for(&pair(), OrderType::Sell).unwrap();
    assert_eq!(asks[0].index(), 1);
    assert!(e.put_order_and_match(10, pair(), OrderType::Sell, 10, 90).is_ok());
    let asks = e.bidlist_for(&pair(), OrderType::Sell).unwrap();
    assert_eq!(asks.len(), 2);
    // the cheaper ask stands first; its level got the next node id
    assert_eq!(asks[0].price, 90);
    assert_eq!(asks[0].index(), 2);
    assert_eq!(asks[1].price, 100);
}

#[test]
fn deal_record_error_kinds() {
    let mut e = ready_engine();
    assert!(e.depositing_token(10, base(), 100).is_ok());
    assert!(e.put_order_and_match(10, pair(), OrderType::Sell, 10, 200).is_ok());
    assert_eq!(
        e.modify_order_and_generate_the_deal_record(1, 2, 5, 200),
        Err(DexError::UnknownOrder)
    );
    assert_eq!(
        e.modify_order_and_generate_the_deal_record(1, 1, 5, 200),
        Err(DexError::InvariantViolation)
    );
    assert_eq!(
        e.modify_order_and_generate_the_deal_record(0, 1, 5, 200),
        Err(DexError::UnknownOrder)
    );
}
