use dex::engine::Engine;
use dex::types::DexError;
use dex::types::OrderPair;
use dex::types::OrderType;

#[test]
fn basic_match_works() {
    let mut e = Engine::new();
    // add a tokentype
    let tokentype = vec![1u8, 2u8];
    let tokentype2 = vec![3u8, 4u8];
    e.add_new_tokentype(tokentype.clone(), 1000);
    e.add_new_tokentype(tokentype2.clone(), 1000);
    assert_eq!(e.token_type_and_precision(tokentype.clone()), Some(1000));
    assert_eq!(e.token_type_and_precision(tokentype2.clone()), Some(1000));

    // mint 10000 token of tokentype to account 10
    assert!(e.depositing_token(10, tokentype.clone(), 10000).is_ok());
    assert_eq!(e.free_token((tokentype.clone(), 10)), 10000);
    // mint 10000 token of tokentype2 to account 11
    assert!(e.depositing_token(11, tokentype2.clone(), 10000).is_ok());
    assert_eq!(e.free_token((tokentype2.clone(), 11)), 10000);

    let order_pair: OrderPair = OrderPair { first: tokentype.clone(), second: tokentype2.clone() };

    assert!(e.add_new_order_pair(order_pair.clone()).is_ok());

    assert_eq!(
        e.put_order_and_match(10, order_pair.clone(), OrderType::Buy, 100, 100),
        Err(DexError::InsufficientFree)
    );

    assert!(e.put_order_and_match(10, order_pair.clone(), OrderType::Sell, 100, 100).is_ok());
    assert_eq!(e.free_token((tokentype.clone(), 10)), 9900);
    assert_eq!(e.locked_token((tokentype.clone(), 10)), 100);

    assert!(e.put_order_and_match(11, order_pair.clone(), OrderType::Buy, 50, 105).is_ok());
    assert_eq!(e.free_token((tokentype2.clone(), 11)), 5000);
    // the over-reserved quote is returned: the trade cleared at 100, not 105
    assert_eq!(e.locked_token((tokentype2.clone(), 11)), 0);

    assert_eq!(e.free_token((tokentype.clone(), 11)), 50); // buyer got 50
    assert_eq!(e.locked_token((tokentype.clone(), 10)), 50); // seller's remainder
    assert_eq!(e.free_token((tokentype2.clone(), 10)), 5000); // seller got paid
}

#[test]
fn muilt_match_test() {
    let mut e = Engine::new();
    let tokentype = vec![1u8, 2u8];
    let tokentype2 = vec![3u8, 4u8];
    e.add_new_tokentype(tokentype.clone(), 1000);
    e.add_new_tokentype(tokentype2.clone(), 1000);
    assert_eq!(e.token_type_and_precision(tokentype.clone()), Some(1000));
    assert_eq!(e.token_type_and_precision(tokentype2.clone()), Some(1000));

    assert!(e.depositing_token(10, tokentype.clone(), 10000).is_ok());
    assert_eq!(e.free_token((tokentype.clone(), 10)), 10000);
    assert!(e.depositing_token(11, tokentype2.clone(), 10000).is_ok());
    assert_eq!(e.free_token((tokentype2.clone(), 11)), 10000);

    let order_pair: OrderPair = OrderPair { first: tokentype.clone(), second: tokentype2.clone() };

    assert!(e.add_new_order_pair(order_pair.clone()).is_ok());

    assert_eq!(
        e.put_order_and_match(10, order_pair.clone(), OrderType::Buy, 100, 100),
        Err(DexError::InsufficientFree)
    );

    assert!(e.put_order_and_match(10, order_pair.clone(), OrderType::Sell, 100, 100).is_ok());
    assert_eq!(e.free_token((tokentype.clone(), 10)), 9900);
    assert_eq!(e.locked_token((tokentype.clone(), 10)), 100);

    assert!(e.put_order_and_match(11, order_pair.clone(), OrderType::Buy, 50, 95).is_ok());
    assert!(e.put_order_and_match(11, order_pair.clone(), OrderType::Buy, 50, 105).is_ok());
    assert_eq!(e.free_token((tokentype2.clone(), 11)), 250);
    assert_eq!(e.locked_token((tokentype2.clone(), 11)), 4750); // 50 x 95

    assert_eq!(e.free_token((tokentype.clone(), 11)), 50); // buyer got 50
    assert_eq!(e.locked_token((tokentype.clone(), 10)), 50); // seller's remainder
    assert_eq!(e.free_token((tokentype2.clone(), 10)), 5000); // seller got paid

    assert!(e.put_order_and_match(10, order_pair.clone(), OrderType::Sell, 100, 105).is_ok());
    assert_eq!(e.free_token((tokentype.clone(), 10)), 9800);
    assert_eq!(e.locked_token((tokentype.clone(), 10)), 150);
    // now two resting sells: 50 at 100 and 100 at 105

    assert!(e.depositing_token(12, tokentype2.clone(), 30000).is_ok());
    assert_eq!(e.free_token((tokentype2.clone(), 12)), 30000);

    // account 12 buys 105 at limit 120
    assert!(e.put_order_and_match(12, order_pair.clone(), OrderType::Buy, 105, 120).is_ok());
    assert_eq!(e.free_token((tokentype2.clone(), 12)), 19225); // 30000 - 5000 - 5775
    assert_eq!(e.free_token((tokentype.clone(), 12)), 105); // got the base
    assert_eq!(e.locked_token((tokentype2.clone(), 12)), 0); // over-locked quote returned
}

#[test]
fn cancel_test() {
    let mut e = Engine::new();
    let tokentype = vec![1u8, 2u8];
    let tokentype2 = vec![3u8, 4u8];
    e.add_new_tokentype(tokentype.clone(), 1000);
    e.add_new_tokentype(tokentype2.clone(), 1000);
    assert_eq!(e.token_type_and_precision(tokentype.clone()), Some(1000));
    assert_eq!(e.token_type_and_precision(tokentype2.clone()), Some(1000));

    assert!(e.depositing_token(10, tokentype.clone(), 10000).is_ok());
    assert_eq!(e.free_token((tokentype.clone(), 10)), 10000);
    assert!(e.depositing_token(11, tokentype2.clone(), 10000).is_ok());
    assert_eq!(e.free_token((tokentype2.clone(), 11)), 10000);

    let order_pair: OrderPair = OrderPair { first: tokentype.clone(), second: tokentype2.clone() };

    assert!(e.add_new_order_pair(order_pair.clone()).is_ok());

    assert_eq!(
        e.put_order_and_match(10, order_pair.clone(), OrderType::Buy, 100, 100),
        Err(DexError::InsufficientFree)
    );

    assert!(e.put_order_and_match(10, order_pair.clone(), OrderType::Sell, 100, 100).is_ok());
    assert_eq!(e.free_token((tokentype.clone(), 10)), 9900);
    assert_eq!(e.locked_token((tokentype.clone(), 10)), 100);

    assert!(e.put_order_and_match(11, order_pair.clone(), OrderType::Buy, 50, 95).is_ok());
    assert!(e.put_order_and_match(11, order_pair.clone(), OrderType::Buy, 50, 105).is_ok());
    assert_eq!(e.free_token((tokentype2.clone(), 11)), 250);
    assert_eq!(e.locked_token((tokentype2.clone(), 11)), 4750); // 50 x 95

    assert_eq!(e.free_token((tokentype.clone(), 11)), 50);
    assert_eq!(e.locked_token((tokentype.clone(), 10)), 50);
    assert_eq!(e.free_token((tokentype2.clone(), 10)), 5000);

    assert!(e.put_order_and_match(10, order_pair.clone(), OrderType::Sell, 100, 105).is_ok());
    assert_eq!(e.free_token((tokentype.clone(), 10)), 9800);
    assert_eq!(e.locked_token((tokentype.clone(), 10)), 150);

    assert!(e.depositing_token(12, tokentype2.clone(), 30000).is_ok());
    assert_eq!(e.free_token((tokentype2.clone(), 12)), 30000);

    assert!(e.put_order_and_match(12, order_pair.clone(), OrderType::Buy, 105, 120).is_ok());
    assert_eq!(e.free_token((tokentype2.clone(), 12)), 19225);
    assert_eq!(e.free_token((tokentype.clone(), 12)), 105);
    assert_eq!(e.locked_token((tokentype2.clone(), 12)), 0);

    // now cancel order index 2 (account 11's resting buy of 50 at 95)
    assert_eq!(
        e.cancel_order(12, order_pair.clone(), 2),
        Err(DexError::NotPermitted)
    );
    assert!(e.cancel_order(11, order_pair.clone(), 2).is_ok());
}

#[test]
fn full_match_test() {
    let mut e = Engine::new();
    let tokentype = vec![1u8, 2u8];
    let tokentype2 = vec![3u8, 4u8];
    e.add_new_tokentype(tokentype.clone(), 1000);
    e.add_new_tokentype(tokentype2.clone(), 1000);
    let order_pair: OrderPair = OrderPair { first: tokentype.clone(), second: tokentype2.clone() };
    assert!(e.add_new_order_pair(order_pair.clone()).is_ok());

    assert!(e.depositing_token(10, tokentype.clone(), 20000).is_ok());
    assert_eq!(e.free_token((tokentype.clone(), 10)), 20000);
    assert!(e.depositing_token(11, tokentype2.clone(), 20000).is_ok());
    assert_eq!(e.free_token((tokentype2.clone(), 11)), 20000);
    assert!(e.depositing_token(12, tokentype.clone(), 20000).is_ok());
    assert_eq!(e.free_token((tokentype.clone(), 12)), 20000);
    assert!(e.depositing_token(13, tokentype2.clone(), 20000).is_ok());
    assert_eq!(e.free_token((tokentype2.clone(), 13)), 20000);
    assert!(e.depositing_token(14, tokentype.clone(), 20000).is_ok());
    assert_eq!(e.free_token((tokentype.clone(), 14)), 20000);
    assert!(e.depositing_token(15, tokentype2.clone(), 20000).is_ok());
    assert_eq!(e.free_token((tokentype2.clone(), 15)), 20000);
    assert!(e.depositing_token(16, tokentype2.clone(), 20000).is_ok());
    assert_eq!(e.free_token((tokentype2.clone(), 16)), 20000);

    assert!(e.put_order_and_match(11, order_pair.clone(), OrderType::Buy, 105, 120).is_ok());
    assert!(e.put_order_and_match(10, order_pair.clone(), OrderType::Sell, 100, 120).is_ok());
    assert!(e.put_order_and_match(12, order_pair.clone(), OrderType::Sell, 100, 120).is_ok());
    assert!(e.put_order_and_match(13, order_pair.clone(), OrderType::Buy, 105, 120).is_ok());
    assert!(e.depositing_token(13, tokentype2.clone(), 20000).is_ok());
    assert!(e.put_order_and_match(13, order_pair.clone(), OrderType::Buy, 105, 120).is_ok());
    assert!(e.put_order_and_match(14, order_pair.clone(), OrderType::Sell, 100, 110).is_ok());
}
