use dex::engine::Engine;
use dex::ledger::Ledger;
use dex::types::BlockStatus;
use dex::types::bytes_eq;
use dex::types::clone_bytes;
use dex::types::DexError;
use dex::types::OrderInformation;
use dex::types::OrderPair;
use dex::types::OrderStatus;
use dex::types::OrderType;
use dex::types::TokenControl;

fn gold() -> Vec<u8> {
    vec![1u8, 2u8]
}

fn cash() -> Vec<u8> {
    vec![3u8, 4u8]
}

#[test]
fn byte_utilities_compare_and_copy() {
    assert!(bytes_eq(&vec![1u8, 2], &vec![1u8, 2]));
    assert!(!bytes_eq(&vec![1u8, 2], &vec![1u8, 3]));
    assert!(!bytes_eq(&vec![1u8, 2], &vec![1u8, 2, 3]));
    assert!(bytes_eq(&Vec::new(), &Vec::new()));
    let v = vec![9u8, 8, 7];
    let c = clone_bytes(&v);
    assert_eq!(c, v);
}

#[test]
fn registry_lookup_and_overwrite() {
    let mut l = Ledger::new();
    assert_eq!(l.token_type_and_precision(&gold()), None);
    assert!(l.vaild_tokentype(&gold()).is_err());
    l.add_new_tokentype(&gold(), 1000);
    assert_eq!(l.token_type_and_precision(&gold()), Some(1000));
    assert!(l.vaild_tokentype(&gold()).is_ok());
    // a second registration re-prices the asset
    l.add_new_tokentype(&gold(), 500);
    assert_eq!(l.token_type_and_precision(&gold()), Some(500));
    assert_eq!(l.token_type_and_precision(&cash()), None);
    l.init_token();
    assert_eq!(l.token_type_and_precision(&gold()), Some(1000));
    assert_eq!(l.token_type_and_precision(&cash()), Some(1000));
}

#[test]
fn mint_and_burn_move_free_balances() {
    let mut l = Ledger::new();
    assert_eq!(l.mint(7, &gold(), 100), Err(DexError::UnknownAsset));
    l.add_new_tokentype(&gold(), 1000);
    assert!(l.mint(7, &gold(), 100).is_ok());
    assert!(l.mint(7, &gold(), 50).is_ok());
    assert_eq!(l.amount_free(7, &gold()), 150);
    assert_eq!(l.amount_lock(7, &gold()), 0);
    assert_eq!(l.burn(7, &gold(), 200), Err(DexError::InsufficientFree));
    assert!(l.burn(7, &gold(), 30).is_ok());
    assert_eq!(l.amount_free(7, &gold()), 120);
    // minting beyond the representable supply is refused
    assert_eq!(l.mint(8, &gold(), u64::MAX), Err(DexError::Overflow));
}

#[test]
fn lock_unlock_and_transfer() {
    let mut l = Ledger::new();
    l.add_new_tokentype(&gold(), 1000);
    assert!(l.mint(7, &gold(), 100).is_ok());
    assert_eq!(l.lock(7, &gold(), 101), Err(DexError::InsufficientFree));
    assert!(l.lock(7, &gold(), 60).is_ok());
    assert_eq!(l.amount_free(7, &gold()), 40);
    assert_eq!(l.amount_lock(7, &gold()), 60);
    assert_eq!(l.unlock(7, &gold(), 61), Err(DexError::InsufficientLocked));
    assert!(l.unlock(7, &gold(), 10).is_ok());
    assert_eq!(l.amount_free(7, &gold()), 50);
    assert_eq!(l.amount_lock(7, &gold()), 50);
    assert_eq!(l.transfer(7, 8, &gold(), 51), Err(DexError::InsufficientFree));
    assert!(l.transfer(7, 8, &gold(), 20).is_ok());
    assert_eq!(l.amount_free(7, &gold()), 30);
    assert_eq!(l.amount_free(8, &gold()), 20);
    // a transfer to oneself changes nothing
    assert!(l.transfer(8, 8, &gold(), 20).is_ok());
    assert_eq!(l.amount_free(8, &gold()), 20);
}

#[test]
fn raw_setters_and_partition_moves() {
    let mut l = Ledger::new();
    l.set_free_token(9, &gold(), 70);
    l.set_lock_token(9, &gold(), 30);
    assert_eq!(l.amount_free(9, &gold()), 70);
    assert_eq!(l.amount_lock(9, &gold()), 30);
    l.token_increase_or_decrease(9, &gold(), 5, TokenControl::Free, false);
    l.token_increase_or_decrease(9, &gold(), 5, TokenControl::Lock, true);
    assert_eq!(l.amount_free(9, &gold()), 65);
    assert_eq!(l.amount_lock(9, &gold()), 35);
}

#[test]
fn exchange_token_settles_one_fill() {
    let mut l = Ledger::new();
    // seller 1 locked 10 base; buyer 2 locked 10 * 120 quote
    l.set_lock_token(1, &gold(), 10);
    l.set_lock_token(2, &cash(), 1200);
    // the fill clears 10 base at price 100 against a lock made at 120
    l.exchange_token(1, 2, &gold(), &cash(), 10, 100, 120);
    // the buyer got the goods and the 10 * 20 over-lock back
    assert_eq!(l.amount_free(2, &gold()), 10);
    assert_eq!(l.amount_free(2, &cash()), 200);
    assert_eq!(l.amount_lock(2, &cash()), 0);
    // the seller got paid the clearing price
    assert_eq!(l.amount_free(1, &cash()), 1000);
    assert_eq!(l.amount_lock(1, &gold()), 0);
}

#[test]
fn order_record_lifecycle() {
    let p = OrderPair { first: gold(), second: cash() };
    let mut o = OrderInformation::new(7, OrderType::Sell, p, 100, 42, 1, 5);
    assert_eq!(o.who, 7);
    assert_eq!(o.ordertype, OrderType::Sell);
    assert_eq!(o.amount, 100);
    assert_eq!(o.price, 42);
    assert_eq!(o.left, 100);
    assert_eq!(o.status, OrderStatus::Valid);
    assert_eq!(o.index, 1);
    assert_eq!(o.time, 5);
    assert!(o.fill_index.is_empty());
    assert!(o.money_change(40));
    assert_eq!(o.left, 60);
    assert_eq!(o.status, OrderStatus::Valid);
    assert!(!o.money_change(60));
    assert_eq!(o.left, 0);
    assert_eq!(o.status, OrderStatus::Finished);
}

#[test]
fn side_and_status_defaults() {
    assert_eq!(OrderType::default(), OrderType::Buy);
    assert_eq!(OrderStatus::default(), OrderStatus::Valid);
}

#[test]
fn block_status_follows_the_counter() {
    let mut e = Engine::new();
    e.set_block_number(5);
    assert_eq!(e.block_status(3), BlockStatus::InChain);
    assert_eq!(e.block_status(5), BlockStatus::InChain);
    assert_eq!(e.block_status(6), BlockStatus::Unknown);
}
