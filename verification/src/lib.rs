//! A deterministic central limit order book (CLOB) matching engine.
//!
//! Users submit buy and sell limit orders over pairs of named assets. The
//! engine matches incoming orders against resting orders by price-time
//! priority, settles each fill through a free/locked balance ledger, and
//! parks any unmatched remainder in a price-sorted book.

pub mod book;
pub mod engine;
pub mod ledger;
pub mod matching;
pub mod types;
