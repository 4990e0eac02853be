//! A verified order-book feed core: a fork-aware versioned account cache,
//! an account-fetch layer with on-demand refresh and slot-aware polling,
//! and a derivation engine that decodes binary book accounts, diffs price
//! levels against the last snapshot, and emits update and checkpoint
//! events with deduplication. Transport, scheduling and display scaling
//! live outside; everything here is stated in contracts and proved.
//!
//! Of the two book encodings, the legacy one is decoded here, byte for
//! byte. The native encoding's layout belongs to the exchange program's
//! own zero-copy account types, so the engine stays encoding-agnostic
//! there: the embedder decodes those bytes and hands the raw orders to
//! `engine::OrderbookEngine::apply_side_orders`, with the dedup gate and
//! everything after the decode still verified.

use vstd::prelude::*;

verus! {

/// A 32-byte on-chain address, held as two machine words so that
/// equality in contracts is structural field equality.
#[derive(Clone, Copy, PartialEq, Eq, Structural, Debug, Hash)]
pub struct Address {
    pub hi: u128,
    pub lo: u128,
}

pub fn address_eq(a: &Address, b: &Address) -> (r: bool)
    ensures
        r == (a == b),
{
    a.hi == b.hi && a.lo == b.lo
}

} // verus!

pub mod chain_data;
pub mod orderbook;
pub mod slab;
pub mod engine;
pub mod fetcher;
pub mod commands;
pub mod shared;
