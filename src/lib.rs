//! A multi-venue trading core: a price-time priority limit order book, a smart
//! order router over several venues, and an inventory-aware market maker.
//!
//! Prices are integer ticks of one hundredth of the quote currency, quantities
//! are integers, and every rate (fees, spreads, skew) is an integer count of
//! millionths.
use vstd::prelude::*;

pub mod book_model;
pub mod depth_feed;
pub mod market_maker;
pub mod book_laws;
pub mod order_book;
pub mod smart_order_router;

verus! {

/// Identity of a trading venue; `Unknown` marks "no venue chosen".
#[derive(Clone, Copy, Debug, PartialEq, Eq, Structural, Hash)]
pub enum ExchangeID {
    Binance,
    Coinbase,
    Kraken,
    FTX,
    Unknown,
}

impl ExchangeID {
    /// The venue's display name.
    pub fn name(&self) -> (r: &'static str) {
        match self {
            ExchangeID::Binance => "Binance",
            ExchangeID::Coinbase => "Coinbase",
            ExchangeID::Kraken => "Kraken",
            ExchangeID::FTX => "FTX",
            ExchangeID::Unknown => "Unknown",
        }
    }
}

} // verus!
