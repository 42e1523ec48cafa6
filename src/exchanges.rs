//! Venues and the normalized quote events that their feeds produce.

use vstd::prelude::*;

verus! {

/// A derivatives venue whose best bid/ask feed the engine consumes.
#[derive(Clone, Copy, Debug, PartialEq, Eq, Hash, Structural)]
pub enum Exchange {
    Binance,
    Hyperliquid,
    Bybit,
    Extended,
}

/// Number of venues: no symbol is quoted by more.
pub const VENUE_COUNT: usize = 4;

/// Display name of a venue.
pub open spec fn exchange_name(e: Exchange) -> Seq<char> {
    match e {
        Exchange::Binance => "Binance"@,
        Exchange::Hyperliquid => "Hyperliquid"@,
        Exchange::Bybit => "Bybit"@,
        Exchange::Extended => "Extended"@,
    }
}

impl Exchange {
    pub fn as_str(&self) -> (r: &'static str)
        ensures
            r@ == exchange_name(*self),
    {
        match self {
            Exchange::Binance => "Binance",
            Exchange::Hyperliquid => "Hyperliquid",
            Exchange::Bybit => "Bybit",
            Exchange::Extended => "Extended",
        }
    }
}

/// The best bid and ask of one venue for one symbol, as last observed.
///
/// Prices are in units of `1 / PRICE_SCALE` USD, sizes in units of
/// `1 / PRICE_SCALE` of the traded asset, the timestamp in epoch milliseconds.
#[derive(Clone, Copy, Debug, PartialEq, Eq, Structural)]
pub struct MarketBook {
    /// Highest price someone is willing to buy at (we sell here).
    pub bid: u64,
    /// Lowest price someone is willing to sell at (we buy here).
    pub ask: u64,
    pub bid_size: u64,
    pub ask_size: u64,
    pub timestamp: u64,
}

/// A normalized quote event, as a feed hands it to the book store.
#[derive(Clone, Debug)]
pub struct BookUpdate {
    pub symbol: String,
    pub exchange: Exchange,
    pub bid: u64,
    pub ask: u64,
    pub bid_size: u64,
    pub ask_size: u64,
    pub timestamp: u64,
}

/// The book that a quote event carries, without its key.
pub open spec fn book_of_update(u: BookUpdate) -> MarketBook {
    MarketBook {
        bid: u.bid,
        ask: u.ask,
        bid_size: u.bid_size,
        ask_size: u.ask_size,
        timestamp: u.timestamp,
    }
}

impl From<BookUpdate> for MarketBook {
    fn from(u: BookUpdate) -> (r: MarketBook)
        ensures
            r == book_of_update(u),
    {
        MarketBook {
            bid: u.bid,
            ask: u.ask,
            bid_size: u.bid_size,
            ask_size: u.ask_size,
            timestamp: u.timestamp,
        }
    }
}

impl vstd::std_specs::convert::FromSpecImpl<BookUpdate> for MarketBook {
    open spec fn obeys_from_spec() -> bool {
        true
    }

    open spec fn from_spec(v: BookUpdate) -> MarketBook {
        book_of_update(v)
    }
}

} // verus!
