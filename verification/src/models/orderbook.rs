use vstd::prelude::*;

use crate::sources::{millis_of, now_nanos};

verus! {

/// A single price level in the order book response.
#[derive(Debug, Clone, Copy)]
pub struct PriceLevelInfo {
    pub price: u64,
    pub quantity: u64,
}

/// Response for GET /api/v1/orderbook/{symbol}.
#[derive(Debug)]
pub struct OrderBookResponse {
    pub symbol: String,
    /// Milliseconds since the Unix epoch when the response was built
    pub timestamp: i64,
    /// Bids sorted by price descending (highest first)
    pub bids: Vec<PriceLevelInfo>,
    /// Asks sorted by price ascending (lowest first)
    pub asks: Vec<PriceLevelInfo>,
}

impl OrderBookResponse {
    /// Builds a response stamped with the current time.
    pub fn new(symbol: String, bids: Vec<PriceLevelInfo>, asks: Vec<PriceLevelInfo>) -> (r: Self)
        ensures
            r.symbol == symbol,
            r.timestamp >= 0,
            r.bids@ == bids@,
            r.asks@ == asks@,
    {
        OrderBookResponse { symbol, timestamp: millis_of(now_nanos()), bids, asks }
    }

    /// A response with no levels on either side, stamped with the current time.
    pub fn empty(symbol: String) -> (r: Self)
        ensures
            r.symbol == symbol,
            r.timestamp >= 0,
            r.bids@.len() == 0,
            r.asks@.len() == 0,
    {
        OrderBookResponse { symbol, timestamp: millis_of(now_nanos()), bids: Vec::new(), asks: Vec::new() }
    }
}

} // verus!
