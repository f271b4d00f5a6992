//! Parameters of the HTTP endpoints.
use vstd::prelude::*;

verus! {

/// Query parameters for the order book endpoint.
#[derive(Debug, Clone, Copy)]
pub struct OrderBookQuery {
    /// Number of price levels to return (default: 10)
    pub depth: usize,
}

/// The number of price levels returned when the query names none.
pub fn default_depth() -> (d: usize)
    ensures
        d == 10,
{
    10
}

impl Default for OrderBookQuery {
    fn default() -> (q: Self)
        ensures
            q.depth == 10,
    {
        OrderBookQuery { depth: default_depth() }
    }
}

} // verus!
