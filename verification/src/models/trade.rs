use vstd::prelude::*;

use crate::models::order::Side;
use crate::sources::{millis_fit, millis_of, new_uuid, now_nanos};

verus! {

/// Trade information included in order responses.
#[derive(Debug, Clone, Copy)]
pub struct TradeInfo {
    pub trade_id: u128,
    pub price: u64,
    pub quantity: u64,
    /// Unix timestamp in milliseconds
    pub timestamp: i64,
}

/// Full trade record for internal storage.
#[derive(Debug)]
pub struct Trade {
    pub id: u128,
    pub symbol: String,
    /// Price at which the trade was executed
    pub price: u64,
    /// Quantity that was traded
    pub quantity: u64,
    /// The order ID of the buyer
    pub buyer_order_id: u128,
    /// The order ID of the seller
    pub seller_order_id: u128,
    /// Which side was the taker (aggressor)
    pub taker_side: Side,
    /// When the trade was executed, in nanoseconds since the Unix epoch
    pub executed_at: i128,
}

impl Clone for Trade {
    fn clone(&self) -> (r: Self)
        ensures
            r == *self,
    {
        Trade {
            id: self.id,
            symbol: self.symbol.clone(),
            price: self.price,
            quantity: self.quantity,
            buyer_order_id: self.buyer_order_id,
            seller_order_id: self.seller_order_id,
            taker_side: self.taker_side,
            executed_at: self.executed_at,
        }
    }
}

impl Trade {
    /// The summary of this trade that order responses carry.
    pub open spec fn info(self) -> TradeInfo {
        TradeInfo {
            trade_id: self.id,
            price: self.price,
            quantity: self.quantity,
            timestamp: (self.executed_at / 1_000_000) as i64,
        }
    }

    /// Creates a new trade with a fresh identifier, executed now.
    pub fn new(
        symbol: String,
        price: u64,
        quantity: u64,
        buyer_order_id: u128,
        seller_order_id: u128,
        taker_side: Side,
    ) -> (t: Self)
        ensures
            t.id & 0xF000_C000_0000_0000_0000u128 == 0x4000_8000_0000_0000_0000u128,
            t.executed_at >= 0,
            millis_fit(t.executed_at),
            t.symbol == symbol,
            t.price == price,
            t.quantity == quantity,
            t.buyer_order_id == buyer_order_id,
            t.seller_order_id == seller_order_id,
            t.taker_side == taker_side,
    {
        Trade {
            id: new_uuid(),
            symbol,
            price,
            quantity,
            buyer_order_id,
            seller_order_id,
            taker_side,
            executed_at: now_nanos(),
        }
    }

    /// Converts to TradeInfo for API responses.
    pub fn to_trade_info(&self) -> (info: TradeInfo)
        requires
            millis_fit(self.executed_at),
        ensures
            info == self.info(),
    {
        TradeInfo {
            trade_id: self.id,
            price: self.price,
            quantity: self.quantity,
            timestamp: millis_of(self.executed_at),
        }
    }
}

/// Every trade's time has its whole milliseconds in an `i64`.
pub open spec fn trades_fit(trades: Seq<Trade>) -> bool {
    forall|i: int| 0 <= i < trades.len() ==> millis_fit(#[trigger] trades[i].executed_at)
}

/// The trade summaries of a sequence of trades, in the same order.
pub open spec fn infos_of(trades: Seq<Trade>) -> Seq<TradeInfo> {
    trades.map_values(|t: Trade| t.info())
}

/// Total quantity of a sequence of trades.
pub open spec fn trades_quantity(trades: Seq<Trade>) -> nat
    decreases trades.len(),
{
    if trades.len() == 0 {
        0
    } else {
        trades_quantity(trades.drop_last()) + trades.last().quantity as nat
    }
}

/// Total value (price times quantity) of a sequence of trades.
pub open spec fn trades_value(trades: Seq<Trade>) -> nat
    decreases trades.len(),
{
    if trades.len() == 0 {
        0
    } else {
        trades_value(trades.drop_last()) + (trades.last().price as nat) * (trades.last().quantity as nat)
    }
}

/// Builds the trade summaries of `trades`, in order.
pub fn trade_infos(trades: &Vec<Trade>) -> (infos: Vec<TradeInfo>)
    requires
        trades_fit(trades@),
    ensures
        infos@ == infos_of(trades@),
{
    let mut infos: Vec<TradeInfo> = Vec::new();
    let mut i: usize = 0;
    while i < trades.len()
        invariant
            i <= trades.len(),
            infos@ == infos_of(trades@.subrange(0, i as int)),
            trades_fit(trades@),
        decreases trades.len() - i,
    {
        assert(millis_fit(trades@[i as int].executed_at));
        infos.push(trades[i].to_trade_info());
        proof {
            assert(trades@.subrange(0, i + 1) == trades@.subrange(0, i as int).push(trades@[i as int]));
        }
        i += 1;
    }
    proof {
        assert(trades@.subrange(0, trades.len() as int) == trades@);
    }
    infos
}

/// Summary of trades executed for an order.
#[derive(Debug)]
pub struct TradeSummary {
    pub total_quantity: u64,
    pub total_value: u64,
    pub trades: Vec<Trade>,
}

impl Default for TradeSummary {
    fn default() -> (s: Self)
        ensures
            s.total_quantity == 0,
            s.total_value == 0,
            s.trades@.len() == 0,
    {
        TradeSummary { total_quantity: 0, total_value: 0, trades: Vec::new() }
    }
}

impl TradeSummary {
    /// The totals agree with the recorded trades.
    pub open spec fn wf(&self) -> bool {
        &&& self.total_quantity == trades_quantity(self.trades@)
        &&& self.total_value == trades_value(self.trades@)
    }

    pub fn new() -> (s: Self)
        ensures
            s.total_quantity == 0,
            s.total_value == 0,
            s.trades@.len() == 0,
            s.wf(),
    {
        TradeSummary { total_quantity: 0, total_value: 0, trades: Vec::new() }
    }

    /// Records a trade, adding its quantity and value to the totals.
    pub fn add_trade(&mut self, trade: Trade)
        requires
            old(self).total_quantity + trade.quantity <= u64::MAX,
            old(self).total_value + trade.price * trade.quantity <= u64::MAX,
        ensures
            final(self).total_quantity == old(self).total_quantity + trade.quantity,
            final(self).total_value == old(self).total_value + trade.price * trade.quantity,
            final(self).trades@ == old(self).trades@.push(trade),
            old(self).wf() ==> final(self).wf(),
    {
        proof {
            vstd::arithmetic::mul::lemma_mul_upper_bound(
                trade.price as int, trade.price as int, trade.quantity as int, trade.quantity as int);
        }
        let value = trade.price * trade.quantity;
        self.total_quantity = self.total_quantity + trade.quantity;
        self.total_value = self.total_value + value;
        let ghost before = self.trades@;
        self.trades.push(trade);
        proof {
            assert(self.trades@.drop_last() == before);
        }
    }

    /// Returns trade info list for API responses.
    pub fn to_trade_info_list(&self) -> (infos: Vec<TradeInfo>)
        requires
            trades_fit(self.trades@),
        ensures
            infos@ == infos_of(self.trades@),
    {
        trade_infos(&self.trades)
    }

    /// Returns the number of trades.
    pub fn trade_count(&self) -> (n: usize)
        ensures
            n == self.trades@.len(),
    {
        self.trades.len()
    }

    /// Checks if any trades occurred.
    pub fn has_trades(&self) -> (b: bool)
        ensures
            b == (self.trades@.len() > 0),
    {
        self.trades.len() > 0
    }
}

} // verus!
