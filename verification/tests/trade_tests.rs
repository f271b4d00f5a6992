use order_matching::models::order::Side;
use order_matching::models::trade::{Trade, TradeSummary};

fn new_id() -> u128 {
    uuid::Uuid::new_v4().as_u128()
}

/// The volume-weighted average execution price of a summary, if it has any
/// quantity.
fn average_price(summary: &TradeSummary) -> Option<f64> {
    if summary.total_quantity > 0 {
        Some(summary.total_value as f64 / summary.total_quantity as f64)
    } else {
        None
    }
}

#[test]
fn test_create_trade() {
    let buyer_id = new_id();
    let seller_id = new_id();

    let trade = Trade::new("AAPL".to_string(), 15050, 100, buyer_id, seller_id, Side::Buy);

    assert_eq!(trade.symbol, "AAPL");
    assert_eq!(trade.price, 15050);
    assert_eq!(trade.quantity, 100);
    assert_eq!(trade.buyer_order_id, buyer_id);
    assert_eq!(trade.seller_order_id, seller_id);
    assert_eq!(trade.taker_side, Side::Buy);
}

#[test]
fn test_trade_to_trade_info() {
    let trade = Trade::new("AAPL".to_string(), 15050, 100, new_id(), new_id(), Side::Buy);

    let info = trade.to_trade_info();

    assert_eq!(info.trade_id, trade.id);
    assert_eq!(info.price, 15050);
    assert_eq!(info.quantity, 100);
    assert!(info.timestamp > 0);
}

#[test]
fn test_trade_summary_empty() {
    let summary = TradeSummary::new();

    assert_eq!(summary.total_quantity, 0);
    assert_eq!(summary.total_value, 0);
    assert_eq!(summary.trade_count(), 0);
    assert!(!summary.has_trades());
    assert!(average_price(&summary).is_none());
}

#[test]
fn test_trade_summary_single_trade() {
    let mut summary = TradeSummary::new();

    let trade = Trade::new("AAPL".to_string(), 15050, 100, new_id(), new_id(), Side::Buy);

    summary.add_trade(trade);

    assert_eq!(summary.total_quantity, 100);
    assert_eq!(summary.total_value, 15050 * 100);
    assert_eq!(summary.trade_count(), 1);
    assert!(summary.has_trades());
    assert_eq!(average_price(&summary).unwrap(), 15050.0);
}

#[test]
fn test_trade_summary_multiple_trades() {
    let buyer_id = new_id();
    let seller_id = new_id();
    let mut summary = TradeSummary::new();

    summary.add_trade(Trade::new("AAPL".to_string(), 15000, 50, buyer_id, seller_id, Side::Buy));
    summary.add_trade(Trade::new("AAPL".to_string(), 15100, 50, buyer_id, seller_id, Side::Buy));

    assert_eq!(summary.total_quantity, 100);
    assert_eq!(summary.total_value, 15000 * 50 + 15100 * 50);
    assert_eq!(summary.trade_count(), 2);
    assert!(summary.has_trades());

    let avg_price = average_price(&summary).unwrap();
    assert!((avg_price - 15050.0).abs() < 0.01);
}

#[test]
fn test_trade_summary_to_trade_info_list() {
    let buyer_id = new_id();
    let seller_id = new_id();
    let mut summary = TradeSummary::new();

    let trade1 = Trade::new("AAPL".to_string(), 15000, 50, buyer_id, seller_id, Side::Buy);
    let trade2 = Trade::new("AAPL".to_string(), 15100, 50, buyer_id, seller_id, Side::Buy);

    let trade1_id = trade1.id;
    let trade2_id = trade2.id;

    summary.add_trade(trade1);
    summary.add_trade(trade2);

    let info_list = summary.to_trade_info_list();

    assert_eq!(info_list.len(), 2);
    assert_eq!(info_list[0].trade_id, trade1_id);
    assert_eq!(info_list[0].price, 15000);
    assert_eq!(info_list[0].quantity, 50);
    assert_eq!(info_list[1].trade_id, trade2_id);
    assert_eq!(info_list[1].price, 15100);
    assert_eq!(info_list[1].quantity, 50);
}

#[test]
fn test_trade_summary_weighted_average() {
    let buyer_id = new_id();
    let seller_id = new_id();
    let mut summary = TradeSummary::new();

    // 75 shares at $100
    summary.add_trade(Trade::new("TEST".to_string(), 10000, 75, buyer_id, seller_id, Side::Buy));
    // 25 shares at $120
    summary.add_trade(Trade::new("TEST".to_string(), 12000, 25, buyer_id, seller_id, Side::Buy));

    // Weighted average: (75 * 10000 + 25 * 12000) / 100 = 10500
    assert_eq!(summary.total_value, 75 * 10000 + 25 * 12000);
    let avg_price = average_price(&summary).unwrap();
    assert!((avg_price - 10500.0).abs() < 0.01);
}

// ---- further cases ----

#[test]
fn test_trades_get_distinct_ids() {
    let a = Trade::new("X".to_string(), 1, 1, 1, 2, Side::Sell);
    let b = Trade::new("X".to_string(), 1, 1, 1, 2, Side::Sell);
    assert_ne!(a.id, b.id);
    assert_eq!(a.taker_side, Side::Sell);
}

#[test]
fn test_trade_summary_default_is_empty() {
    let summary = TradeSummary::default();
    assert_eq!(summary.trade_count(), 0);
    assert_eq!(summary.total_quantity, 0);
    assert!(summary.to_trade_info_list().is_empty());
}

#[test]
fn test_trade_info_rounds_time_down_to_milliseconds() {
    let mut t = Trade::new("X".to_string(), 1, 1, 1, 2, Side::Buy);
    t.executed_at = 1_700_000_000_123_999_999;
    assert_eq!(t.to_trade_info().timestamp, 1_700_000_000_123);
    t.executed_at = -1;
    assert_eq!(t.to_trade_info().timestamp, -1);
    t.executed_at = -1_000_000;
    assert_eq!(t.to_trade_info().timestamp, -1);
    t.executed_at = -1_000_001;
    assert_eq!(t.to_trade_info().timestamp, -2);
}

#[test]
fn test_new_trade_keeps_sub_millisecond_time() {
    let t = Trade::new("X".to_string(), 1, 1, 1, 2, Side::Buy);
    // nanoseconds since the epoch: after 2020
    assert!(t.executed_at > 1_577_836_800_000_000_000);
    assert_eq!((t.id >> 76) & 0xF, 4);
}
