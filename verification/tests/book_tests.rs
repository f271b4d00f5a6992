use order_matching::models::order::{CreateOrderRequest, Order, OrderType, Side};
use order_matching::orderbook::book::OrderBook;

fn create_limit_order(side: Side, price: u64, quantity: u64) -> Order {
    let request = CreateOrderRequest {
        symbol: "AAPL".to_string(),
        side,
        order_type: OrderType::Limit,
        price: Some(price),
        quantity,
    };
    Order::new(request)
}

#[test]
fn test_new_order_book() {
    let book = OrderBook::new("AAPL".to_string());

    assert_eq!(book.symbol, "AAPL");
    assert!(book.best_bid().is_none());
    assert!(book.best_ask().is_none());
    assert_eq!(book.total_order_count(), 0);
}

#[test]
fn test_add_bid_order() {
    let mut book = OrderBook::new("AAPL".to_string());
    let order = create_limit_order(Side::Buy, 10000, 100);
    let order_id = order.id;

    book.add_order(order);

    assert_eq!(book.best_bid(), Some(10000));
    assert!(book.best_ask().is_none());
    assert_eq!(book.total_order_count(), 1);
    assert!(book.contains_order(order_id));
}

#[test]
fn test_add_ask_order() {
    let mut book = OrderBook::new("AAPL".to_string());
    let order = create_limit_order(Side::Sell, 10100, 50);
    let order_id = order.id;

    book.add_order(order);

    assert!(book.best_bid().is_none());
    assert_eq!(book.best_ask(), Some(10100));
    assert_eq!(book.total_order_count(), 1);
    assert!(book.contains_order(order_id));
}

#[test]
fn test_best_bid_is_highest() {
    let mut book = OrderBook::new("AAPL".to_string());

    book.add_order(create_limit_order(Side::Buy, 10000, 100));
    book.add_order(create_limit_order(Side::Buy, 10050, 50));
    book.add_order(create_limit_order(Side::Buy, 9950, 75));

    assert_eq!(book.best_bid(), Some(10050));
}

#[test]
fn test_best_ask_is_lowest() {
    let mut book = OrderBook::new("AAPL".to_string());

    book.add_order(create_limit_order(Side::Sell, 10100, 100));
    book.add_order(create_limit_order(Side::Sell, 10050, 50));
    book.add_order(create_limit_order(Side::Sell, 10150, 75));

    assert_eq!(book.best_ask(), Some(10050));
}

#[test]
fn test_remove_order() {
    let mut book = OrderBook::new("AAPL".to_string());
    let order = create_limit_order(Side::Buy, 10000, 100);
    let order_id = order.id;

    book.add_order(order);
    assert!(book.contains_order(order_id));

    let removed = book.remove_order(order_id);

    assert!(removed.is_some());
    assert_eq!(removed.unwrap().id, order_id);
    assert!(!book.contains_order(order_id));
    assert!(book.best_bid().is_none());
}

#[test]
fn book_test_remove_nonexistent_order() {
    let mut book = OrderBook::new("AAPL".to_string());
    book.add_order(create_limit_order(Side::Buy, 10000, 100));

    let removed = book.remove_order(uuid::Uuid::new_v4().as_u128());

    assert!(removed.is_none());
    assert_eq!(book.total_order_count(), 1);
}

#[test]
fn test_price_level_cleanup() {
    let mut book = OrderBook::new("AAPL".to_string());
    let order = create_limit_order(Side::Buy, 10000, 100);
    let order_id = order.id;

    book.add_order(order);
    assert_eq!(book.bid_level_count(), 1);

    book.remove_order(order_id);
    assert_eq!(book.bid_level_count(), 0);
}

#[test]
fn test_multiple_orders_same_price() {
    let mut book = OrderBook::new("AAPL".to_string());

    book.add_order(create_limit_order(Side::Buy, 10000, 100));
    book.add_order(create_limit_order(Side::Buy, 10000, 50));
    book.add_order(create_limit_order(Side::Buy, 10000, 75));

    assert_eq!(book.bid_level_count(), 1);
    assert_eq!(book.total_order_count(), 3);
    assert_eq!(book.best_bid_quantity(), 225);
}

#[test]
fn test_total_quantities() {
    let mut book = OrderBook::new("AAPL".to_string());

    book.add_order(create_limit_order(Side::Buy, 10000, 100));
    book.add_order(create_limit_order(Side::Buy, 9900, 50));
    book.add_order(create_limit_order(Side::Sell, 10100, 75));
    book.add_order(create_limit_order(Side::Sell, 10200, 25));

    assert_eq!(book.total_bid_quantity(), 150);
    assert_eq!(book.total_ask_quantity(), 100);
}

#[test]
fn test_to_response() {
    let mut book = OrderBook::new("AAPL".to_string());

    book.add_order(create_limit_order(Side::Buy, 10000, 100));
    book.add_order(create_limit_order(Side::Buy, 10050, 50));
    book.add_order(create_limit_order(Side::Buy, 9950, 75));

    book.add_order(create_limit_order(Side::Sell, 10100, 80));
    book.add_order(create_limit_order(Side::Sell, 10150, 60));
    book.add_order(create_limit_order(Side::Sell, 10200, 40));

    let response = book.to_response(2);

    assert_eq!(response.symbol, "AAPL");

    // Bids: highest first
    assert_eq!(response.bids.len(), 2);
    assert_eq!(response.bids[0].price, 10050);
    assert_eq!(response.bids[0].quantity, 50);
    assert_eq!(response.bids[1].price, 10000);
    assert_eq!(response.bids[1].quantity, 100);

    // Asks: lowest first
    assert_eq!(response.asks.len(), 2);
    assert_eq!(response.asks[0].price, 10100);
    assert_eq!(response.asks[0].quantity, 80);
    assert_eq!(response.asks[1].price, 10150);
    assert_eq!(response.asks[1].quantity, 60);
}

#[test]
fn test_to_response_depth_limit() {
    let mut book = OrderBook::new("AAPL".to_string());

    for i in 0..5 {
        book.add_order(create_limit_order(Side::Buy, 10000 - i * 10, 100));
        book.add_order(create_limit_order(Side::Sell, 10100 + i * 10, 100));
    }

    let response = book.to_response(3);

    assert_eq!(response.bids.len(), 3);
    assert_eq!(response.asks.len(), 3);
}

#[test]
fn test_get_order_location() {
    let mut book = OrderBook::new("AAPL".to_string());
    let order = create_limit_order(Side::Buy, 10000, 100);
    let order_id = order.id;

    book.add_order(order);

    let location = book.get_order_location(order_id);
    assert!(location.is_some());

    let (side, price) = location.unwrap();
    assert_eq!(side, Side::Buy);
    assert_eq!(price, 10000);
}

#[test]
fn test_best_level_mut() {
    let mut book = OrderBook::new("AAPL".to_string());

    book.add_order(create_limit_order(Side::Buy, 10000, 100));
    book.add_order(create_limit_order(Side::Sell, 10100, 50));

    // Test mutable access to best bid
    if let Some(level) = book.best_bid_level_mut() {
        assert_eq!(level.price, 10000);
    } else {
        panic!("Expected best bid level");
    }

    // Test mutable access to best ask
    if let Some(level) = book.best_ask_level_mut() {
        assert_eq!(level.price, 10100);
    } else {
        panic!("Expected best ask level");
    }
}

// ---- further cases ----

#[test]
fn test_add_then_remove_restores_book() {
    let mut book = OrderBook::new("AAPL".to_string());
    book.add_order(create_limit_order(Side::Buy, 10000, 100));
    book.add_order(create_limit_order(Side::Sell, 10100, 40));
    let before = book.to_response(10);

    let extra = create_limit_order(Side::Buy, 10000, 25);
    let id = extra.id;
    book.add_order(extra);
    assert_eq!(book.best_bid_quantity(), 125);
    let removed = book.remove_order(id).unwrap();
    assert_eq!(removed.id, id);
    assert_eq!(removed.quantity, 25);

    let after = book.to_response(10);
    assert_eq!(after.bids.len(), before.bids.len());
    assert_eq!(after.asks.len(), before.asks.len());
    for i in 0..after.bids.len() {
        assert_eq!(after.bids[i].price, before.bids[i].price);
        assert_eq!(after.bids[i].quantity, before.bids[i].quantity);
    }
    for i in 0..after.asks.len() {
        assert_eq!(after.asks[i].price, before.asks[i].price);
        assert_eq!(after.asks[i].quantity, before.asks[i].quantity);
    }
    assert_eq!(book.total_order_count(), 2);
}

#[test]
fn test_match_incoming_buy_takes_lowest_asks_first() {
    let mut book = OrderBook::new("AAPL".to_string());
    book.add_order(create_limit_order(Side::Sell, 10200, 50));
    book.add_order(create_limit_order(Side::Sell, 10100, 50));
    book.add_order(create_limit_order(Side::Sell, 10000, 50));

    let fills = book.match_incoming(Side::Buy, Some(10100), 120, 5);

    assert_eq!(fills.len(), 2);
    assert_eq!(fills[0].price, 10000);
    assert_eq!(fills[0].quantity, 50);
    assert_eq!(fills[1].price, 10100);
    assert_eq!(fills[1].quantity, 50);
    // the 10200 level does not cross the limit and stays
    assert_eq!(book.best_ask(), Some(10200));
    assert_eq!(book.total_ask_quantity(), 50);
    assert_eq!(book.total_order_count(), 1);
}

#[test]
fn test_match_incoming_market_sell_walks_bids() {
    let mut book = OrderBook::new("AAPL".to_string());
    book.add_order(create_limit_order(Side::Buy, 9900, 10));
    book.add_order(create_limit_order(Side::Buy, 10000, 10));

    let fills = book.match_incoming(Side::Sell, None, 15, 5);

    assert_eq!(fills.len(), 2);
    assert_eq!(fills[0].price, 10000);
    assert_eq!(fills[0].quantity, 10);
    assert!(fills[0].maker_done);
    assert_eq!(fills[1].price, 9900);
    assert_eq!(fills[1].quantity, 5);
    assert!(!fills[1].maker_done);
    assert_eq!(book.best_bid(), Some(9900));
    assert_eq!(book.best_bid_quantity(), 5);
}

#[test]
fn test_remove_best_if_empty_keeps_non_empty_levels() {
    let mut book = OrderBook::new("AAPL".to_string());
    book.add_order(create_limit_order(Side::Buy, 10000, 10));
    book.add_order(create_limit_order(Side::Sell, 10100, 10));
    book.remove_best_bid_if_empty();
    book.remove_best_ask_if_empty();
    assert_eq!(book.bid_level_count(), 1);
    assert_eq!(book.ask_level_count(), 1);
}

#[test]
fn test_remove_order_location_forgets_order() {
    let mut book = OrderBook::new("AAPL".to_string());
    let order = create_limit_order(Side::Sell, 10100, 10);
    let id = order.id;
    book.add_order(order);
    book.remove_order_location(id);
    assert!(!book.contains_order(id));
    assert!(book.get_order_location(id).is_none());
}

#[test]
fn test_overfilled_order_rests_with_nothing_remaining() {
    let mut book = OrderBook::new("AAPL".to_string());
    book.add_order(create_limit_order(Side::Sell, 10100, 10));
    let mut odd = create_limit_order(Side::Sell, 10100, 5);
    odd.filled_quantity = 8;
    let id = odd.id;
    book.add_order(odd);
    assert_eq!(book.total_order_count(), 2);
    assert_eq!(book.best_ask_quantity(), 10);
    let removed = book.remove_order(id).unwrap();
    assert_eq!(removed.remaining_quantity(), 0);
    assert_eq!(book.total_order_count(), 1);
    assert_eq!(book.best_ask_quantity(), 10);
}
