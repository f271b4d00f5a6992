use order_matching::error::AppError;
use order_matching::matching::engine::MatchingEngine;
use order_matching::models::order::{CreateOrderRequest, OrderStatus, OrderType, Side, SubmitOrderResponse};

fn create_limit_request(side: Side, price: u64, quantity: u64) -> CreateOrderRequest {
    CreateOrderRequest {
        symbol: "AAPL".to_string(),
        side,
        order_type: OrderType::Limit,
        price: Some(price),
        quantity,
    }
}

fn create_market_request(side: Side, quantity: u64) -> CreateOrderRequest {
    CreateOrderRequest {
        symbol: "AAPL".to_string(),
        side,
        order_type: OrderType::Market,
        price: None,
        quantity,
    }
}
// ==================== Submit Order Tests ====================

#[test]
fn test_submit_limit_order_no_match() {
    let mut engine = MatchingEngine::new();

    let request = create_limit_request(Side::Buy, 10000, 100);
    let response = engine.submit_order(request).unwrap();

    match response {
        SubmitOrderResponse::Accepted(r) => {
            assert_eq!(r.status, OrderStatus::Accepted);
            assert_eq!(r.message, "Order added to book");
        }
        _ => panic!("Expected Accepted response"),
    }

    assert_eq!(engine.orders_in_book(), 1);
    assert_eq!(engine.orders_received(), 1);
}

#[test]
fn test_submit_limit_order_full_match() {
    let mut engine = MatchingEngine::new();

    // Add sell order to book
    let sell_request = create_limit_request(Side::Sell, 10000, 100);
    engine.submit_order(sell_request).unwrap();

    // Submit matching buy order
    let buy_request = create_limit_request(Side::Buy, 10000, 100);
    let response = engine.submit_order(buy_request).unwrap();

    match response {
        SubmitOrderResponse::Filled(r) => {
            assert_eq!(r.status, OrderStatus::Filled);
            assert_eq!(r.filled_quantity, 100);
            assert_eq!(r.trades.len(), 1);
            assert_eq!(r.trades[0].price, 10000);
            assert_eq!(r.trades[0].quantity, 100);
        }
        _ => panic!("Expected Filled response"),
    }

    assert_eq!(engine.orders_in_book(), 0);
    assert_eq!(engine.trades_executed(), 1);
}

#[test]
fn test_submit_limit_order_partial_match() {
    let mut engine = MatchingEngine::new();

    // Add sell order to book (50 qty)
    let sell_request = create_limit_request(Side::Sell, 10000, 50);
    engine.submit_order(sell_request).unwrap();

    // Submit buy order for more (100 qty)
    let buy_request = create_limit_request(Side::Buy, 10000, 100);
    let response = engine.submit_order(buy_request).unwrap();

    match response {
        SubmitOrderResponse::PartialFill(r) => {
            assert_eq!(r.status, OrderStatus::PartialFill);
            assert_eq!(r.filled_quantity, 50);
            assert_eq!(r.remaining_quantity, 50);
            assert_eq!(r.trades.len(), 1);
        }
        _ => panic!("Expected PartialFill response"),
    }

    assert_eq!(engine.orders_in_book(), 1);
}

#[test]
fn test_submit_market_order_full_match() {
    let mut engine = MatchingEngine::new();

    // Add sell order to book
    let sell_request = create_limit_request(Side::Sell, 10000, 100);
    engine.submit_order(sell_request).unwrap();

    // Submit market buy order
    let buy_request = create_market_request(Side::Buy, 100);
    let response = engine.submit_order(buy_request).unwrap();

    match response {
        SubmitOrderResponse::Filled(r) => {
            assert_eq!(r.status, OrderStatus::Filled);
            assert_eq!(r.filled_quantity, 100);
        }
        _ => panic!("Expected Filled response"),
    }

    assert_eq!(engine.orders_in_book(), 0);
}

#[test]
fn engine_test_submit_market_order_insufficient_liquidity() {
    let mut engine = MatchingEngine::new();

    // Add sell order to book (only 50 qty)
    let sell_request = create_limit_request(Side::Sell, 10000, 50);
    engine.submit_order(sell_request).unwrap();

    // Submit market buy order for more (100 qty)
    let buy_request = create_market_request(Side::Buy, 100);
    let response = engine.submit_order(buy_request);

    match response {
        Err(AppError::InsufficientLiquidity { available, requested }) => {
            assert_eq!(available, 50);
            assert_eq!(requested, 100);
        }
        _ => panic!("Expected InsufficientLiquidity error"),
    }

    // The resting sell order should still be in book
    assert_eq!(engine.orders_in_book(), 1);
}

#[test]
fn test_submit_market_order_no_liquidity() {
    let mut engine = MatchingEngine::new();

    // Submit market buy order with empty book
    let buy_request = create_market_request(Side::Buy, 100);
    let response = engine.submit_order(buy_request);

    match response {
        Err(AppError::InsufficientLiquidity { available, requested }) => {
            assert_eq!(available, 0);
            assert_eq!(requested, 100);
        }
        _ => panic!("Expected InsufficientLiquidity error"),
    }
}

#[test]
fn test_submit_market_sell_order() {
    let mut engine = MatchingEngine::new();

    // Add buy order to book
    let buy_request = create_limit_request(Side::Buy, 10000, 100);
    engine.submit_order(buy_request).unwrap();

    // Submit market sell order
    let sell_request = create_market_request(Side::Sell, 100);
    let response = engine.submit_order(sell_request).unwrap();

    match response {
        SubmitOrderResponse::Filled(r) => {
            assert_eq!(r.status, OrderStatus::Filled);
            assert_eq!(r.filled_quantity, 100);
        }
        _ => panic!("Expected Filled response"),
    }

    assert_eq!(engine.orders_in_book(), 0);
}

// ==================== Price Priority Tests ====================

#[test]
fn test_price_priority_buy_matches_lowest_ask() {
    let mut engine = MatchingEngine::new();

    // Add sell orders at different prices
    engine.submit_order(create_limit_request(Side::Sell, 10200, 50)).unwrap();
    engine.submit_order(create_limit_request(Side::Sell, 10100, 50)).unwrap();
    engine.submit_order(create_limit_request(Side::Sell, 10000, 50)).unwrap();

    // Buy order should match lowest ask first
    let buy_request = create_limit_request(Side::Buy, 10200, 100);
    let response = engine.submit_order(buy_request).unwrap();

    match response {
        SubmitOrderResponse::Filled(r) => {
            assert_eq!(r.trades.len(), 2);
            assert_eq!(r.trades[0].price, 10000);
            assert_eq!(r.trades[0].quantity, 50);
            assert_eq!(r.trades[1].price, 10100);
            assert_eq!(r.trades[1].quantity, 50);
        }
        _ => panic!("Expected Filled response"),
    }
}

#[test]
fn test_price_priority_sell_matches_highest_bid() {
    let mut engine = MatchingEngine::new();

    // Add buy orders at different prices
    engine.submit_order(create_limit_request(Side::Buy, 9800, 50)).unwrap();
    engine.submit_order(create_limit_request(Side::Buy, 9900, 50)).unwrap();
    engine.submit_order(create_limit_request(Side::Buy, 10000, 50)).unwrap();

    // Sell order should match highest bid first
    let sell_request = create_limit_request(Side::Sell, 9800, 100);
    let response = engine.submit_order(sell_request).unwrap();

    match response {
        SubmitOrderResponse::Filled(r) => {
            assert_eq!(r.trades.len(), 2);
            assert_eq!(r.trades[0].price, 10000);
            assert_eq!(r.trades[0].quantity, 50);
            assert_eq!(r.trades[1].price, 9900);
            assert_eq!(r.trades[1].quantity, 50);
        }
        _ => panic!("Expected Filled response"),
    }
}

// ==================== Time Priority Tests ====================

#[test]
fn test_time_priority_fifo() {
    let mut engine = MatchingEngine::new();

    // Add two sell orders at same price
    let sell1 = create_limit_request(Side::Sell, 10000, 50);
    let response1 = engine.submit_order(sell1).unwrap();
    let order1_id = match response1 {
        SubmitOrderResponse::Accepted(r) => r.order_id,
        _ => panic!("Expected Accepted"),
    };

    let sell2 = create_limit_request(Side::Sell, 10000, 50);
    let response2 = engine.submit_order(sell2).unwrap();
    let order2_id = match response2 {
        SubmitOrderResponse::Accepted(r) => r.order_id,
        _ => panic!("Expected Accepted"),
    };

    // Buy should match first order first (FIFO)
    let buy_request = create_limit_request(Side::Buy, 10000, 50);
    engine.submit_order(buy_request).unwrap();

    // First order should be filled, second should still be open
    let order1_status = engine.get_order(order1_id).unwrap();
    let order2_status = engine.get_order(order2_id).unwrap();

    assert_eq!(order1_status.status, OrderStatus::Filled);
    assert_eq!(order2_status.status, OrderStatus::Accepted);
}

// ==================== Cancel Order Tests ====================

#[test]
fn engine_test_cancel_order_success() {
    let mut engine = MatchingEngine::new();

    // Submit order
    let request = create_limit_request(Side::Buy, 10000, 100);
    let response = engine.submit_order(request).unwrap();
    let order_id = match response {
        SubmitOrderResponse::Accepted(r) => r.order_id,
        _ => panic!("Expected Accepted"),
    };

    // Cancel order
    let cancel_response = engine.cancel_order(order_id).unwrap();
    assert_eq!(cancel_response.order_id, order_id);
    assert_eq!(cancel_response.status, OrderStatus::Cancelled);

    // Order should be removed from book
    assert_eq!(engine.orders_in_book(), 0);

    // Order should still exist in storage with cancelled status
    let status = engine.get_order(order_id).unwrap();
    assert_eq!(status.status, OrderStatus::Cancelled);
}

#[test]
fn engine_test_cancel_order_not_found() {
    let mut engine = MatchingEngine::new();

    let fake_id = uuid::Uuid::new_v4().as_u128();
    let result = engine.cancel_order(fake_id);

    match result {
        Err(AppError::OrderNotFound(id)) => assert_eq!(id, fake_id),
        _ => panic!("Expected OrderNotFound error"),
    }
}

#[test]
fn test_cancel_filled_order_fails() {
    let mut engine = MatchingEngine::new();

    // Add sell order
    let sell_request = create_limit_request(Side::Sell, 10000, 100);
    let sell_response = engine.submit_order(sell_request).unwrap();
    let sell_order_id = match sell_response {
        SubmitOrderResponse::Accepted(r) => r.order_id,
        _ => panic!("Expected Accepted"),
    };

    // Fill it with a buy order
    let buy_request = create_limit_request(Side::Buy, 10000, 100);
    engine.submit_order(buy_request).unwrap();

    // Try to cancel the filled sell order
    let result = engine.cancel_order(sell_order_id);

    match result {
        Err(AppError::CannotCancelFilledOrder(id)) => assert_eq!(id, sell_order_id),
        _ => panic!("Expected CannotCancelFilledOrder error"),
    }
}

#[test]
fn test_cancel_partially_filled_order() {
    let mut engine = MatchingEngine::new();

    // Add sell order (50 qty)
    let sell_request = create_limit_request(Side::Sell, 10000, 50);
    engine.submit_order(sell_request).unwrap();

    // Add buy order (100 qty) - will be partially filled
    let buy_request = create_limit_request(Side::Buy, 10000, 100);
    let buy_response = engine.submit_order(buy_request).unwrap();
    let buy_order_id = match buy_response {
        SubmitOrderResponse::PartialFill(r) => r.order_id,
        _ => panic!("Expected PartialFill"),
    };

    // Cancel the partially filled buy order
    let cancel_response = engine.cancel_order(buy_order_id).unwrap();
    assert_eq!(cancel_response.status, OrderStatus::Cancelled);

    // Verify order status
    let status = engine.get_order(buy_order_id).unwrap();
    assert_eq!(status.status, OrderStatus::Cancelled);
    assert_eq!(status.filled_quantity, 50);
    assert_eq!(status.remaining_quantity, 50);
}

#[test]
fn test_cancel_already_cancelled_order() {
    let mut engine = MatchingEngine::new();

    // Submit and cancel order
    let request = create_limit_request(Side::Buy, 10000, 100);
    let response = engine.submit_order(request).unwrap();
    let order_id = match response {
        SubmitOrderResponse::Accepted(r) => r.order_id,
        _ => panic!("Expected Accepted"),
    };

    engine.cancel_order(order_id).unwrap();

    // Try to cancel again
    let result = engine.cancel_order(order_id);

    match result {
        Err(AppError::OrderNotFound(_)) => {}
        _ => panic!("Expected OrderNotFound error"),
    }
}

// ==================== Get Order Tests ====================

#[test]
fn test_get_order_success() {
    let mut engine = MatchingEngine::new();

    let request = create_limit_request(Side::Buy, 10000, 100);
    let response = engine.submit_order(request).unwrap();
    let order_id = match response {
        SubmitOrderResponse::Accepted(r) => r.order_id,
        _ => panic!("Expected Accepted"),
    };

    let status = engine.get_order(order_id).unwrap();

    assert_eq!(status.order_id, order_id);
    assert_eq!(status.symbol, "AAPL");
    assert_eq!(status.side, Side::Buy);
    assert_eq!(status.order_type, OrderType::Limit);
    assert_eq!(status.price, Some(10000));
    assert_eq!(status.quantity, 100);
    assert_eq!(status.filled_quantity, 0);
    assert_eq!(status.remaining_quantity, 100);
    assert_eq!(status.status, OrderStatus::Accepted);
}

#[test]
fn test_get_order_not_found() {
    let mut engine = MatchingEngine::new();

    let fake_id = uuid::Uuid::new_v4().as_u128();
    let result = engine.get_order(fake_id);

    match result {
        Err(AppError::OrderNotFound(id)) => assert_eq!(id, fake_id),
        _ => panic!("Expected OrderNotFound error"),
    }
}

// ==================== Get Order Book Tests ====================

#[test]
fn engine_test_get_order_book() {
    let mut engine = MatchingEngine::new();

    // Add some orders
    engine.submit_order(create_limit_request(Side::Buy, 9900, 100)).unwrap();
    engine.submit_order(create_limit_request(Side::Buy, 10000, 50)).unwrap();
    engine.submit_order(create_limit_request(Side::Sell, 10100, 75)).unwrap();
    engine.submit_order(create_limit_request(Side::Sell, 10200, 25)).unwrap();

    let book = engine.get_order_book("AAPL", 10);

    assert_eq!(book.symbol, "AAPL");

    // Bids: highest first
    assert_eq!(book.bids.len(), 2);
    assert_eq!(book.bids[0].price, 10000);
    assert_eq!(book.bids[0].quantity, 50);
    assert_eq!(book.bids[1].price, 9900);
    assert_eq!(book.bids[1].quantity, 100);

    // Asks: lowest first
    assert_eq!(book.asks.len(), 2);
    assert_eq!(book.asks[0].price, 10100);
    assert_eq!(book.asks[0].quantity, 75);
    assert_eq!(book.asks[1].price, 10200);
    assert_eq!(book.asks[1].quantity, 25);
}

#[test]
fn engine_test_get_order_book_empty_symbol() {
    let mut engine = MatchingEngine::new();

    let book = engine.get_order_book("UNKNOWN", 10);

    assert_eq!(book.symbol, "UNKNOWN");
    assert!(book.bids.is_empty());
    assert!(book.asks.is_empty());
}

#[test]
fn test_get_order_book_depth_limit() {
    let mut engine = MatchingEngine::new();

    // Add 5 price levels
    for i in 0..5 {
        engine.submit_order(create_limit_request(Side::Buy, 10000 - i * 100, 100)).unwrap();
    }

    let book = engine.get_order_book("AAPL", 3);

    // Should only return 3 levels
    assert_eq!(book.bids.len(), 3);
    assert_eq!(book.bids[0].price, 10000);
    assert_eq!(book.bids[1].price, 9900);
    assert_eq!(book.bids[2].price, 9800);
}

// ==================== Metrics Tests ====================

#[test]
fn test_metrics_orders_received() {
    let mut engine = MatchingEngine::new();

    engine.submit_order(create_limit_request(Side::Buy, 10000, 100)).unwrap();
    engine.submit_order(create_limit_request(Side::Sell, 10100, 50)).unwrap();

    assert_eq!(engine.orders_received(), 2);
}

#[test]
fn test_metrics_orders_matched() {
    let mut engine = MatchingEngine::new();

    // Add sell order
    engine.submit_order(create_limit_request(Side::Sell, 10000, 100)).unwrap();

    // Add matching buy order
    engine.submit_order(create_limit_request(Side::Buy, 10000, 100)).unwrap();

    // Both orders were matched
    assert_eq!(engine.orders_matched(), 2);
}

#[test]
fn test_metrics_orders_cancelled() {
    let mut engine = MatchingEngine::new();

    let request = create_limit_request(Side::Buy, 10000, 100);
    let response = engine.submit_order(request).unwrap();
    let order_id = match response {
        SubmitOrderResponse::Accepted(r) => r.order_id,
        _ => panic!("Expected Accepted"),
    };

    engine.cancel_order(order_id).unwrap();

    assert_eq!(engine.orders_cancelled(), 1);
}

#[test]
fn test_metrics_trades_executed() {
    let mut engine = MatchingEngine::new();

    // Add sell order
    engine.submit_order(create_limit_request(Side::Sell, 10000, 100)).unwrap();

    // Add matching buy order
    engine.submit_order(create_limit_request(Side::Buy, 10000, 100)).unwrap();

    assert_eq!(engine.trades_executed(), 1);
}

#[test]
fn test_metrics_multiple_trades() {
    let mut engine = MatchingEngine::new();

    // Add multiple sell orders
    engine.submit_order(create_limit_request(Side::Sell, 10000, 50)).unwrap();
    engine.submit_order(create_limit_request(Side::Sell, 10100, 50)).unwrap();

    // Buy order matches both
    engine.submit_order(create_limit_request(Side::Buy, 10100, 100)).unwrap();

    assert_eq!(engine.trades_executed(), 2);
}

// ==================== Edge Cases ====================

#[test]
fn test_no_match_buy_price_too_low() {
    let mut engine = MatchingEngine::new();

    // Add sell order at 10100
    engine.submit_order(create_limit_request(Side::Sell, 10100, 100)).unwrap();

    // Add buy order at 10000 (below ask)
    let response = engine.submit_order(create_limit_request(Side::Buy, 10000, 100)).unwrap();

    match response {
        SubmitOrderResponse::Accepted(_) => {}
        _ => panic!("Expected Accepted response"),
    }

    // Both orders should be in book (no match)
    assert_eq!(engine.orders_in_book(), 2);
    assert_eq!(engine.trades_executed(), 0);
}

#[test]
fn test_no_match_sell_price_too_high() {
    let mut engine = MatchingEngine::new();

    // Add buy order at 10000
    engine.submit_order(create_limit_request(Side::Buy, 10000, 100)).unwrap();

    // Add sell order at 10100 (above bid)
    let response = engine.submit_order(create_limit_request(Side::Sell, 10100, 100)).unwrap();

    match response {
        SubmitOrderResponse::Accepted(_) => {}
        _ => panic!("Expected Accepted response"),
    }

    // Both orders should be in book (no match)
    assert_eq!(engine.orders_in_book(), 2);
    assert_eq!(engine.trades_executed(), 0);
}

#[test]
fn test_multiple_symbols() {
    let mut engine = MatchingEngine::new();

    // Add orders for AAPL
    engine.submit_order(create_limit_request(Side::Buy, 10000, 100)).unwrap();

    // Add orders for different symbol
    let btc_request = CreateOrderRequest {
        symbol: "BTC".to_string(),
        side: Side::Sell,
        order_type: OrderType::Limit,
        price: Some(50000),
        quantity: 10,
    };
    engine.submit_order(btc_request).unwrap();

    // Check order books are separate
    let aapl_book = engine.get_order_book("AAPL", 10);
    let btc_book = engine.get_order_book("BTC", 10);

    assert_eq!(aapl_book.bids.len(), 1);
    assert!(aapl_book.asks.is_empty());

    assert!(btc_book.bids.is_empty());
    assert_eq!(btc_book.asks.len(), 1);
}

#[test]
fn test_validation_empty_symbol() {
    let mut engine = MatchingEngine::new();

    let request = CreateOrderRequest {
        symbol: "".to_string(),
        side: Side::Buy,
        order_type: OrderType::Limit,
        price: Some(10000),
        quantity: 100,
    };

    let result = engine.submit_order(request);

    match result {
        Err(AppError::InvalidOrder(msg)) => {
            assert!(msg.contains("Symbol"));
        }
        _ => panic!("Expected InvalidOrder error"),
    }
}

#[test]
fn test_validation_zero_quantity() {
    let mut engine = MatchingEngine::new();

    let request = CreateOrderRequest {
        symbol: "AAPL".to_string(),
        side: Side::Buy,
        order_type: OrderType::Limit,
        price: Some(10000),
        quantity: 0,
    };

    let result = engine.submit_order(request);

    match result {
        Err(AppError::InvalidOrder(msg)) => {
            assert!(msg.contains("Quantity"));
        }
        _ => panic!("Expected InvalidOrder error"),
    }
}

#[test]
fn test_validation_limit_order_no_price() {
    let mut engine = MatchingEngine::new();

    let request = CreateOrderRequest {
        symbol: "AAPL".to_string(),
        side: Side::Buy,
        order_type: OrderType::Limit,
        price: None,
        quantity: 100,
    };

    let result = engine.submit_order(request);

    match result {
        Err(AppError::InvalidOrder(msg)) => {
            assert!(msg.contains("Price"));
        }
        _ => panic!("Expected InvalidOrder error"),
    }
}

#[test]
fn test_validation_market_order_with_price() {
    let mut engine = MatchingEngine::new();

    let request = CreateOrderRequest {
        symbol: "AAPL".to_string(),
        side: Side::Buy,
        order_type: OrderType::Market,
        price: Some(10000),
        quantity: 100,
    };

    let result = engine.submit_order(request);

    match result {
        Err(AppError::InvalidOrder(msg)) => {
            assert!(msg.contains("Price"));
        }
        _ => panic!("Expected InvalidOrder error"),
    }
}

#[test]
fn test_large_order_multiple_fills() {
    let mut engine = MatchingEngine::new();

    // Add many small sell orders
    for i in 0..10 {
        engine.submit_order(create_limit_request(Side::Sell, 10000 + i * 10, 10)).unwrap();
    }

    // Large buy order that matches all of them
    let buy_request = create_limit_request(Side::Buy, 10100, 100);
    let response = engine.submit_order(buy_request).unwrap();

    match response {
        SubmitOrderResponse::Filled(r) => {
            assert_eq!(r.filled_quantity, 100);
            assert_eq!(r.trades.len(), 10);
        }
        _ => panic!("Expected Filled response"),
    }

    assert_eq!(engine.orders_in_book(), 0);
    assert_eq!(engine.trades_executed(), 10);
}
#[test]
fn test_aggregated_quantity_at_price_level() {
    let mut engine = MatchingEngine::new();

    // Add multiple orders at same price
    engine.submit_order(create_limit_request(Side::Buy, 10000, 100)).unwrap();
    engine.submit_order(create_limit_request(Side::Buy, 10000, 50)).unwrap();
    engine.submit_order(create_limit_request(Side::Buy, 10000, 75)).unwrap();

    let book = engine.get_order_book("AAPL", 10);

    // Should show aggregated quantity
    assert_eq!(book.bids.len(), 1);
    assert_eq!(book.bids[0].price, 10000);
    assert_eq!(book.bids[0].quantity, 225);
}

#[test]
fn test_market_order_matches_multiple_price_levels() {
    let mut engine = MatchingEngine::new();

    // Add sell orders at different prices
    engine.submit_order(create_limit_request(Side::Sell, 10000, 30)).unwrap();
    engine.submit_order(create_limit_request(Side::Sell, 10100, 30)).unwrap();
    engine.submit_order(create_limit_request(Side::Sell, 10200, 40)).unwrap();

    // Market buy should fill across all levels
    let buy_request = create_market_request(Side::Buy, 100);
    let response = engine.submit_order(buy_request).unwrap();

    match response {
        SubmitOrderResponse::Filled(r) => {
            assert_eq!(r.filled_quantity, 100);
            assert_eq!(r.trades.len(), 3);
            // Should match in price order (lowest first)
            assert_eq!(r.trades[0].price, 10000);
            assert_eq!(r.trades[0].quantity, 30);
            assert_eq!(r.trades[1].price, 10100);
            assert_eq!(r.trades[1].quantity, 30);
            assert_eq!(r.trades[2].price, 10200);
            assert_eq!(r.trades[2].quantity, 40);
        }
        _ => panic!("Expected Filled response"),
    }

    assert_eq!(engine.orders_in_book(), 0);
}

#[test]
fn test_resting_order_status_updated_after_match() {
    let mut engine = MatchingEngine::new();

    // Add sell order
    let sell_request = create_limit_request(Side::Sell, 10000, 100);
    let sell_response = engine.submit_order(sell_request).unwrap();
    let sell_order_id = match sell_response {
        SubmitOrderResponse::Accepted(r) => r.order_id,
        _ => panic!("Expected Accepted"),
    };

    // Partially fill with buy order
    let buy_request = create_limit_request(Side::Buy, 10000, 40);
    engine.submit_order(buy_request).unwrap();

    // Check sell order status is updated
    let sell_status = engine.get_order(sell_order_id).unwrap();
    assert_eq!(sell_status.status, OrderStatus::PartialFill);
    assert_eq!(sell_status.filled_quantity, 40);
    assert_eq!(sell_status.remaining_quantity, 60);
}

#[test]
fn test_resting_order_fully_filled() {
    let mut engine = MatchingEngine::new();

    // Add sell order
    let sell_request = create_limit_request(Side::Sell, 10000, 100);
    let sell_response = engine.submit_order(sell_request).unwrap();
    let sell_order_id = match sell_response {
        SubmitOrderResponse::Accepted(r) => r.order_id,
        _ => panic!("Expected Accepted"),
    };

    // Fully fill with buy order
    let buy_request = create_limit_request(Side::Buy, 10000, 100);
    engine.submit_order(buy_request).unwrap();

    // Check sell order status is updated
    let sell_status = engine.get_order(sell_order_id).unwrap();
    assert_eq!(sell_status.status, OrderStatus::Filled);
    assert_eq!(sell_status.filled_quantity, 100);
    assert_eq!(sell_status.remaining_quantity, 0);
}

#[test]
fn test_order_book_updates_after_partial_fill() {
    let mut engine = MatchingEngine::new();

    // Add sell order with 100 qty
    engine.submit_order(create_limit_request(Side::Sell, 10000, 100)).unwrap();

    // Partially fill with 40 qty
    engine.submit_order(create_limit_request(Side::Buy, 10000, 40)).unwrap();

    // Order book should show remaining 60 qty
    let book = engine.get_order_book("AAPL", 10);
    assert_eq!(book.asks.len(), 1);
    assert_eq!(book.asks[0].quantity, 60);
}

#[test]
fn test_taker_side_in_trade() {
    let mut engine = MatchingEngine::new();

    // Add sell order (maker)
    engine.submit_order(create_limit_request(Side::Sell, 10000, 100)).unwrap();

    // Buy order is the taker
    let buy_request = create_limit_request(Side::Buy, 10000, 100);
    let response = engine.submit_order(buy_request).unwrap();

    match response {
        SubmitOrderResponse::Filled(r) => {
            // The trade info doesn't include taker_side, but we can verify
            // the trade happened correctly
            assert_eq!(r.trades.len(), 1);
            assert_eq!(r.trades[0].quantity, 100);
        }
        _ => panic!("Expected Filled response"),
    }
}

#[test]
fn test_orders_in_book_count() {
    let mut engine = MatchingEngine::new();

    assert_eq!(engine.orders_in_book(), 0);

    engine.submit_order(create_limit_request(Side::Buy, 10000, 100)).unwrap();
    assert_eq!(engine.orders_in_book(), 1);

    engine.submit_order(create_limit_request(Side::Sell, 10100, 50)).unwrap();
    assert_eq!(engine.orders_in_book(), 2);

    // Add matching order that fills one
    engine.submit_order(create_limit_request(Side::Buy, 10100, 50)).unwrap();
    assert_eq!(engine.orders_in_book(), 1); // Sell filled, buy still there
}

// ---- further cases ----

#[test]
fn test_sequential_consistency() {
    let mut engine = MatchingEngine::new();
    for i in 0..10u64 {
        for j in 0..100u64 {
            let side = if (i + j) % 2 == 0 { Side::Buy } else { Side::Sell };
            let price = 10000 + (j % 10) * 10;
            let request = CreateOrderRequest {
                symbol: "AAPL".to_string(),
                side,
                order_type: OrderType::Limit,
                price: Some(price),
                quantity: 10,
            };
            let _ = engine.submit_order(request);
        }
    }
    assert_eq!(engine.orders_received(), 1000);
    let in_book = engine.orders_in_book();
    let matched = engine.orders_matched();
    assert!(in_book <= 1000);
    assert!(matched <= 1000);
    // every order of quantity 10 either rests or was matched completely
    assert_eq!(in_book + matched, 1000);
    // the book is never crossed
    let book = engine.get_order_book("AAPL", 100);
    if !book.bids.is_empty() && !book.asks.is_empty() {
        assert!(book.bids[0].price < book.asks[0].price);
    }
}

#[test]
fn test_submit_order_at_uses_given_id_and_time() {
    let mut engine = MatchingEngine::new();
    let r = engine.submit_order_at(create_limit_request(Side::Sell, 100, 10), 1, 1_000_000_123).unwrap();
    match r {
        SubmitOrderResponse::Accepted(a) => assert_eq!(a.order_id, 1),
        _ => panic!("Expected Accepted"),
    }
    let r = engine.submit_order_at(create_limit_request(Side::Buy, 100, 4), 2, 2_000_999_999).unwrap();
    match r {
        SubmitOrderResponse::Filled(f) => {
            assert_eq!(f.order_id, 2);
            assert_eq!(f.trades.len(), 1);
            // trade times are reported in whole milliseconds
            assert_eq!(f.trades[0].timestamp, 2000);
            assert_eq!(f.trades[0].price, 100);
            assert_eq!(f.trades[0].quantity, 4);
        }
        _ => panic!("Expected Filled"),
    }
    let maker = engine.get_order(1).unwrap();
    assert_eq!(maker.status, OrderStatus::PartialFill);
    assert_eq!(maker.filled_quantity, 4);
    assert_eq!(maker.updated_at, 2_000_999_999);
    assert_eq!(maker.created_at, 1_000_000_123);
}

#[test]
fn test_cancel_order_at_stamps_time() {
    let mut engine = MatchingEngine::new();
    engine.submit_order_at(create_limit_request(Side::Buy, 100, 10), 9, 1).unwrap();
    let c = engine.cancel_order_at(9, 77).unwrap();
    assert_eq!(c.order_id, 9);
    assert_eq!(c.status, OrderStatus::Cancelled);
    let s = engine.get_order(9).unwrap();
    assert_eq!(s.updated_at, 77);
    assert_eq!(engine.orders_cancelled(), 1);
    assert_eq!(engine.orders_in_book(), 0);
}

#[test]
fn test_market_refusal_leaves_book_unchanged() {
    let mut engine = MatchingEngine::new();
    engine.submit_order(create_limit_request(Side::Buy, 100, 30)).unwrap();
    engine.submit_order(create_limit_request(Side::Buy, 90, 30)).unwrap();
    match engine.submit_order(create_market_request(Side::Sell, 61)) {
        Err(AppError::InsufficientLiquidity { available, requested }) => {
            assert_eq!(available, 60);
            assert_eq!(requested, 61);
        }
        _ => panic!("Expected InsufficientLiquidity error"),
    }
    assert_eq!(engine.trades_executed(), 0);
    assert_eq!(engine.orders_received(), 2);
    let book = engine.get_order_book("AAPL", 10);
    assert_eq!(book.bids.len(), 2);
    assert_eq!(book.bids[0].quantity, 30);
    assert_eq!(book.bids[1].quantity, 30);
}

#[test]
fn test_engine_default_is_empty() {
    let engine = MatchingEngine::default();
    assert_eq!(engine.orders_received(), 0);
    assert_eq!(engine.trades_executed(), 0);
    assert_eq!(engine.orders_in_book(), 0);
    assert_eq!(engine.orders_matched(), 0);
    assert_eq!(engine.orders_cancelled(), 0);
}

#[test]
fn test_cancel_restores_book() {
    let mut engine = MatchingEngine::new();
    engine.submit_order(create_limit_request(Side::Buy, 9900, 40)).unwrap();
    engine.submit_order(create_limit_request(Side::Sell, 10100, 25)).unwrap();
    let before = engine.get_order_book("AAPL", 10);

    let id = match engine.submit_order(create_limit_request(Side::Buy, 9900, 15)).unwrap() {
        SubmitOrderResponse::Accepted(a) => a.order_id,
        _ => panic!("Expected Accepted"),
    };
    assert_eq!(engine.get_order_book("AAPL", 10).bids[0].quantity, 55);
    engine.cancel_order(id).unwrap();

    let after = engine.get_order_book("AAPL", 10);
    assert_eq!(after.bids.len(), before.bids.len());
    assert_eq!(after.asks.len(), before.asks.len());
    assert_eq!(after.bids[0].price, before.bids[0].price);
    assert_eq!(after.bids[0].quantity, before.bids[0].quantity);
    assert_eq!(after.asks[0].price, before.asks[0].price);
    assert_eq!(after.asks[0].quantity, before.asks[0].quantity);
    assert_eq!(engine.orders_in_book(), 2);
}

#[test]
fn test_submit_within_limits() {
    let mut engine = MatchingEngine::new();
    assert!(engine.submit_within_limits(&create_limit_request(Side::Buy, 100, 10)));
    // an invalid request is never refused here; validation reports it
    assert!(engine.submit_within_limits(&create_limit_request(Side::Buy, 100, 0)));
    engine.submit_order(create_limit_request(Side::Buy, 100, u64::MAX - 5)).unwrap();
    // the level at 100 could not take 10 more
    assert!(!engine.submit_within_limits(&create_limit_request(Side::Buy, 100, 10)));
    assert!(engine.submit_within_limits(&create_limit_request(Side::Buy, 99, 10)));
    engine.submit_order(create_limit_request(Side::Buy, 90, 10)).unwrap();
    // the bids no longer sum within a u64, so a market sell cannot be checked
    assert!(!engine.submit_within_limits(&create_market_request(Side::Sell, 1)));
    assert!(engine.submit_within_limits(&create_market_request(Side::Buy, 1)));
}

#[test]
fn test_submit_leaves_other_symbols_alone() {
    let mut engine = MatchingEngine::new();
    engine.submit_order(create_limit_request(Side::Buy, 100, 10)).unwrap();
    engine.submit_order(create_limit_request(Side::Sell, 110, 5)).unwrap();
    let before = engine.get_order_book("AAPL", 100);
    let btc = CreateOrderRequest {
        symbol: "BTC".to_string(),
        side: Side::Sell,
        order_type: OrderType::Market,
        price: None,
        quantity: 3,
    };
    assert!(engine.submit_order(btc).is_err());
    let after = engine.get_order_book("AAPL", 100);
    assert_eq!(after.bids.len(), before.bids.len());
    assert_eq!(after.asks.len(), before.asks.len());
    assert_eq!(after.bids[0].quantity, before.bids[0].quantity);
    assert_eq!(after.asks[0].quantity, before.asks[0].quantity);
}

#[test]
fn test_limit_rests_only_when_uncrossable() {
    let mut engine = MatchingEngine::new();
    engine.submit_order(create_limit_request(Side::Sell, 100, 10)).unwrap();
    engine.submit_order(create_limit_request(Side::Sell, 105, 10)).unwrap();
    engine.submit_order(create_limit_request(Side::Sell, 120, 10)).unwrap();
    match engine.submit_order(create_limit_request(Side::Buy, 110, 30)).unwrap() {
        SubmitOrderResponse::PartialFill(p) => {
            assert_eq!(p.filled_quantity, 20);
            assert_eq!(p.remaining_quantity, 10);
        }
        _ => panic!("Expected PartialFill"),
    }
    let book = engine.get_order_book("AAPL", 10);
    assert_eq!(book.bids[0].price, 110);
    assert_eq!(book.asks[0].price, 120);
    assert!(book.bids[0].price < book.asks[0].price);
}
