use order_matching::models::order::{CreateOrderRequest, Order, OrderStatus, OrderType, Side, SubmitOrderResponse};
use order_matching::models::trade::TradeInfo;

fn limit_request(price: Option<u64>, quantity: u64) -> CreateOrderRequest {
    CreateOrderRequest {
        symbol: "AAPL".to_string(),
        side: Side::Buy,
        order_type: OrderType::Limit,
        price,
        quantity,
    }
}

fn now_millis() -> i64 {
    chrono::Utc::now().timestamp_millis()
}

#[test]
fn test_create_limit_order() {
    let request = CreateOrderRequest {
        symbol: "AAPL".to_string(),
        side: Side::Buy,
        order_type: OrderType::Limit,
        price: Some(15050),
        quantity: 100,
    };

    assert!(request.validate().is_ok());

    let order = Order::new(request);
    assert_eq!(order.symbol, "AAPL");
    assert_eq!(order.side, Side::Buy);
    assert_eq!(order.order_type, OrderType::Limit);
    assert_eq!(order.price, Some(15050));
    assert_eq!(order.quantity, 100);
    assert_eq!(order.filled_quantity, 0);
    assert_eq!(order.status, OrderStatus::Accepted);
}

#[test]
fn test_create_market_order() {
    let request = CreateOrderRequest {
        symbol: "BTC".to_string(),
        side: Side::Sell,
        order_type: OrderType::Market,
        price: None,
        quantity: 50,
    };

    assert!(request.validate().is_ok());

    let order = Order::new(request);
    assert_eq!(order.order_type, OrderType::Market);
    assert_eq!(order.price, None);
}

#[test]
fn test_limit_order_without_price_fails() {
    let request = CreateOrderRequest {
        symbol: "AAPL".to_string(),
        side: Side::Buy,
        order_type: OrderType::Limit,
        price: None,
        quantity: 100,
    };

    let result = request.validate();
    assert!(result.is_err());
    assert_eq!(result.unwrap_err(), "Price is required for LIMIT orders");
}

#[test]
fn test_market_order_with_price_fails() {
    let request = CreateOrderRequest {
        symbol: "AAPL".to_string(),
        side: Side::Buy,
        order_type: OrderType::Market,
        price: Some(15050),
        quantity: 100,
    };

    let result = request.validate();
    assert!(result.is_err());
    assert_eq!(result.unwrap_err(), "Price should not be specified for MARKET orders");
}

#[test]
fn test_zero_quantity_fails() {
    let request = CreateOrderRequest {
        symbol: "AAPL".to_string(),
        side: Side::Buy,
        order_type: OrderType::Limit,
        price: Some(15050),
        quantity: 0,
    };

    let result = request.validate();
    assert!(result.is_err());
    assert_eq!(result.unwrap_err(), "Quantity must be positive");
}

#[test]
fn test_order_fill_partial() {
    let mut order = Order::new(limit_request(Some(15050), 100));

    order.fill(30);
    assert_eq!(order.filled_quantity, 30);
    assert_eq!(order.remaining_quantity(), 70);
    assert_eq!(order.status, OrderStatus::PartialFill);
    assert!(!order.is_filled());
    assert!(order.is_active());
}

#[test]
fn test_order_fill_complete() {
    let mut order = Order::new(limit_request(Some(15050), 100));

    order.fill(100);
    assert_eq!(order.filled_quantity, 100);
    assert_eq!(order.remaining_quantity(), 0);
    assert_eq!(order.status, OrderStatus::Filled);
    assert!(order.is_filled());
    assert!(!order.is_active());
}

#[test]
fn test_order_fill_multiple_times() {
    let mut order = Order::new(limit_request(Some(15050), 100));

    order.fill(30);
    assert_eq!(order.status, OrderStatus::PartialFill);

    order.fill(70);
    assert_eq!(order.filled_quantity, 100);
    assert_eq!(order.status, OrderStatus::Filled);
    assert!(order.is_filled());
}

#[test]
fn test_order_cancel() {
    let mut order = Order::new(limit_request(Some(15050), 100));
    order.cancel();

    assert_eq!(order.status, OrderStatus::Cancelled);
    assert!(!order.is_active());
}

#[test]
fn test_order_to_status_response() {
    let mut order = Order::new(limit_request(Some(15050), 100));
    order.fill(40);

    let response = order.to_status_response();

    assert_eq!(response.order_id, order.id);
    assert_eq!(response.symbol, "AAPL");
    assert_eq!(response.side, Side::Buy);
    assert_eq!(response.order_type, OrderType::Limit);
    assert_eq!(response.price, Some(15050));
    assert_eq!(response.quantity, 100);
    assert_eq!(response.filled_quantity, 40);
    assert_eq!(response.remaining_quantity, 60);
    assert_eq!(response.status, OrderStatus::PartialFill);
}

#[test]
fn test_submit_order_response_accepted() {
    let order_id = uuid::Uuid::new_v4().as_u128();
    let response = SubmitOrderResponse::accepted(order_id);

    if let SubmitOrderResponse::Accepted(r) = response {
        assert_eq!(r.order_id, order_id);
        assert_eq!(r.status, OrderStatus::Accepted);
        assert_eq!(r.message, "Order added to book");
    } else {
        panic!("Expected Accepted response");
    }
}

#[test]
fn test_submit_order_response_partial_fill() {
    let order_id = uuid::Uuid::new_v4().as_u128();
    let trade_info = TradeInfo {
        trade_id: uuid::Uuid::new_v4().as_u128(),
        price: 15050,
        quantity: 60,
        timestamp: now_millis(),
    };

    let response = SubmitOrderResponse::partial_fill(order_id, 60, 40, vec![trade_info]);

    if let SubmitOrderResponse::PartialFill(r) = response {
        assert_eq!(r.order_id, order_id);
        assert_eq!(r.status, OrderStatus::PartialFill);
        assert_eq!(r.filled_quantity, 60);
        assert_eq!(r.remaining_quantity, 40);
        assert_eq!(r.trades.len(), 1);
    } else {
        panic!("Expected PartialFill response");
    }
}

#[test]
fn test_submit_order_response_filled() {
    let order_id = uuid::Uuid::new_v4().as_u128();
    let trade_info = TradeInfo {
        trade_id: uuid::Uuid::new_v4().as_u128(),
        price: 15050,
        quantity: 100,
        timestamp: now_millis(),
    };

    let response = SubmitOrderResponse::filled(order_id, 100, vec![trade_info]);

    if let SubmitOrderResponse::Filled(r) = response {
        assert_eq!(r.order_id, order_id);
        assert_eq!(r.status, OrderStatus::Filled);
        assert_eq!(r.filled_quantity, 100);
        assert_eq!(r.trades.len(), 1);
    } else {
        panic!("Expected Filled response");
    }
}

// ---- further cases ----

#[test]
fn test_empty_symbol_fails() {
    let request = CreateOrderRequest {
        symbol: "".to_string(),
        side: Side::Sell,
        order_type: OrderType::Limit,
        price: Some(100),
        quantity: 5,
    };
    assert_eq!(request.validate().unwrap_err(), "Symbol cannot be empty");
}

#[test]
fn test_zero_price_limit_fails() {
    let request = limit_request(Some(0), 5);
    assert_eq!(request.validate().unwrap_err(), "Price must be positive");
}

#[test]
fn test_order_with_id_keeps_id_and_time() {
    let order = Order::with_id(limit_request(Some(10), 3), 42, 1234);
    assert_eq!(order.id, 42);
    assert_eq!(order.created_at, 1234);
    assert_eq!(order.updated_at, 1234);
    assert_eq!(order.remaining_quantity(), 3);
    assert!(order.is_active());
}

#[test]
fn test_order_fill_at_stamps_time() {
    let mut order = Order::with_id(limit_request(Some(10), 3), 7, 100);
    order.fill_at(1, 250);
    assert_eq!(order.updated_at, 250);
    assert_eq!(order.created_at, 100);
    assert_eq!(order.status, OrderStatus::PartialFill);
}

#[test]
fn test_order_cancel_at_keeps_fill() {
    let mut order = Order::with_id(limit_request(Some(10), 3), 7, 100);
    order.fill_at(2, 150);
    order.cancel_at(300);
    assert_eq!(order.status, OrderStatus::Cancelled);
    assert_eq!(order.filled_quantity, 2);
    assert_eq!(order.updated_at, 300);
    assert!(!order.is_active());
}

#[test]
fn test_new_order_ids_are_version_four() {
    let a = Order::new(limit_request(Some(10), 1));
    let b = Order::new(limit_request(Some(10), 1));
    assert_ne!(a.id, b.id);
    assert_eq!((a.id >> 76) & 0xF, 4);
    assert_eq!((a.id >> 62) & 0x3, 2);
    assert!(a.created_at > 0);
    assert_eq!(a.created_at, a.updated_at);
}

#[test]
fn test_submit_response_status_codes() {
    assert_eq!(SubmitOrderResponse::accepted(1).status_code(), 201);
    assert_eq!(SubmitOrderResponse::partial_fill(1, 2, 3, vec![]).status_code(), 202);
    assert_eq!(SubmitOrderResponse::filled(1, 2, vec![]).status_code(), 200);
}
