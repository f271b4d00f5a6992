use order_matching::models::order::{CreateOrderRequest, Order, OrderType, Side};
use order_matching::orderbook::price_level::PriceLevel;

fn create_test_order(price: u64, quantity: u64) -> Order {
    let request = CreateOrderRequest {
        symbol: "AAPL".to_string(),
        side: Side::Buy,
        order_type: OrderType::Limit,
        price: Some(price),
        quantity,
    };
    Order::new(request)
}

#[test]
fn test_new_price_level() {
    let level = PriceLevel::new(10000);
    assert_eq!(level.price, 10000);
    assert!(level.is_empty());
    assert_eq!(level.total_quantity(), 0);
    assert_eq!(level.order_count(), 0);
}

#[test]
fn test_add_order() {
    let mut level = PriceLevel::new(10000);
    let order = create_test_order(10000, 100);

    level.add_order(order);

    assert!(!level.is_empty());
    assert_eq!(level.total_quantity(), 100);
    assert_eq!(level.order_count(), 1);
}

#[test]
fn test_add_multiple_orders() {
    let mut level = PriceLevel::new(10000);

    level.add_order(create_test_order(10000, 100));
    level.add_order(create_test_order(10000, 50));
    level.add_order(create_test_order(10000, 75));

    assert_eq!(level.total_quantity(), 225);
    assert_eq!(level.order_count(), 3);
}

#[test]
fn test_fifo_order() {
    let mut level = PriceLevel::new(10000);

    let order1 = create_test_order(10000, 100);
    let order2 = create_test_order(10000, 50);
    let order1_id = order1.id;
    let order2_id = order2.id;

    level.add_order(order1);
    level.add_order(order2);

    // First order should be at front
    assert_eq!(level.front().unwrap().id, order1_id);

    // Pop should return first order
    let popped = level.pop_front().unwrap();
    assert_eq!(popped.id, order1_id);

    // Now second order should be at front
    assert_eq!(level.front().unwrap().id, order2_id);
    assert_eq!(level.total_quantity(), 50);
}

#[test]
fn test_remove_order_by_id() {
    let mut level = PriceLevel::new(10000);

    let order1 = create_test_order(10000, 100);
    let order2 = create_test_order(10000, 50);
    let order3 = create_test_order(10000, 75);
    let order2_id = order2.id;

    level.add_order(order1);
    level.add_order(order2);
    level.add_order(order3);

    // Remove middle order
    let removed = level.remove_order(order2_id);

    assert!(removed.is_some());
    assert_eq!(removed.unwrap().id, order2_id);
    assert_eq!(level.total_quantity(), 175); // 100 + 75
    assert_eq!(level.order_count(), 2);
}

#[test]
fn price_level_test_remove_nonexistent_order() {
    let mut level = PriceLevel::new(10000);
    level.add_order(create_test_order(10000, 100));

    let removed = level.remove_order(uuid::Uuid::new_v4().as_u128());

    assert!(removed.is_none());
    assert_eq!(level.total_quantity(), 100);
}

#[test]
fn test_front_mut() {
    let mut level = PriceLevel::new(10000);
    level.add_order(create_test_order(10000, 100));

    // Modify front order
    if let Some(order) = level.front_mut() {
        order.fill(30);
    }

    assert_eq!(level.front().unwrap().filled_quantity, 30);
    assert_eq!(level.front().unwrap().remaining_quantity(), 70);
}

// ---- further cases ----

#[test]
fn test_match_orders_oldest_first() {
    let mut level = PriceLevel::new(500);
    let a = Order::with_id(
        CreateOrderRequest { symbol: "S".to_string(), side: Side::Sell, order_type: OrderType::Limit, price: Some(500), quantity: 30 },
        1,
        10,
    );
    let b = Order::with_id(
        CreateOrderRequest { symbol: "S".to_string(), side: Side::Sell, order_type: OrderType::Limit, price: Some(500), quantity: 30 },
        2,
        11,
    );
    level.add_order(a);
    level.add_order(b);

    let fills = level.match_orders(40, 99);

    assert_eq!(fills.len(), 2);
    assert_eq!(fills[0].maker_id, 1);
    assert_eq!(fills[0].quantity, 30);
    assert!(fills[0].maker_done);
    assert_eq!(fills[1].maker_id, 2);
    assert_eq!(fills[1].quantity, 10);
    assert!(!fills[1].maker_done);
    assert_eq!(fills[1].price, 500);
    // the first order left, the second was partly filled
    assert_eq!(level.order_count(), 1);
    assert_eq!(level.front().unwrap().id, 2);
    assert_eq!(level.front().unwrap().filled_quantity, 10);
    assert_eq!(level.front().unwrap().updated_at, 99);
    assert_eq!(level.total_quantity(), 20);
}

#[test]
fn test_match_orders_more_than_level_holds() {
    let mut level = PriceLevel::new(7);
    level.add_order(create_test_order(7, 5));
    let fills = level.match_orders(100, 1);
    assert_eq!(fills.len(), 1);
    assert_eq!(fills[0].quantity, 5);
    assert!(level.is_empty());
    assert_eq!(level.total_quantity(), 0);
}

#[test]
fn test_reduce_total_quantity_saturates() {
    let mut level = PriceLevel::new(7);
    level.add_order(create_test_order(7, 5));
    level.reduce_total_quantity(3);
    assert_eq!(level.total_quantity(), 2);
    level.reduce_total_quantity(10);
    assert_eq!(level.total_quantity(), 0);
}

#[test]
fn test_pop_front_empty() {
    let mut level = PriceLevel::new(7);
    assert!(level.pop_front().is_none());
    assert!(level.front().is_none());
}
