use order_matching::error::AppError;

#[test]
fn test_order_not_found_status() {
    let error = AppError::OrderNotFound(uuid::Uuid::new_v4().as_u128());
    assert_eq!(error.status_code(), 404);
}

#[test]
fn test_invalid_order_status() {
    let error = AppError::InvalidOrder("test error".to_string());
    assert_eq!(error.status_code(), 400);
}

#[test]
fn test_insufficient_liquidity_status() {
    let error = AppError::InsufficientLiquidity { available: 50, requested: 100 };
    assert_eq!(error.status_code(), 400);
}

#[test]
fn test_cannot_cancel_filled_status() {
    let error = AppError::CannotCancelFilledOrder(uuid::Uuid::new_v4().as_u128());
    assert_eq!(error.status_code(), 400);
}

#[test]
fn test_symbol_not_found_status() {
    let error = AppError::SymbolNotFound("XYZ".to_string());
    assert_eq!(error.status_code(), 404);
}

#[test]
fn test_error_messages() {
    let id = uuid::Uuid::new_v4();
    let e = AppError::OrderNotFound(id.as_u128());
    assert_eq!(e.message(), format!("Order not found: {}", id));

    let e = AppError::CannotCancelFilledOrder(id.as_u128());
    assert_eq!(e.message(), format!("Cannot cancel: order {} already filled", id));

    let e = AppError::SymbolNotFound("XYZ".to_string());
    assert_eq!(e.message(), "Symbol not found: XYZ");

    let e = AppError::InvalidOrder("Quantity must be positive".to_string());
    assert_eq!(e.message(), "Invalid order: Quantity must be positive");

    let e = AppError::InsufficientLiquidity { available: 50, requested: 100 };
    assert_eq!(e.message(), "Insufficient liquidity: only 50 available, requested 100");

    let e = AppError::InsufficientLiquidity { available: 0, requested: 7 };
    assert_eq!(e.message(), "Insufficient liquidity: only 0 available, requested 7");
}

#[test]
fn test_error_message_uuid_layout() {
    let e = AppError::OrderNotFound(0x0123_4567_89ab_cdef_0011_2233_4455_6677);
    assert_eq!(e.message(), "Order not found: 01234567-89ab-cdef-0011-223344556677");
}
