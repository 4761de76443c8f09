use matching_engine::types::{Order, OrderStatus, OrderType, Side, TimeInForce, Trade, AMOUNT_SCALE};

const UNIT: u64 = AMOUNT_SCALE;

#[test]
fn test_order_creation() {
    let order = Order::new(
        7,
        "BTC-GBP".to_string(),
        Side::Buy,
        OrderType::Limit,
        Some(45000 * UNIT),
        UNIT,
        TimeInForce::GTC,
        false,
        None,
        1,
    );

    assert_eq!(order.status, OrderStatus::New);
    assert_eq!(order.filled_quantity, 0);
    assert_eq!(order.remaining_quantity, UNIT);
    assert!(order.is_active());
}

#[test]
fn test_order_fill() {
    let mut order = Order::new(
        7,
        "BTC-GBP".to_string(),
        Side::Buy,
        OrderType::Limit,
        Some(45000 * UNIT),
        2 * UNIT,
        TimeInForce::GTC,
        false,
        None,
        1,
    );

    // Partial fill
    order.fill(UNIT);
    assert_eq!(order.status, OrderStatus::Partial);
    assert_eq!(order.filled_quantity, UNIT);
    assert_eq!(order.remaining_quantity, UNIT);

    // Complete fill
    order.fill(UNIT);
    assert_eq!(order.status, OrderStatus::Filled);
    assert_eq!(order.filled_quantity, 2 * UNIT);
    assert_eq!(order.remaining_quantity, 0);
    assert!(order.is_filled());
}

#[test]
fn test_trade_creation() {
    let buyer = Order::new(
        7,
        "BTC-GBP".to_string(),
        Side::Buy,
        OrderType::Limit,
        Some(45000 * UNIT),
        UNIT,
        TimeInForce::GTC,
        false,
        None,
        1,
    );

    let seller = Order::new(
        8,
        "BTC-GBP".to_string(),
        Side::Sell,
        OrderType::Limit,
        Some(45000 * UNIT),
        UNIT,
        TimeInForce::GTC,
        false,
        None,
        2,
    );

    let trade = Trade::new(
        "BTC-GBP".to_string(),
        &buyer,
        &seller,
        45000 * UNIT,
        UNIT,
        45 * UNIT as u128, // 0.1% fee
        675 * UNIT as u128 / 10, // 0.15% fee
        3,
    );

    assert_eq!(trade.buyer_order_id, buyer.id);
    assert_eq!(trade.seller_order_id, seller.id);
    assert_eq!(trade.price, 45000 * UNIT);
    assert_eq!(trade.quantity, UNIT);
}

#[test]
fn test_side_labels() {
    assert_eq!(Side::Buy.label(), "buy");
    assert_eq!(Side::Sell.label(), "sell");
}

#[test]
fn test_effective_price() {
    let mut order = Order::new(
        7,
        "BTC-GBP".to_string(),
        Side::Buy,
        OrderType::Limit,
        Some(45000 * UNIT),
        UNIT,
        TimeInForce::GTC,
        false,
        None,
        1,
    );
    assert_eq!(order.effective_price(44000 * UNIT), 45000 * UNIT);
    order.order_type = OrderType::Market;
    assert_eq!(order.effective_price(44000 * UNIT), 44000 * UNIT);
}
