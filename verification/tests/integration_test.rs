use matching_engine::orderbook::OrderBook;
use matching_engine::types::{MatchResult, Order, OrderType, Side, TimeInForce, AMOUNT_SCALE};

const UNIT: u64 = AMOUNT_SCALE;

fn create_order(side: Side, price: u64, quantity: u64) -> Order {
    Order::new(
        7,
        "BTC-GBP".to_string(),
        side,
        OrderType::Limit,
        Some(price),
        quantity,
        TimeInForce::GTC,
        false,
        None,
        0,
    )
}

#[test]
fn test_full_trading_scenario() {
    let mut orderbook = OrderBook::new("BTC-GBP".to_string());

    // Add multiple sell orders at different price levels
    let sell1 = create_order(Side::Sell, 45100 * UNIT, UNIT);
    let sell2 = create_order(Side::Sell, 45200 * UNIT, 2 * UNIT);
    let sell3 = create_order(Side::Sell, 45300 * UNIT, UNIT);

    orderbook.add_limit_order(sell1);
    orderbook.add_limit_order(sell2);
    orderbook.add_limit_order(sell3);

    assert_eq!(orderbook.order_count(), 3);
    assert_eq!(orderbook.best_ask(), Some(45100 * UNIT));

    // Submit large buy order that matches multiple levels
    let buy = create_order(Side::Buy, 45250 * UNIT, 3 * UNIT);
    let result = orderbook.submit_order(buy).unwrap();

    match result {
        MatchResult::PartiallyFilled(trades, remaining) => {
            // Should match sell1 (1) and sell2 (2)
            assert_eq!(trades.len(), 2);
            assert_eq!(remaining.remaining_quantity, 0);

            // First trade should be at 45100 (best price)
            assert_eq!(trades[0].price, 45100 * UNIT);
            assert_eq!(trades[0].quantity, UNIT);

            // Second trade at 45200
            assert_eq!(trades[1].price, 45200 * UNIT);
            assert_eq!(trades[1].quantity, 2 * UNIT);
        }
        _ => panic!("Expected partially filled order with multiple trades"),
    }

    // Only sell3 should remain in orderbook
    assert_eq!(orderbook.order_count(), 1);
    assert_eq!(orderbook.best_ask(), Some(45300 * UNIT));
}

#[test]
fn test_price_time_priority() {
    let mut orderbook = OrderBook::new("BTC-GBP".to_string());

    // Add three sell orders at same price, different times
    let sell1 = create_order(Side::Sell, 45000 * UNIT, UNIT);
    let sell2 = create_order(Side::Sell, 45000 * UNIT, UNIT);
    let sell3 = create_order(Side::Sell, 45000 * UNIT, UNIT);

    let sell1_id = sell1.id;
    let sell2_id = sell2.id;

    orderbook.add_limit_order(sell1);
    orderbook.add_limit_order(sell2);
    orderbook.add_limit_order(sell3);

    // Submit buy order for 1.5
    let buy = create_order(Side::Buy, 45000 * UNIT, UNIT + UNIT / 2);
    let result = orderbook.submit_order(buy).unwrap();

    match result {
        MatchResult::Filled(trades) => {
            // Should match with sell1 (1) and sell2 (0.5) in FIFO order
            assert_eq!(trades.len(), 2);

            // First trade should be with sell1
            assert_eq!(trades[0].seller_order_id, sell1_id);
            assert_eq!(trades[0].quantity, UNIT);

            // Second trade should be with sell2
            assert_eq!(trades[1].seller_order_id, sell2_id);
            assert_eq!(trades[1].quantity, UNIT / 2); // 0.5
        }
        _ => panic!("Expected filled order"),
    }
}

#[test]
fn test_self_trade_prevention() {
    let mut orderbook = OrderBook::new("BTC-GBP".to_string());
    let account_id: u128 = 42;

    // Add sell order from account
    let mut sell = create_order(Side::Sell, 45000 * UNIT, UNIT);
    sell.account_id = account_id;
    orderbook.add_limit_order(sell);

    // Try to buy with same account (self-trade)
    let mut buy = create_order(Side::Buy, 45000 * UNIT, UNIT);
    buy.account_id = account_id;

    // Note: In a full implementation, this would be prevented
    // For now, this test documents the expected behavior
    let result = orderbook.submit_order(buy).unwrap();

    // In production, this should be prevented at the risk engine level
    match result {
        MatchResult::Filled(_) | MatchResult::Added(_) => {
            // Currently allows self-trade, but should be prevented in order gateway
        }
        _ => {}
    }
}

#[test]
fn test_market_order_with_insufficient_liquidity() {
    let mut orderbook = OrderBook::new("BTC-GBP".to_string());

    // Add small sell order
    let sell = create_order(Side::Sell, 45000 * UNIT, UNIT / 2); // 0.5
    orderbook.add_limit_order(sell);

    // Submit market buy for 1 (more than available)
    let mut buy = create_order(Side::Buy, 45000 * UNIT, UNIT);
    buy.order_type = OrderType::Market;
    buy.price = None;

    let result = orderbook.submit_order(buy).unwrap();

    match result {
        MatchResult::PartiallyFilled(trades, remaining) => {
            // Should fill 0.5 and cancel remainder
            assert_eq!(trades.len(), 1);
            assert_eq!(trades[0].quantity, UNIT / 2);
            assert_eq!(remaining.filled_quantity, UNIT / 2);
        }
        _ => panic!("Expected partially filled market order"),
    }
}

#[test]
fn test_market_order_no_liquidity() {
    let mut orderbook = OrderBook::new("BTC-GBP".to_string());
    let mut buy = create_order(Side::Buy, 45000 * UNIT, UNIT);
    buy.order_type = OrderType::Market;
    buy.price = None;
    match orderbook.submit_order(buy).unwrap() {
        MatchResult::Rejected(m) => assert!(m.contains("No liquidity")),
        _ => panic!("Expected rejected order"),
    }
}

#[test]
fn test_post_only_rests_when_not_crossing() {
    let mut orderbook = OrderBook::new("BTC-GBP".to_string());
    orderbook.add_limit_order(create_order(Side::Sell, 45100 * UNIT, UNIT));
    let mut buy = create_order(Side::Buy, 45000 * UNIT, UNIT);
    buy.post_only = true;
    match orderbook.submit_order(buy).unwrap() {
        MatchResult::Added(o) => assert_eq!(o.remaining_quantity, UNIT),
        _ => panic!("Expected added order"),
    }
    assert_eq!(orderbook.best_bid(), Some(45000 * UNIT));
}

#[test]
fn test_post_only_rejection_leaves_book_unchanged() {
    let mut orderbook = OrderBook::new("BTC-GBP".to_string());
    orderbook.add_limit_order(create_order(Side::Sell, 45000 * UNIT, UNIT));
    let count_before = orderbook.order_count();
    let seq_before = orderbook.current_sequence();

    let mut buy = create_order(Side::Buy, 45000 * UNIT, UNIT);
    buy.post_only = true;
    match orderbook.submit_order(buy).unwrap() {
        MatchResult::Rejected(m) => assert!(m.contains("Post-only")),
        _ => panic!("Expected rejected order"),
    }
    // still resting, sequence advanced only by the submission stamp
    assert_eq!(orderbook.order_count(), count_before);
    assert_eq!(orderbook.best_ask(), Some(45000 * UNIT));
    assert_eq!(orderbook.current_sequence(), seq_before + 1);
}
