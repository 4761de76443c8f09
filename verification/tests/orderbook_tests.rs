use matching_engine::orderbook::OrderBook;
use matching_engine::types::{MatchResult, Order, OrderType, Side, TimeInForce, AMOUNT_SCALE};

const UNIT: u64 = AMOUNT_SCALE;

fn create_test_order(side: Side, price: u64, quantity: u64) -> Order {
    Order::new(
        7,
        "BTC-GBP".to_string(),
        side,
        OrderType::Limit,
        Some(price),
        quantity,
        TimeInForce::GTC,
        false,
        None,
        0,
    )
}

#[test]
fn test_orderbook_creation() {
    let ob = OrderBook::new("BTC-GBP".to_string());
    assert_eq!(ob.symbol, "BTC-GBP");
    assert_eq!(ob.order_count(), 0);
    assert!(ob.best_bid().is_none());
    assert!(ob.best_ask().is_none());
}

#[test]
fn test_add_limit_order() {
    let mut ob = OrderBook::new("BTC-GBP".to_string());
    let order = create_test_order(Side::Buy, 45000 * UNIT, UNIT);

    ob.add_limit_order(order.clone());

    assert_eq!(ob.order_count(), 1);
    assert_eq!(ob.best_bid(), Some(45000 * UNIT));
}

#[test]
fn test_best_bid_ask() {
    let mut ob = OrderBook::new("BTC-GBP".to_string());

    let buy1 = create_test_order(Side::Buy, 45000 * UNIT, UNIT);
    let buy2 = create_test_order(Side::Buy, 44900 * UNIT, UNIT);
    let sell1 = create_test_order(Side::Sell, 45100 * UNIT, UNIT);
    let sell2 = create_test_order(Side::Sell, 45200 * UNIT, UNIT);

    ob.add_limit_order(buy1);
    ob.add_limit_order(buy2);
    ob.add_limit_order(sell1);
    ob.add_limit_order(sell2);

    assert_eq!(ob.best_bid(), Some(45000 * UNIT));
    assert_eq!(ob.best_ask(), Some(45100 * UNIT));
    assert_eq!(ob.spread(), Some(100 * UNIT));
}

#[test]
fn test_cancel_order() {
    let mut ob = OrderBook::new("BTC-GBP".to_string());
    let order = create_test_order(Side::Buy, 45000 * UNIT, UNIT);
    let order_id = order.id;

    ob.add_limit_order(order);
    assert_eq!(ob.order_count(), 1);

    let cancelled = ob.cancel_order(order_id).unwrap();
    assert!(cancelled.is_some());
    assert_eq!(ob.order_count(), 0);
}

#[test]
fn test_get_depth() {
    let mut ob = OrderBook::new("BTC-GBP".to_string());

    // Add multiple bid levels
    ob.add_limit_order(create_test_order(Side::Buy, 45000 * UNIT, UNIT));
    ob.add_limit_order(create_test_order(Side::Buy, 45000 * UNIT, 2 * UNIT));
    ob.add_limit_order(create_test_order(Side::Buy, 44900 * UNIT, UNIT));

    // Add multiple ask levels
    ob.add_limit_order(create_test_order(Side::Sell, 45100 * UNIT, UNIT));
    ob.add_limit_order(create_test_order(Side::Sell, 45200 * UNIT, 2 * UNIT));

    let (bids, asks) = ob.get_depth(10);

    assert_eq!(bids.len(), 2);
    assert_eq!(asks.len(), 2);
    assert_eq!(bids[0].0, 45000 * UNIT);
    assert_eq!(bids[0].1, 3 * UNIT as u128); // 1 + 2
}

#[test]
fn test_mid_price() {
    let mut ob = OrderBook::new("BTC-GBP".to_string());
    assert!(ob.mid_price().is_none());
    ob.add_limit_order(create_test_order(Side::Buy, 45000 * UNIT, UNIT));
    assert!(ob.mid_price().is_none());
    ob.add_limit_order(create_test_order(Side::Sell, 45100 * UNIT, UNIT));
    assert_eq!(ob.mid_price(), Some(45050 * UNIT));
}

#[test]
fn test_cancel_is_idempotent() {
    let mut ob = OrderBook::new("BTC-GBP".to_string());
    let order = create_test_order(Side::Buy, 45000 * UNIT, UNIT);
    let order_id = order.id;
    ob.add_limit_order(order);

    let first = ob.cancel_order(order_id).unwrap();
    assert!(first.is_some());
    let cancelled = first.unwrap();
    assert_eq!(cancelled.id, order_id);
    assert_eq!(cancelled.remaining_quantity, UNIT);

    let second = ob.cancel_order(order_id).unwrap();
    assert!(second.is_none());
    assert_eq!(ob.order_count(), 0);
}

#[test]
fn test_cancel_preserves_partial_fill() {
    let mut ob = OrderBook::new("BTC-GBP".to_string());
    ob.add_limit_order(create_test_order(Side::Sell, 45000 * UNIT, 2 * UNIT));
    let (_, asks) = ob.get_depth(1);
    assert_eq!(asks[0].1, 2 * UNIT as u128);

    // partially fill the resting sell
    let buy = create_test_order(Side::Buy, 45000 * UNIT, UNIT);
    let result = ob.submit_order(buy).unwrap();
    match result {
        MatchResult::Filled(trades) => {
            assert_eq!(trades.len(), 1);
            // cancel the partially filled maker
            let maker_id = trades[0].seller_order_id;
            let cancelled = ob.cancel_order(maker_id).unwrap().unwrap();
            assert_eq!(cancelled.filled_quantity, UNIT);
            assert_eq!(cancelled.remaining_quantity, UNIT);
        }
        _ => panic!("Expected filled order"),
    }
}

#[test]
fn test_submit_validation_errors() {
    let mut ob = OrderBook::new("BTC-GBP".to_string());

    // wrong symbol
    let mut o = create_test_order(Side::Buy, 45000 * UNIT, UNIT);
    o.symbol = "ETH-GBP".to_string();
    match ob.submit_order(o).unwrap() {
        MatchResult::Rejected(m) => assert!(m.contains("symbol")),
        _ => panic!("Expected rejected order"),
    }

    // zero quantity
    let o = create_test_order(Side::Buy, 45000 * UNIT, 0);
    match ob.submit_order(o).unwrap() {
        MatchResult::Rejected(m) => assert!(m.contains("quantity must be positive")),
        _ => panic!("Expected rejected order"),
    }

    // zero price
    let o = create_test_order(Side::Buy, 0, UNIT);
    match ob.submit_order(o).unwrap() {
        MatchResult::Rejected(m) => assert!(m.contains("price must be positive")),
        _ => panic!("Expected rejected order"),
    }

    // post-only without price
    let mut o = create_test_order(Side::Buy, 45000 * UNIT, UNIT);
    o.price = None;
    o.post_only = true;
    match ob.submit_order(o).unwrap() {
        MatchResult::Rejected(m) => assert!(m.contains("Post-only")),
        _ => panic!("Expected rejected order"),
    }

    // limit without price
    let mut o = create_test_order(Side::Buy, 45000 * UNIT, UNIT);
    o.price = None;
    match ob.submit_order(o).unwrap() {
        MatchResult::Rejected(m) => assert!(m.contains("Limit orders must have a price")),
        _ => panic!("Expected rejected order"),
    }

    // duplicate id
    let o = create_test_order(Side::Buy, 45000 * UNIT, UNIT);
    let dup = o.clone();
    match ob.submit_order(o).unwrap() {
        MatchResult::Added(_) => {}
        _ => panic!("Expected added order"),
    }
    match ob.submit_order(dup).unwrap() {
        MatchResult::Rejected(m) => assert!(m.contains("Duplicate")),
        _ => panic!("Expected rejected order"),
    }

    // oversized quantity
    let o = create_test_order(Side::Buy, 45000 * UNIT, u64::MAX);
    match ob.submit_order(o).unwrap() {
        MatchResult::Rejected(m) => assert!(m.contains("quantity exceeds maximum")),
        _ => panic!("Expected rejected order"),
    }
}

#[test]
fn test_trade_sequence_ids_increase() {
    let mut ob = OrderBook::new("BTC-GBP".to_string());
    ob.add_limit_order(create_test_order(Side::Sell, 45000 * UNIT, UNIT));
    ob.add_limit_order(create_test_order(Side::Sell, 45000 * UNIT, UNIT));
    ob.add_limit_order(create_test_order(Side::Sell, 45000 * UNIT, UNIT));

    let buy = create_test_order(Side::Buy, 45000 * UNIT, 3 * UNIT);
    let seq_before = ob.current_sequence();
    match ob.submit_order(buy).unwrap() {
        MatchResult::Filled(trades) => {
            assert_eq!(trades.len(), 3);
            for (i, t) in trades.iter().enumerate() {
                // the submission stamp consumed one id before the trades
                assert_eq!(t.sequence_id, seq_before + 1 + i as u64);
            }
        }
        _ => panic!("Expected filled order"),
    }
}

#[test]
fn test_clear() {
    let mut ob = OrderBook::new("BTC-GBP".to_string());
    ob.add_limit_order(create_test_order(Side::Buy, 45000 * UNIT, UNIT));
    ob.add_limit_order(create_test_order(Side::Sell, 45100 * UNIT, UNIT));
    ob.clear();
    assert_eq!(ob.order_count(), 0);
    assert!(ob.best_bid().is_none());
    assert!(ob.best_ask().is_none());
}
