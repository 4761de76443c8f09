use matching_engine::matching::{MatchingEngine, MAKER_FEE_BPS, TAKER_FEE_BPS};
use matching_engine::orderbook::OrderBook;
use matching_engine::types::{MatchResult, Order, OrderType, Side, TimeInForce, AMOUNT_SCALE};

const UNIT: u64 = AMOUNT_SCALE;

fn create_limit_order(side: Side, price: u64, quantity: u64, seq: u64) -> Order {
    Order::new(
        7,
        "BTC-GBP".to_string(),
        side,
        OrderType::Limit,
        Some(price),
        quantity,
        TimeInForce::GTC,
        false,
        None,
        seq,
    )
}

#[test]
fn test_simple_match() {
    let mut orderbook = OrderBook::new("BTC-GBP".to_string());
    let engine = MatchingEngine::new();

    // Add sell order to orderbook
    let sell_order = create_limit_order(Side::Sell, 45000 * UNIT, UNIT, 1);
    orderbook.add_limit_order(sell_order);

    // Submit matching buy order
    let buy_order = create_limit_order(Side::Buy, 45000 * UNIT, UNIT, 2);
    let result = engine.match_order(&mut orderbook, buy_order).unwrap();

    match result {
        MatchResult::Filled(trades) => {
            assert_eq!(trades.len(), 1);
            assert_eq!(trades[0].price, 45000 * UNIT);
            assert_eq!(trades[0].quantity, UNIT);
        }
        _ => panic!("Expected filled order"),
    }
}

#[test]
fn test_partial_match() {
    let mut orderbook = OrderBook::new("BTC-GBP".to_string());
    let engine = MatchingEngine::new();

    // Add sell order for 0.5
    let sell_order = create_limit_order(Side::Sell, 45000 * UNIT, UNIT / 2, 1);
    orderbook.add_limit_order(sell_order);

    // Submit buy order for 1
    let buy_order = create_limit_order(Side::Buy, 45000 * UNIT, UNIT, 2);
    let result = engine.match_order(&mut orderbook, buy_order).unwrap();

    match result {
        MatchResult::PartiallyFilled(trades, remaining) => {
            assert_eq!(trades.len(), 1);
            assert_eq!(trades[0].quantity, UNIT / 2); // 0.5
            assert_eq!(remaining.remaining_quantity, UNIT / 2); // 0.5 remaining
        }
        _ => panic!("Expected partially filled order"),
    }
}

#[test]
fn test_post_only_rejection() {
    let mut orderbook = OrderBook::new("BTC-GBP".to_string());
    let engine = MatchingEngine::new();

    // Add sell order
    let sell_order = create_limit_order(Side::Sell, 45000 * UNIT, UNIT, 1);
    orderbook.add_limit_order(sell_order);

    // Submit post-only buy order that would match
    let mut buy_order = create_limit_order(Side::Buy, 45000 * UNIT, UNIT, 2);
    buy_order.post_only = true;

    let result = engine.match_order(&mut orderbook, buy_order).unwrap();

    match result {
        MatchResult::Rejected(reason) => {
            assert!(reason.contains("Post-only"));
        }
        _ => panic!("Expected rejected order"),
    }
}

#[test]
fn test_price_priority() {
    let mut orderbook = OrderBook::new("BTC-GBP".to_string());
    let engine = MatchingEngine::new();

    // Add sell orders at different prices
    orderbook.add_limit_order(create_limit_order(Side::Sell, 45100 * UNIT, UNIT, 1));
    orderbook.add_limit_order(create_limit_order(Side::Sell, 45000 * UNIT, UNIT, 2));
    orderbook.add_limit_order(create_limit_order(Side::Sell, 45200 * UNIT, UNIT, 3));

    // Submit buy order - should match with lowest ask (45000)
    let buy_order = create_limit_order(Side::Buy, 45200 * UNIT, UNIT, 4);
    let result = engine.match_order(&mut orderbook, buy_order).unwrap();

    match result {
        MatchResult::Filled(trades) => {
            assert_eq!(trades.len(), 1);
            assert_eq!(trades[0].price, 45000 * UNIT); // Best price
        }
        _ => panic!("Expected filled order"),
    }
}

#[test]
fn test_fee_calculation() {
    let engine = MatchingEngine::new();

    let price = 45000 * UNIT;
    let quantity = UNIT;

    let maker_fee = engine.calculate_fee(price, quantity, MAKER_FEE_BPS);
    let taker_fee = engine.calculate_fee(price, quantity, TAKER_FEE_BPS);

    // 0.1% of 45000 = 45
    assert_eq!(maker_fee, 45 * UNIT as u128);
    // 0.15% of 45000 = 67.5
    assert_eq!(taker_fee, 675 * UNIT as u128 / 10);
}

#[test]
fn test_stop_order_rejected() {
    let mut orderbook = OrderBook::new("BTC-GBP".to_string());
    let engine = MatchingEngine::new();

    let mut order = create_limit_order(Side::Buy, 45000 * UNIT, UNIT, 1);
    order.order_type = OrderType::Stop;
    let result = engine.match_order(&mut orderbook, order).unwrap();
    match result {
        MatchResult::Rejected(reason) => {
            assert!(reason.contains("stop orders not supported"));
        }
        _ => panic!("Expected rejected order"),
    }
    assert_eq!(orderbook.order_count(), 0);
}

#[test]
fn test_ioc_cancels_residual() {
    let mut orderbook = OrderBook::new("BTC-GBP".to_string());
    let engine = MatchingEngine::new();

    orderbook.add_limit_order(create_limit_order(Side::Sell, 45000 * UNIT, UNIT / 2, 1));

    let mut buy = create_limit_order(Side::Buy, 45000 * UNIT, UNIT, 2);
    buy.time_in_force = TimeInForce::IOC;
    let result = engine.match_order(&mut orderbook, buy).unwrap();
    match result {
        MatchResult::PartiallyFilled(trades, remaining) => {
            assert_eq!(trades.len(), 1);
            assert_eq!(remaining.remaining_quantity, UNIT / 2);
        }
        _ => panic!("Expected partially filled order"),
    }
    // the residual does not rest in the book
    assert_eq!(orderbook.order_count(), 0);
}

#[test]
fn test_ioc_rejected_when_nothing_fills() {
    let mut orderbook = OrderBook::new("BTC-GBP".to_string());
    let engine = MatchingEngine::new();

    let mut buy = create_limit_order(Side::Buy, 45000 * UNIT, UNIT, 1);
    buy.time_in_force = TimeInForce::IOC;
    let result = engine.match_order(&mut orderbook, buy).unwrap();
    match result {
        MatchResult::Rejected(reason) => assert!(reason.contains("IOC")),
        _ => panic!("Expected rejected order"),
    }
}

#[test]
fn test_fok_rejected_leaves_book_untouched() {
    let mut orderbook = OrderBook::new("BTC-GBP".to_string());
    let engine = MatchingEngine::new();

    orderbook.add_limit_order(create_limit_order(Side::Sell, 45000 * UNIT, UNIT / 2, 1));
    let count_before = orderbook.order_count();
    let seq_before = orderbook.current_sequence();
    let (bids_before, asks_before) = orderbook.get_depth(10);

    let mut buy = create_limit_order(Side::Buy, 45000 * UNIT, UNIT, 2);
    buy.time_in_force = TimeInForce::FOK;
    let result = engine.match_order(&mut orderbook, buy).unwrap();
    match result {
        MatchResult::Rejected(reason) => assert!(reason.contains("FOK")),
        _ => panic!("Expected rejected order"),
    }
    assert_eq!(orderbook.order_count(), count_before);
    assert_eq!(orderbook.current_sequence(), seq_before);
    let (bids_after, asks_after) = orderbook.get_depth(10);
    assert_eq!(bids_before, bids_after);
    assert_eq!(asks_before, asks_after);
}

#[test]
fn test_fok_fills_when_liquidity_suffices() {
    let mut orderbook = OrderBook::new("BTC-GBP".to_string());
    let engine = MatchingEngine::new();

    orderbook.add_limit_order(create_limit_order(Side::Sell, 45000 * UNIT, UNIT, 1));
    let mut buy = create_limit_order(Side::Buy, 45000 * UNIT, UNIT, 2);
    buy.time_in_force = TimeInForce::FOK;
    let result = engine.match_order(&mut orderbook, buy).unwrap();
    match result {
        MatchResult::Filled(trades) => assert_eq!(trades.len(), 1),
        _ => panic!("Expected filled order"),
    }
}

#[test]
fn test_trade_fees_on_match() {
    let mut orderbook = OrderBook::new("BTC-GBP".to_string());
    let engine = MatchingEngine::new();

    orderbook.add_limit_order(create_limit_order(Side::Sell, 45000 * UNIT, UNIT, 1));
    let buy = create_limit_order(Side::Buy, 45000 * UNIT, UNIT, 2);
    let result = engine.match_order(&mut orderbook, buy).unwrap();
    match result {
        MatchResult::Filled(trades) => {
            // buyer was the taker, seller the maker
            assert_eq!(trades[0].buyer_fee, 675 * UNIT as u128 / 10);
            assert_eq!(trades[0].seller_fee, 45 * UNIT as u128);
        }
        _ => panic!("Expected filled order"),
    }
}
