use matching_engine::orderbook::OrderBook;
use matching_engine::request::{
    build_order_response, format_amount, parse_amount, parse_order_type, parse_side,
    parse_time_in_force, u64_to_string,
};
use matching_engine::types::{
    MatchResult, Order, OrderType, Side, TimeInForce, AMOUNT_SCALE,
};

const UNIT: u64 = AMOUNT_SCALE;

#[test]
fn test_parse_side_names() {
    assert_eq!(parse_side("buy"), Some(Side::Buy));
    assert_eq!(parse_side("sell"), Some(Side::Sell));
    assert_eq!(parse_side("hold"), None);
}

#[test]
fn test_parse_order_type_names() {
    assert_eq!(parse_order_type("market"), Some(OrderType::Market));
    assert_eq!(parse_order_type("limit"), Some(OrderType::Limit));
    assert_eq!(parse_order_type("stop"), Some(OrderType::Stop));
    assert_eq!(parse_order_type("stop_limit"), Some(OrderType::StopLimit));
    assert_eq!(parse_order_type("iceberg"), None);
}

#[test]
fn test_parse_time_in_force_names() {
    assert_eq!(parse_time_in_force("GTC"), TimeInForce::GTC);
    assert_eq!(parse_time_in_force("IOC"), TimeInForce::IOC);
    assert_eq!(parse_time_in_force("FOK"), TimeInForce::FOK);
    assert_eq!(parse_time_in_force("GTD"), TimeInForce::GTD);
    // anything unknown falls back to GTC
    assert_eq!(parse_time_in_force("DAY"), TimeInForce::GTC);
}

#[test]
fn test_parse_amount_strings() {
    assert_eq!(parse_amount("45000"), Some(45000 * UNIT));
    assert_eq!(parse_amount("0.5"), Some(UNIT / 2));
    assert_eq!(parse_amount("1.5"), Some(UNIT + UNIT / 2));
    assert_eq!(parse_amount("45000.00000001"), Some(45000 * UNIT + 1));
    assert_eq!(parse_amount(""), None);
    assert_eq!(parse_amount("."), None);
    assert_eq!(parse_amount("1."), None);
    assert_eq!(parse_amount(".5"), None);
    assert_eq!(parse_amount("1.2.3"), None);
    assert_eq!(parse_amount("12a"), None);
    assert_eq!(parse_amount("1.123456789"), None); // too many fraction digits
}

#[test]
fn test_format_amount_strings() {
    assert_eq!(format_amount(45000 * UNIT), "45000");
    assert_eq!(format_amount(UNIT / 2), "0.50000000");
    assert_eq!(format_amount(45000 * UNIT + 1), "45000.00000001");
    assert_eq!(format_amount(0), "0");
}

#[test]
fn test_amount_roundtrip() {
    for v in [0u64, 1, UNIT / 2, UNIT, 45000 * UNIT, 45000 * UNIT + 1] {
        assert_eq!(parse_amount(&format_amount(v)), Some(v));
    }
}

#[test]
fn test_u64_to_string_digits() {
    assert_eq!(u64_to_string(0), "0");
    assert_eq!(u64_to_string(10000), "10000");
    assert_eq!(u64_to_string(u64::MAX), u64::MAX.to_string());
}

#[test]
fn test_build_order_response_dispositions() {
    let mut ob = OrderBook::new("BTC-GBP".to_string());
    let sell = Order::new(
        7,
        "BTC-GBP".to_string(),
        Side::Sell,
        OrderType::Limit,
        Some(45000 * UNIT),
        UNIT,
        TimeInForce::GTC,
        false,
        None,
        0,
    );
    ob.add_limit_order(sell);
    let buy = Order::new(
        8,
        "BTC-GBP".to_string(),
        Side::Buy,
        OrderType::Limit,
        Some(45000 * UNIT),
        UNIT,
        TimeInForce::GTC,
        false,
        None,
        0,
    );
    let result = ob.submit_order(buy).unwrap();
    let response = build_order_response(&result);
    assert!(response.success);
    assert_eq!(response.status, "filled");
    assert_eq!(response.message, "1 trades executed");
    assert_eq!(response.trades_count, 1);

    let rejected = MatchResult::Rejected("no".to_string());
    let response = build_order_response(&rejected);
    assert!(!response.success);
    assert_eq!(response.status, "rejected");
    assert_eq!(response.message, "no");
    assert_eq!(response.trades_count, 0);
}
