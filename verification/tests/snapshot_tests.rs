use matching_engine::orderbook::OrderBook;
use matching_engine::snapshot::SnapshotManager;
use matching_engine::types::{Order, OrderType, Side, TimeInForce, AMOUNT_SCALE};

const UNIT: u64 = AMOUNT_SCALE;

fn snap_order(side: Side, price: u64, quantity: u64) -> Order {
    Order::new(
        7,
        "BTC-GBP".to_string(),
        side,
        OrderType::Limit,
        Some(price),
        quantity,
        TimeInForce::GTC,
        false,
        None,
        1,
    )
}

#[test]
fn test_snapshot_filename() {
    let manager = SnapshotManager::new("./snapshots");
    assert_eq!(manager.snapshot_filename("BTC-GBP"), "./snapshots/BTC-GBP.snapshot");
}

#[test]
fn test_snapshot_restore_roundtrip() {
    let mut book = OrderBook::new("BTC-GBP".to_string());
    book.add_limit_order(snap_order(Side::Buy, 44900 * UNIT, UNIT));
    book.add_limit_order(snap_order(Side::Buy, 45000 * UNIT, 2 * UNIT));
    book.add_limit_order(snap_order(Side::Sell, 45100 * UNIT, UNIT));
    book.add_limit_order(snap_order(Side::Sell, 45100 * UNIT, UNIT));
    book.sequence_manager.set(17);

    let (bids, asks) = book.snapshot_orders();
    let mut all = bids;
    all.extend(asks);
    let restored = OrderBook::restore("BTC-GBP".to_string(), 17, 10000, all).unwrap();

    assert_eq!(restored.symbol, "BTC-GBP");
    assert_eq!(restored.current_sequence(), 17);
    assert_eq!(restored.order_count(), book.order_count());
    assert_eq!(restored.best_bid(), book.best_bid());
    assert_eq!(restored.best_ask(), book.best_ask());
    assert_eq!(restored.get_depth(10), book.get_depth(10));
}

#[test]
fn test_restore_rejects_crossed_book() {
    // a bid at or above an ask cannot come from a consistent snapshot
    let orders = vec![
        snap_order(Side::Sell, 45000 * UNIT, UNIT),
        snap_order(Side::Buy, 45000 * UNIT, UNIT),
    ];
    assert!(OrderBook::restore("BTC-GBP".to_string(), 1, 10000, orders).is_none());
}

#[test]
fn test_restore_rejects_duplicate_ids() {
    let first = snap_order(Side::Buy, 45000 * UNIT, UNIT);
    let mut second = snap_order(Side::Buy, 44900 * UNIT, UNIT);
    second.id = first.id;
    let orders = vec![first, second];
    assert!(OrderBook::restore("BTC-GBP".to_string(), 1, 10000, orders).is_none());
}

#[test]
fn test_restore_rejects_inactive_order() {
    let mut order = snap_order(Side::Buy, 45000 * UNIT, UNIT);
    order.status = matching_engine::types::OrderStatus::Cancelled;
    assert!(OrderBook::restore("BTC-GBP".to_string(), 1, 10000, vec![order]).is_none());
}
