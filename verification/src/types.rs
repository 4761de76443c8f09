//! Core data types: orders, trades, match results.
//!
//! Prices, quantities and fees are fixed-point decimals held in integers:
//! a value of `AMOUNT_SCALE` stands for 1.0. Order and account ids are
//! opaque 128-bit values.

use vstd::prelude::*;

verus! {

/// Fixed-point scale: this many integer units stand for 1.0, giving
/// eight decimal places — the finest granularity the supported markets
/// quote. A wider decimal would need wider integers throughout the
/// public types; every amount the engine's arithmetic produces is
/// proved to stay on this grid.
pub const AMOUNT_SCALE: u64 = 100_000_000;

/// Largest representable price or quantity, in `AMOUNT_SCALE` units
/// (ten million whole units). The bound keeps every fee product inside
/// 128-bit arithmetic; validation rejects anything beyond it.
pub const MAX_AMOUNT: u64 = 1_000_000_000_000_000;

/// Order side (buy or sell).
#[derive(Debug, Clone, Copy, PartialEq, Eq, Structural)]
pub enum Side {
    Buy,
    Sell,
}

impl Side {
    /// Lowercase name of the side, as it crosses the request boundary.
    pub fn label(&self) -> (r: String)
        ensures
            *self is Buy ==> r@ == "buy"@,
            *self is Sell ==> r@ == "sell"@,
    {
        match self {
            Side::Buy => String::from_str("buy"),
            Side::Sell => String::from_str("sell"),
        }
    }
}

/// Order type.
#[derive(Debug, Clone, Copy, PartialEq, Eq, Structural)]
pub enum OrderType {
    Market,
    Limit,
    Stop,
    StopLimit,
}

/// Time in force.
#[derive(Debug, Clone, Copy, PartialEq, Eq, Structural)]
pub enum TimeInForce {
    /// Good Till Cancelled
    GTC,
    /// Immediate or Cancel
    IOC,
    /// Fill or Kill
    FOK,
    /// Good Till Date
    GTD,
}

/// Order status.
#[derive(Debug, Clone, Copy, PartialEq, Eq, Structural)]
pub enum OrderStatus {
    New,
    Partial,
    Filled,
    Cancelled,
    Rejected,
    Expired,
}

/// Trading order: immutable identity plus mutable execution state.
#[derive(Debug, Clone)]
pub struct Order {
    pub id: u128,
    pub account_id: u128,
    pub symbol: String,
    pub side: Side,
    pub order_type: OrderType,
    pub price: Option<u64>,
    pub quantity: u64,
    pub filled_quantity: u64,
    pub remaining_quantity: u64,
    pub status: OrderStatus,
    pub time_in_force: TimeInForce,
    pub post_only: bool,
    pub reduce_only: bool,
    pub client_order_id: Option<String>,
    pub created_at: i64,
    pub updated_at: i64,
    pub sequence_id: u64,
}

/// Spec-level equality of two optional strings, by their character views.
pub open spec fn opt_str_eq(a: Option<String>, b: Option<String>) -> bool {
    match a {
        Option::None => b is None,
        Option::Some(x) => b matches Option::Some(y) && x@ == y@,
    }
}

/// The fields that make up an order's immutable identity (everything but
/// fill state, status and the update timestamp) agree between `a` and `b`.
pub open spec fn same_identity(a: Order, b: Order) -> bool {
    &&& a.id == b.id
    &&& a.account_id == b.account_id
    &&& a.symbol@ == b.symbol@
    &&& a.side == b.side
    &&& a.order_type == b.order_type
    &&& a.price == b.price
    &&& a.quantity == b.quantity
    &&& a.time_in_force == b.time_in_force
    &&& a.post_only == b.post_only
    &&& a.reduce_only == b.reduce_only
    &&& opt_str_eq(a.client_order_id, b.client_order_id)
    &&& a.created_at == b.created_at
    &&& a.sequence_id == b.sequence_id
}

/// Full field-by-field agreement of two orders (strings by view).
pub open spec fn order_like(a: Order, b: Order) -> bool {
    &&& same_identity(a, b)
    &&& a.filled_quantity == b.filled_quantity
    &&& a.remaining_quantity == b.remaining_quantity
    &&& a.status == b.status
    &&& a.updated_at == b.updated_at
}

/// Relies on `uuid::Uuid::new_v4` for a fresh random 128-bit order id.
#[verifier::external_body]
pub(crate) fn fresh_order_id() -> u128 {
    uuid::Uuid::new_v4().as_u128()
}

/// Relies on `chrono::Utc::now` for the current wall-clock time in
/// milliseconds since the epoch.
#[verifier::external_body]
pub(crate) fn now_millis() -> i64 {
    chrono::Utc::now().timestamp_millis()
}

pub(crate) fn clone_opt_string(s: &Option<String>) -> (r: Option<String>)
    ensures
        opt_str_eq(r, *s),
{
    match s {
        Option::None => Option::None,
        Option::Some(x) => Option::Some(x.clone()),
    }
}

impl Order {
    /// Create a new order: a fresh random id, no fills yet, status `New`.
    #[allow(clippy::too_many_arguments)]
    pub fn new(
        account_id: u128,
        symbol: String,
        side: Side,
        order_type: OrderType,
        price: Option<u64>,
        quantity: u64,
        time_in_force: TimeInForce,
        post_only: bool,
        client_order_id: Option<String>,
        sequence_id: u64,
    ) -> (r: Order)
        ensures
            r.account_id == account_id,
            r.symbol@ == symbol@,
            r.side == side,
            r.order_type == order_type,
            r.price == price,
            r.quantity == quantity,
            r.filled_quantity == 0,
            r.remaining_quantity == quantity,
            r.status is New,
            r.time_in_force == time_in_force,
            r.post_only == post_only,
            !r.reduce_only,
            opt_str_eq(r.client_order_id, client_order_id),
            r.created_at == r.updated_at,
            r.sequence_id == sequence_id,
    {
        let now = now_millis();
        Order {
            id: fresh_order_id(),
            account_id,
            symbol,
            side,
            order_type,
            price,
            quantity,
            filled_quantity: 0,
            remaining_quantity: quantity,
            status: OrderStatus::New,
            time_in_force,
            post_only,
            reduce_only: false,
            client_order_id,
            created_at: now,
            updated_at: now,
            sequence_id,
        }
    }

    /// Fill the order (partially or fully): move `quantity` from remaining
    /// to filled and step the status machine.
    pub fn fill(&mut self, quantity: u64)
        requires
            quantity <= old(self).remaining_quantity,
            old(self).filled_quantity + quantity <= u64::MAX,
        ensures
            final(self).filled_quantity == old(self).filled_quantity + quantity,
            final(self).remaining_quantity == old(self).remaining_quantity - quantity,
            final(self).status == (if final(self).remaining_quantity == 0 {
                OrderStatus::Filled
            } else {
                OrderStatus::Partial
            }),
            same_identity(*final(self), *old(self)),
            final(self).symbol == old(self).symbol,
            final(self).client_order_id == old(self).client_order_id,
    {
        self.filled_quantity = self.filled_quantity + quantity;
        self.remaining_quantity = self.remaining_quantity - quantity;
        self.updated_at = now_millis();

        if self.remaining_quantity == 0 {
            self.status = OrderStatus::Filled;
        } else {
            self.status = OrderStatus::Partial;
        }
    }

    /// Cancel the order.
    pub fn cancel(&mut self)
        ensures
            final(self).status is Cancelled,
            final(self).filled_quantity == old(self).filled_quantity,
            final(self).remaining_quantity == old(self).remaining_quantity,
            same_identity(*final(self), *old(self)),
    {
        self.status = OrderStatus::Cancelled;
        self.updated_at = now_millis();
    }

    /// Check if the order is active (can be matched).
    pub fn is_active(&self) -> (r: bool)
        ensures
            r == (self.status is New || self.status is Partial),
    {
        matches!(self.status, OrderStatus::New | OrderStatus::Partial)
    }

    /// Check if the order is fully filled.
    pub fn is_filled(&self) -> (r: bool)
        ensures
            r == (self.status is Filled),
    {
        matches!(self.status, OrderStatus::Filled)
    }

    /// Effective price: the market price for market orders, the limit
    /// price (or the market price when absent) otherwise.
    pub fn effective_price(&self, market_price: u64) -> (r: u64)
        ensures
            self.order_type is Market ==> r == market_price,
            !(self.order_type is Market) ==> r == (if self.price is Some {
                self.price->0
            } else {
                market_price
            }),
    {
        match self.order_type {
            OrderType::Market => market_price,
            _ => match self.price {
                Option::Some(p) => p,
                Option::None => market_price,
            },
        }
    }

    /// A field-by-field copy of the order.
    pub fn duplicate(&self) -> (r: Order)
        ensures
            order_like(r, *self),
    {
        Order {
            id: self.id,
            account_id: self.account_id,
            symbol: self.symbol.clone(),
            side: self.side,
            order_type: self.order_type,
            price: self.price,
            quantity: self.quantity,
            filled_quantity: self.filled_quantity,
            remaining_quantity: self.remaining_quantity,
            status: self.status,
            time_in_force: self.time_in_force,
            post_only: self.post_only,
            reduce_only: self.reduce_only,
            client_order_id: clone_opt_string(&self.client_order_id),
            created_at: self.created_at,
            updated_at: self.updated_at,
            sequence_id: self.sequence_id,
        }
    }
}

/// Executed trade: immutable once emitted.
#[derive(Debug, Clone)]
pub struct Trade {
    pub id: u128,
    pub symbol: String,
    pub buyer_order_id: u128,
    pub seller_order_id: u128,
    pub buyer_account_id: u128,
    pub seller_account_id: u128,
    pub price: u64,
    pub quantity: u64,
    pub buyer_fee: u128,
    pub seller_fee: u128,
    pub executed_at: i64,
    pub sequence_id: u64,
}

impl Trade {
    /// Create a new trade between a buy order and a sell order. The
    /// trade id is a fresh random value; the timestamp is the current
    /// wall-clock time.
    #[allow(clippy::too_many_arguments)]
    pub fn new(
        symbol: String,
        buyer_order: &Order,
        seller_order: &Order,
        price: u64,
        quantity: u64,
        buyer_fee: u128,
        seller_fee: u128,
        sequence_id: u64,
    ) -> (r: Trade)
        ensures
            r.symbol@ == symbol@,
            r.buyer_order_id == buyer_order.id,
            r.seller_order_id == seller_order.id,
            r.buyer_account_id == buyer_order.account_id,
            r.seller_account_id == seller_order.account_id,
            r.price == price,
            r.quantity == quantity,
            r.buyer_fee == buyer_fee,
            r.seller_fee == seller_fee,
            r.sequence_id == sequence_id,
    {
        Trade {
            id: fresh_order_id(),
            symbol,
            buyer_order_id: buyer_order.id,
            seller_order_id: seller_order.id,
            buyer_account_id: buyer_order.account_id,
            seller_account_id: seller_order.account_id,
            price,
            quantity,
            buyer_fee,
            seller_fee,
            executed_at: now_millis(),
            sequence_id,
        }
    }
}

/// One aggregated price level of an order-book snapshot.
#[derive(Debug, Clone)]
pub struct PriceLevel {
    pub price: u64,
    pub quantity: u128,
    pub order_count: usize,
}

/// Market data update: aggregated depth on both sides.
#[derive(Debug, Clone)]
pub struct MarketDataUpdate {
    pub symbol: String,
    pub bids: Vec<PriceLevel>,
    pub asks: Vec<PriceLevel>,
    pub last_trade_price: Option<u64>,
    pub timestamp: i64,
    pub sequence_id: u64,
}

/// Order matching result.
#[derive(Debug)]
pub enum MatchResult {
    /// Order fully filled.
    Filled(Vec<Trade>),
    /// Order partially filled, with the remaining order.
    PartiallyFilled(Vec<Trade>, Order),
    /// Order added to the book without matching.
    Added(Order),
    /// Order rejected, with a human-readable reason.
    Rejected(String),
}

} // verus!
