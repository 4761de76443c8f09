//! Price-time priority matching: the crossing walk over the opposite
//! side of the book, fee arithmetic, and order-type / time-in-force
//! dispatch.

use vstd::prelude::*;

use crate::orderbook::{
    avail_qty, count_orders, crossable, has_order, has_order_at, is_buy, lemma_avail_cons,
    lemma_has_order_at_implies, liquidity_from,
    lemma_avail_nonneg, lemma_avail_sorted_zero, lemma_count_orders_cons,
    lemma_count_orders_nonneg, lemma_qty_sum_cons, lemma_qty_sum_nonneg, lemma_side_wf_cons,
    lemma_side_wf_skip, level_wf, order_ok, price_before, qty_sum, side_view, side_wf, spec_insert,
    Level, LevelView, OrderBook,
};
use crate::sequence::SequenceManager;
use crate::types::{
    order_like, same_identity, MatchResult, Order, OrderStatus, OrderType, Side, TimeInForce,
    Trade, AMOUNT_SCALE, MAX_AMOUNT,
};
use std::collections::HashMap;

verus! {

broadcast use vstd::std_specs::hash::group_hash_axioms;

/// Maker fee, in basis points (0.10%).
pub const MAKER_FEE_BPS: u64 = 10;

/// Taker fee, in basis points (0.15%).
pub const TAKER_FEE_BPS: u64 = 15;

/// The fee charged on a fill: `price * quantity * bps / 10000`, on the
/// fixed-point grid (one factor of `AMOUNT_SCALE` is divided back out).
pub open spec fn spec_fee(price: u64, qty: u64, bps: u64) -> int {
    ((price as int) * (qty as int) * (bps as int)) / ((10000 * AMOUNT_SCALE) as int)
}

/// Total executed quantity of a list of trades.
pub open spec fn trades_qty_sum(ts: Seq<Trade>) -> int
    decreases ts.len(),
{
    if ts.len() == 0 {
        0
    } else {
        ts[0].quantity + trades_qty_sum(ts.skip(1))
    }
}

pub proof fn lemma_trades_qty_sum_push(ts: Seq<Trade>, x: Trade)
    ensures
        trades_qty_sum(ts.push(x)) == trades_qty_sum(ts) + x.quantity,
    decreases ts.len(),
{
    if ts.len() == 0 {
        assert(ts.push(x)[0] == x);
        assert(ts.push(x).skip(1) =~= Seq::<Trade>::empty());
        assert(trades_qty_sum(Seq::<Trade>::empty()) == 0);
    } else {
        assert(ts.push(x)[0] == ts[0]);
        assert(ts.push(x).skip(1) =~= ts.skip(1).push(x));
        lemma_trades_qty_sum_push(ts.skip(1), x);
        assert(trades_qty_sum(ts.push(x)) == ts[0].quantity + trades_qty_sum(ts.push(x).skip(1)));
        assert(trades_qty_sum(ts) == ts[0].quantity + trades_qty_sum(ts.skip(1)));
    }
}

/// The per-trade fields a crossing walk guarantees: right symbol, a
/// positive in-range quantity, a crossable maker price, the taker on
/// its own side of the trade, and fees as the fee formula says.
pub open spec fn trade_fields_ok(
    t: Trade,
    symbol: Seq<char>,
    taker: Order,
    limit: Option<u64>,
    buy_taker: bool,
) -> bool {
    &&& t.symbol@ == symbol
    &&& t.quantity > 0
    &&& t.quantity <= MAX_AMOUNT
    &&& 0 < t.price <= MAX_AMOUNT
    &&& crossable(t.price, limit, buy_taker)
    &&& (buy_taker ==> {
        &&& t.buyer_order_id == taker.id
        &&& t.buyer_account_id == taker.account_id
        &&& t.buyer_fee == spec_fee(t.price, t.quantity, TAKER_FEE_BPS)
        &&& t.seller_fee == spec_fee(t.price, t.quantity, MAKER_FEE_BPS)
    })
    &&& (!buy_taker ==> {
        &&& t.seller_order_id == taker.id
        &&& t.seller_account_id == taker.account_id
        &&& t.seller_fee == spec_fee(t.price, t.quantity, TAKER_FEE_BPS)
        &&& t.buyer_fee == spec_fee(t.price, t.quantity, MAKER_FEE_BPS)
    })
}

/// The maker side of a trade names an order that was resting in the
/// walked side at exactly the trade's price: its limit price is the
/// trade price (price improvement goes to the taker).
pub open spec fn maker_linked(t: Trade, pre: Seq<LevelView>, buy_taker: bool) -> bool {
    exists|i: int, j: int|
        0 <= i < pre.len() && 0 <= j < pre[i].orders.len() && pre[i].price == t.price
            && pre[i].orders[j].id == (if buy_taker {
            t.seller_order_id
        } else {
            t.buyer_order_id
        }) && pre[i].orders[j].account_id == (if buy_taker {
            t.seller_account_id
        } else {
            t.buyer_account_id
        }) && pre[i].orders[j].price == Option::<u64>::Some(t.price)
}

/// Smaller of two spec integers.
pub open spec fn min_int(a: int, b: int) -> int {
    if a <= b {
        a
    } else {
        b
    }
}

/// Stateless price-time priority matching engine.
pub struct MatchingEngine;

impl MatchingEngine {
    pub fn new() -> (r: Self) {
        MatchingEngine
    }

    /// Calculate the trading fee on a fill at `price` for `quantity`,
    /// charged at `fee_bps` basis points of the notional value.
    pub fn calculate_fee(&self, price: u64, quantity: u64, fee_bps: u64) -> (r: u128)
        requires
            price <= MAX_AMOUNT,
            quantity <= MAX_AMOUNT,
            fee_bps <= 10000,
        ensures
            r == spec_fee(price, quantity, fee_bps),
    {
        proof {
            assert((price as int) * (quantity as int) <= (MAX_AMOUNT as int) * (
            MAX_AMOUNT as int)) by (nonlinear_arith)
                requires
                    0 <= price <= MAX_AMOUNT,
                    0 <= quantity <= MAX_AMOUNT,
            ;
            assert((price as int) * (quantity as int) * (fee_bps as int) <= (MAX_AMOUNT as int) * (
            MAX_AMOUNT as int) * 10000) by (nonlinear_arith)
                requires
                    0 <= (price as int) * (quantity as int) <= (MAX_AMOUNT as int) * (
                    MAX_AMOUNT as int),
                    0 <= fee_bps <= 10000,
            ;
            assert((price as int) * (quantity as int) * (fee_bps as int) >= 0) by (nonlinear_arith)
                requires
                    0 <= price,
                    0 <= quantity,
                    0 <= fee_bps,
            ;
        }
        let notional: u128 = (price as u128) * (quantity as u128);
        let scaled: u128 = notional * (fee_bps as u128);
        scaled / (10000u128 * (AMOUNT_SCALE as u128))
    }
}

impl Default for MatchingEngine {
    fn default() -> (r: Self) {
        MatchingEngine::new()
    }
}

/// Whether a maker level at `price` is reachable by a taker bounded by
/// `limit`.
fn crossable_at(price: u64, limit: Option<u64>, buy_taker: bool) -> (r: bool)
    ensures
        r == crossable(price, limit, buy_taker),
{
    match limit {
        Option::None => true,
        Option::Some(l) => if buy_taker {
            price <= l
        } else {
            price >= l
        },
    }
}
/// Order `o` appears in `pre` at a level priced `pr`, with the same
/// identity (fill state aside).
pub open spec fn order_in_side(o: Order, pr: u64, pre: Seq<LevelView>) -> bool {
    exists|i2: int, j2: int|
        0 <= i2 < pre.len() && 0 <= j2 < pre[i2].orders.len() && pre[i2].price == pr
            && same_identity(o, pre[i2].orders[j2])
}

/// Every order of `cur` appears in `pre`, at a level of the same price,
/// with the same identity (fill state aside).
pub open spec fn provenance_ok(cur: Seq<LevelView>, pre: Seq<LevelView>) -> bool {
    forall|i: int, j: int|
        0 <= i < cur.len() && 0 <= j < cur[i].orders.len() ==> #[trigger] order_in_side(
            cur[i].orders[j],
            cur[i].price,
            pre,
        )
}

/// Every order resting on `levels` is indexed in `m` under its id, with
/// side `m_side` and its level's price.
pub open spec fn side_indexed(levels: Seq<LevelView>, m: Map<u128, (Side, u64)>, m_side: Side) -> bool {
    forall|id2: u128, pr: u64| #[trigger]
        has_order_at(levels, id2, pr) ==> m.contains_key(id2) && m[id2] == (m_side, pr)
}

/// Every id indexed in `m` on side `m_side` rests somewhere on `levels`.
pub open spec fn index_backed_side(m: Map<u128, (Side, u64)>, levels: Seq<LevelView>, m_side: Side) -> bool {
    forall|id2: u128| #[trigger]
        m.contains_key(id2) ==> (m[id2].0 == m_side ==> has_order(levels, id2))
}

/// `m` is `pre_m` with some side-`m_side` entries dropped: entries only
/// disappear, never change, and a side-`m_side` entry is present exactly
/// while its order still rests on `cur`.
pub open spec fn index_shrunk(
    m: Map<u128, (Side, u64)>,
    pre_m: Map<u128, (Side, u64)>,
    cur: Seq<LevelView>,
    m_side: Side,
) -> bool {
    &&& forall|id2: u128| #[trigger]
        m.contains_key(id2) ==> pre_m.contains_key(id2) && m[id2] == pre_m[id2]
    &&& forall|id2: u128| #[trigger]
        pre_m.contains_key(id2) ==> (m.contains_key(id2) <==> (pre_m[id2].0 == m_side
            ==> has_order(cur, id2)))
}

/// Trades carry consecutive sequence ids starting at `seq0`.
pub open spec fn trades_stamped(ts: Seq<Trade>, seq0: u64) -> bool {
    forall|i: int| 0 <= i < ts.len() ==> (#[trigger] ts[i]).sequence_id == seq0 + i
}

/// Every trade satisfies the per-trade walk guarantees against `pre`.
pub open spec fn trades_all_ok(
    ts: Seq<Trade>,
    symbol: Seq<char>,
    taker: Order,
    limit: Option<u64>,
    buy_taker: bool,
    pre: Seq<LevelView>,
) -> bool {
    forall|i: int|
        0 <= i < ts.len() ==> trade_fields_ok(#[trigger] ts[i], symbol, taker, limit, buy_taker)
            && maker_linked(ts[i], pre, buy_taker)
}

/// Trade prices move from the best maker price outward, never back.
pub open spec fn trades_price_ordered(ts: Seq<Trade>, m_side: Side) -> bool {
    forall|i: int, j: int|
        0 <= i <= j < ts.len() ==> !price_before(
            (#[trigger] ts[j]).price,
            (#[trigger] ts[i]).price,
            is_buy(m_side),
        )
}

/// All trades in the list executed at one single price level.
pub open spec fn uniform_price(ts: Seq<Trade>) -> bool {
    forall|i: int| 0 <= i < ts.len() ==> (#[trigger] ts[i]).price == ts[0].price
}

/// No trade so far took a worse price than `head_price`.
pub open spec fn trades_not_after(ts: Seq<Trade>, head_price: u64, m_side: Side) -> bool {
    forall|i: int|
        0 <= i < ts.len() ==> !price_before(head_price, (#[trigger] ts[i]).price, is_buy(m_side))
}

/// The maker side after its best order has been consumed: the order
/// leaves its queue, and the level leaves with its last order.
pub open spec fn step_side(levels: Seq<LevelView>) -> Seq<LevelView> {
    if levels[0].orders.len() == 1 {
        levels.skip(1)
    } else {
        seq![LevelView { price: levels[0].price, orders: levels[0].orders.skip(1) }] + levels.skip(
            1,
        )
    }
}

/// The maker-taker pairings of a crossing walk, in the order they are
/// struck: walk the side from the best price outward while quantity
/// remains and the head level is crossable, pairing the front maker of
/// the head level with `min(remaining, maker.remaining)`.
pub open spec fn maker_pairings(
    levels: Seq<LevelView>,
    limit: Option<u64>,
    buy_taker: bool,
    rem: int,
) -> Seq<(Order, u64)>
    decreases levels.len(),
        (if levels.len() > 0 {
            levels[0].orders.len()
        } else {
            0
        }),
{
    if levels.len() == 0 || rem <= 0 || !crossable(levels[0].price, limit, buy_taker)
        || levels[0].orders.len() == 0 {
        Seq::<(Order, u64)>::empty()
    } else {
        let m = levels[0].orders[0];
        if rem < m.remaining_quantity {
            seq![(m, rem as u64)]
        } else {
            seq![(m, m.remaining_quantity)] + maker_pairings(
                step_side(levels),
                limit,
                buy_taker,
                rem - m.remaining_quantity,
            )
        }
    }
}

/// Maker `m` after absorbing a partial fill of `f` at time `ts`.
pub open spec fn partial_fill_of(m: Order, f: u64, ts: i64) -> Order {
    Order {
        filled_quantity: (m.filled_quantity + f) as u64,
        remaining_quantity: (m.remaining_quantity - f) as u64,
        status: OrderStatus::Partial,
        updated_at: ts,
        ..m
    }
}

/// The maker side after a crossing walk: fully consumed makers leave
/// front-first, emptied levels leave with them, and at most the last
/// maker touched stays behind partially filled (re-stamped at time
/// `ts`, the one field the clock decides).
pub open spec fn side_after_walk(
    levels: Seq<LevelView>,
    limit: Option<u64>,
    buy_taker: bool,
    rem: int,
    ts: i64,
) -> Seq<LevelView>
    decreases levels.len(),
        (if levels.len() > 0 {
            levels[0].orders.len()
        } else {
            0
        }),
{
    if levels.len() == 0 || rem <= 0 || !crossable(levels[0].price, limit, buy_taker)
        || levels[0].orders.len() == 0 {
        levels
    } else {
        let m = levels[0].orders[0];
        if rem < m.remaining_quantity {
            seq![
                LevelView {
                    price: levels[0].price,
                    orders: seq![partial_fill_of(m, rem as u64, ts)] + levels[0].orders.skip(1),
                },
            ] + levels.skip(1)
        } else {
            side_after_walk(step_side(levels), limit, buy_taker, rem - m.remaining_quantity, ts)
        }
    }
}

/// The trade list realizes the given pairings, one trade per pairing in
/// order: each trade's price is its maker's limit price, its quantity
/// the pairing's fill, and its maker-side ids name that maker.
pub open spec fn trades_match_pairings(
    ts: Seq<Trade>,
    pairs: Seq<(Order, u64)>,
    buy_taker: bool,
) -> bool {
    &&& ts.len() == pairs.len()
    &&& forall|i: int|
        0 <= i < ts.len() ==> {
            let m = (#[trigger] pairs[i]).0;
            &&& ts[i].price == m.price->0
            &&& ts[i].quantity == pairs[i].1
            &&& (buy_taker ==> ts[i].seller_order_id == m.id && ts[i].seller_account_id
                == m.account_id)
            &&& (!buy_taker ==> ts[i].buyer_order_id == m.id && ts[i].buyer_account_id
                == m.account_id)
        }
}

/// One step of the crossing walk, at the level of ghost views: the head
/// maker order of `cur` absorbs a fill of `f` and becomes `rfin`; the
/// side moves from `cur` to `cur2`. Well-formedness, liquidity, order
/// count, membership and provenance all track exactly.
#[verifier::rlimit(80)]
pub proof fn lemma_walk_step(
    cur: Seq<LevelView>,
    cur2: Seq<LevelView>,
    pre: Seq<LevelView>,
    r0: Order,
    rfin: Order,
    f: u64,
    limit: Option<u64>,
    buy_taker: bool,
    m_side: Side,
    resting_filled: bool,
)
    requires
        side_wf(cur, m_side),
        cur.len() > 0,
        cur[0].orders.len() > 0,
        r0 == cur[0].orders[0],
        crossable(cur[0].price, limit, buy_taker),
        same_identity(rfin, r0),
        rfin.filled_quantity == r0.filled_quantity + f,
        rfin.remaining_quantity == r0.remaining_quantity - f,
        0 < f <= r0.remaining_quantity,
        rfin.status == (if rfin.remaining_quantity == 0 {
            OrderStatus::Filled
        } else {
            OrderStatus::Partial
        }),
        rfin.updated_at == rfin.updated_at,
        resting_filled == (rfin.status is Filled),
        cur2 == (if resting_filled && cur[0].orders.len() == 1 {
            cur.skip(1)
        } else if resting_filled {
            seq![LevelView { price: cur[0].price, orders: cur[0].orders.skip(1) }] + cur.skip(1)
        } else {
            seq![
                LevelView {
                    price: cur[0].price,
                    orders: seq![rfin] + cur[0].orders.skip(1),
                },
            ] + cur.skip(1)
        }),
        provenance_ok(cur, pre),
        forall|pr: u64| #[trigger] has_order_at(cur, r0.id, pr) ==> pr == cur[0].price,
    ensures
        side_wf(cur2, m_side),
        count_orders(cur2) == count_orders(cur) - (if resting_filled {
            1int
        } else {
            0int
        }),
        avail_qty(cur2, limit, buy_taker) == avail_qty(cur, limit, buy_taker) - f,
        avail_qty(cur, limit, buy_taker) >= r0.remaining_quantity,
        cur2.len() > 0 ==> !price_before(cur2[0].price, cur[0].price, is_buy(m_side)),
        forall|id2: u128|
            id2 != r0.id ==> (#[trigger] has_order(cur2, id2) <==> has_order(cur, id2)),
        resting_filled ==> !has_order(cur2, r0.id),
        !resting_filled ==> has_order(cur2, r0.id),
        provenance_ok(cur2, pre),
{
    let q0 = cur[0].orders;
    let q0t = q0.skip(1);
    let rest = cur.skip(1);
    assert(level_wf(cur[0], m_side));
    assert(order_ok(r0, m_side, cur[0].price));
    lemma_side_wf_skip(cur, m_side);
    assert(cur =~= seq![cur[0]] + rest);
    lemma_avail_cons(cur[0], rest, limit, buy_taker);
    assert(q0 =~= seq![r0] + q0t);
    lemma_qty_sum_cons(r0, q0t);
    lemma_qty_sum_nonneg(q0t);
    lemma_avail_nonneg(rest, limit, buy_taker);
    lemma_count_orders_cons(cur[0], rest);
    lemma_count_orders_nonneg(rest);
    assert(avail_qty(cur, limit, buy_taker) == qty_sum(q0) + avail_qty(rest, limit, buy_taker));
    assert(qty_sum(q0) == r0.remaining_quantity + qty_sum(q0t));
    assert(has_order_at(cur, r0.id, cur[0].price)) by {
        assert(0 <= 0 < cur.len() && 0 <= 0 < cur[0].orders.len() && cur[0].orders[0].id
            == r0.id);
    }
    if resting_filled && cur[0].orders.len() == 1 {
        assert(cur2 == rest);
        assert(f == r0.remaining_quantity);
        assert(qty_sum(q0t) == 0);
        assert(count_orders(cur2) == count_orders(cur) - 1);
        if cur2.len() > 0 {
            assert(cur2[0] == cur[1]);
            assert(price_before(cur[0].price, cur[1].price, is_buy(m_side)));
        }
        assert forall|id2: u128|
            id2 != r0.id implies (#[trigger] has_order(cur2, id2) <==> has_order(cur, id2)) by {
            if has_order(cur2, id2) {
                let (i, j) = choose|i: int, j: int|
                    0 <= i < cur2.len() && 0 <= j < cur2[i].orders.len() && cur2[i].orders[j].id
                        == id2;
                assert(cur2[i] == cur[i + 1]);
                assert(0 <= i + 1 < cur.len() && 0 <= j < cur[i + 1].orders.len() && cur[i
                    + 1].orders[j].id == id2);
            }
            if has_order(cur, id2) {
                let (i, j) = choose|i: int, j: int|
                    0 <= i < cur.len() && 0 <= j < cur[i].orders.len() && cur[i].orders[j].id
                        == id2;
                assert(i != 0 || j == 0);
                assert(i > 0);
                assert(cur2[i - 1] == cur[i]);
                assert(0 <= i - 1 < cur2.len() && 0 <= j < cur2[i - 1].orders.len() && cur2[i
                    - 1].orders[j].id == id2);
            }
        }
        assert(!has_order(cur2, r0.id)) by {
            if has_order(cur2, r0.id) {
                let (i, j) = choose|i: int, j: int|
                    0 <= i < cur2.len() && 0 <= j < cur2[i].orders.len() && cur2[i].orders[j].id
                        == r0.id;
                assert(cur2[i] == cur[i + 1]);
                assert(has_order_at(cur, r0.id, cur[i + 1].price)) by {
                    assert(0 <= i + 1 < cur.len() && 0 <= j < cur[i + 1].orders.len() && cur[i
                        + 1].orders[j].id == r0.id);
                }
                assert(cur[i + 1].price == cur[0].price);
                assert(price_before(cur[0].price, cur[i + 1].price, is_buy(m_side)));
            }
        }
        assert forall|i: int, j: int|
            0 <= i < cur2.len() && 0 <= j < cur2[i].orders.len() implies #[trigger] order_in_side(
            cur2[i].orders[j],
            cur2[i].price,
            pre,
        ) by {
            assert(cur2[i] == cur[i + 1]);
            assert(cur2[i].orders[j] == cur[i + 1].orders[j]);
            assert(0 <= i + 1 < cur.len() && 0 <= j < cur[i + 1].orders.len());
            assert(order_in_side(cur[i + 1].orders[j], cur[i + 1].price, pre));
        }
        assert(provenance_ok(cur2, pre));
    } else {
        let x = if resting_filled {
            LevelView { price: cur[0].price, orders: q0t }
        } else {
            LevelView { price: cur[0].price, orders: seq![rfin] + q0t }
        };
        assert(cur2 == seq![x] + rest);
        assert(level_wf(x, m_side)) by {
            if resting_filled {
                assert(q0t.len() > 0);
                assert forall|j: int| 0 <= j < x.orders.len() implies order_ok(
                    #[trigger] x.orders[j],
                    m_side,
                    x.price,
                ) by {
                    assert(x.orders[j] == q0[j + 1]);
                }
                assert forall|j: int, k: int|
                    0 <= j < x.orders.len() && 0 <= k < x.orders.len() && #[trigger] x.orders[j].id
                        == #[trigger] x.orders[k].id implies j == k by {
                    assert(x.orders[j] == q0[j + 1]);
                    assert(x.orders[k] == q0[k + 1]);
                }
            } else {
                assert(order_ok(rfin, m_side, x.price));
                assert forall|j: int| 0 <= j < x.orders.len() implies order_ok(
                    #[trigger] x.orders[j],
                    m_side,
                    x.price,
                ) by {
                    if j > 0 {
                        assert(x.orders[j] == q0[j]);
                    } else {
                        assert(x.orders[0] == rfin);
                    }
                }
                assert forall|j: int, k: int|
                    0 <= j < x.orders.len() && 0 <= k < x.orders.len() && #[trigger] x.orders[j].id
                        == #[trigger] x.orders[k].id implies j == k by {
                    assert(x.orders[j].id == q0[j].id);
                    assert(x.orders[k].id == q0[k].id);
                }
            }
        }
        if rest.len() > 0 {
            assert(rest[0] == cur[1]);
            assert(price_before(x.price, rest[0].price, is_buy(m_side)));
        }
        lemma_side_wf_cons(x, rest, m_side);
        lemma_avail_cons(x, rest, limit, buy_taker);
        lemma_count_orders_cons(x, rest);
        if resting_filled {
            assert(f == r0.remaining_quantity);
            assert(qty_sum(x.orders) == qty_sum(q0t));
        } else {
            lemma_qty_sum_cons(rfin, q0t);
            assert(qty_sum(x.orders) == rfin.remaining_quantity + qty_sum(q0t));
        }
        assert(avail_qty(cur2, limit, buy_taker) == avail_qty(cur, limit, buy_taker) - f);
        assert(cur2[0].price == cur[0].price);
        assert forall|id2: u128|
            id2 != r0.id implies (#[trigger] has_order(cur2, id2) <==> has_order(cur, id2)) by {
            if has_order(cur2, id2) {
                let (i, j) = choose|i: int, j: int|
                    0 <= i < cur2.len() && 0 <= j < cur2[i].orders.len() && cur2[i].orders[j].id
                        == id2;
                if i > 0 {
                    assert(cur2[i] == cur[i]);
                    assert(0 <= i < cur.len() && 0 <= j < cur[i].orders.len()
                        && cur[i].orders[j].id == id2);
                } else {
                    if resting_filled {
                        assert(cur2[0].orders[j] == q0[j + 1]);
                        assert(0 <= 0 < cur.len() && 0 <= j + 1 < cur[0].orders.len()
                            && cur[0].orders[j + 1].id == id2);
                    } else {
                        if j == 0 {
                            assert(cur2[0].orders[0] == rfin);
                        } else {
                            assert(cur2[0].orders[j] == q0[j]);
                            assert(0 <= 0 < cur.len() && 0 <= j < cur[0].orders.len()
                                && cur[0].orders[j].id == id2);
                        }
                    }
                }
            }
            if has_order(cur, id2) {
                let (i, j) = choose|i: int, j: int|
                    0 <= i < cur.len() && 0 <= j < cur[i].orders.len() && cur[i].orders[j].id
                        == id2;
                if i > 0 {
                    assert(cur2[i] == cur[i]);
                    assert(0 <= i < cur2.len() && 0 <= j < cur2[i].orders.len()
                        && cur2[i].orders[j].id == id2);
                } else {
                    assert(j != 0);
                    assert(cur[0].orders[j] == q0[j]);
                    if resting_filled {
                        assert(q0t[j - 1] == q0[j]);
                        assert(0 <= 0 < cur2.len() && 0 <= j - 1 < cur2[0].orders.len()
                            && cur2[0].orders[j - 1].id == id2);
                    } else {
                        assert(cur2[0].orders[j] == q0[j]);
                        assert(0 <= 0 < cur2.len() && 0 <= j < cur2[0].orders.len()
                            && cur2[0].orders[j].id == id2);
                    }
                }
            }
        }
        if resting_filled {
            assert(!has_order(cur2, r0.id)) by {
                if has_order(cur2, r0.id) {
                    let (i, j) = choose|i: int, j: int|
                        0 <= i < cur2.len() && 0 <= j < cur2[i].orders.len()
                            && cur2[i].orders[j].id == r0.id;
                    if i == 0 {
                        assert(cur2[0].orders[j] == q0[j + 1]);
                        assert(q0[j + 1].id == q0[0].id);
                    } else {
                        assert(cur2[i] == cur[i]);
                        assert(has_order_at(cur, r0.id, cur[i].price)) by {
                            assert(0 <= i < cur.len() && 0 <= j < cur[i].orders.len()
                                && cur[i].orders[j].id == r0.id);
                        }
                        assert(cur[i].price == cur[0].price);
                        assert(price_before(cur[0].price, cur[i].price, is_buy(m_side)));
                    }
                }
            }
        } else {
            assert(has_order(cur2, r0.id)) by {
                assert(cur2[0].orders[0] == rfin);
                assert(0 <= 0 < cur2.len() && 0 <= 0 < cur2[0].orders.len()
                    && cur2[0].orders[0].id == r0.id);
            }
        }
        assert forall|i: int, j: int|
            0 <= i < cur2.len() && 0 <= j < cur2[i].orders.len() implies #[trigger] order_in_side(
            cur2[i].orders[j],
            cur2[i].price,
            pre,
        ) by {
            if i > 0 {
                assert(cur2[i] == cur[i]);
                assert(0 <= i < cur.len() && 0 <= j < cur[i].orders.len());
                assert(order_in_side(cur[i].orders[j], cur[i].price, pre));
            } else {
                if resting_filled {
                    assert(cur2[0].orders[j] == q0[j + 1]);
                    assert(cur[0].orders[j + 1] == q0[j + 1]);
                    assert(0 <= 0 < cur.len() && 0 <= j + 1 < cur[0].orders.len());
                    assert(order_in_side(cur[0].orders[j + 1], cur[0].price, pre));
                } else {
                    if j == 0 {
                        assert(cur2[0].orders[0] == rfin);
                        assert(0 <= 0 < cur.len() && 0 <= 0 < cur[0].orders.len());
                        assert(order_in_side(cur[0].orders[0], cur[0].price, pre));
                        let (i2, j2) = choose|i2: int, j2: int|
                            0 <= i2 < pre.len() && 0 <= j2 < pre[i2].orders.len() && pre[i2].price
                                == cur[0].price && same_identity(r0, pre[i2].orders[j2]);
                        assert(same_identity(rfin, pre[i2].orders[j2]));
                        assert(0 <= i2 < pre.len() && 0 <= j2 < pre[i2].orders.len()
                            && pre[i2].price == cur2[0].price && same_identity(
                            rfin,
                            pre[i2].orders[j2],
                        ));
                        assert(order_in_side(rfin, cur2[0].price, pre));
                    } else {
                        assert(cur2[0].orders[j] == q0[j]);
                        assert(cur[0].orders[j] == q0[j]);
                        assert(0 <= 0 < cur.len() && 0 <= j < cur[0].orders.len());
                        assert(order_in_side(cur[0].orders[j], cur[0].price, pre));
                    }
                }
            }
        }
        assert(provenance_ok(cur2, pre));
    }
}

/// A limit order would cross: for a buy, its price reaches the best
/// ask; for a sell, the best bid.
pub open spec fn spec_would_cross(pre: OrderBook, o: Order) -> bool {
    if o.side is Buy {
        pre.asks_v().len() > 0 && o.price->0 >= pre.asks_v()[0].price
    } else {
        pre.bids_v().len() > 0 && o.price->0 <= pre.bids_v()[0].price
    }
}

/// The book is exactly as it was: both sides, the id index, the
/// sequence counter, the symbol.
pub open spec fn book_unchanged(pre: OrderBook, post: OrderBook) -> bool {
    &&& post.bids_v() == pre.bids_v()
    &&& post.asks_v() == pre.asks_v()
    &&& post.order_index@ == pre.order_index@
    &&& post.spec_sequence() == pre.spec_sequence()
    &&& post.symbol@ == pre.symbol@
    &&& post.sequence_manager.spec_interval() == pre.sequence_manager.spec_interval()
}

/// The book after a crossing walk for a taker on side `buy_taker`:
/// the taker's own side is untouched, the maker side was consumed from
/// the front, the id index shrank with it, and `ntrades` sequence ids
/// were used.
pub open spec fn walked_book(pre: OrderBook, post: OrderBook, buy_taker: bool, ntrades: int) -> bool {
    let m_side = if buy_taker {
        Side::Sell
    } else {
        Side::Buy
    };
    let mpre = if buy_taker {
        pre.asks_v()
    } else {
        pre.bids_v()
    };
    let mpost = if buy_taker {
        post.asks_v()
    } else {
        post.bids_v()
    };
    &&& post.symbol@ == pre.symbol@
    &&& (buy_taker ==> post.bids_v() == pre.bids_v())
    &&& (!buy_taker ==> post.asks_v() == pre.asks_v())
    &&& side_wf(mpost, m_side)
    &&& provenance_ok(mpost, mpre)
    &&& (mpost.len() > 0 ==> mpre.len() > 0 && !price_before(
        mpost[0].price,
        mpre[0].price,
        is_buy(m_side),
    ))
    &&& index_shrunk(post.order_index@, pre.order_index@, mpost, m_side)
    &&& post.spec_sequence() == pre.spec_sequence() + ntrades
    &&& post.sequence_manager.spec_interval() == pre.sequence_manager.spec_interval()
}

/// The residual order `o` is `incoming` after absorbing `fill`, in the
/// given status.
pub open spec fn residual_of(o: Order, incoming: Order, fill: int, status: OrderStatus) -> bool {
    &&& same_identity(o, incoming)
    &&& o.filled_quantity == incoming.filled_quantity + fill
    &&& o.remaining_quantity == incoming.remaining_quantity - fill
    &&& o.status == status
}

/// Everything a walk guarantees of its trade list, against the book as
/// it stood before the walk.
pub open spec fn trades_ok(
    ts: Seq<Trade>,
    pre: OrderBook,
    incoming: Order,
    limit: Option<u64>,
    buy: bool,
) -> bool {
    let mpre = if buy {
        pre.asks_v()
    } else {
        pre.bids_v()
    };
    &&& trades_stamped(ts, pre.spec_sequence())
    &&& trades_all_ok(ts, pre.symbol@, incoming, limit, buy, mpre)
    &&& trades_price_ordered(
        ts,
        if buy {
            Side::Sell
        } else {
            Side::Buy
        },
    )
    &&& (ts.len() > 0 ==> mpre.len() > 0 && ts[0].price == mpre[0].price)
    &&& trades_qty_sum(ts) == min_int(
        incoming.remaining_quantity as int,
        avail_qty(mpre, limit, buy),
    )
}

/// The maker side `mpost` is what a crossing walk leaves of `mpre`:
/// `side_after_walk`, for the clock value the walk drew.
pub open spec fn maker_side_walked(
    mpre: Seq<LevelView>,
    mpost: Seq<LevelView>,
    limit: Option<u64>,
    buy: bool,
    rem: int,
) -> bool {
    exists|t: i64| mpost == #[trigger] side_after_walk(mpre, limit, buy, rem, t)
}

/// Everything a crossing walk leaves behind, against the book as it
/// stood before the walk: the trade list realizes the maker pairings
/// one for one, and the maker side equals `side_after_walk` (for the
/// clock value the walk drew).
pub open spec fn walk_outcome(
    pre: OrderBook,
    post: OrderBook,
    incoming: Order,
    ts: Seq<Trade>,
    limit: Option<u64>,
    buy: bool,
) -> bool {
    let mpre = if buy {
        pre.asks_v()
    } else {
        pre.bids_v()
    };
    let mpost = if buy {
        post.asks_v()
    } else {
        post.bids_v()
    };
    &&& trades_ok(ts, pre, incoming, limit, buy)
    &&& trades_match_pairings(
        ts,
        maker_pairings(mpre, limit, buy, incoming.remaining_quantity as int),
        buy,
    )
    &&& maker_side_walked(mpre, mpost, limit, buy, incoming.remaining_quantity as int)
}

/// The residual order rests at the back of its level's queue on the
/// taker's own side: the side equals `spec_insert` of some order that
/// agrees with the reported residual field for field.
pub open spec fn residual_rested(pre: OrderBook, post: OrderBook, o: Order, buy: bool) -> bool {
    exists|ro: Order|
        #![trigger spec_insert(pre.bids_v(), ro, true)]
        #![trigger spec_insert(pre.asks_v(), ro, false)]
        order_like(o, ro) && (buy ==> post.bids_v() == spec_insert(pre.bids_v(), ro, true)) && (
        !buy ==> post.asks_v() == spec_insert(pre.asks_v(), ro, false))
}

/// The id index after a walk and a rest: it shrank with the walked
/// maker side, then gained the residual's entry.
pub open spec fn index_rested(pre: OrderBook, post: OrderBook, incoming: Order, buy: bool) -> bool {
    exists|m2: Map<u128, (Side, u64)>|
        index_shrunk(
            m2,
            pre.order_index@,
            (if buy {
                post.asks_v()
            } else {
                post.bids_v()
            }),
            (if buy {
                Side::Sell
            } else {
                Side::Buy
            }),
        ) && post.order_index@ == #[trigger] m2.insert(
            incoming.id,
            (incoming.side, incoming.price->0),
        )
}

/// What matching an incoming order against a book means, case by case:
/// which disposition comes back for which inputs, and what the book
/// looks like afterwards.
pub open spec fn match_post(pre: OrderBook, post: OrderBook, incoming: Order, r: MatchResult) -> bool {
    let buy = incoming.side is Buy;
    let mpre = if buy {
        pre.asks_v()
    } else {
        pre.bids_v()
    };
    let limit = if incoming.order_type is Market {
        Option::<u64>::None
    } else {
        incoming.price
    };
    let avail = avail_qty(mpre, limit, buy);
    let fill = min_int(incoming.remaining_quantity as int, avail);
    if incoming.order_type is Stop || incoming.order_type is StopLimit {
        &&& (r matches MatchResult::Rejected(m) && m@
            == "stop orders not supported at core level"@)
        &&& book_unchanged(pre, post)
    } else if incoming.order_type is Market {
        if avail == 0 {
            &&& (r matches MatchResult::Rejected(m) && m@ == "No liquidity available"@)
            &&& book_unchanged(pre, post)
        } else {
            &&& (fill == incoming.remaining_quantity ==> (r matches MatchResult::Filled(ts)
                && walk_outcome(pre, post, incoming, ts@, limit, buy) && walked_book(
                pre,
                post,
                buy,
                ts@.len() as int,
            )))
            &&& (fill < incoming.remaining_quantity ==> (r matches MatchResult::PartiallyFilled(
                ts,
                o,
            ) && walk_outcome(pre, post, incoming, ts@, limit, buy) && residual_of(
                o,
                incoming,
                fill,
                OrderStatus::Cancelled,
            ) && walked_book(pre, post, buy, ts@.len() as int)))
        }
    } else if incoming.post_only {
        if spec_would_cross(pre, incoming) {
            &&& (r matches MatchResult::Rejected(m) && m@
                == "Post-only order would match immediately"@)
            &&& book_unchanged(pre, post)
        } else {
            &&& (r matches MatchResult::Added(o) && residual_of(o, incoming, 0, incoming.status))
            &&& (buy ==> post.bids_v() == spec_insert(pre.bids_v(), incoming, true)
                && post.asks_v() == pre.asks_v())
            &&& (!buy ==> post.asks_v() == spec_insert(pre.asks_v(), incoming, false)
                && post.bids_v() == pre.bids_v())
            &&& post.order_index@ == pre.order_index@.insert(
                incoming.id,
                (incoming.side, incoming.price->0),
            )
            &&& post.spec_sequence() == pre.spec_sequence()
            &&& post.symbol@ == pre.symbol@
            &&& post.sequence_manager.spec_interval() == pre.sequence_manager.spec_interval()
        }
    } else if incoming.time_in_force is FOK {
        if avail < incoming.remaining_quantity {
            &&& (r matches MatchResult::Rejected(m) && m@ == "FOK order not fully filled"@)
            &&& book_unchanged(pre, post)
        } else {
            r matches MatchResult::Filled(ts) && walk_outcome(pre, post, incoming, ts@, limit, buy)
                && walked_book(pre, post, buy, ts@.len() as int)
        }
    } else if incoming.time_in_force is IOC {
        if fill == 0 {
            &&& (r matches MatchResult::Rejected(m) && m@ == "IOC order not filled"@)
            &&& book_unchanged(pre, post)
        } else if fill == incoming.remaining_quantity {
            r matches MatchResult::Filled(ts) && walk_outcome(pre, post, incoming, ts@, limit, buy)
                && walked_book(pre, post, buy, ts@.len() as int)
        } else {
            r matches MatchResult::PartiallyFilled(ts, o) && walk_outcome(
                pre,
                post,
                incoming,
                ts@,
                limit,
                buy,
            ) && residual_of(o, incoming, fill, OrderStatus::Cancelled) && walked_book(
                pre,
                post,
                buy,
                ts@.len() as int,
            )
        }
    } else {
        // GTC / GTD: the residual rests in the book. A taker consumed
        // at one price level comes back Filled; a sweep across several
        // levels reports the (fully consumed) order alongside its trades.
        if fill == incoming.remaining_quantity {
            (r matches MatchResult::Filled(ts) && uniform_price(ts@) && walk_outcome(
                pre,
                post,
                incoming,
                ts@,
                limit,
                buy,
            ) && walked_book(pre, post, buy, ts@.len() as int)) || (r matches
            MatchResult::PartiallyFilled(ts, o) && !uniform_price(ts@) && walk_outcome(
                pre,
                post,
                incoming,
                ts@,
                limit,
                buy,
            ) && residual_of(o, incoming, fill, OrderStatus::Filled) && walked_book(
                pre,
                post,
                buy,
                ts@.len() as int,
            ))
        } else if fill == 0 {
            &&& (r matches MatchResult::Added(o) && residual_of(o, incoming, 0, incoming.status))
            &&& (buy ==> post.bids_v() == spec_insert(pre.bids_v(), incoming, true)
                && post.asks_v() == pre.asks_v())
            &&& (!buy ==> post.asks_v() == spec_insert(pre.asks_v(), incoming, false)
                && post.bids_v() == pre.bids_v())
            &&& post.order_index@ == pre.order_index@.insert(
                incoming.id,
                (incoming.side, incoming.price->0),
            )
            &&& post.spec_sequence() == pre.spec_sequence()
            &&& post.symbol@ == pre.symbol@
            &&& post.sequence_manager.spec_interval() == pre.sequence_manager.spec_interval()
        } else {
            r matches MatchResult::PartiallyFilled(ts, o) && {
                &&& walk_outcome(pre, post, incoming, ts@, limit, buy)
                &&& residual_of(o, incoming, fill, OrderStatus::Partial)
                &&& ts@.len() > 0
                &&& post.symbol@ == pre.symbol@
                &&& post.spec_sequence() == pre.spec_sequence() + ts@.len()
                // the residual rests at the back of its level's queue
                &&& residual_rested(pre, post, o, buy)
                // the index shrank with the walked side and gained the residual
                &&& index_rested(pre, post, incoming, buy)
                &&& has_order_at(
                    (if buy {
                        post.bids_v()
                    } else {
                        post.asks_v()
                    }),
                    incoming.id,
                    incoming.price->0,
                )
                &&& post.order_index@.contains_key(incoming.id)
                &&& post.order_index@[incoming.id] == (incoming.side, incoming.price->0)
                &&& post.sequence_manager.spec_interval() == pre.sequence_manager.spec_interval()
            }
        }
    }
}

/// One step of the crossing walk, seen by the pinning functions: the
/// pairing list gains exactly the struck pairing, and the side moves as
/// `side_after_walk` says — through the recursion for a consumed maker,
/// to the final shape for a partial fill (witnessed by the maker's new
/// update time).
#[verifier::rlimit(80)]
pub proof fn lemma_walk_pin_step(
    cur: Seq<LevelView>,
    cur2: Seq<LevelView>,
    r0: Order,
    rfin: Order,
    f: u64,
    limit: Option<u64>,
    buy_taker: bool,
    m_side: Side,
    rem: int,
    resting_filled: bool,
)
    requires
        side_wf(cur, m_side),
        cur.len() > 0,
        cur[0].orders.len() > 0,
        r0 == cur[0].orders[0],
        crossable(cur[0].price, limit, buy_taker),
        0 < rem,
        f as int == min_int(rem, r0.remaining_quantity as int),
        rfin.filled_quantity == r0.filled_quantity + f,
        rfin.remaining_quantity == r0.remaining_quantity - f,
        rfin.status == (if rfin.remaining_quantity == 0 {
            OrderStatus::Filled
        } else {
            OrderStatus::Partial
        }),
        same_identity(rfin, r0),
        rfin.symbol == r0.symbol,
        rfin.client_order_id == r0.client_order_id,
        resting_filled == (rfin.remaining_quantity == 0),
        cur2 == (if resting_filled && cur[0].orders.len() == 1 {
            cur.skip(1)
        } else if resting_filled {
            seq![LevelView { price: cur[0].price, orders: cur[0].orders.skip(1) }] + cur.skip(1)
        } else {
            seq![
                LevelView {
                    price: cur[0].price,
                    orders: seq![rfin] + cur[0].orders.skip(1),
                },
            ] + cur.skip(1)
        }),
    ensures
        maker_pairings(cur, limit, buy_taker, rem) == seq![(r0, f)] + maker_pairings(
            cur2,
            limit,
            buy_taker,
            rem - f,
        ),
        resting_filled ==> forall|t: i64| #[trigger] side_after_walk(cur, limit, buy_taker, rem, t)
            == side_after_walk(cur2, limit, buy_taker, rem - f, t),
        !resting_filled ==> side_after_walk(cur, limit, buy_taker, rem, rfin.updated_at) == cur2
            && rem - f == 0,
{
    let q0 = cur[0].orders;
    let q0t = q0.skip(1);
    assert(level_wf(cur[0], m_side));
    assert(order_ok(r0, m_side, cur[0].price));
    if resting_filled {
        // the maker was consumed whole
        assert(f == r0.remaining_quantity);
        assert(step_side(cur) == cur2) by {
            if q0.len() == 1 {
            } else {
                assert(step_side(cur) =~~= cur2);
            }
        }
        assert(maker_pairings(cur, limit, buy_taker, rem) == seq![(r0, f)] + maker_pairings(
            step_side(cur),
            limit,
            buy_taker,
            rem - f,
        ));
        assert forall|t: i64| #[trigger]
            side_after_walk(cur, limit, buy_taker, rem, t) == side_after_walk(
            cur2,
            limit,
            buy_taker,
            rem - f,
            t,
        ) by {
            assert(side_after_walk(cur, limit, buy_taker, rem, t) == side_after_walk(
                step_side(cur),
                limit,
                buy_taker,
                rem - f,
                t,
            ));
        }
    } else {
        // the taker was exhausted against this maker
        assert(f == rem);
        assert(rem < r0.remaining_quantity);
        let t0 = rfin.updated_at;
        assert(partial_fill_of(r0, rem as u64, t0) == rfin);
        assert(maker_pairings(cur, limit, buy_taker, rem) =~= seq![(r0, f)]);
        assert(maker_pairings(cur2, limit, buy_taker, 0) =~= Seq::<(Order, u64)>::empty());
        assert(seq![(r0, f)] + maker_pairings(cur2, limit, buy_taker, rem - f) =~= seq![
            (r0, f),
        ]);
        assert(side_after_walk(cur, limit, buy_taker, rem, t0) == seq![
            LevelView {
                price: cur[0].price,
                orders: seq![partial_fill_of(r0, rem as u64, t0)] + q0t,
            },
        ] + cur.skip(1));
        assert(side_after_walk(cur, limit, buy_taker, rem, t0) =~~= cur2);
    }
}

impl MatchingEngine {
    /// The crossing walk: consume the maker side `levels` from the best
    /// price outward, in FIFO order within each level, while the taker
    /// has remaining quantity and the head level is crossable. One trade
    /// is emitted per maker order touched, stamped with consecutive
    /// sequence ids; fully filled makers leave the book and the id
    /// index, and emptied levels are removed.
    #[verifier::rlimit(100)]
    #[allow(clippy::too_many_arguments)]
    fn walk_levels(
        &self,
        levels: &mut Vec<Level>,
        index: &mut HashMap<u128, (Side, u64)>,
        seqm: &mut SequenceManager,
        symbol: &String,
        incoming: &mut Order,
        limit: Option<u64>,
        buy_taker: bool,
    ) -> (trades: Vec<Trade>)
        requires
            side_wf(
                side_view(old(levels)@),
                if buy_taker {
                    Side::Sell
                } else {
                    Side::Buy
                },
            ),
            side_indexed(
                side_view(old(levels)@),
                old(index)@,
                if buy_taker {
                    Side::Sell
                } else {
                    Side::Buy
                },
            ),
            index_backed_side(
                old(index)@,
                side_view(old(levels)@),
                if buy_taker {
                    Side::Sell
                } else {
                    Side::Buy
                },
            ),
            old(incoming).filled_quantity + old(incoming).remaining_quantity
                == old(incoming).quantity,
            old(incoming).quantity <= MAX_AMOUNT,
            old(seqm).spec_current() + count_orders(side_view(old(levels)@)) <= u64::MAX,
        ensures
            ({
                let m_side = if buy_taker {
                    Side::Sell
                } else {
                    Side::Buy
                };
                let pre = side_view(old(levels)@);
                let cur = side_view(final(levels)@);
                &&& side_wf(cur, m_side)
                &&& provenance_ok(cur, pre)
                &&& (cur.len() > 0 ==> pre.len() > 0 && !price_before(
                    cur[0].price,
                    pre[0].price,
                    is_buy(m_side),
                ))
                &&& index_shrunk(final(index)@, old(index)@, cur, m_side)
                &&& final(seqm).spec_current() == old(seqm).spec_current() + trades@.len()
                &&& final(seqm).spec_interval() == old(seqm).spec_interval()
                &&& trades_stamped(trades@, old(seqm).spec_current())
                &&& trades_qty_sum(trades@) == min_int(
                    old(incoming).remaining_quantity as int,
                    avail_qty(pre, limit, buy_taker),
                )
                &&& final(incoming).filled_quantity == old(incoming).filled_quantity
                    + trades_qty_sum(trades@)
                &&& final(incoming).remaining_quantity == old(incoming).remaining_quantity
                    - trades_qty_sum(trades@)
                &&& same_identity(*final(incoming), *old(incoming))
                &&& (trades@.len() > 0 ==> final(incoming).status == (if final(incoming).remaining_quantity == 0 {
                    OrderStatus::Filled
                } else {
                    OrderStatus::Partial
                }))
                &&& (trades@.len() == 0 ==> *final(incoming) == *old(incoming) && final(levels)@
                    == old(levels)@ && final(index)@ == old(index)@ && *final(seqm) == *old(seqm))
                &&& (final(incoming).remaining_quantity > 0 ==> cur.len() == 0 || !crossable(
                    cur[0].price,
                    limit,
                    buy_taker,
                ))
                &&& (trades@.len() > 0 ==> pre.len() > 0 && trades@[0].price == pre[0].price)
                &&& trades_price_ordered(trades@, m_side)
                &&& trades_all_ok(trades@, symbol@, *old(incoming), limit, buy_taker, pre)
                &&& trades_match_pairings(
                    trades@,
                    maker_pairings(pre, limit, buy_taker, old(incoming).remaining_quantity as int),
                    buy_taker,
                )
                &&& maker_side_walked(
                    pre,
                    cur,
                    limit,
                    buy_taker,
                    old(incoming).remaining_quantity as int,
                )
            }),
    {
        let ghost m_side: Side = if buy_taker {
            Side::Sell
        } else {
            Side::Buy
        };
        let ghost pre = side_view(levels@);
        let ghost pre_raw = levels@;
        let ghost pre_inc = *incoming;
        let ghost pre_seq = seqm.spec_current();
        let ghost pre_seqm = *seqm;
        let ghost pre_index = index@;
        let ghost rem0: int = incoming.remaining_quantity as int;
        let ghost mut pairs: Seq<(Order, u64)> = Seq::empty();
        let mut trades: Vec<Trade> = Vec::new();
        proof {
            assert(pre == side_view(old(levels)@));
            assert(Seq::<(Order, u64)>::empty() + maker_pairings(pre, limit, buy_taker, rem0)
                =~= maker_pairings(pre, limit, buy_taker, rem0));
            if rem0 == 0 {
                assert(side_after_walk(pre, limit, buy_taker, rem0, 0) == pre);
            }
            assert(pre_index == old(index)@);
            assert(side_wf(pre, m_side));
            assert(side_indexed(pre, pre_index, m_side));
            assert(index_backed_side(pre_index, pre, m_side));
            assert forall|i: int, j: int|
                0 <= i < pre.len() && 0 <= j < pre[i].orders.len() implies #[trigger] order_in_side(
                pre[i].orders[j],
                pre[i].price,
                pre,
            ) by {
                assert(same_identity(pre[i].orders[j], pre[i].orders[j]));
                assert(0 <= i < pre.len() && 0 <= j < pre[i].orders.len() && pre[i].price
                    == pre[i].price && same_identity(pre[i].orders[j], pre[i].orders[j]));
                assert(order_in_side(pre[i].orders[j], pre[i].price, pre));
            }
            assert(provenance_ok(pre, pre));
            assert forall|id2: u128| #[trigger]
                pre_index.contains_key(id2) implies (pre_index.contains_key(id2) <==> (
            pre_index[id2].0 == m_side ==> has_order(pre, id2))) by {
                if pre_index[id2].0 == m_side {
                    assert(has_order(pre, id2));
                }
            }
            assert(index_shrunk(pre_index, pre_index, pre, m_side));
        }
        while levels.len() > 0 && incoming.remaining_quantity > 0 && crossable_at(
            levels[0].price,
            limit,
            buy_taker,
        )
            invariant
                m_side == (if buy_taker {
                    Side::Sell
                } else {
                    Side::Buy
                }),
                pre == side_view(pre_raw),
                side_indexed(pre, pre_index, m_side),
                side_wf(side_view(levels@), m_side),
                incoming.filled_quantity + incoming.remaining_quantity == incoming.quantity,
                incoming.quantity <= MAX_AMOUNT,
                same_identity(*incoming, pre_inc),
                incoming.remaining_quantity > 0 ==> seqm.spec_current() + count_orders(
                    side_view(levels@),
                ) <= u64::MAX,
                seqm.spec_current() == pre_seq + trades@.len(),
                seqm.spec_interval() == pre_seqm.spec_interval(),
                trades_stamped(trades@, pre_seq),
                pre_inc.remaining_quantity - incoming.remaining_quantity == trades_qty_sum(
                    trades@,
                ),
                incoming.filled_quantity == pre_inc.filled_quantity + trades_qty_sum(trades@),
                trades@.len() > 0 ==> incoming.status == (if incoming.remaining_quantity == 0 {
                    OrderStatus::Filled
                } else {
                    OrderStatus::Partial
                }),
                trades@.len() == 0 ==> *incoming == pre_inc && levels@ == pre_raw && index@
                    == pre_index && *seqm == pre_seqm,
                trades_qty_sum(trades@) + min_int(
                    incoming.remaining_quantity as int,
                    avail_qty(side_view(levels@), limit, buy_taker),
                ) == min_int(pre_inc.remaining_quantity as int, avail_qty(pre, limit, buy_taker)),
                rem0 == pre_inc.remaining_quantity as int,
                maker_pairings(pre, limit, buy_taker, rem0) == pairs + maker_pairings(
                    side_view(levels@),
                    limit,
                    buy_taker,
                    incoming.remaining_quantity as int,
                ),
                trades_match_pairings(trades@, pairs, buy_taker),
                incoming.remaining_quantity > 0 ==> forall|t: i64| #[trigger] side_after_walk(
                    pre,
                    limit,
                    buy_taker,
                    rem0,
                    t,
                ) == side_after_walk(
                    side_view(levels@),
                    limit,
                    buy_taker,
                    incoming.remaining_quantity as int,
                    t,
                ),
                incoming.remaining_quantity == 0 ==> exists|t: i64| #[trigger] side_after_walk(
                    pre,
                    limit,
                    buy_taker,
                    rem0,
                    t,
                ) == side_view(levels@),
                provenance_ok(side_view(levels@), pre),
                index_shrunk(index@, pre_index, side_view(levels@), m_side),
                side_view(levels@).len() > 0 ==> pre.len() > 0 && !price_before(
                    side_view(levels@)[0].price,
                    pre[0].price,
                    is_buy(m_side),
                ),
                trades@.len() > 0 ==> pre.len() > 0 && trades@[0].price == pre[0].price,
                trades_price_ordered(trades@, m_side),
                side_view(levels@).len() > 0 ==> trades_not_after(
                    trades@,
                    side_view(levels@)[0].price,
                    m_side,
                ),
                trades_all_ok(trades@, symbol@, pre_inc, limit, buy_taker, pre),
            decreases count_orders(side_view(levels@)), incoming.remaining_quantity,
        {
            let ghost cur = side_view(levels@);
            let ghost q0 = cur[0].orders;
            let ghost rest = cur.skip(1);
            let ghost r0 = q0[0];
            let ghost pre_trades = trades@;
            let ghost pre_pairs = pairs;
            let ghost iter_rem_g: int = incoming.remaining_quantity as int;
            let ghost iter_index = index@;
            let level_price = levels[0].price;
            proof {
                assert(provenance_ok(cur, pre));
                assert(side_wf(cur, m_side));
                assert(index_shrunk(iter_index, pre_index, cur, m_side));
                assert(level_wf(cur[0], m_side));
                assert(order_ok(r0, m_side, level_price));
                lemma_count_orders_nonneg(rest);
                lemma_count_orders_cons(cur[0], rest);
                assert(cur =~= seq![cur[0]] + rest);
                // membership in cur transfers to pre and into the index
                assert forall|idq: u128, prq: u64| #[trigger]
                    has_order_at(cur, idq, prq) implies has_order_at(pre, idq, prq)
                    && pre_index.contains_key(idq) && pre_index[idq] == (m_side, prq) by {
                    let (i, j) = choose|i: int, j: int|
                        0 <= i < cur.len() && 0 <= j < cur[i].orders.len() && cur[i].price == prq
                            && cur[i].orders[j].id == idq;
                    assert(order_in_side(cur[i].orders[j], cur[i].price, pre));
                    let (i2, j2) = choose|i2: int, j2: int|
                        0 <= i2 < pre.len() && 0 <= j2 < pre[i2].orders.len() && pre[i2].price
                            == cur[i].price && same_identity(cur[i].orders[j], pre[i2].orders[j2]);
                    assert(0 <= i2 < pre.len() && 0 <= j2 < pre[i2].orders.len() && pre[i2].price
                        == prq && pre[i2].orders[j2].id == idq);
                    assert(has_order_at(pre, idq, prq));
                }
                assert(has_order_at(cur, r0.id, cur[0].price)) by {
                    assert(0 <= 0 < cur.len() && 0 <= 0 < cur[0].orders.len()
                        && cur[0].orders[0].id == r0.id);
                }
                assert forall|prq: u64| #[trigger]
                    has_order_at(cur, r0.id, prq) implies prq == cur[0].price by {
                    assert(pre_index[r0.id] == (m_side, prq));
                    assert(pre_index[r0.id] == (m_side, cur[0].price));
                }
            }
            let mut lvl = levels.remove(0);
            let mut resting = match lvl.orders.pop_front() {
                Option::Some(o) => o,
                Option::None => vstd::pervasive::unreached(),
            };
            proof {
                assert(resting == r0);
                assert(lvl.orders@ =~= q0.skip(1));
            }
            let fill_qty = if incoming.remaining_quantity <= resting.remaining_quantity {
                incoming.remaining_quantity
            } else {
                resting.remaining_quantity
            };
            let taker_fee = self.calculate_fee(level_price, fill_qty, TAKER_FEE_BPS);
            let maker_fee = self.calculate_fee(level_price, fill_qty, MAKER_FEE_BPS);
            let seq_id = seqm.next();
            let trade = if buy_taker {
                Trade::new(
                    symbol.clone(),
                    &*incoming,
                    &resting,
                    level_price,
                    fill_qty,
                    taker_fee,
                    maker_fee,
                    seq_id,
                )
            } else {
                Trade::new(
                    symbol.clone(),
                    &resting,
                    &*incoming,
                    level_price,
                    fill_qty,
                    maker_fee,
                    taker_fee,
                    seq_id,
                )
            };
            trades.push(trade);
            incoming.fill(fill_qty);
            resting.fill(fill_qty);
            let ghost rfin = resting;
            let resting_filled = resting.is_filled();
            let resting_id = resting.id;
            if resting_filled {
                index.remove(&resting_id);
            } else {
                lvl.orders.push_front(resting);
            }
            if lvl.orders.len() > 0 {
                levels.insert(0, lvl);
            }
            proof {
                let cur2 = side_view(levels@);
                let q0t = q0.skip(1);
                let f = fill_qty;
                lemma_trades_qty_sum_push(pre_trades, trade);
                assert(trades@ == pre_trades.push(trade));
                // establish the shape equation and apply the step lemma
                if resting_filled && q0t.len() == 0 {
                    assert(cur2 =~~= cur.skip(1));
                } else if resting_filled {
                    assert(cur2 =~~= seq![
                        LevelView { price: cur[0].price, orders: cur[0].orders.skip(1) },
                    ] + cur.skip(1));
                } else {
                    assert(cur2 =~~= seq![
                        LevelView {
                            price: cur[0].price,
                            orders: seq![rfin] + cur[0].orders.skip(1),
                        },
                    ] + cur.skip(1));
                }
                lemma_walk_step(
                    cur,
                    cur2,
                    pre,
                    r0,
                    rfin,
                    f,
                    limit,
                    buy_taker,
                    m_side,
                    resting_filled,
                );
                let iter_rem: int = iter_rem_g;
                lemma_walk_pin_step(
                    cur,
                    cur2,
                    r0,
                    rfin,
                    f,
                    limit,
                    buy_taker,
                    m_side,
                    iter_rem,
                    resting_filled,
                );
                pairs = pairs.push((r0, f));
                // the pairing list telescopes through this step
                assert(maker_pairings(pre, limit, buy_taker, rem0) == pre_pairs + maker_pairings(
                    cur,
                    limit,
                    buy_taker,
                    iter_rem,
                ));
                assert(pre_pairs + (seq![(r0, f)] + maker_pairings(
                    cur2,
                    limit,
                    buy_taker,
                    iter_rem - f,
                )) =~= pairs + maker_pairings(cur2, limit, buy_taker, iter_rem - f));
                assert(maker_pairings(pre, limit, buy_taker, rem0) == pairs + maker_pairings(
                    cur2,
                    limit,
                    buy_taker,
                    incoming.remaining_quantity as int,
                ));
                // the new trade realizes the new pairing
                assert forall|i: int|
                    0 <= i < trades@.len() implies {
                    let m = (#[trigger] pairs[i]).0;
                    &&& trades@[i].price == m.price->0
                    &&& trades@[i].quantity == pairs[i].1
                    &&& (buy_taker ==> trades@[i].seller_order_id == m.id
                        && trades@[i].seller_account_id == m.account_id)
                    &&& (!buy_taker ==> trades@[i].buyer_order_id == m.id
                        && trades@[i].buyer_account_id == m.account_id)
                } by {
                    if i < pre_trades.len() {
                        assert(trades@[i] == pre_trades[i]);
                        assert(pairs[i] == pre_pairs[i]);
                        assert(trades_match_pairings(pre_trades, pre_pairs, buy_taker));
                    } else {
                        assert(trades@[i] == trade);
                        assert(pairs[i] == (r0, f));
                        assert(r0.price == Option::<u64>::Some(level_price));
                    }
                }
                assert(trades_match_pairings(trades@, pairs, buy_taker));
                // the side tracks side_after_walk through this step
                if incoming.remaining_quantity > 0 {
                    assert(resting_filled);
                    assert forall|t: i64| #[trigger]
                        side_after_walk(pre, limit, buy_taker, rem0, t) == side_after_walk(
                        cur2,
                        limit,
                        buy_taker,
                        iter_rem - f,
                        t,
                    ) by {
                        assert(side_after_walk(pre, limit, buy_taker, rem0, t) == side_after_walk(
                            cur,
                            limit,
                            buy_taker,
                            iter_rem,
                            t,
                        ));
                        assert(side_after_walk(cur, limit, buy_taker, iter_rem, t)
                            == side_after_walk(cur2, limit, buy_taker, iter_rem - f, t));
                    }
                } else {
                    if resting_filled {
                        assert(side_after_walk(pre, limit, buy_taker, rem0, 0) == side_after_walk(
                            cur,
                            limit,
                            buy_taker,
                            iter_rem,
                            0,
                        ));
                        assert(side_after_walk(cur, limit, buy_taker, iter_rem, 0)
                            == side_after_walk(cur2, limit, buy_taker, iter_rem - f, 0));
                        assert(side_after_walk(cur2, limit, buy_taker, 0, 0) == cur2);
                        assert(side_after_walk(pre, limit, buy_taker, rem0, 0) == cur2);
                    } else {
                        let t0 = rfin.updated_at;
                        assert(side_after_walk(pre, limit, buy_taker, rem0, t0)
                            == side_after_walk(cur, limit, buy_taker, iter_rem, t0));
                        assert(side_after_walk(cur, limit, buy_taker, iter_rem, t0) == cur2);
                        assert(side_after_walk(pre, limit, buy_taker, rem0, t0) == cur2);
                    }
                }
                lemma_avail_nonneg(cur2, limit, buy_taker);
                lemma_qty_sum_nonneg(q0t);
                // index bookkeeping
                assert forall|id2: u128| #[trigger]
                    index@.contains_key(id2) implies pre_index.contains_key(id2) && index@[id2]
                    == pre_index[id2] by {
                    assert(iter_index.contains_key(id2));
                }
                assert forall|id2: u128| #[trigger]
                    pre_index.contains_key(id2) implies (index@.contains_key(id2) <==> (
                pre_index[id2].0 == m_side ==> has_order(cur2, id2))) by {
                    if resting_filled {
                        if id2 == r0.id {
                            assert(!index@.contains_key(id2));
                            assert(!has_order(cur2, id2));
                        } else {
                            assert(index@.contains_key(id2) == iter_index.contains_key(id2));
                            assert(iter_index.contains_key(id2) <==> (pre_index[id2].0 == m_side
                                ==> has_order(cur, id2)));
                            assert(has_order(cur2, id2) <==> has_order(cur, id2));
                        }
                    } else {
                        assert(index@ == iter_index);
                        if id2 == r0.id {
                            assert(has_order(cur2, id2));
                            assert(has_order(cur, id2)) by {
                                assert(0 <= 0 < cur.len() && 0 <= 0 < cur[0].orders.len()
                                    && cur[0].orders[0].id == id2);
                            }
                        } else {
                            assert(has_order(cur2, id2) <==> has_order(cur, id2));
                        }
                    }
                }
                assert(index_shrunk(index@, pre_index, cur2, m_side));
                // budget: a trade that leaves the taker unfilled consumed a maker
                if incoming.remaining_quantity > 0 {
                    assert(f == r0.remaining_quantity);
                    assert(resting_filled);
                    assert(count_orders(cur2) == count_orders(cur) - 1);
                }
                // sequencing of the new trade list
                assert forall|i: int|
                    0 <= i < trades@.len() implies (#[trigger] trades@[i]).sequence_id == pre_seq
                    + i by {
                    if i < pre_trades.len() {
                        assert(trades@[i] == pre_trades[i]);
                        assert(trades_stamped(pre_trades, pre_seq));
                        assert(pre_trades[i].sequence_id == pre_seq + i);
                    } else {
                        assert(trades@[i] == trade);
                    }
                }
                assert(trades_stamped(trades@, pre_seq));
                // trade fields
                assert(trade_fields_ok(trade, symbol@, pre_inc, limit, buy_taker));
                assert(maker_linked(trade, pre, buy_taker)) by {
                    assert(0 <= 0 < cur.len() && 0 <= 0 < cur[0].orders.len());
                    assert(order_in_side(cur[0].orders[0], cur[0].price, pre));
                    let (i2, j2) = choose|i2: int, j2: int|
                        0 <= i2 < pre.len() && 0 <= j2 < pre[i2].orders.len() && pre[i2].price
                            == cur[0].price && same_identity(cur[0].orders[0], pre[i2].orders[j2]);
                    assert(0 <= i2 < pre.len() && 0 <= j2 < pre[i2].orders.len() && pre[i2].price
                        == trade.price && pre[i2].orders[j2].id == (if buy_taker {
                        trade.seller_order_id
                    } else {
                        trade.buyer_order_id
                    }) && pre[i2].orders[j2].account_id == (if buy_taker {
                        trade.seller_account_id
                    } else {
                        trade.buyer_account_id
                    }) && pre[i2].orders[j2].price == Option::<u64>::Some(trade.price));
                }
                assert forall|i: int|
                    0 <= i < trades@.len() implies trade_fields_ok(
                    #[trigger] trades@[i],
                    symbol@,
                    pre_inc,
                    limit,
                    buy_taker,
                ) && maker_linked(trades@[i], pre, buy_taker) by {
                    if i < pre_trades.len() {
                        assert(trades@[i] == pre_trades[i]);
                        assert(trades_all_ok(pre_trades, symbol@, pre_inc, limit, buy_taker, pre));
                        assert(trade_fields_ok(pre_trades[i], symbol@, pre_inc, limit, buy_taker)
                            && maker_linked(pre_trades[i], pre, buy_taker));
                    } else {
                        assert(trades@[i] == trade);
                    }
                }
                assert(trades_all_ok(trades@, symbol@, pre_inc, limit, buy_taker, pre));
                // price claims
                assert forall|i: int|
                    0 <= i < trades@.len() && cur2.len() > 0 implies !price_before(
                    cur2[0].price,
                    (#[trigger] trades@[i]).price,
                    is_buy(m_side),
                ) by {
                    if i < pre_trades.len() {
                        assert(trades@[i] == pre_trades[i]);
                        assert(trades_not_after(pre_trades, cur[0].price, m_side));
                        assert(!price_before(cur[0].price, pre_trades[i].price, is_buy(m_side)));
                        assert(!price_before(cur2[0].price, cur[0].price, is_buy(m_side)));
                    } else {
                        assert(trades@[i] == trade);
                        assert(!price_before(cur2[0].price, cur[0].price, is_buy(m_side)));
                    }
                }
                if cur2.len() > 0 {
                    assert(trades_not_after(trades@, cur2[0].price, m_side));
                }
                assert forall|i: int, j: int| 0 <= i <= j < trades@.len() implies !price_before(
                    (#[trigger] trades@[j]).price,
                    (#[trigger] trades@[i]).price,
                    is_buy(m_side),
                ) by {
                    assert(trades_price_ordered(pre_trades, m_side));
                    if j < pre_trades.len() {
                        assert(trades@[i] == pre_trades[i]);
                        assert(trades@[j] == pre_trades[j]);
                        assert(!price_before(
                            pre_trades[j].price,
                            pre_trades[i].price,
                            is_buy(m_side),
                        ));
                    } else {
                        assert(trades@[j] == trade);
                        if i < pre_trades.len() {
                            assert(trades@[i] == pre_trades[i]);
                            assert(trades_not_after(pre_trades, cur[0].price, m_side));
                            assert(!price_before(
                                cur[0].price,
                                pre_trades[i].price,
                                is_buy(m_side),
                            ));
                        }
                    }
                }
                assert(trades_price_ordered(trades@, m_side));
                if pre_trades.len() == 0 {
                    assert(cur == side_view(pre_raw));
                    assert(trades@[0] == trade);
                }
            }
        }
        proof {
            let curx = side_view(levels@);
            if incoming.remaining_quantity > 0 {
                if curx.len() > 0 {
                    assert(!crossable(curx[0].price, limit, buy_taker));
                    lemma_avail_sorted_zero(curx, limit, buy_taker, m_side);
                }
                assert(avail_qty(curx, limit, buy_taker) == 0);
            } else {
                lemma_avail_nonneg(curx, limit, buy_taker);
            }
            assert(min_int(
                incoming.remaining_quantity as int,
                avail_qty(curx, limit, buy_taker),
            ) == 0);
            // the pairing list is complete: no further pairing is struck
            assert(maker_pairings(curx, limit, buy_taker, incoming.remaining_quantity as int)
                =~= Seq::<(Order, u64)>::empty());
            assert(pairs + Seq::<(Order, u64)>::empty() =~= pairs);
            assert(pairs == maker_pairings(pre, limit, buy_taker, rem0));
            assert(maker_pairings(
                side_view(old(levels)@),
                limit,
                buy_taker,
                old(incoming).remaining_quantity as int,
            ) == maker_pairings(pre, limit, buy_taker, rem0));
            // the final side is side_after_walk, whatever clock value fell
            if incoming.remaining_quantity > 0 {
                assert(side_after_walk(pre, limit, buy_taker, rem0, 0) == side_after_walk(
                    curx,
                    limit,
                    buy_taker,
                    incoming.remaining_quantity as int,
                    0,
                ));
                assert(side_after_walk(
                    curx,
                    limit,
                    buy_taker,
                    incoming.remaining_quantity as int,
                    0,
                ) == curx);
                assert(curx == side_after_walk(
                    side_view(old(levels)@),
                    limit,
                    buy_taker,
                    old(incoming).remaining_quantity as int,
                    0,
                ));
            } else {
                let t = choose|t: i64| #[trigger] side_after_walk(pre, limit, buy_taker, rem0, t)
                    == curx;
                assert(curx == side_after_walk(
                    side_view(old(levels)@),
                    limit,
                    buy_taker,
                    old(incoming).remaining_quantity as int,
                    t,
                ));
            }
            assert(maker_side_walked(
                side_view(old(levels)@),
                curx,
                limit,
                buy_taker,
                old(incoming).remaining_quantity as int,
            ));
        }
        trades
    }
}


/// After a crossing walk over one side of a well-formed book, the whole
/// book invariant holds again.
#[verifier::rlimit(60)]
pub proof fn lemma_book_restored(pre: OrderBook, post: OrderBook, buy_taker: bool)
    requires
        pre.well_formed(),
        ({
            let m_side = if buy_taker {
                Side::Sell
            } else {
                Side::Buy
            };
            let mpre = if buy_taker {
                pre.asks_v()
            } else {
                pre.bids_v()
            };
            let mpost = if buy_taker {
                post.asks_v()
            } else {
                post.bids_v()
            };
            &&& post.symbol@ == pre.symbol@
            &&& (buy_taker ==> post.bids_v() == pre.bids_v())
            &&& (!buy_taker ==> post.asks_v() == pre.asks_v())
            &&& side_wf(mpost, m_side)
            &&& provenance_ok(mpost, mpre)
            &&& (mpost.len() > 0 ==> mpre.len() > 0 && !price_before(
                mpost[0].price,
                mpre[0].price,
                is_buy(m_side),
            ))
            &&& index_shrunk(post.order_index@, pre.order_index@, mpost, m_side)
        }),
    ensures
        post.well_formed(),
{
    let m_side = if buy_taker {
        Side::Sell
    } else {
        Side::Buy
    };
    let t_side = if buy_taker {
        Side::Buy
    } else {
        Side::Sell
    };
    let mpre = if buy_taker {
        pre.asks_v()
    } else {
        pre.bids_v()
    };
    let mpost = if buy_taker {
        post.asks_v()
    } else {
        post.bids_v()
    };
    let tpre = if buy_taker {
        pre.bids_v()
    } else {
        pre.asks_v()
    };
    // membership in the walked side transfers back to the old book
    assert forall|idq: u128, prq: u64| #[trigger]
        has_order_at(mpost, idq, prq) implies has_order_at(mpre, idq, prq) by {
        let (i, j) = choose|i: int, j: int|
            0 <= i < mpost.len() && 0 <= j < mpost[i].orders.len() && mpost[i].price == prq
                && mpost[i].orders[j].id == idq;
        assert(order_in_side(mpost[i].orders[j], mpost[i].price, mpre));
        let (i2, j2) = choose|i2: int, j2: int|
            0 <= i2 < mpre.len() && 0 <= j2 < mpre[i2].orders.len() && mpre[i2].price
                == mpost[i].price && same_identity(mpost[i].orders[j], mpre[i2].orders[j2]);
        assert(0 <= i2 < mpre.len() && 0 <= j2 < mpre[i2].orders.len() && mpre[i2].price == prq
            && mpre[i2].orders[j2].id == idq);
    }
    // forward index direction, both sides
    assert forall|id2: u128, pr: u64| #[trigger]
        has_order_at(post.bids_v(), id2, pr) implies post.order_index@.contains_key(id2)
        && post.order_index@[id2] == (Side::Buy, pr) by {
        if buy_taker {
            assert(has_order_at(pre.bids_v(), id2, pr));
            assert(pre.order_index@.contains_key(id2) && pre.order_index@[id2] == (Side::Buy, pr));
        } else {
            assert(has_order_at(pre.bids_v(), id2, pr));
            assert(pre.order_index@.contains_key(id2) && pre.order_index@[id2] == (Side::Buy, pr));
            assert(has_order(mpost, id2)) by {
                let (i, j) = choose|i: int, j: int|
                    0 <= i < mpost.len() && 0 <= j < mpost[i].orders.len() && mpost[i].price == pr
                        && mpost[i].orders[j].id == id2;
                assert(0 <= i < mpost.len() && 0 <= j < mpost[i].orders.len()
                    && mpost[i].orders[j].id == id2);
            }
        }
    }
    assert forall|id2: u128, pr: u64| #[trigger]
        has_order_at(post.asks_v(), id2, pr) implies post.order_index@.contains_key(id2)
        && post.order_index@[id2] == (Side::Sell, pr) by {
        if buy_taker {
            assert(has_order_at(pre.asks_v(), id2, pr));
            assert(pre.order_index@.contains_key(id2) && pre.order_index@[id2] == (
                Side::Sell,
                pr,
            ));
            assert(has_order(mpost, id2)) by {
                let (i, j) = choose|i: int, j: int|
                    0 <= i < mpost.len() && 0 <= j < mpost[i].orders.len() && mpost[i].price == pr
                        && mpost[i].orders[j].id == id2;
                assert(0 <= i < mpost.len() && 0 <= j < mpost[i].orders.len()
                    && mpost[i].orders[j].id == id2);
            }
        } else {
            assert(has_order_at(pre.asks_v(), id2, pr));
            assert(pre.order_index@.contains_key(id2) && pre.order_index@[id2] == (
                Side::Sell,
                pr,
            ));
        }
    }
    // backward index direction
    assert forall|id2: u128| #[trigger]
        post.order_index@.contains_key(id2) implies {
        if post.order_index@[id2].0 is Buy {
            has_order_at(post.bids_v(), id2, post.order_index@[id2].1)
        } else {
            has_order_at(post.asks_v(), id2, post.order_index@[id2].1)
        }
    } by {
        assert(pre.order_index@.contains_key(id2));
        assert(post.order_index@[id2] == pre.order_index@[id2]);
        let entry = pre.order_index@[id2];
        if entry.0 == t_side {
            if entry.0 is Buy {
                assert(has_order_at(pre.bids_v(), id2, entry.1));
            } else {
                assert(has_order_at(pre.asks_v(), id2, entry.1));
            }
        } else {
            assert(entry.0 == m_side);
            assert(has_order(mpost, id2));
            let (i, j) = choose|i: int, j: int|
                0 <= i < mpost.len() && 0 <= j < mpost[i].orders.len() && mpost[i].orders[j].id
                    == id2;
            assert(has_order_at(mpost, id2, mpost[i].price)) by {
                assert(0 <= i < mpost.len() && 0 <= j < mpost[i].orders.len() && mpost[i].price
                    == mpost[i].price && mpost[i].orders[j].id == id2);
            }
            assert(has_order_at(mpre, id2, mpost[i].price));
            assert(pre.order_index@[id2] == (m_side, mpost[i].price));
            assert(entry.1 == mpost[i].price);
        }
    }
    // no crossed book
    assert(post.uncrossed()) by {
        if post.bids_v().len() > 0 && post.asks_v().len() > 0 {
            if buy_taker {
                assert(!price_before(post.asks_v()[0].price, pre.asks_v()[0].price, false));
            } else {
                assert(!price_before(post.bids_v()[0].price, pre.bids_v()[0].price, true));
            }
        }
    }
}

impl MatchingEngine {
    /// Check if an order would match immediately against the book.
    fn would_match_immediately(&self, order: &Order, orderbook: &OrderBook) -> (r: bool)
        ensures
            r == (order.price is Some && spec_would_cross(*orderbook, *order)),
    {
        let price = match order.price {
            Option::Some(p) => p,
            Option::None => {
                return false;
            },
        };
        match order.side {
            Side::Buy => {
                match orderbook.best_ask() {
                    Option::Some(best_ask) => price >= best_ask,
                    Option::None => false,
                }
            },
            Side::Sell => {
                match orderbook.best_bid() {
                    Option::Some(best_bid) => price <= best_bid,
                    Option::None => false,
                }
            },
        }
    }
}


pub proof fn lemma_trades_qty_sum_nonneg(ts: Seq<Trade>)
    ensures
        trades_qty_sum(ts) >= 0,
        ts.len() == 0 ==> trades_qty_sum(ts) == 0,
    decreases ts.len(),
{
    if ts.len() > 0 {
        lemma_trades_qty_sum_nonneg(ts.skip(1));
    }
}

/// A well-formed book satisfies the walk's view of its maker side: the
/// id index mirrors that side in both directions.
pub proof fn lemma_walk_pre(pre: OrderBook, buy: bool)
    requires
        pre.well_formed(),
    ensures
        side_indexed(
            if buy {
                pre.asks_v()
            } else {
                pre.bids_v()
            },
            pre.order_index@,
            if buy {
                Side::Sell
            } else {
                Side::Buy
            },
        ),
        index_backed_side(
            pre.order_index@,
            if buy {
                pre.asks_v()
            } else {
                pre.bids_v()
            },
            if buy {
                Side::Sell
            } else {
                Side::Buy
            },
        ),
{
    let m_side = if buy {
        Side::Sell
    } else {
        Side::Buy
    };
    let mpre = if buy {
        pre.asks_v()
    } else {
        pre.bids_v()
    };
    assert forall|id2: u128, pr: u64| #[trigger]
        has_order_at(mpre, id2, pr) implies pre.order_index@.contains_key(id2)
        && pre.order_index@[id2] == (m_side, pr) by {
        if buy {
            assert(has_order_at(pre.asks_v(), id2, pr));
        } else {
            assert(has_order_at(pre.bids_v(), id2, pr));
        }
    }
    assert forall|id2: u128| #[trigger]
        pre.order_index@.contains_key(id2) implies (pre.order_index@[id2].0 == m_side
        ==> has_order(mpre, id2)) by {
        if pre.order_index@[id2].0 == m_side {
            if buy {
                assert(has_order_at(pre.asks_v(), id2, pre.order_index@[id2].1));
                lemma_has_order_at_implies(pre.asks_v(), id2, pre.order_index@[id2].1);
            } else {
                assert(has_order_at(pre.bids_v(), id2, pre.order_index@[id2].1));
                lemma_has_order_at_implies(pre.bids_v(), id2, pre.order_index@[id2].1);
            }
        }
    }
}

impl MatchingEngine {
    /// Match a market order: walk the opposite side with no price bound,
    /// reject outright when no liquidity is available, and cancel any
    /// residual that the book could not fill.
    #[verifier::rlimit(60)]
    fn match_market_order(&self, orderbook: &mut OrderBook, order: Order) -> (r: Result<
        MatchResult,
        String,
    >)
        requires
            old(orderbook).well_formed(),
            order.order_type is Market,
            order.status is New,
            order.filled_quantity == 0,
            order.remaining_quantity == order.quantity,
            0 < order.quantity <= MAX_AMOUNT,
            old(orderbook).spec_sequence() + count_orders(old(orderbook).bids_v()) + count_orders(
                old(orderbook).asks_v(),
            ) <= u64::MAX,
        ensures
            final(orderbook).well_formed(),
            r matches Ok(mr) && match_post(*old(orderbook), *final(orderbook), order, mr),
    {
        let mut order = order;
        let ghost inc0 = order;
        let buy = matches!(order.side, Side::Buy);
        let ghost pre = *orderbook;
        proof {
            lemma_walk_pre(pre, buy);
            lemma_count_orders_nonneg(pre.bids_v());
            lemma_count_orders_nonneg(pre.asks_v());
        }
        let trades = if buy {
            self.walk_levels(
                &mut orderbook.asks,
                &mut orderbook.order_index,
                &mut orderbook.sequence_manager,
                &orderbook.symbol,
                &mut order,
                Option::None,
                true,
            )
        } else {
            self.walk_levels(
                &mut orderbook.bids,
                &mut orderbook.order_index,
                &mut orderbook.sequence_manager,
                &orderbook.symbol,
                &mut order,
                Option::None,
                false,
            )
        };
        proof {
            lemma_book_restored(pre, *orderbook, buy);
            lemma_trades_qty_sum_nonneg(trades@);
            lemma_avail_nonneg(
                if buy {
                    pre.asks_v()
                } else {
                    pre.bids_v()
                },
                Option::None,
                buy,
            );
            // the walk's pinning, phrased over the whole book
            let post = *orderbook;
            let mpre = if buy {
                pre.asks_v()
            } else {
                pre.bids_v()
            };
            let mpost = if buy {
                post.asks_v()
            } else {
                post.bids_v()
            };
            assert(trades_match_pairings(
                trades@,
                maker_pairings(mpre, Option::<u64>::None, buy, inc0.remaining_quantity as int),
                buy,
            ));
            assert(maker_side_walked(
                mpre,
                mpost,
                Option::<u64>::None,
                buy,
                inc0.remaining_quantity as int,
            ));
            assert(walk_outcome(pre, post, inc0, trades@, Option::<u64>::None, buy));
        }
        if trades.len() == 0 {
            proof {
                assert(trades_qty_sum(trades@) == 0);
                assert(book_unchanged(pre, *orderbook));
            }
            return Result::Ok(
                MatchResult::Rejected(String::from_str("No liquidity available")),
            );
        }
        proof {
            // a non-empty trade list means liquidity was available
            assert(trades_qty_sum(trades@) > 0) by {
                assert(trades@[0].quantity > 0);
                assert(trades@.skip(1).len() == trades@.len() - 1);
                lemma_trades_qty_sum_nonneg(trades@.skip(1));
            }
        }
        if order.remaining_quantity > 0 {
            order.cancel();
            return Result::Ok(MatchResult::PartiallyFilled(trades, order));
        }
        Result::Ok(MatchResult::Filled(trades))
    }

    /// Match an incoming order against the book: dispatch on order type,
    /// guard post-only orders, run the crossing walk, and resolve the
    /// residual under the order's time-in-force.
    #[verifier::rlimit(100)]
    pub fn match_order(&self, orderbook: &mut OrderBook, incoming: Order) -> (r: Result<
        MatchResult,
        String,
    >)
        requires
            old(orderbook).well_formed(),
            incoming.status is New,
            incoming.filled_quantity == 0,
            incoming.remaining_quantity == incoming.quantity,
            0 < incoming.quantity <= MAX_AMOUNT,
            incoming.order_type is Limit ==> (incoming.price matches Option::Some(p) && 0 < p
                <= MAX_AMOUNT),
            !old(orderbook).order_index@.contains_key(incoming.id),
            old(orderbook).spec_sequence() + count_orders(old(orderbook).bids_v()) + count_orders(
                old(orderbook).asks_v(),
            ) <= u64::MAX,
        ensures
            final(orderbook).well_formed(),
            r matches Ok(mr) && match_post(*old(orderbook), *final(orderbook), incoming, mr),
    {
        if matches!(incoming.order_type, OrderType::Stop | OrderType::StopLimit) {
            proof {
                assert(book_unchanged(*old(orderbook), *orderbook));
            }
            return Result::Ok(
                MatchResult::Rejected(
                    String::from_str("stop orders not supported at core level"),
                ),
            );
        }
        if matches!(incoming.order_type, OrderType::Market) {
            return self.match_market_order(orderbook, incoming);
        }
        let mut incoming = incoming;
        let ghost inc0 = incoming;
        let buy = matches!(incoming.side, Side::Buy);
        if incoming.post_only {
            if self.would_match_immediately(&incoming, orderbook) {
                proof {
                    assert(book_unchanged(*old(orderbook), *orderbook));
                }
                return Result::Ok(
                    MatchResult::Rejected(
                        String::from_str("Post-only order would match immediately"),
                    ),
                );
            }
            let result_copy = incoming.duplicate();
            orderbook.add_limit_order(incoming);
            return Result::Ok(MatchResult::Added(result_copy));
        }
        let limit = incoming.price;
        let ghost pre = *orderbook;
        let ghost mpre = if buy {
            pre.asks_v()
        } else {
            pre.bids_v()
        };
        proof {
            lemma_count_orders_nonneg(pre.bids_v());
            lemma_count_orders_nonneg(pre.asks_v());
            lemma_avail_nonneg(mpre, limit, buy);
        }
        if matches!(incoming.time_in_force, TimeInForce::FOK) {
            let avail = if buy {
                liquidity_from(&orderbook.asks, 0, limit, true, Side::Sell)
            } else {
                liquidity_from(&orderbook.bids, 0, limit, false, Side::Buy)
            };
            proof {
                assert(mpre.skip(0) =~= mpre);
            }
            if avail < (incoming.quantity as u128) {
                proof {
                    assert(book_unchanged(*old(orderbook), *orderbook));
                }
                return Result::Ok(
                    MatchResult::Rejected(String::from_str("FOK order not fully filled")),
                );
            }
        }
        proof {
            lemma_walk_pre(pre, buy);
        }
        let trades = if buy {
            self.walk_levels(
                &mut orderbook.asks,
                &mut orderbook.order_index,
                &mut orderbook.sequence_manager,
                &orderbook.symbol,
                &mut incoming,
                limit,
                true,
            )
        } else {
            self.walk_levels(
                &mut orderbook.bids,
                &mut orderbook.order_index,
                &mut orderbook.sequence_manager,
                &orderbook.symbol,
                &mut incoming,
                limit,
                false,
            )
        };
        proof {
            lemma_book_restored(pre, *orderbook, buy);
            lemma_trades_qty_sum_nonneg(trades@);
            if trades@.len() > 0 {
                assert(trades_qty_sum(trades@) > 0) by {
                    assert(trades@[0].quantity > 0);
                    lemma_trades_qty_sum_nonneg(trades@.skip(1));
                }
            }
            // the walk's pinning, phrased over the whole book
            let post = *orderbook;
            let mpost = if buy {
                post.asks_v()
            } else {
                post.bids_v()
            };
            assert(trades_match_pairings(
                trades@,
                maker_pairings(mpre, limit, buy, inc0.remaining_quantity as int),
                buy,
            ));
            assert(maker_side_walked(mpre, mpost, limit, buy, inc0.remaining_quantity as int));
            assert(walk_outcome(pre, post, inc0, trades@, limit, buy));
        }
        if matches!(incoming.time_in_force, TimeInForce::IOC) {
            if incoming.remaining_quantity > 0 {
                incoming.cancel();
            }
            if trades.len() == 0 {
                proof {
                    assert(book_unchanged(pre, *orderbook));
                }
                return Result::Ok(
                    MatchResult::Rejected(String::from_str("IOC order not filled")),
                );
            }
            if incoming.remaining_quantity == 0 {
                return Result::Ok(MatchResult::Filled(trades));
            }
            return Result::Ok(MatchResult::PartiallyFilled(trades, incoming));
        }
        if matches!(incoming.time_in_force, TimeInForce::FOK) {
            proof {
                assert(incoming.remaining_quantity == 0);
                assert(trades@.len() > 0) by {
                    if trades@.len() == 0 {
                        assert(trades_qty_sum(trades@) == 0);
                    }
                }
            }
            return Result::Ok(MatchResult::Filled(trades));
        }
        // GTC / GTD
        if incoming.remaining_quantity > 0 {
            let had_trades = trades.len() > 0;
            let result_copy = incoming.duplicate();
            let ghost ro = incoming;
            let ghost mid = *orderbook;
            proof {
                assert(!mid.order_index@.contains_key(incoming.id));
            }
            orderbook.add_limit_order(incoming);
            if !had_trades {
                return Result::Ok(MatchResult::Added(result_copy));
            }
            proof {
                // the residual now rests at the back of its level's queue
                let post = *orderbook;
                assert(post.order_index@.contains_key(inc0.id));
                assert(post.order_index@[inc0.id] == (inc0.side, inc0.price->0));
                if inc0.side is Buy {
                    assert(has_order_at(post.bids_v(), inc0.id, inc0.price->0));
                } else {
                    assert(has_order_at(post.asks_v(), inc0.id, inc0.price->0));
                }
                assert(order_like(result_copy, ro));
                if buy {
                    assert(post.bids_v() == spec_insert(pre.bids_v(), ro, true));
                } else {
                    assert(post.asks_v() == spec_insert(pre.asks_v(), ro, false));
                }
                assert(residual_rested(pre, post, result_copy, buy)) by {
                    if buy {
                        assert(post.bids_v() == spec_insert(pre.bids_v(), ro, true));
                    } else {
                        assert(post.asks_v() == spec_insert(pre.asks_v(), ro, false));
                    }
                }
                // the walked maker side is untouched by the insert
                let mpost = if buy {
                    post.asks_v()
                } else {
                    post.bids_v()
                };
                assert(mpost == (if buy {
                    mid.asks_v()
                } else {
                    mid.bids_v()
                }));
                assert(maker_side_walked(
                    mpre,
                    mpost,
                    limit,
                    buy,
                    inc0.remaining_quantity as int,
                ));
                // the index after the walk, then the residual's entry
                assert(index_shrunk(
                    mid.order_index@,
                    pre.order_index@,
                    mpost,
                    (if buy {
                        Side::Sell
                    } else {
                        Side::Buy
                    }),
                ));
                assert(post.order_index@ == mid.order_index@.insert(
                    inc0.id,
                    (inc0.side, inc0.price->0),
                ));
                assert(index_rested(pre, post, inc0, buy)) by {
                    assert(post.order_index@ == mid.order_index@.insert(
                        inc0.id,
                        (inc0.side, inc0.price->0),
                    ));
                }
                assert(walk_outcome(pre, post, inc0, trades@, limit, buy));
            }
            return Result::Ok(MatchResult::PartiallyFilled(trades, result_copy));
        }
        proof {
            assert(trades@.len() > 0) by {
                if trades@.len() == 0 {
                    assert(trades_qty_sum(trades@) == 0);
                }
            }
        }
        let n = trades.len();
        let first_price = trades[0].price;
        let last_price = trades[n - 1].price;
        let ghost m_side: Side = if buy {
            Side::Sell
        } else {
            Side::Buy
        };
        if first_price == last_price {
            proof {
                assert forall|i: int|
                    0 <= i < trades@.len() implies (#[trigger] trades@[i]).price
                    == trades@[0].price by {
                    assert(!price_before(trades@[i].price, trades@[0].price, is_buy(m_side)));
                    assert(!price_before(
                        trades@[n - 1].price,
                        trades@[i].price,
                        is_buy(m_side),
                    ));
                }
                assert(uniform_price(trades@));
            }
            return Result::Ok(MatchResult::Filled(trades));
        }
        proof {
            assert(!uniform_price(trades@)) by {
                if uniform_price(trades@) {
                    assert(trades@[n - 1].price == trades@[0].price);
                }
            }
        }
        let swept = incoming.duplicate();
        Result::Ok(MatchResult::PartiallyFilled(trades, swept))
    }
}

} // verus!
