//! Per-symbol limit order book: two price-sorted sides of FIFO queues,
//! an id index for cancellation, and the book's sequence authority.
//!
//! The well-formedness predicate [`OrderBook::well_formed`] captures the
//! book invariants: strictly sorted sides, no empty price level, every
//! queued order active with consistent fill state, no crossed book, and
//! an id index that mirrors the queues exactly.

use vstd::prelude::*;

use crate::sequence::SequenceManager;
use crate::matching::{match_post, MatchingEngine};
use crate::types::{MatchResult, Order, OrderType, Side, MAX_AMOUNT};
use std::collections::HashMap;

verus! {

broadcast use vstd::std_specs::hash::group_hash_axioms;

/// One price level: the price and the FIFO queue of resting orders.
#[derive(Debug)]
pub struct Level {
    pub price: u64,
    pub orders: std::collections::VecDeque<Order>,
}

/// Ghost image of a price level: the price and the queue as a sequence.
#[verifier::ext_equal]
pub struct LevelView {
    pub price: u64,
    pub orders: Seq<Order>,
}

/// Ghost image of one side of the book.
pub open spec fn side_view(levels: Seq<Level>) -> Seq<LevelView> {
    levels.map_values(|l: Level| LevelView { price: l.price, orders: l.orders@ })
}

/// On the buy side better prices are higher; on the sell side, lower.
/// `before(a, b)` says a level at price `a` sorts strictly in front of
/// one at price `b`.
pub open spec fn price_before(a: u64, b: u64, buy: bool) -> bool {
    if buy {
        a > b
    } else {
        a < b
    }
}

/// An order may rest at price `price` on side `side` of a well-formed
/// book: it is active, its fill state is consistent, and its limit price
/// is exactly the level's price.
pub open spec fn order_ok(o: Order, side: Side, price: u64) -> bool {
    &&& o.side == side
    &&& o.price == Option::<u64>::Some(price)
    &&& o.status is New || o.status is Partial
    &&& o.remaining_quantity > 0
    &&& o.filled_quantity + o.remaining_quantity == o.quantity
    &&& o.quantity <= MAX_AMOUNT
}

/// No two orders in one queue share an id.
pub open spec fn queue_ids_unique(q: Seq<Order>) -> bool {
    forall|j: int, k: int|
        0 <= j < q.len() && 0 <= k < q.len() && #[trigger] q[j].id == #[trigger] q[k].id ==> j == k
}

/// One price level of side `side` is well-formed: non-empty, price in
/// range, and every order fit to rest there.
pub open spec fn level_wf(l: LevelView, side: Side) -> bool {
    &&& l.orders.len() > 0
    &&& 0 < l.price <= MAX_AMOUNT
    &&& forall|j: int| 0 <= j < l.orders.len() ==> order_ok(#[trigger] l.orders[j], side, l.price)
    &&& queue_ids_unique(l.orders)
}

/// Whether `side` is the buy side.
pub open spec fn is_buy(side: Side) -> bool {
    side is Buy
}

/// One whole side is well-formed: levels strictly sorted best-first and
/// each level well-formed.
pub open spec fn side_wf(levels: Seq<LevelView>, side: Side) -> bool {
    &&& forall|i: int, j: int|
        0 <= i < j < levels.len() ==> price_before(
            #[trigger] levels[i].price,
            #[trigger] levels[j].price,
            is_buy(side),
        )
    &&& forall|i: int| 0 <= i < levels.len() ==> level_wf(#[trigger] levels[i], side)
}

/// Some order with id `id` rests at a level with price `price`.
pub open spec fn has_order_at(levels: Seq<LevelView>, id: u128, price: u64) -> bool {
    exists|i: int, j: int|
        0 <= i < levels.len() && 0 <= j < levels[i].orders.len() && levels[i].price == price
            && levels[i].orders[j].id == id
}

/// Some order with id `id` rests somewhere on this side.
pub open spec fn has_order(levels: Seq<LevelView>, id: u128) -> bool {
    exists|i: int, j: int|
        0 <= i < levels.len() && 0 <= j < levels[i].orders.len() && levels[i].orders[j].id == id
}

/// Per-symbol order book.
#[derive(Debug)]
pub struct OrderBook {
    pub symbol: String,
    /// Buy side: levels in strictly descending price order, best first.
    pub bids: Vec<Level>,
    /// Sell side: levels in strictly ascending price order, best first.
    pub asks: Vec<Level>,
    /// Id index for cancellation: order id to (side, level price).
    pub order_index: HashMap<u128, (Side, u64)>,
    /// Sequence authority stamping every event of this book.
    pub sequence_manager: SequenceManager,
}

impl OrderBook {
    /// Ghost image of the buy side.
    pub open spec fn bids_v(self) -> Seq<LevelView> {
        side_view(self.bids@)
    }

    /// Ghost image of the sell side.
    pub open spec fn asks_v(self) -> Seq<LevelView> {
        side_view(self.asks@)
    }

    /// The book is not crossed: when both sides are non-empty, the best
    /// bid is strictly below the best ask.
    pub open spec fn uncrossed(self) -> bool {
        self.bids_v().len() > 0 && self.asks_v().len() > 0 ==> self.bids_v()[0].price
            < self.asks_v()[0].price
    }

    /// Forward direction of the index invariant: every queued order is
    /// indexed under its id, with its side and its level's price.
    pub open spec fn queues_indexed(self) -> bool {
        &&& forall|id: u128, pr: u64| #[trigger]
            has_order_at(self.bids_v(), id, pr) ==> self.order_index@.contains_key(id)
                && self.order_index@[id] == (Side::Buy, pr)
        &&& forall|id: u128, pr: u64| #[trigger]
            has_order_at(self.asks_v(), id, pr) ==> self.order_index@.contains_key(id)
                && self.order_index@[id] == (Side::Sell, pr)
    }

    /// Backward direction of the index invariant: every indexed id rests
    /// on the recorded side at the recorded price.
    pub open spec fn index_backed(self) -> bool {
        forall|id: u128| #[trigger]
            self.order_index@.contains_key(id) ==> {
                if self.order_index@[id].0 is Buy {
                    has_order_at(self.bids_v(), id, self.order_index@[id].1)
                } else {
                    has_order_at(self.asks_v(), id, self.order_index@[id].1)
                }
            }
    }

    /// The book invariant, preserved by every public operation.
    pub open spec fn well_formed(self) -> bool {
        &&& side_wf(self.bids_v(), Side::Buy)
        &&& side_wf(self.asks_v(), Side::Sell)
        &&& self.uncrossed()
        &&& self.queues_indexed()
        &&& self.index_backed()
    }

    /// Current value of the book's sequence counter.
    pub open spec fn spec_sequence(self) -> u64 {
        self.sequence_manager.spec_current()
    }

    pub fn new(symbol: String) -> (r: OrderBook)
        ensures
            r.symbol@ == symbol@,
            r.bids_v() =~= Seq::<LevelView>::empty(),
            r.asks_v() =~= Seq::<LevelView>::empty(),
            r.order_index@ == Map::<u128, (Side, u64)>::empty(),
            r.spec_sequence() == 0,
            r.well_formed(),
    {
        let r = OrderBook {
            symbol,
            bids: Vec::new(),
            asks: Vec::new(),
            order_index: HashMap::new(),
            sequence_manager: SequenceManager::new(),
        };
        proof {
            assert(r.bids_v() =~= Seq::<LevelView>::empty());
            assert(r.asks_v() =~= Seq::<LevelView>::empty());
        }
        r
    }

    /// Best (highest) bid price, if any.
    pub fn best_bid(&self) -> (r: Option<u64>)
        ensures
            self.bids_v().len() == 0 ==> r is None,
            self.bids_v().len() > 0 ==> r == Option::<u64>::Some(self.bids_v()[0].price),
    {
        if self.bids.len() == 0 {
            Option::None
        } else {
            Option::Some(self.bids[0].price)
        }
    }

    /// Best (lowest) ask price, if any.
    pub fn best_ask(&self) -> (r: Option<u64>)
        ensures
            self.asks_v().len() == 0 ==> r is None,
            self.asks_v().len() > 0 ==> r == Option::<u64>::Some(self.asks_v()[0].price),
    {
        if self.asks.len() == 0 {
            Option::None
        } else {
            Option::Some(self.asks[0].price)
        }
    }

    /// Midpoint of best bid and best ask (rounded down to the fixed-point
    /// grid); none if either side is empty.
    pub fn mid_price(&self) -> (r: Option<u64>)
        requires
            self.well_formed(),
        ensures
            self.bids_v().len() == 0 || self.asks_v().len() == 0 ==> r is None,
            self.bids_v().len() > 0 && self.asks_v().len() > 0 ==> r == Option::<u64>::Some(
                (((self.bids_v()[0].price + self.asks_v()[0].price) / 2) as u64),
            ),
    {
        if self.bids.len() > 0 && self.asks.len() > 0 {
            let bid = self.bids[0].price;
            let ask = self.asks[0].price;
            proof {
                assert(level_wf(self.bids_v()[0], Side::Buy));
                assert(level_wf(self.asks_v()[0], Side::Sell));
            }
            Option::Some((bid + ask) / 2)
        } else {
            Option::None
        }
    }

    /// Spread between best ask and best bid; none if either side is empty.
    pub fn spread(&self) -> (r: Option<u64>)
        requires
            self.well_formed(),
        ensures
            self.bids_v().len() == 0 || self.asks_v().len() == 0 ==> r is None,
            self.bids_v().len() > 0 && self.asks_v().len() > 0 ==> r == Option::<u64>::Some(
                ((self.asks_v()[0].price - self.bids_v()[0].price) as u64),
            ),
    {
        if self.bids.len() > 0 && self.asks.len() > 0 {
            Option::Some(self.asks[0].price - self.bids[0].price)
        } else {
            Option::None
        }
    }

    /// Current sequence number.
    pub fn current_sequence(&self) -> (r: u64)
        ensures
            r == self.spec_sequence(),
    {
        self.sequence_manager.current()
    }

    /// Total number of resting orders.
    pub fn order_count(&self) -> (r: usize)
        ensures
            r == self.order_index@.len(),
    {
        self.order_index.len()
    }

    /// Clear the book (for testing/reset). The sequence counter keeps
    /// its value, as in a reset that preserves event history.
    pub fn clear(&mut self)
        ensures
            final(self).bids_v() =~= Seq::<LevelView>::empty(),
            final(self).asks_v() =~= Seq::<LevelView>::empty(),
            final(self).order_index@ == Map::<u128, (Side, u64)>::empty(),
            final(self).symbol@ == old(self).symbol@,
            final(self).spec_sequence() == old(self).spec_sequence(),
            final(self).well_formed(),
    {
        self.bids = Vec::new();
        self.asks = Vec::new();
        self.order_index.clear();
        proof {
            assert(self.bids_v() =~= Seq::<LevelView>::empty());
            assert(self.asks_v() =~= Seq::<LevelView>::empty());
        }
    }
}

/// The side `levels`, with `o` enqueued at the tail of its price level;
/// the level is created at its sorted position when absent.
pub open spec fn spec_insert(levels: Seq<LevelView>, o: Order, buy: bool) -> Seq<LevelView>
    decreases levels.len(),
{
    let p = o.price->0;
    if levels.len() == 0 {
        seq![LevelView { price: p, orders: seq![o] }]
    } else if levels[0].price == p {
        seq![LevelView { price: p, orders: levels[0].orders.push(o) }] + levels.skip(1)
    } else if price_before(p, levels[0].price, buy) {
        seq![LevelView { price: p, orders: seq![o] }] + levels
    } else {
        seq![levels[0]] + spec_insert(levels.skip(1), o, buy)
    }
}

/// Unfolds membership-at-price over a side split into head and tail.
pub proof fn lemma_has_order_at_cons(x: LevelView, t: Seq<LevelView>, id: u128, pr: u64)
    ensures
        has_order_at(seq![x] + t, id, pr) <==> ((x.price == pr && exists|j: int|
            0 <= j < x.orders.len() && x.orders[j].id == id) || has_order_at(t, id, pr)),
{
    let s = seq![x] + t;
    assert(s[0] == x);
    assert(forall|i: int| 0 <= i < t.len() ==> s[i + 1] == #[trigger] t[i]);
    if has_order_at(s, id, pr) {
        let (i, j) = choose|i: int, j: int|
            0 <= i < s.len() && 0 <= j < s[i].orders.len() && s[i].price == pr
                && s[i].orders[j].id == id;
        if i > 0 {
            assert(t[i - 1] == s[i]);
            assert(0 <= i - 1 < t.len() && 0 <= j < t[i - 1].orders.len() && t[i - 1].price == pr
                && t[i - 1].orders[j].id == id);
        }
    }
    if x.price == pr && exists|j: int| 0 <= j < x.orders.len() && x.orders[j].id == id {
        let j = choose|j: int| 0 <= j < x.orders.len() && x.orders[j].id == id;
        assert(0 <= 0 < s.len() && 0 <= j < s[0].orders.len() && s[0].price == pr
            && s[0].orders[j].id == id);
    }
    if has_order_at(t, id, pr) {
        let (i, j) = choose|i: int, j: int|
            0 <= i < t.len() && 0 <= j < t[i].orders.len() && t[i].price == pr
                && t[i].orders[j].id == id;
        assert(s[i + 1] == t[i]);
        assert(0 <= i + 1 < s.len() && 0 <= j < s[i + 1].orders.len() && s[i + 1].price == pr
            && s[i + 1].orders[j].id == id);
    }
}

/// Unfolds membership over a side split into head and tail.
pub proof fn lemma_has_order_cons(x: LevelView, t: Seq<LevelView>, id: u128)
    ensures
        has_order(seq![x] + t, id) <==> ((exists|j: int|
            0 <= j < x.orders.len() && x.orders[j].id == id) || has_order(t, id)),
{
    let s = seq![x] + t;
    assert(s[0] == x);
    assert(forall|i: int| 0 <= i < t.len() ==> s[i + 1] == #[trigger] t[i]);
    if has_order(s, id) {
        let (i, j) = choose|i: int, j: int|
            0 <= i < s.len() && 0 <= j < s[i].orders.len() && s[i].orders[j].id == id;
        if i > 0 {
            assert(t[i - 1] == s[i]);
            assert(0 <= i - 1 < t.len() && 0 <= j < t[i - 1].orders.len() && t[i - 1].orders[j].id
                == id);
        }
    }
    if exists|j: int| 0 <= j < x.orders.len() && x.orders[j].id == id {
        let j = choose|j: int| 0 <= j < x.orders.len() && x.orders[j].id == id;
        assert(0 <= 0 < s.len() && 0 <= j < s[0].orders.len() && s[0].orders[j].id == id);
    }
    if has_order(t, id) {
        let (i, j) = choose|i: int, j: int|
            0 <= i < t.len() && 0 <= j < t[i].orders.len() && t[i].orders[j].id == id;
        assert(s[i + 1] == t[i]);
        assert(0 <= i + 1 < s.len() && 0 <= j < s[i + 1].orders.len() && s[i + 1].orders[j].id
            == id);
    }
}

/// Membership at a price implies membership.
pub proof fn lemma_has_order_at_implies(levels: Seq<LevelView>, id: u128, pr: u64)
    ensures
        has_order_at(levels, id, pr) ==> has_order(levels, id),
{
    if has_order_at(levels, id, pr) {
        let (i, j) = choose|i: int, j: int|
            0 <= i < levels.len() && 0 <= j < levels[i].orders.len() && levels[i].price == pr
                && levels[i].orders[j].id == id;
        assert(0 <= i < levels.len() && 0 <= j < levels[i].orders.len() && levels[i].orders[j].id
            == id);
    }
}

/// Membership in a shortened side carries over from the whole side.
pub proof fn lemma_has_order_skip(levels: Seq<LevelView>, id: u128)
    requires
        levels.len() > 0,
    ensures
        has_order(levels.skip(1), id) ==> has_order(levels, id),
{
    if has_order(levels.skip(1), id) {
        let (i, j) = choose|i: int, j: int|
            0 <= i < levels.skip(1).len() && 0 <= j < levels.skip(1)[i].orders.len()
                && levels.skip(1)[i].orders[j].id == id;
        assert(levels.skip(1)[i] == levels[i + 1]);
        assert(0 <= i + 1 < levels.len() && 0 <= j < levels[i + 1].orders.len() && levels[i
            + 1].orders[j].id == id);
    }
}

/// What enqueueing one order does to a well-formed side: sortedness and
/// per-level validity are preserved, the best price only improves to the
/// new order's price, and membership changes by exactly that order.
pub proof fn lemma_spec_insert(levels: Seq<LevelView>, o: Order, side: Side)
    requires
        side_wf(levels, side),
        o.price is Some,
        order_ok(o, side, o.price->0),
        0 < o.price->0 <= MAX_AMOUNT,
        !has_order(levels, o.id),
    ensures
        side_wf(spec_insert(levels, o, is_buy(side)), side),
        spec_insert(levels, o, is_buy(side)).len() > 0,
        spec_insert(levels, o, is_buy(side))[0].price == (if levels.len() == 0 {
            o.price->0
        } else if price_before(o.price->0, levels[0].price, is_buy(side)) {
            o.price->0
        } else {
            levels[0].price
        }),
        forall|id: u128, pr: u64|
            id != o.id ==> (#[trigger] has_order_at(spec_insert(levels, o, is_buy(side)), id, pr)
                <==> has_order_at(levels, id, pr)),
        has_order_at(spec_insert(levels, o, is_buy(side)), o.id, o.price->0),
        forall|pr: u64| #[trigger]
            has_order_at(spec_insert(levels, o, is_buy(side)), o.id, pr) ==> pr == o.price->0,
        forall|id: u128| #[trigger] has_order(spec_insert(levels, o, is_buy(side)), id) <==> (
        has_order(levels, id) || id == o.id),
    decreases levels.len(),
{
    let buy = is_buy(side);
    let p = o.price->0;
    let r = spec_insert(levels, o, buy);
    if levels.len() == 0 {
        let x = LevelView { price: p, orders: seq![o] };
        assert(r =~= seq![x] + Seq::<LevelView>::empty());
        assert forall|id: u128, pr: u64| true implies (#[trigger] has_order_at(r, id, pr) <==> (id
            == o.id && pr == p)) by {
            lemma_has_order_at_cons(x, Seq::<LevelView>::empty(), id, pr);
        }
        assert forall|id: u128| true implies (#[trigger] has_order(r, id) <==> id == o.id) by {
            lemma_has_order_cons(x, Seq::<LevelView>::empty(), id);
        }
        assert forall|id: u128, pr: u64| #[trigger] has_order_at(levels, id, pr) implies false by {}
    } else if levels[0].price == p {
        let x = LevelView { price: p, orders: levels[0].orders.push(o) };
        let t = levels.skip(1);
        assert(r == seq![x] + t);
        // sortedness and level validity
        assert forall|i: int| 0 <= i < r.len() implies level_wf(#[trigger] r[i], side) by {
            if i == 0 {
                assert(level_wf(levels[0], side));
                assert forall|j: int| 0 <= j < x.orders.len() implies order_ok(
                    #[trigger] x.orders[j],
                    side,
                    x.price,
                ) by {
                    if j < levels[0].orders.len() {
                        assert(x.orders[j] == levels[0].orders[j]);
                    } else {
                        assert(x.orders[j] == o);
                    }
                }
                assert(queue_ids_unique(x.orders)) by {
                    assert forall|j: int, k: int|
                        0 <= j < x.orders.len() && 0 <= k < x.orders.len()
                            && #[trigger] x.orders[j].id == #[trigger] x.orders[k].id implies j
                        == k by {
                        if j < levels[0].orders.len() && k == levels[0].orders.len() {
                            assert(x.orders[j] == levels[0].orders[j]);
                            assert(0 <= 0 < levels.len() && 0 <= j < levels[0].orders.len()
                                && levels[0].orders[j].id == o.id);
                            assert(has_order(levels, o.id));
                        } else if k < levels[0].orders.len() && j == levels[0].orders.len() {
                            assert(x.orders[k] == levels[0].orders[k]);
                            assert(0 <= 0 < levels.len() && 0 <= k < levels[0].orders.len()
                                && levels[0].orders[k].id == o.id);
                            assert(has_order(levels, o.id));
                        } else if j < levels[0].orders.len() && k < levels[0].orders.len() {
                            assert(x.orders[j] == levels[0].orders[j]);
                            assert(x.orders[k] == levels[0].orders[k]);
                        }
                    }
                }
            } else {
                assert(r[i] == levels[i]);
                assert(level_wf(levels[i], side));
            }
        }
        assert forall|i: int, j: int| 0 <= i < j < r.len() implies price_before(
            #[trigger] r[i].price,
            #[trigger] r[j].price,
            buy,
        ) by {
            assert(r[j] == levels[j]);
            if i > 0 {
                assert(r[i] == levels[i]);
            } else {
                assert(r[0].price == levels[0].price);
            }
        }
        // membership
        assert forall|id: u128, pr: u64|
            id != o.id implies (#[trigger] has_order_at(r, id, pr) <==> has_order_at(
            levels,
            id,
            pr,
        )) by {
            lemma_has_order_at_cons(x, t, id, pr);
            lemma_has_order_at_cons(levels[0], t, id, pr);
            assert(levels =~= seq![levels[0]] + t);
            assert forall|j: int|
                0 <= j < x.orders.len() && x.orders[j].id == id implies (exists|k: int|
                0 <= k < levels[0].orders.len() && levels[0].orders[k].id == id) by {
                if j < levels[0].orders.len() {
                    assert(levels[0].orders[j].id == id);
                } else {
                    assert(x.orders[j] == o);
                }
            }
            assert forall|j: int|
                0 <= j < levels[0].orders.len() && levels[0].orders[j].id == id implies (exists|
                k: int,
            |
                0 <= k < x.orders.len() && x.orders[k].id == id) by {
                assert(x.orders[j] == levels[0].orders[j]);
            }
        }
        assert(has_order_at(r, o.id, p)) by {
            assert(r[0].orders[levels[0].orders.len() as int] == o);
            assert(0 <= 0 < r.len() && 0 <= levels[0].orders.len() < r[0].orders.len()
                && r[0].price == p && r[0].orders[levels[0].orders.len() as int].id == o.id);
        }
        assert forall|pr: u64| #[trigger] has_order_at(r, o.id, pr) implies pr == p by {
            lemma_has_order_at_cons(x, t, o.id, pr);
            if has_order_at(t, o.id, pr) {
                lemma_has_order_at_implies(t, o.id, pr);
                lemma_has_order_skip(levels, o.id);
            }
        }
        assert forall|id: u128| true implies (#[trigger] has_order(r, id) <==> (has_order(
            levels,
            id,
        ) || id == o.id)) by {
            lemma_has_order_cons(x, t, id);
            lemma_has_order_cons(levels[0], t, id);
            assert(levels =~= seq![levels[0]] + t);
            assert forall|j: int|
                0 <= j < x.orders.len() && x.orders[j].id == id && id != o.id implies (exists|
                k: int,
            |
                0 <= k < levels[0].orders.len() && levels[0].orders[k].id == id) by {
                if j < levels[0].orders.len() {
                    assert(levels[0].orders[j].id == id);
                } else {
                    assert(x.orders[j] == o);
                }
            }
            assert forall|j: int|
                0 <= j < levels[0].orders.len() && levels[0].orders[j].id == id implies (exists|
                k: int,
            |
                0 <= k < x.orders.len() && x.orders[k].id == id) by {
                assert(x.orders[j] == levels[0].orders[j]);
            }
            if id == o.id {
                assert(x.orders[levels[0].orders.len() as int] == o);
            }
        }
    } else if price_before(p, levels[0].price, buy) {
        let x = LevelView { price: p, orders: seq![o] };
        assert(r == seq![x] + levels);
        assert forall|i: int| 0 <= i < r.len() implies level_wf(#[trigger] r[i], side) by {
            if i > 0 {
                assert(r[i] == levels[i - 1]);
                assert(level_wf(levels[i - 1], side));
            }
        }
        assert forall|i: int, j: int| 0 <= i < j < r.len() implies price_before(
            #[trigger] r[i].price,
            #[trigger] r[j].price,
            buy,
        ) by {
            assert(r[j] == levels[j - 1]);
            if i > 0 {
                assert(r[i] == levels[i - 1]);
            } else {
                assert(r[0].price == p);
                if j - 1 > 0 {
                    assert(price_before(levels[0].price, levels[j - 1].price, buy));
                }
            }
        }
        assert forall|id: u128, pr: u64|
            id != o.id implies (#[trigger] has_order_at(r, id, pr) <==> has_order_at(
            levels,
            id,
            pr,
        )) by {
            lemma_has_order_at_cons(x, levels, id, pr);
        }
        assert(has_order_at(r, o.id, p)) by {
            assert(r[0].orders[0] == o);
            assert(0 <= 0 < r.len() && 0 <= 0 < r[0].orders.len() && r[0].price == p
                && r[0].orders[0].id == o.id);
        }
        assert forall|pr: u64| #[trigger] has_order_at(r, o.id, pr) implies pr == p by {
            lemma_has_order_at_cons(x, levels, o.id, pr);
            if has_order_at(levels, o.id, pr) {
                lemma_has_order_at_implies(levels, o.id, pr);
            }
        }
        assert forall|id: u128| true implies (#[trigger] has_order(r, id) <==> (has_order(
            levels,
            id,
        ) || id == o.id)) by {
            lemma_has_order_cons(x, levels, id);
        }
    } else {
        let t = levels.skip(1);
        assert(r == seq![levels[0]] + spec_insert(t, o, buy));
        assert(side_wf(t, side)) by {
            assert forall|i: int, j: int| 0 <= i < j < t.len() implies price_before(
                #[trigger] t[i].price,
                #[trigger] t[j].price,
                buy,
            ) by {
                assert(t[i] == levels[i + 1]);
                assert(t[j] == levels[j + 1]);
            }
            assert forall|i: int| 0 <= i < t.len() implies level_wf(#[trigger] t[i], side) by {
                assert(t[i] == levels[i + 1]);
            }
        }
        assert(!has_order(t, o.id)) by {
            lemma_has_order_skip(levels, o.id);
        }
        lemma_spec_insert(t, o, side);
        let rt = spec_insert(t, o, buy);
        // head price sorts before everything in rt
        assert(price_before(levels[0].price, p, buy));
        assert forall|i: int| 0 <= i < rt.len() implies price_before(
            levels[0].price,
            #[trigger] rt[i].price,
            buy,
        ) by {
            if t.len() > 0 {
                assert(t[0] == levels[1]);
                assert(price_before(levels[0].price, t[0].price, buy));
            }
            if i == 0 {
            } else {
                assert(price_before(rt[0].price, rt[i].price, buy));
            }
        }
        assert forall|i: int, j: int| 0 <= i < j < r.len() implies price_before(
            #[trigger] r[i].price,
            #[trigger] r[j].price,
            buy,
        ) by {
            assert(r[j] == rt[j - 1]);
            if i > 0 {
                assert(r[i] == rt[i - 1]);
            }
        }
        assert forall|i: int| 0 <= i < r.len() implies level_wf(#[trigger] r[i], side) by {
            if i > 0 {
                assert(r[i] == rt[i - 1]);
            } else {
                assert(r[0] == levels[0]);
                assert(level_wf(levels[0], side));
            }
        }
        assert forall|id: u128, pr: u64|
            id != o.id implies (#[trigger] has_order_at(r, id, pr) <==> has_order_at(
            levels,
            id,
            pr,
        )) by {
            lemma_has_order_at_cons(levels[0], rt, id, pr);
            lemma_has_order_at_cons(levels[0], t, id, pr);
            assert(levels =~= seq![levels[0]] + t);
        }
        assert(has_order_at(r, o.id, p)) by {
            lemma_has_order_at_cons(levels[0], rt, o.id, p);
        }
        assert forall|pr: u64| #[trigger] has_order_at(r, o.id, pr) implies pr == p by {
            lemma_has_order_at_cons(levels[0], rt, o.id, pr);
            if levels[0].price == pr && exists|j: int|
                0 <= j < levels[0].orders.len() && levels[0].orders[j].id == o.id {
                let j = choose|j: int| 0 <= j < levels[0].orders.len() && levels[0].orders[j].id
                    == o.id;
                assert(0 <= 0 < levels.len() && 0 <= j < levels[0].orders.len()
                    && levels[0].orders[j].id == o.id);
                assert(has_order(levels, o.id));
            }
        }
        assert forall|id: u128| true implies (#[trigger] has_order(r, id) <==> (has_order(
            levels,
            id,
        ) || id == o.id)) by {
            lemma_has_order_cons(levels[0], rt, id);
            lemma_has_order_cons(levels[0], t, id);
            assert(levels =~= seq![levels[0]] + t);
        }
    }
}

/// Enqueue `order` at the tail of its price level on `levels`, creating
/// the level at its sorted position when absent.
fn insert_level(levels: &mut Vec<Level>, order: Order, buy: bool)
    requires
        order.price is Some,
    ensures
        side_view(final(levels)@) == spec_insert(side_view(old(levels)@), order, buy),
    decreases old(levels)@.len(),
{
    let p = match order.price {
        Option::Some(p) => p,
        Option::None => vstd::pervasive::unreached(),
    };
    if levels.len() == 0 {
        let mut q = std::collections::VecDeque::new();
        q.push_back(order);
        levels.push(Level { price: p, orders: q });
        proof {
            assert(side_view(levels@) =~~= spec_insert(side_view(old(levels)@), order, buy));
        }
    } else if levels[0].price == p {
        let mut lvl = levels.remove(0);
        lvl.orders.push_back(order);
        levels.insert(0, lvl);
        proof {
            assert(side_view(old(levels)@).skip(1) =~~= side_view(old(levels)@.remove(0)));
            assert(side_view(levels@) =~~= spec_insert(side_view(old(levels)@), order, buy));
        }
    } else if (buy && p > levels[0].price) || (!buy && p < levels[0].price) {
        let mut q = std::collections::VecDeque::new();
        q.push_back(order);
        levels.insert(0, Level { price: p, orders: q });
        proof {
            assert(side_view(levels@) =~~= spec_insert(side_view(old(levels)@), order, buy));
        }
    } else {
        let first = levels.remove(0);
        insert_level(levels, order, buy);
        levels.insert(0, first);
        proof {
            assert(side_view(old(levels)@).skip(1) =~~= side_view(old(levels)@.remove(0)));
            assert(side_view(levels@) =~~= seq![
                LevelView { price: first.price, orders: first.orders@ },
            ] + spec_insert(side_view(old(levels)@).skip(1), order, buy));
            assert(side_view(old(levels)@)[0] == (LevelView {
                price: first.price,
                orders: first.orders@,
            }));
            assert(side_view(levels@) =~~= spec_insert(side_view(old(levels)@), order, buy));
        }
    }
}

impl OrderBook {
    /// Add a resting limit order to the book, without matching.
    ///
    /// The order must be a valid maker for this book: active, with a
    /// positive in-range limit price that does not cross the other side,
    /// and an id not yet in the book.
    pub fn add_limit_order(&mut self, order: Order)
        requires
            old(self).well_formed(),
            order.price is Some,
            order_ok(order, order.side, order.price->0),
            0 < order.price->0 <= MAX_AMOUNT,
            !old(self).order_index@.contains_key(order.id),
            order.side is Buy && old(self).asks_v().len() > 0 ==> order.price->0 < old(
                self,
            ).asks_v()[0].price,
            order.side is Sell && old(self).bids_v().len() > 0 ==> order.price->0 > old(
                self,
            ).bids_v()[0].price,
        ensures
            final(self).well_formed(),
            order.side is Buy ==> final(self).bids_v() == spec_insert(
                old(self).bids_v(),
                order,
                true,
            ) && final(self).asks_v() == old(self).asks_v(),
            order.side is Sell ==> final(self).asks_v() == spec_insert(
                old(self).asks_v(),
                order,
                false,
            ) && final(self).bids_v() == old(self).bids_v(),
            final(self).order_index@ == old(self).order_index@.insert(
                order.id,
                (order.side, order.price->0),
            ),
            final(self).symbol@ == old(self).symbol@,
            final(self).sequence_manager == old(self).sequence_manager,
            final(self).spec_sequence() == old(self).spec_sequence(),
    {
        let p = match order.price {
            Option::Some(p) => p,
            Option::None => vstd::pervasive::unreached(),
        };
        let id = order.id;
        let side_c = order.side;
        let is_b = matches!(order.side, Side::Buy);
        proof {
            assert(!has_order(self.bids_v(), order.id)) by {
                if has_order(self.bids_v(), order.id) {
                    let (i, j) = choose|i: int, j: int|
                        0 <= i < self.bids_v().len() && 0 <= j < self.bids_v()[i].orders.len()
                            && self.bids_v()[i].orders[j].id == order.id;
                    assert(has_order_at(self.bids_v(), order.id, self.bids_v()[i].price));
                }
            }
            assert(!has_order(self.asks_v(), order.id)) by {
                if has_order(self.asks_v(), order.id) {
                    let (i, j) = choose|i: int, j: int|
                        0 <= i < self.asks_v().len() && 0 <= j < self.asks_v()[i].orders.len()
                            && self.asks_v()[i].orders[j].id == order.id;
                    assert(has_order_at(self.asks_v(), order.id, self.asks_v()[i].price));
                }
            }
            if is_b {
                lemma_spec_insert(self.bids_v(), order, Side::Buy);
            } else {
                lemma_spec_insert(self.asks_v(), order, Side::Sell);
            }
        }
        let ghost pre = *self;
        if is_b {
            insert_level(&mut self.bids, order, true);
        } else {
            insert_level(&mut self.asks, order, false);
        }
        self.order_index.insert(id, (side_c, p));
        proof {
            let post = *self;
            if is_b {
                let r = post.bids_v();
                assert(r == spec_insert(pre.bids_v(), order, true));
                // the other side and remaining fields are untouched
                assert(post.asks_v() == pre.asks_v());
                // uncrossed: the new best bid is either the old one or p
                assert(post.uncrossed());
                // queues indexed
                assert forall|id2: u128, pr: u64| #[trigger]
                    has_order_at(post.bids_v(), id2, pr) implies post.order_index@.contains_key(id2)
                    && post.order_index@[id2] == (Side::Buy, pr) by {
                    if id2 == order.id {
                        assert(pr == p);
                    } else {
                        assert(has_order_at(pre.bids_v(), id2, pr));
                    }
                }
                assert forall|id2: u128, pr: u64| #[trigger]
                    has_order_at(post.asks_v(), id2, pr) implies post.order_index@.contains_key(id2)
                    && post.order_index@[id2] == (Side::Sell, pr) by {
                    assert(has_order_at(pre.asks_v(), id2, pr));
                    if id2 == order.id {
                        lemma_has_order_at_implies(pre.asks_v(), id2, pr);
                    }
                }
                // index backed
                assert forall|id2: u128| #[trigger]
                    post.order_index@.contains_key(id2) implies {
                    if post.order_index@[id2].0 is Buy {
                        has_order_at(post.bids_v(), id2, post.order_index@[id2].1)
                    } else {
                        has_order_at(post.asks_v(), id2, post.order_index@[id2].1)
                    }
                } by {
                    if id2 == order.id {
                        assert(post.order_index@[id2] == (Side::Buy, p));
                        assert(has_order_at(post.bids_v(), order.id, p));
                    } else {
                        assert(pre.order_index@.contains_key(id2));
                        assert(post.order_index@[id2] == pre.order_index@[id2]);
                        if pre.order_index@[id2].0 is Buy {
                            assert(has_order_at(pre.bids_v(), id2, pre.order_index@[id2].1));
                        }
                    }
                }
                assert(post.well_formed());
            } else {
                let r = post.asks_v();
                assert(r == spec_insert(pre.asks_v(), order, false));
                assert(post.bids_v() == pre.bids_v());
                assert(post.uncrossed());
                assert forall|id2: u128, pr: u64| #[trigger]
                    has_order_at(post.asks_v(), id2, pr) implies post.order_index@.contains_key(id2)
                    && post.order_index@[id2] == (Side::Sell, pr) by {
                    if id2 == order.id {
                        assert(pr == p);
                    } else {
                        assert(has_order_at(pre.asks_v(), id2, pr));
                    }
                }
                assert forall|id2: u128, pr: u64| #[trigger]
                    has_order_at(post.bids_v(), id2, pr) implies post.order_index@.contains_key(id2)
                    && post.order_index@[id2] == (Side::Buy, pr) by {
                    assert(has_order_at(pre.bids_v(), id2, pr));
                    if id2 == order.id {
                        lemma_has_order_at_implies(pre.bids_v(), id2, pr);
                    }
                }
                assert forall|id2: u128| #[trigger]
                    post.order_index@.contains_key(id2) implies {
                    if post.order_index@[id2].0 is Buy {
                        has_order_at(post.bids_v(), id2, post.order_index@[id2].1)
                    } else {
                        has_order_at(post.asks_v(), id2, post.order_index@[id2].1)
                    }
                } by {
                    if id2 == order.id {
                        assert(post.order_index@[id2] == (Side::Sell, p));
                        assert(has_order_at(post.asks_v(), order.id, p));
                    } else {
                        assert(pre.order_index@.contains_key(id2));
                        assert(post.order_index@[id2] == pre.order_index@[id2]);
                        if !(pre.order_index@[id2].0 is Buy) {
                            assert(has_order_at(pre.asks_v(), id2, pre.order_index@[id2].1));
                        }
                    }
                }
                assert(post.well_formed());
            }
        }
    }
}

/// The queue with the first (and, in a well-formed book, only) order of
/// id `id` removed.
pub open spec fn queue_remove_id(q: Seq<Order>, id: u128) -> Seq<Order>
    decreases q.len(),
{
    if q.len() == 0 {
        q
    } else if q[0].id == id {
        q.skip(1)
    } else {
        seq![q[0]] + queue_remove_id(q.skip(1), id)
    }
}

/// The first order of id `id` in the queue.
pub open spec fn queue_find_id(q: Seq<Order>, id: u128) -> Order
    decreases q.len(),
{
    if q.len() == 0 {
        vstd::pervasive::arbitrary()
    } else if q[0].id == id {
        q[0]
    } else {
        queue_find_id(q.skip(1), id)
    }
}

/// Whether some order in the queue has id `id`.
pub open spec fn queue_has_id(q: Seq<Order>, id: u128) -> bool {
    exists|j: int| 0 <= j < q.len() && q[j].id == id
}

/// The side with the order of id `id` removed; its level disappears
/// when the removal empties it.
pub open spec fn spec_remove(levels: Seq<LevelView>, id: u128) -> Seq<LevelView>
    decreases levels.len(),
{
    if levels.len() == 0 {
        levels
    } else if queue_has_id(levels[0].orders, id) {
        let q2 = queue_remove_id(levels[0].orders, id);
        if q2.len() == 0 {
            levels.skip(1)
        } else {
            seq![LevelView { price: levels[0].price, orders: q2 }] + levels.skip(1)
        }
    } else {
        seq![levels[0]] + spec_remove(levels.skip(1), id)
    }
}

/// The order of id `id` resting on this side.
pub open spec fn find_order(levels: Seq<LevelView>, id: u128) -> Order
    decreases levels.len(),
{
    if levels.len() == 0 {
        vstd::pervasive::arbitrary()
    } else if queue_has_id(levels[0].orders, id) {
        queue_find_id(levels[0].orders, id)
    } else {
        find_order(levels.skip(1), id)
    }
}

/// What removing one order's id does to one FIFO queue: every other
/// order keeps its place, and the found order was in the queue.
pub proof fn lemma_queue_remove(q: Seq<Order>, id: u128)
    requires
        queue_ids_unique(q),
    ensures
        !queue_has_id(q, id) ==> queue_remove_id(q, id) == q,
        queue_has_id(q, id) ==> queue_remove_id(q, id).len() == q.len() - 1,
        queue_has_id(q, id) ==> queue_find_id(q, id).id == id && queue_has_id(
            q,
            queue_find_id(q, id).id,
        ) && (exists|j: int| 0 <= j < q.len() && q[j] == queue_find_id(q, id)),
        forall|id2: u128|
            id2 != id ==> (#[trigger] queue_has_id(queue_remove_id(q, id), id2) <==> queue_has_id(
                q,
                id2,
            )),
        !queue_has_id(queue_remove_id(q, id), id),
        queue_ids_unique(queue_remove_id(q, id)),
        forall|j: int|
            0 <= j < queue_remove_id(q, id).len() ==> (exists|k: int|
                0 <= k < q.len() && q[k] == #[trigger] queue_remove_id(q, id)[j]),
    decreases q.len(),
{
    let r = queue_remove_id(q, id);
    if q.len() == 0 {
        assert(r =~= q);
        assert forall|id2: u128| #[trigger] queue_has_id(r, id2) implies queue_has_id(q, id2) by {}
    } else if q[0].id == id {
        assert(r == q.skip(1));
        assert forall|j: int| 0 <= j < r.len() implies (exists|k: int|
            0 <= k < q.len() && q[k] == #[trigger] r[j]) by {
            assert(q[j + 1] == r[j]);
        }
        assert forall|id2: u128|
            id2 != id implies (#[trigger] queue_has_id(r, id2) <==> queue_has_id(q, id2)) by {
            if queue_has_id(r, id2) {
                let j = choose|j: int| 0 <= j < r.len() && r[j].id == id2;
                assert(q[j + 1] == r[j]);
            }
            if queue_has_id(q, id2) {
                let j = choose|j: int| 0 <= j < q.len() && q[j].id == id2;
                assert(j != 0);
                assert(r[j - 1] == q[j]);
            }
        }
        assert(!queue_has_id(r, id)) by {
            if queue_has_id(r, id) {
                let j = choose|j: int| 0 <= j < r.len() && r[j].id == id;
                assert(q[j + 1] == r[j]);
                assert(q[j + 1].id == q[0].id);
            }
        }
        assert(queue_ids_unique(r)) by {
            assert forall|j: int, k: int|
                0 <= j < r.len() && 0 <= k < r.len() && #[trigger] r[j].id == #[trigger] r[k].id
                    implies j == k by {
                assert(q[j + 1] == r[j]);
                assert(q[k + 1] == r[k]);
            }
        }
        assert(0 <= 0 < q.len() && q[0].id == id);
        assert(queue_has_id(q, id));
    } else {
        let t = q.skip(1);
        assert(queue_ids_unique(t)) by {
            assert forall|j: int, k: int|
                0 <= j < t.len() && 0 <= k < t.len() && #[trigger] t[j].id == #[trigger] t[k].id
                    implies j == k by {
                assert(q[j + 1] == t[j]);
                assert(q[k + 1] == t[k]);
            }
        }
        lemma_queue_remove(t, id);
        let rt = queue_remove_id(t, id);
        assert(r == seq![q[0]] + rt);
        assert(forall|j: int| 0 <= j < rt.len() ==> r[j + 1] == #[trigger] rt[j]);
        assert(r[0] == q[0]);
        // membership of q vs t
        assert forall|id2: u128|
            id2 != q[0].id implies (#[trigger] queue_has_id(q, id2) <==> queue_has_id(t, id2)) by {
            if queue_has_id(q, id2) {
                let j = choose|j: int| 0 <= j < q.len() && q[j].id == id2;
                assert(j != 0);
                assert(t[j - 1] == q[j]);
            }
            if queue_has_id(t, id2) {
                let j = choose|j: int| 0 <= j < t.len() && t[j].id == id2;
                assert(q[j + 1] == t[j]);
            }
        }
        // membership of r vs rt
        assert forall|id2: u128|
            id2 != q[0].id implies (#[trigger] queue_has_id(r, id2) <==> queue_has_id(rt, id2)) by {
            if queue_has_id(r, id2) {
                let j = choose|j: int| 0 <= j < r.len() && r[j].id == id2;
                assert(j != 0);
                assert(rt[j - 1] == r[j]);
            }
            if queue_has_id(rt, id2) {
                let j = choose|j: int| 0 <= j < rt.len() && rt[j].id == id2;
                assert(r[j + 1] == rt[j]);
            }
        }
        assert(queue_has_id(r, q[0].id)) by {
            assert(0 <= 0 < r.len() && r[0].id == q[0].id);
        }
        assert(queue_has_id(q, q[0].id)) by {
            assert(0 <= 0 < q.len() && q[0].id == q[0].id);
        }
        if !queue_has_id(q, id) {
            assert(!queue_has_id(t, id));
            assert(rt == t);
            assert(r =~= q);
        } else {
            assert(queue_has_id(t, id));
            assert(queue_find_id(q, id) == queue_find_id(t, id));
            assert(exists|j: int| 0 <= j < q.len() && q[j] == queue_find_id(q, id)) by {
                let j = choose|j: int| 0 <= j < t.len() && t[j] == queue_find_id(t, id);
                assert(q[j + 1] == t[j]);
            }
        }
        assert(queue_ids_unique(r)) by {
            assert forall|j: int, k: int|
                0 <= j < r.len() && 0 <= k < r.len() && #[trigger] r[j].id == #[trigger] r[k].id
                    implies j == k by {
                if j == 0 && k > 0 {
                    assert(r[k] == rt[k - 1]);
                    assert(queue_has_id(rt, q[0].id));
                    if q[0].id != id {
                        assert(queue_has_id(t, q[0].id));
                        let m = choose|m: int| 0 <= m < t.len() && t[m].id == q[0].id;
                        assert(q[m + 1] == t[m]);
                    }
                } else if k == 0 && j > 0 {
                    assert(r[j] == rt[j - 1]);
                    assert(queue_has_id(rt, q[0].id));
                    if q[0].id != id {
                        assert(queue_has_id(t, q[0].id));
                        let m = choose|m: int| 0 <= m < t.len() && t[m].id == q[0].id;
                        assert(q[m + 1] == t[m]);
                    }
                } else if j > 0 && k > 0 {
                    assert(r[j] == rt[j - 1]);
                    assert(r[k] == rt[k - 1]);
                }
            }
        }
        assert forall|j: int| 0 <= j < r.len() implies (exists|k: int|
            0 <= k < q.len() && q[k] == #[trigger] r[j]) by {
            if j == 0 {
                assert(q[0] == r[0]);
            } else {
                assert(r[j] == rt[j - 1]);
                let k = choose|k: int| 0 <= k < t.len() && t[k] == rt[j - 1];
                assert(q[k + 1] == t[k]);
            }
        }
    }
}

/// What removing one order does to a well-formed side: every other
/// order keeps its place, the best price never improves, and the found
/// order was resting at its own limit price.
pub proof fn lemma_spec_remove(levels: Seq<LevelView>, id: u128, side: Side)
    requires
        side_wf(levels, side),
        forall|pr1: u64, pr2: u64|
            #[trigger] has_order_at(levels, id, pr1) && #[trigger] has_order_at(levels, id, pr2)
                ==> pr1 == pr2,
    ensures
        side_wf(spec_remove(levels, id), side),
        !has_order(levels, id) ==> spec_remove(levels, id) == levels,
        forall|id2: u128, pr: u64|
            id2 != id ==> (#[trigger] has_order_at(spec_remove(levels, id), id2, pr)
                <==> has_order_at(levels, id2, pr)),
        forall|id2: u128|
            id2 != id ==> (#[trigger] has_order(spec_remove(levels, id), id2) <==> has_order(
                levels,
                id2,
            )),
        !has_order(spec_remove(levels, id), id),
        spec_remove(levels, id).len() > 0 ==> levels.len() > 0 && !price_before(
            spec_remove(levels, id)[0].price,
            levels[0].price,
            is_buy(side),
        ),
        has_order(levels, id) ==> {
            let f = find_order(levels, id);
            &&& f.id == id
            &&& f.price is Some
            &&& order_ok(f, side, f.price->0)
            &&& has_order_at(levels, id, f.price->0)
        },
    decreases levels.len(),
{
    let r = spec_remove(levels, id);
    let buy = is_buy(side);
    if levels.len() == 0 {
        assert(!has_order(levels, id)) by {
            if has_order(levels, id) {
                let (i, j) = choose|i: int, j: int|
                    0 <= i < levels.len() && 0 <= j < levels[i].orders.len()
                        && levels[i].orders[j].id == id;
            }
        }
    } else if queue_has_id(levels[0].orders, id) {
        assert(level_wf(levels[0], side));
        lemma_queue_remove(levels[0].orders, id);
        let q2 = queue_remove_id(levels[0].orders, id);
        let t = levels.skip(1);
        assert(levels =~= seq![levels[0]] + t);
        assert(side_wf(t, side)) by {
            assert forall|i: int, j: int| 0 <= i < j < t.len() implies price_before(
                #[trigger] t[i].price,
                #[trigger] t[j].price,
                buy,
            ) by {
                assert(t[i] == levels[i + 1]);
                assert(t[j] == levels[j + 1]);
            }
            assert forall|i: int| 0 <= i < t.len() implies level_wf(#[trigger] t[i], side) by {
                assert(t[i] == levels[i + 1]);
            }
        }
        // the id is not in the tail: its price there would equal the head price
        assert(!has_order(t, id)) by {
            if has_order(t, id) {
                let (i, j) = choose|i: int, j: int|
                    0 <= i < t.len() && 0 <= j < t[i].orders.len() && t[i].orders[j].id == id;
                assert(t[i] == levels[i + 1]);
                assert(0 <= i + 1 < levels.len() && 0 <= j < levels[i + 1].orders.len() && levels[i
                    + 1].orders[j].id == id);
                assert(has_order_at(levels, id, levels[i + 1].price));
                let k = choose|k: int| 0 <= k < levels[0].orders.len() && levels[0].orders[k].id
                    == id;
                assert(has_order_at(levels, id, levels[0].price));
                assert(levels[i + 1].price == levels[0].price);
                assert(price_before(levels[0].price, levels[i + 1].price, buy));
            }
        }
        assert(has_order(levels, id)) by {
            let k = choose|k: int| 0 <= k < levels[0].orders.len() && levels[0].orders[k].id == id;
            assert(0 <= 0 < levels.len() && 0 <= k < levels[0].orders.len()
                && levels[0].orders[k].id == id);
        }
        // the found order
        let f = queue_find_id(levels[0].orders, id);
        assert(find_order(levels, id) == f);
        let kf = choose|k: int| 0 <= k < levels[0].orders.len() && levels[0].orders[k] == f;
        assert(order_ok(f, side, levels[0].price));
        assert(has_order_at(levels, id, f.price->0)) by {
            assert(0 <= 0 < levels.len() && 0 <= kf < levels[0].orders.len() && levels[0].price
                == f.price->0 && levels[0].orders[kf].id == id);
        }
        if q2.len() == 0 {
            assert(r == t);
            assert forall|id2: u128, pr: u64|
                id2 != id implies (#[trigger] has_order_at(r, id2, pr) <==> has_order_at(
                levels,
                id2,
                pr,
            )) by {
                lemma_has_order_at_cons(levels[0], t, id2, pr);
                if has_order_at(levels, id2, pr) && levels[0].price == pr && queue_has_id(
                    levels[0].orders,
                    id2,
                ) {
                    // the head queue held only the removed order
                    let j = choose|j: int| 0 <= j < levels[0].orders.len()
                        && levels[0].orders[j].id == id2;
                    assert(levels[0].orders.len() == 1);
                    let k = choose|k: int| 0 <= k < levels[0].orders.len()
                        && levels[0].orders[k].id == id;
                    assert(j == 0 && k == 0);
                }
            }
            assert forall|id2: u128|
                id2 != id implies (#[trigger] has_order(r, id2) <==> has_order(levels, id2)) by {
                lemma_has_order_cons(levels[0], t, id2);
                if has_order(levels, id2) && queue_has_id(levels[0].orders, id2) {
                    let j = choose|j: int| 0 <= j < levels[0].orders.len()
                        && levels[0].orders[j].id == id2;
                    assert(levels[0].orders.len() == 1);
                    let k = choose|k: int| 0 <= k < levels[0].orders.len()
                        && levels[0].orders[k].id == id;
                    assert(j == 0 && k == 0);
                }
                if has_order(t, id2) {
                    lemma_has_order_skip(levels, id2);
                }
            }
            if r.len() > 0 {
                assert(r[0] == levels[1]);
                assert(price_before(levels[0].price, levels[1].price, buy));
            }
        } else {
            let x = LevelView { price: levels[0].price, orders: q2 };
            assert(r == seq![x] + t);
            assert(level_wf(x, side)) by {
                assert forall|j: int| 0 <= j < q2.len() implies order_ok(
                    #[trigger] q2[j],
                    side,
                    x.price,
                ) by {
                    let k = choose|k: int| 0 <= k < levels[0].orders.len() && levels[0].orders[k]
                        == q2[j];
                }
            }
            assert forall|i: int, j: int| 0 <= i < j < r.len() implies price_before(
                #[trigger] r[i].price,
                #[trigger] r[j].price,
                buy,
            ) by {
                assert(r[j] == levels[j]);
                if i > 0 {
                    assert(r[i] == levels[i]);
                } else {
                    assert(r[0].price == levels[0].price);
                }
            }
            assert forall|i: int| 0 <= i < r.len() implies level_wf(#[trigger] r[i], side) by {
                if i > 0 {
                    assert(r[i] == levels[i]);
                }
            }
            assert forall|id2: u128, pr: u64|
                id2 != id implies (#[trigger] has_order_at(r, id2, pr) <==> has_order_at(
                levels,
                id2,
                pr,
            )) by {
                lemma_has_order_at_cons(x, t, id2, pr);
                lemma_has_order_at_cons(levels[0], t, id2, pr);
                assert((exists|j: int| 0 <= j < x.orders.len() && x.orders[j].id == id2)
                    <==> queue_has_id(q2, id2));
                assert((exists|j: int|
                    0 <= j < levels[0].orders.len() && levels[0].orders[j].id == id2)
                    <==> queue_has_id(levels[0].orders, id2));
                assert(queue_has_id(q2, id2) <==> queue_has_id(levels[0].orders, id2));
            }
            assert forall|id2: u128|
                id2 != id implies (#[trigger] has_order(r, id2) <==> has_order(levels, id2)) by {
                lemma_has_order_cons(x, t, id2);
                lemma_has_order_cons(levels[0], t, id2);
                assert((exists|j: int| 0 <= j < x.orders.len() && x.orders[j].id == id2)
                    <==> queue_has_id(q2, id2));
                assert((exists|j: int|
                    0 <= j < levels[0].orders.len() && levels[0].orders[j].id == id2)
                    <==> queue_has_id(levels[0].orders, id2));
                assert(queue_has_id(q2, id2) <==> queue_has_id(levels[0].orders, id2));
            }
            assert(!has_order(r, id)) by {
                lemma_has_order_cons(x, t, id);
            }
        }
    } else {
        let t = levels.skip(1);
        assert(levels =~= seq![levels[0]] + t);
        assert(side_wf(t, side)) by {
            assert forall|i: int, j: int| 0 <= i < j < t.len() implies price_before(
                #[trigger] t[i].price,
                #[trigger] t[j].price,
                buy,
            ) by {
                assert(t[i] == levels[i + 1]);
                assert(t[j] == levels[j + 1]);
            }
            assert forall|i: int| 0 <= i < t.len() implies level_wf(#[trigger] t[i], side) by {
                assert(t[i] == levels[i + 1]);
            }
        }
        assert forall|pr1: u64, pr2: u64| #[trigger]
            has_order_at(t, id, pr1) && #[trigger] has_order_at(t, id, pr2) implies pr1 == pr2 by {
            lemma_has_order_at_cons(levels[0], t, id, pr1);
            lemma_has_order_at_cons(levels[0], t, id, pr2);
        }
        lemma_spec_remove(t, id, side);
        let rt = spec_remove(t, id);
        assert(r == seq![levels[0]] + rt);
        // head membership in levels vs t
        assert forall|id2: u128|
            id2 != id implies (#[trigger] has_order(levels, id2) <==> (queue_has_id(
            levels[0].orders,
            id2,
        ) || has_order(t, id2))) by {
            lemma_has_order_cons(levels[0], t, id2);
        }
        assert(has_order(levels, id) <==> has_order(t, id)) by {
            lemma_has_order_cons(levels[0], t, id);
        }
        if !has_order(levels, id) {
            assert(rt == t);
            assert(r =~= levels);
        }
        // sortedness of the result
        assert forall|i: int| 0 <= i < rt.len() implies price_before(
            levels[0].price,
            #[trigger] rt[i].price,
            buy,
        ) by {
            if t.len() > 0 {
                assert(t[0] == levels[1]);
                assert(price_before(levels[0].price, t[0].price, buy));
            }
            if i > 0 {
                assert(price_before(rt[0].price, rt[i].price, buy));
            }
        }
        assert forall|i: int, j: int| 0 <= i < j < r.len() implies price_before(
            #[trigger] r[i].price,
            #[trigger] r[j].price,
            buy,
        ) by {
            assert(r[j] == rt[j - 1]);
            if i > 0 {
                assert(r[i] == rt[i - 1]);
            }
        }
        assert forall|i: int| 0 <= i < r.len() implies level_wf(#[trigger] r[i], side) by {
            if i > 0 {
                assert(r[i] == rt[i - 1]);
            } else {
                assert(r[0] == levels[0]);
                assert(level_wf(levels[0], side));
            }
        }
        assert forall|id2: u128, pr: u64|
            id2 != id implies (#[trigger] has_order_at(r, id2, pr) <==> has_order_at(
            levels,
            id2,
            pr,
        )) by {
            lemma_has_order_at_cons(levels[0], rt, id2, pr);
            lemma_has_order_at_cons(levels[0], t, id2, pr);
        }
        assert forall|id2: u128|
            id2 != id implies (#[trigger] has_order(r, id2) <==> has_order(levels, id2)) by {
            lemma_has_order_cons(levels[0], rt, id2);
            lemma_has_order_cons(levels[0], t, id2);
        }
        assert(!has_order(r, id)) by {
            lemma_has_order_cons(levels[0], rt, id);
        }
        if has_order(levels, id) {
            let f = find_order(t, id);
            assert(find_order(levels, id) == f);
            assert(has_order_at(levels, id, f.price->0)) by {
                lemma_has_order_at_cons(levels[0], t, id, f.price->0);
            }
        }
    }
}

/// Take the order of id `id` out of one FIFO queue, keeping every other
/// order in place.
fn queue_take(q: &mut std::collections::VecDeque<Order>, id: u128) -> (r: Option<Order>)
    ensures
        final(q)@ == queue_remove_id(old(q)@, id),
        r matches Some(o) ==> queue_has_id(old(q)@, id) && o == queue_find_id(old(q)@, id),
        r is None ==> !queue_has_id(old(q)@, id) && final(q)@ == old(q)@,
    decreases old(q)@.len(),
{
    if q.len() == 0 {
        proof {
            if queue_has_id(q@, id) {
                let j = choose|j: int| 0 <= j < q@.len() && q@[j].id == id;
            }
        }
        Option::None
    } else {
        let front = match q.pop_front() {
            Option::Some(o) => o,
            Option::None => vstd::pervasive::unreached(),
        };
        if front.id == id {
            proof {
                assert(0 <= 0 < old(q)@.len() && old(q)@[0].id == id);
            }
            Option::Some(front)
        } else {
            let r = queue_take(q, id);
            q.push_front(front);
            proof {
                assert(q@ =~= seq![old(q)@[0]] + queue_remove_id(old(q)@.skip(1), id));
                if r is None {
                    assert(q@ =~= old(q)@);
                    if queue_has_id(old(q)@, id) {
                        let j = choose|j: int| 0 <= j < old(q)@.len() && old(q)@[j].id == id;
                        assert(j != 0);
                        assert(old(q)@.skip(1)[j - 1] == old(q)@[j]);
                        assert(queue_has_id(old(q)@.skip(1), id));
                    }
                } else {
                    let j = choose|j: int|
                        0 <= j < old(q)@.skip(1).len() && old(q)@.skip(1)[j].id == id;
                    assert(old(q)@[j + 1] == old(q)@.skip(1)[j]);
                    assert(queue_has_id(old(q)@, id));
                }
            }
            r
        }
    }
}

/// Take the order of id `id` out of one side, dropping its level when
/// the removal empties it.
fn remove_from_levels(levels: &mut Vec<Level>, id: u128) -> (r: Option<Order>)
    ensures
        side_view(final(levels)@) == spec_remove(side_view(old(levels)@), id),
        r matches Some(o) ==> has_order(side_view(old(levels)@), id) && o == find_order(
            side_view(old(levels)@),
            id,
        ),
        r is None ==> !has_order(side_view(old(levels)@), id),
    decreases old(levels)@.len(),
{
    let ghost pre = side_view(levels@);
    if levels.len() == 0 {
        proof {
            if has_order(pre, id) {
                let (i, j) = choose|i: int, j: int|
                    0 <= i < pre.len() && 0 <= j < pre[i].orders.len() && pre[i].orders[j].id
                        == id;
            }
        }
        Option::None
    } else {
        let mut first = levels.remove(0);
        let taken = queue_take(&mut first.orders, id);
        match taken {
            Option::Some(o) => {
                proof {
                    assert(pre[0].orders == old(levels)@[0].orders@);
                    assert(queue_has_id(pre[0].orders, id));
                }
                if first.orders.len() == 0 {
                    proof {
                        assert(side_view(levels@) =~~= pre.skip(1));
                        assert(side_view(levels@) =~~= spec_remove(pre, id));
                    }
                } else {
                    levels.insert(0, first);
                    proof {
                        assert(side_view(levels@) =~~= seq![
                            LevelView {
                                price: pre[0].price,
                                orders: queue_remove_id(pre[0].orders, id),
                            },
                        ] + pre.skip(1));
                        assert(side_view(levels@) =~~= spec_remove(pre, id));
                    }
                }
                Option::Some(o)
            },
            Option::None => {
                let r = remove_from_levels(levels, id);
                levels.insert(0, first);
                proof {
                    let t = pre.skip(1);
                    assert(side_view(old(levels)@.remove(0)) =~~= t);
                    assert(side_view(levels@) =~~= seq![pre[0]] + spec_remove(t, id));
                    assert(side_view(levels@) =~~= spec_remove(pre, id));
                    assert(pre =~= seq![pre[0]] + t);
                    assert((exists|j: int|
                        0 <= j < pre[0].orders.len() && pre[0].orders[j].id == id)
                        <==> queue_has_id(pre[0].orders, id));
                    if r is None {
                        lemma_has_order_cons(pre[0], t, id);
                    } else {
                        assert(has_order(t, id));
                        lemma_has_order_cons(pre[0], t, id);
                        assert(find_order(pre, id) == find_order(t, id));
                    }
                }
                r
            },
        }
    }
}

/// What cancelling id `order_id` means: an unknown id changes nothing
/// and returns nothing; a resting order leaves its queue and the index
/// and comes back cancelled, fill state intact.
pub open spec fn cancel_post(pre: OrderBook, post: OrderBook, order_id: u128, r: Option<Order>) -> bool {
    &&& post.symbol@ == pre.symbol@
    &&& post.spec_sequence() == pre.spec_sequence()
    &&& post.sequence_manager == pre.sequence_manager
    &&& (!pre.order_index@.contains_key(order_id) ==> r is None && post == pre)
    &&& (pre.order_index@.contains_key(order_id) ==> (r matches Some(o) && {
        let side = pre.order_index@[order_id].0;
        let f = find_order(
            if side is Buy {
                pre.bids_v()
            } else {
                pre.asks_v()
            },
            order_id,
        );
        &&& o.id == order_id
        &&& o.status is Cancelled
        &&& crate::types::same_identity(o, f)
        &&& o.filled_quantity == f.filled_quantity
        &&& o.remaining_quantity == f.remaining_quantity
        &&& post.order_index@ == pre.order_index@.remove(order_id)
        &&& (side is Buy ==> post.bids_v() == spec_remove(pre.bids_v(), order_id) && post.asks_v()
            == pre.asks_v())
        &&& (side is Sell ==> post.asks_v() == spec_remove(pre.asks_v(), order_id) && post.bids_v()
            == pre.bids_v())
    }))
}

impl OrderBook {
    /// Cancel an existing order: remove it from its price level and from
    /// the id index, and hand it back in `Cancelled` status with its fill
    /// state preserved. A second call for the same id finds nothing.
    pub fn cancel_order(&mut self, order_id: u128) -> (r: Result<Option<Order>, String>)
        requires
            old(self).well_formed(),
        ensures
            r is Ok,
            final(self).well_formed(),
            r matches Ok(x) && cancel_post(*old(self), *final(self), order_id, x),
    {
        let looked_up: Option<(Side, u64)> = match self.order_index.get(&order_id) {
            Option::Some(entry) => Option::Some(*entry),
            Option::None => Option::None,
        };
        match looked_up {
            Option::None => Result::Ok(Option::None),
            Option::Some((side, _price)) => {
                let ghost pre = *self;
                let is_b = matches!(side, Side::Buy);
                proof {
                    let lv = if is_b {
                        pre.bids_v()
                    } else {
                        pre.asks_v()
                    };
                    assert(has_order_at(lv, order_id, pre.order_index@[order_id].1));
                    lemma_has_order_at_implies(lv, order_id, pre.order_index@[order_id].1);
                    assert forall|pr1: u64, pr2: u64| #[trigger]
                        has_order_at(lv, order_id, pr1) && #[trigger] has_order_at(
                        lv,
                        order_id,
                        pr2,
                    ) implies pr1 == pr2 by {}
                    if is_b {
                        lemma_spec_remove(pre.bids_v(), order_id, Side::Buy);
                    } else {
                        lemma_spec_remove(pre.asks_v(), order_id, Side::Sell);
                    }
                }
                self.order_index.remove(&order_id);
                let taken = if is_b {
                    remove_from_levels(&mut self.bids, order_id)
                } else {
                    remove_from_levels(&mut self.asks, order_id)
                };
                let mut o = match taken {
                    Option::Some(o) => o,
                    Option::None => vstd::pervasive::unreached(),
                };
                o.cancel();
                proof {
                    let post = *self;
                    let lv = if is_b {
                        pre.bids_v()
                    } else {
                        pre.asks_v()
                    };
                    let rv = spec_remove(lv, order_id);
                    // index coherence of the shrunken book
                    if is_b {
                        assert forall|id2: u128, pr: u64| #[trigger]
                            has_order_at(post.bids_v(), id2, pr) implies post.order_index@
                            .contains_key(id2) && post.order_index@[id2] == (Side::Buy, pr) by {
                            assert(id2 != order_id);
                            assert(has_order_at(pre.bids_v(), id2, pr));
                        }
                        assert forall|id2: u128, pr: u64| #[trigger]
                            has_order_at(post.asks_v(), id2, pr) implies post.order_index@
                            .contains_key(id2) && post.order_index@[id2] == (Side::Sell, pr) by {
                            assert(has_order_at(pre.asks_v(), id2, pr));
                            assert(id2 != order_id);
                        }
                        assert forall|id2: u128| #[trigger]
                            post.order_index@.contains_key(id2) implies {
                            if post.order_index@[id2].0 is Buy {
                                has_order_at(post.bids_v(), id2, post.order_index@[id2].1)
                            } else {
                                has_order_at(post.asks_v(), id2, post.order_index@[id2].1)
                            }
                        } by {
                            assert(id2 != order_id);
                            assert(pre.order_index@.contains_key(id2));
                            if pre.order_index@[id2].0 is Buy {
                                assert(has_order_at(pre.bids_v(), id2, pre.order_index@[id2].1));
                            } else {
                                assert(has_order_at(pre.asks_v(), id2, pre.order_index@[id2].1));
                            }
                        }
                        assert(post.uncrossed()) by {
                            if post.bids_v().len() > 0 && post.asks_v().len() > 0 {
                                assert(!price_before(
                                    post.bids_v()[0].price,
                                    pre.bids_v()[0].price,
                                    true,
                                ));
                            }
                        }
                        assert(post.well_formed());
                    } else {
                        assert forall|id2: u128, pr: u64| #[trigger]
                            has_order_at(post.asks_v(), id2, pr) implies post.order_index@
                            .contains_key(id2) && post.order_index@[id2] == (Side::Sell, pr) by {
                            assert(id2 != order_id);
                            assert(has_order_at(pre.asks_v(), id2, pr));
                        }
                        assert forall|id2: u128, pr: u64| #[trigger]
                            has_order_at(post.bids_v(), id2, pr) implies post.order_index@
                            .contains_key(id2) && post.order_index@[id2] == (Side::Buy, pr) by {
                            assert(has_order_at(pre.bids_v(), id2, pr));
                            assert(id2 != order_id);
                        }
                        assert forall|id2: u128| #[trigger]
                            post.order_index@.contains_key(id2) implies {
                            if post.order_index@[id2].0 is Buy {
                                has_order_at(post.bids_v(), id2, post.order_index@[id2].1)
                            } else {
                                has_order_at(post.asks_v(), id2, post.order_index@[id2].1)
                            }
                        } by {
                            assert(id2 != order_id);
                            assert(pre.order_index@.contains_key(id2));
                            if pre.order_index@[id2].0 is Buy {
                                assert(has_order_at(pre.bids_v(), id2, pre.order_index@[id2].1));
                            } else {
                                assert(has_order_at(pre.asks_v(), id2, pre.order_index@[id2].1));
                            }
                        }
                        assert(post.uncrossed()) by {
                            if post.bids_v().len() > 0 && post.asks_v().len() > 0 {
                                assert(!price_before(
                                    post.asks_v()[0].price,
                                    pre.asks_v()[0].price,
                                    false,
                                ));
                            }
                        }
                        assert(post.well_formed());
                    }
                }
                Result::Ok(Option::Some(o))
            },
        }
    }
}

/// Total remaining quantity of a queue.
pub open spec fn qty_sum(q: Seq<Order>) -> int
    decreases q.len(),
{
    if q.len() == 0 {
        0
    } else {
        q[0].remaining_quantity + qty_sum(q.skip(1))
    }
}

/// Whether a maker level at `price` is reachable by a taker bounded by
/// `limit` (no bound for market orders).
pub open spec fn crossable(price: u64, limit: Option<u64>, buy_taker: bool) -> bool {
    match limit {
        Option::None => true,
        Option::Some(l) => if buy_taker {
            price <= l
        } else {
            price >= l
        },
    }
}

/// Liquidity available to a taker bounded by `limit`: the total
/// remaining quantity over all crossable levels.
pub open spec fn avail_qty(levels: Seq<LevelView>, limit: Option<u64>, buy_taker: bool) -> int
    decreases levels.len(),
{
    if levels.len() == 0 {
        0
    } else {
        (if crossable(levels[0].price, limit, buy_taker) {
            qty_sum(levels[0].orders)
        } else {
            0
        }) + avail_qty(levels.skip(1), limit, buy_taker)
    }
}

/// A well-formed side stays well-formed when its best level is dropped.
pub proof fn lemma_side_wf_skip(levels: Seq<LevelView>, side: Side)
    requires
        side_wf(levels, side),
        levels.len() > 0,
    ensures
        side_wf(levels.skip(1), side),
{
    let t = levels.skip(1);
    assert forall|i: int, j: int| 0 <= i < j < t.len() implies price_before(
        #[trigger] t[i].price,
        #[trigger] t[j].price,
        is_buy(side),
    ) by {
        assert(t[i] == levels[i + 1]);
        assert(t[j] == levels[j + 1]);
    }
    assert forall|i: int| 0 <= i < t.len() implies level_wf(#[trigger] t[i], side) by {
        assert(t[i] == levels[i + 1]);
    }
}

/// A well-formed level in front of a well-formed side whose head it
/// beats makes a well-formed side.
pub proof fn lemma_side_wf_cons(x: LevelView, t: Seq<LevelView>, side: Side)
    requires
        level_wf(x, side),
        side_wf(t, side),
        t.len() > 0 ==> price_before(x.price, t[0].price, is_buy(side)),
    ensures
        side_wf(seq![x] + t, side),
{
    let s = seq![x] + t;
    assert(s[0] == x);
    assert forall|i: int, j: int| 0 <= i < j < s.len() implies price_before(
        #[trigger] s[i].price,
        #[trigger] s[j].price,
        is_buy(side),
    ) by {
        assert(s[j] == t[j - 1]);
        if i > 0 {
            assert(s[i] == t[i - 1]);
        } else {
            if j - 1 > 0 {
                assert(price_before(t[0].price, t[j - 1].price, is_buy(side)));
            }
        }
    }
    assert forall|i: int| 0 <= i < s.len() implies level_wf(#[trigger] s[i], side) by {
        if i > 0 {
            assert(s[i] == t[i - 1]);
        }
    }
}

/// Unfolds queue membership over a queue split into head and tail.
pub proof fn lemma_queue_has_cons(x: Order, t: Seq<Order>, id: u128)
    ensures
        queue_has_id(seq![x] + t, id) <==> (x.id == id || queue_has_id(t, id)),
{
    let s = seq![x] + t;
    assert(s[0] == x);
    if queue_has_id(s, id) {
        let j = choose|j: int| 0 <= j < s.len() && s[j].id == id;
        if j > 0 {
            assert(t[j - 1] == s[j]);
            assert(0 <= j - 1 < t.len() && t[j - 1].id == id);
        }
    }
    if x.id == id {
        assert(0 <= 0 < s.len() && s[0].id == id);
    }
    if queue_has_id(t, id) {
        let j = choose|j: int| 0 <= j < t.len() && t[j].id == id;
        assert(s[j + 1] == t[j]);
        assert(0 <= j + 1 < s.len() && s[j + 1].id == id);
    }
}

/// Number of resting orders on one side.
pub open spec fn count_orders(levels: Seq<LevelView>) -> int
    decreases levels.len(),
{
    if levels.len() == 0 {
        0
    } else {
        levels[0].orders.len() + count_orders(levels.skip(1))
    }
}

pub proof fn lemma_count_orders_nonneg(levels: Seq<LevelView>)
    ensures
        count_orders(levels) >= 0,
    decreases levels.len(),
{
    if levels.len() > 0 {
        lemma_count_orders_nonneg(levels.skip(1));
    }
}

pub proof fn lemma_count_orders_cons(x: LevelView, t: Seq<LevelView>)
    ensures
        count_orders(seq![x] + t) == x.orders.len() + count_orders(t),
{
    let s = seq![x] + t;
    assert(s[0] == x);
    assert(s.skip(1) =~= t);
}

pub proof fn lemma_qty_sum_nonneg(q: Seq<Order>)
    ensures
        qty_sum(q) >= 0,
    decreases q.len(),
{
    if q.len() > 0 {
        lemma_qty_sum_nonneg(q.skip(1));
    }
}

pub proof fn lemma_qty_sum_push(q: Seq<Order>, x: Order)
    ensures
        qty_sum(q.push(x)) == qty_sum(q) + x.remaining_quantity,
    decreases q.len(),
{
    if q.len() == 0 {
        assert(q.push(x)[0] == x);
        assert(q.push(x).skip(1) =~= Seq::<Order>::empty());
        assert(qty_sum(Seq::<Order>::empty()) == 0);
        assert(qty_sum(q.push(x)) == x.remaining_quantity + qty_sum(q.push(x).skip(1)));
    } else {
        assert(q.push(x)[0] == q[0]);
        assert(q.push(x).skip(1) =~= q.skip(1).push(x));
        lemma_qty_sum_push(q.skip(1), x);
        assert(qty_sum(q.push(x)) == q[0].remaining_quantity + qty_sum(q.push(x).skip(1)));
        assert(qty_sum(q) == q[0].remaining_quantity + qty_sum(q.skip(1)));
    }
}

pub proof fn lemma_qty_sum_cons(x: Order, t: Seq<Order>)
    ensures
        qty_sum(seq![x] + t) == x.remaining_quantity + qty_sum(t),
{
    let s = seq![x] + t;
    assert(s[0] == x);
    assert(s.skip(1) =~= t);
}

pub proof fn lemma_avail_nonneg(levels: Seq<LevelView>, limit: Option<u64>, buy_taker: bool)
    ensures
        avail_qty(levels, limit, buy_taker) >= 0,
    decreases levels.len(),
{
    if levels.len() > 0 {
        lemma_avail_nonneg(levels.skip(1), limit, buy_taker);
        lemma_qty_sum_nonneg(levels[0].orders);
    }
}

pub proof fn lemma_avail_cons(x: LevelView, t: Seq<LevelView>, limit: Option<u64>, buy_taker: bool)
    ensures
        avail_qty(seq![x] + t, limit, buy_taker) == (if crossable(x.price, limit, buy_taker) {
            qty_sum(x.orders)
        } else {
            0
        }) + avail_qty(t, limit, buy_taker),
{
    let s = seq![x] + t;
    assert(s[0] == x);
    assert(s.skip(1) =~= t);
}

/// In a well-formed level, remaining quantities are bounded by
/// `MAX_AMOUNT`, so a queue's total is bounded by its length.
pub proof fn lemma_qty_sum_le(q: Seq<Order>, side: Side, price: u64)
    requires
        forall|j: int| 0 <= j < q.len() ==> order_ok(#[trigger] q[j], side, price),
    ensures
        qty_sum(q) <= q.len() * (MAX_AMOUNT as int),
    decreases q.len(),
{
    if q.len() > 0 {
        assert forall|j: int| 0 <= j < q.skip(1).len() implies order_ok(
            #[trigger] q.skip(1)[j],
            side,
            price,
        ) by {
            assert(q.skip(1)[j] == q[j + 1]);
        }
        lemma_qty_sum_le(q.skip(1), side, price);
        assert(q[0].remaining_quantity <= MAX_AMOUNT);
        assert(q.len() * (MAX_AMOUNT as int) == (MAX_AMOUNT as int) + (q.len() - 1) * (
        MAX_AMOUNT as int)) by (nonlinear_arith);
    }
}

/// Crossable liquidity is bounded by the number of resting orders times
/// the largest representable amount.
pub proof fn lemma_avail_le(levels: Seq<LevelView>, limit: Option<u64>, buy_taker: bool, side: Side)
    requires
        side_wf(levels, side),
    ensures
        avail_qty(levels, limit, buy_taker) <= count_orders(levels) * (MAX_AMOUNT as int),
    decreases levels.len(),
{
    if levels.len() > 0 {
        lemma_side_wf_skip(levels, side);
        lemma_avail_le(levels.skip(1), limit, buy_taker, side);
        assert(level_wf(levels[0], side));
        lemma_qty_sum_le(levels[0].orders, side, levels[0].price);
        lemma_qty_sum_nonneg(levels[0].orders);
        lemma_count_orders_nonneg(levels.skip(1));
        assert(count_orders(levels) * (MAX_AMOUNT as int) == levels[0].orders.len() * (
        MAX_AMOUNT as int) + count_orders(levels.skip(1)) * (MAX_AMOUNT as int))
            by (nonlinear_arith)
            requires
                count_orders(levels) == levels[0].orders.len() + count_orders(levels.skip(1)),
        ;
    }
}

/// Total remaining quantity over the levels from `idx` on that a taker
/// bounded by `limit` can reach.
pub(crate) fn liquidity_from(
    levels: &Vec<Level>,
    idx: usize,
    limit: Option<u64>,
    buy_taker: bool,
    side: Side,
) -> (r: u128)
    requires
        idx <= levels@.len(),
        side_wf(side_view(levels@), side),
        count_orders(side_view(levels@)) <= u64::MAX,
    ensures
        r == avail_qty(side_view(levels@).skip(idx as int), limit, buy_taker),
    decreases levels@.len() - idx,
{
    let ghost whole = side_view(levels@);
    if idx >= levels.len() {
        proof {
            assert(whole.skip(idx as int) =~= Seq::<LevelView>::empty());
        }
        0
    } else {
        let lvl = &levels[idx];
        let crossing = match limit {
            Option::None => true,
            Option::Some(l) => if buy_taker {
                lvl.price <= l
            } else {
                lvl.price >= l
            },
        };
        let here: u128 = if crossing {
            level_total(lvl)
        } else {
            0
        };
        let rest = liquidity_from(levels, idx + 1, limit, buy_taker, side);
        proof {
            let tail = whole.skip(idx as int);
            assert(tail[0] == whole[idx as int]);
            assert(tail.skip(1) =~= whole.skip(idx as int + 1));
            lemma_avail_cons(tail[0], tail.skip(1), limit, buy_taker);
            assert(tail =~= seq![tail[0]] + tail.skip(1));
            // bound the sum so the addition cannot overflow
            lemma_avail_le(whole, limit, buy_taker, side);
            lemma_count_orders_nonneg(whole);
            assert forall|k: int|
                0 <= k <= whole.len() implies avail_qty(whole.skip(k), limit, buy_taker)
                <= avail_qty(whole, limit, buy_taker) by {
                lemma_avail_skip_le(whole, k, limit, buy_taker);
            }
            assert(count_orders(whole) * (MAX_AMOUNT as int) <= (u64::MAX as int) * (
            MAX_AMOUNT as int)) by (nonlinear_arith)
                requires
                    0 <= count_orders(whole) <= u64::MAX as int,
            ;
            assert((u64::MAX as int) * (MAX_AMOUNT as int) < u128::MAX) by (nonlinear_arith);
            lemma_avail_nonneg(whole.skip(idx as int + 1), limit, buy_taker);
            lemma_qty_sum_nonneg(tail[0].orders);
        }
        here + rest
    }
}

/// Dropping levels from the front never increases the crossable
/// liquidity.
pub proof fn lemma_avail_skip_le(
    levels: Seq<LevelView>,
    k: int,
    limit: Option<u64>,
    buy_taker: bool,
)
    requires
        0 <= k <= levels.len(),
    ensures
        avail_qty(levels.skip(k), limit, buy_taker) <= avail_qty(levels, limit, buy_taker),
    decreases k,
{
    if k > 0 {
        lemma_avail_skip_le(levels.skip(1), k - 1, limit, buy_taker);
        assert(levels.skip(1).skip(k - 1) =~= levels.skip(k));
        assert(levels =~= seq![levels[0]] + levels.skip(1));
        lemma_avail_cons(levels[0], levels.skip(1), limit, buy_taker);
        lemma_qty_sum_nonneg(levels[0].orders);
    } else {
        assert(levels.skip(0) =~= levels);
    }
}

/// When the best level of a sorted maker side is out of a taker's
/// reach, every level is, and no liquidity is available.
pub proof fn lemma_avail_sorted_zero(
    levels: Seq<LevelView>,
    limit: Option<u64>,
    buy_taker: bool,
    side: Side,
)
    requires
        side_wf(levels, side),
        is_buy(side) == !buy_taker,
        levels.len() > 0,
        !crossable(levels[0].price, limit, buy_taker),
    ensures
        avail_qty(levels, limit, buy_taker) == 0,
    decreases levels.len(),
{
    let t = levels.skip(1);
    lemma_side_wf_skip(levels, side);
    assert(levels =~= seq![levels[0]] + t);
    lemma_avail_cons(levels[0], t, limit, buy_taker);
    if t.len() > 0 {
        assert(t[0] == levels[1]);
        assert(price_before(levels[0].price, levels[1].price, is_buy(side)));
        lemma_avail_sorted_zero(t, limit, buy_taker, side);
    }
}

/// Total remaining quantity resting at one price level.
fn level_total(lvl: &Level) -> (r: u128)
    ensures
        r == qty_sum(lvl.orders@),
{
    let mut acc: u128 = 0;
    let mut j: usize = 0;
    let n = lvl.orders.len();
    proof {
        assert(lvl.orders@.take(0) =~= Seq::<Order>::empty());
    }
    while j < n
        invariant
            0 <= j <= n,
            n == lvl.orders@.len(),
            acc == qty_sum(lvl.orders@.take(j as int)),
            acc <= j * (u64::MAX as int),
        decreases n - j,
    {
        let o = &lvl.orders[j];
        proof {
            assert(lvl.orders@.take(j + 1) =~= lvl.orders@.take(j as int).push(lvl.orders@[
                j as int]));
            lemma_qty_sum_push(lvl.orders@.take(j as int), lvl.orders@[j as int]);
            assert((j + 1) * (u64::MAX as int) == j * (u64::MAX as int) + u64::MAX) by (nonlinear_arith);
            assert((j + 1) * (u64::MAX as int) <= u128::MAX) by (nonlinear_arith)
                requires
                    0 <= j,
                    j + 1 <= u64::MAX as int,
            ;
        }
        acc = acc + (o.remaining_quantity as u128);
        j = j + 1;
    }
    proof {
        assert(lvl.orders@.take(n as int) =~= lvl.orders@);
    }
    acc
}

impl OrderBook {
    /// Aggregated depth: up to `depth` levels per side, best first, each
    /// as (price, total remaining quantity at that price).
    pub fn get_depth(&self, depth: usize) -> (r: (Vec<(u64, u128)>, Vec<(u64, u128)>))
        requires
            self.well_formed(),
        ensures
            r.0@.len() == (if depth < self.bids_v().len() {
                depth as int
            } else {
                self.bids_v().len() as int
            }),
            r.1@.len() == (if depth < self.asks_v().len() {
                depth as int
            } else {
                self.asks_v().len() as int
            }),
            forall|i: int|
                0 <= i < r.0@.len() ==> (#[trigger] r.0@[i]).0 == self.bids_v()[i].price
                    && r.0@[i].1 == qty_sum(self.bids_v()[i].orders),
            forall|i: int|
                0 <= i < r.1@.len() ==> (#[trigger] r.1@[i]).0 == self.asks_v()[i].price
                    && r.1@[i].1 == qty_sum(self.asks_v()[i].orders),
    {
        let mut bids_out: Vec<(u64, u128)> = Vec::new();
        let nb = if depth < self.bids.len() {
            depth
        } else {
            self.bids.len()
        };
        let mut i: usize = 0;
        while i < nb
            invariant
                0 <= i <= nb,
                nb <= self.bids@.len(),
                bids_out@.len() == i,
                forall|k: int|
                    0 <= k < i ==> (#[trigger] bids_out@[k]).0 == self.bids_v()[k].price
                        && bids_out@[k].1 == qty_sum(self.bids_v()[k].orders),
            decreases nb - i,
        {
            let lvl = &self.bids[i];
            let total = level_total(lvl);
            bids_out.push((lvl.price, total));
            i = i + 1;
        }
        let mut asks_out: Vec<(u64, u128)> = Vec::new();
        let na = if depth < self.asks.len() {
            depth
        } else {
            self.asks.len()
        };
        let mut j: usize = 0;
        while j < na
            invariant
                0 <= j <= na,
                na <= self.asks@.len(),
                asks_out@.len() == j,
                forall|k: int|
                    0 <= k < j ==> (#[trigger] asks_out@[k]).0 == self.asks_v()[k].price
                        && asks_out@[k].1 == qty_sum(self.asks_v()[k].orders),
            decreases na - j,
        {
            let lvl = &self.asks[j];
            let total = level_total(lvl);
            asks_out.push((lvl.price, total));
            j = j + 1;
        }
        (bids_out, asks_out)
    }
}


/// The validation verdict on an order submitted to `book`: the message
/// of the first failing rule, or nothing when the order is acceptable.
pub open spec fn validate_err(book: OrderBook, o: Order) -> Option<Seq<char>> {
    if o.symbol@ != book.symbol@ {
        Option::Some("Order symbol does not match orderbook"@)
    } else if o.quantity == 0 {
        Option::Some("Order quantity must be positive"@)
    } else if o.quantity > MAX_AMOUNT {
        Option::Some("Order quantity exceeds maximum"@)
    } else if o.price matches Option::Some(p) && p == 0 {
        Option::Some("Order price must be positive"@)
    } else if o.price matches Option::Some(p) && p > MAX_AMOUNT {
        Option::Some("Order price exceeds maximum"@)
    } else if o.post_only && o.price is None {
        Option::Some("Post-only orders must have a price"@)
    } else if o.order_type is Limit && o.price is None {
        Option::Some("Limit orders must have a price"@)
    } else if book.order_index@.contains_key(o.id) {
        Option::Some("Duplicate order id"@)
    } else {
        Option::None
    }
}

impl OrderBook {
    /// The book as it stands right after stamping one event.
    pub open spec fn spec_stamped(self) -> OrderBook {
        OrderBook { sequence_manager: self.sequence_manager.spec_bumped(), ..self }
    }

    /// Validate an order before matching.
    fn validate_order(&self, order: &Order) -> (r: Result<(), String>)
        ensures
            match validate_err(*self, *order) {
                Option::Some(m) => r matches Err(e) && e@ == m,
                Option::None => r is Ok,
            },
    {
        if !(order.symbol == self.symbol) {
            return Result::Err(String::from_str("Order symbol does not match orderbook"));
        }
        if order.quantity == 0 {
            return Result::Err(String::from_str("Order quantity must be positive"));
        }
        if order.quantity > MAX_AMOUNT {
            return Result::Err(String::from_str("Order quantity exceeds maximum"));
        }
        match order.price {
            Option::Some(p) => {
                if p == 0 {
                    return Result::Err(String::from_str("Order price must be positive"));
                }
                if p > MAX_AMOUNT {
                    return Result::Err(String::from_str("Order price exceeds maximum"));
                }
            },
            Option::None => {
                if order.post_only {
                    return Result::Err(String::from_str("Post-only orders must have a price"));
                }
                if matches!(order.order_type, OrderType::Limit) {
                    return Result::Err(String::from_str("Limit orders must have a price"));
                }
            },
        }
        if self.order_index.contains_key(&order.id) {
            return Result::Err(String::from_str("Duplicate order id"));
        }
        Result::Ok(())
    }

    /// Submit a new order: stamp it with the next sequence id, validate
    /// it, and run it through price-time priority matching. Validation
    /// failure rejects the order and leaves the book as it was, apart
    /// from the sequence id the submission consumed.
    pub fn submit_order(&mut self, order: Order) -> (r: Result<MatchResult, String>)
        requires
            old(self).well_formed(),
            order.status is New,
            order.filled_quantity == 0,
            order.remaining_quantity == order.quantity,
            old(self).spec_sequence() < u64::MAX,
            old(self).spec_sequence() + 1 + count_orders(old(self).bids_v()) + count_orders(
                old(self).asks_v(),
            ) <= u64::MAX,
        ensures
            final(self).well_formed(),
            final(self).symbol@ == old(self).symbol@,
            final(self).sequence_manager.spec_interval() == old(
                self,
            ).sequence_manager.spec_interval(),
            ({
                let stamped = (Order { sequence_id: old(self).spec_sequence(), ..order });
                match validate_err(*old(self), order) {
                    Option::Some(m) => {
                        &&& r matches Ok(mr) && mr matches MatchResult::Rejected(e) && e@ == m
                        &&& final(self).bids_v() == old(self).bids_v()
                        &&& final(self).asks_v() == old(self).asks_v()
                        &&& final(self).order_index@ == old(self).order_index@
                        &&& final(self).spec_sequence() == old(self).spec_sequence() + 1
                    },
                    Option::None => r matches Ok(mr) && match_post(
                        old(self).spec_stamped(),
                        *final(self),
                        stamped,
                        mr,
                    ),
                }
            }),
    {
        let ghost pre = *self;
        let mut order = order;
        let seq = self.sequence_manager.next();
        order.sequence_id = seq;
        let ghost mid = *self;
        let ghost stamped = order;
        proof {
            pre.sequence_manager.lemma_bumped();
            assert(mid == pre.spec_stamped());
            assert(mid.well_formed());
        }
        match self.validate_order(&order) {
            Result::Err(e) => {
                proof {
                    assert(validate_err(mid, stamped) == validate_err(pre, (Order {
                        sequence_id: pre.spec_sequence(),
                        ..stamped
                    })));
                }
                Result::Ok(MatchResult::Rejected(e))
            },
            Result::Ok(()) => {
                proof {
                    assert(validate_err(mid, stamped) is None);
                    lemma_count_orders_nonneg(pre.bids_v());
                    lemma_count_orders_nonneg(pre.asks_v());
                }
                let matching_engine = MatchingEngine::new();
                let result = matching_engine.match_order(self, order);
                result
            },
        }
    }
}

} // verus!
