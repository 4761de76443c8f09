//! Snapshots for crash recovery: a book is flattened into plain order
//! lists (the level structure is implicit in each order's limit price),
//! and rebuilding by sorted insertion reproduces the book exactly —
//! [`lemma_side_roundtrip`] proves it. Serialization of the flat lists
//! and file handling live outside the core.

use vstd::prelude::*;

use crate::orderbook::{
    has_order, has_order_at, is_buy, lemma_has_order_at_implies, lemma_side_wf_skip,
    lemma_spec_insert, level_wf, order_ok, price_before, queue_has_id, side_view, side_wf,
    spec_insert, Level, LevelView, OrderBook,
};
use crate::sequence::SequenceManager;
use crate::types::{order_like, Order, Side, MAX_AMOUNT};

verus! {

/// One side of a book, flattened to its orders in level order and FIFO
/// order within each level.
pub open spec fn flatten(levels: Seq<LevelView>) -> Seq<Order>
    decreases levels.len(),
{
    if levels.len() == 0 {
        Seq::<Order>::empty()
    } else {
        levels[0].orders + flatten(levels.skip(1))
    }
}

/// Insert the orders of `os` into the side `acc`, one after the other.
pub open spec fn fold_insert(acc: Seq<LevelView>, os: Seq<Order>, buy: bool) -> Seq<LevelView>
    decreases os.len(),
{
    if os.len() == 0 {
        acc
    } else {
        fold_insert(spec_insert(acc, os[0], buy), os.skip(1), buy)
    }
}

/// Splitting a sorted side keeps both halves sorted.
pub proof fn lemma_side_wf_split(done: Seq<LevelView>, rest: Seq<LevelView>, side: Side)
    requires
        side_wf(done + rest, side),
    ensures
        side_wf(done, side),
        side_wf(rest, side),
{
    let s = done + rest;
    assert forall|i: int, j: int| 0 <= i < j < done.len() implies price_before(
        #[trigger] done[i].price,
        #[trigger] done[j].price,
        is_buy(side),
    ) by {
        assert(s[i] == done[i]);
        assert(s[j] == done[j]);
    }
    assert forall|i: int| 0 <= i < done.len() implies level_wf(#[trigger] done[i], side) by {
        assert(s[i] == done[i]);
    }
    assert forall|i: int, j: int| 0 <= i < j < rest.len() implies price_before(
        #[trigger] rest[i].price,
        #[trigger] rest[j].price,
        is_buy(side),
    ) by {
        assert(s[done.len() + i] == rest[i]);
        assert(s[done.len() + j] == rest[j]);
    }
    assert forall|i: int| 0 <= i < rest.len() implies level_wf(#[trigger] rest[i], side) by {
        assert(s[done.len() + i] == rest[i]);
    }
}

/// Inserting an order whose price sorts after every level of a sorted
/// side opens a new level at the end.
pub proof fn lemma_insert_end_new(acc: Seq<LevelView>, o: Order, side: Side)
    requires
        side_wf(acc, side),
        o.price is Some,
        acc.len() > 0 ==> price_before(acc.last().price, o.price->0, is_buy(side)),
    ensures
        spec_insert(acc, o, is_buy(side)) == acc.push(
            LevelView { price: o.price->0, orders: seq![o] },
        ),
    decreases acc.len(),
{
    let buy = is_buy(side);
    let p = o.price->0;
    if acc.len() == 0 {
        assert(spec_insert(acc, o, buy) =~= acc.push(LevelView { price: p, orders: seq![o] }));
    } else {
        assert(price_before(acc[0].price, p, buy)) by {
            if acc.len() > 1 {
                assert(price_before(acc[0].price, acc.last().price, buy));
            }
        }
        let t = acc.skip(1);
        crate::orderbook::lemma_side_wf_skip(acc, side);
        if t.len() > 0 {
            assert(t.last() == acc.last());
        }
        lemma_insert_end_new(t, o, side);
        assert(spec_insert(acc, o, buy) == seq![acc[0]] + spec_insert(t, o, buy));
        assert(spec_insert(acc, o, buy) =~= acc.push(LevelView { price: p, orders: seq![o] }));
    }
}

/// Inserting an order priced at the worst level of a sorted side
/// enqueues it at the tail of that level.
pub proof fn lemma_insert_end_queue(acc: Seq<LevelView>, o: Order, side: Side)
    requires
        side_wf(acc, side),
        acc.len() > 0,
        o.price is Some,
        o.price->0 == acc.last().price,
    ensures
        spec_insert(acc, o, is_buy(side)) == acc.update(
            acc.len() - 1,
            LevelView { price: acc.last().price, orders: acc.last().orders.push(o) },
        ),
    decreases acc.len(),
{
    let buy = is_buy(side);
    let p = o.price->0;
    if acc.len() == 1 {
        assert(acc[0].price == p);
        assert(spec_insert(acc, o, buy) =~~= acc.update(
            0,
            LevelView { price: p, orders: acc[0].orders.push(o) },
        ));
    } else {
        assert(price_before(acc[0].price, acc.last().price, buy));
        assert(acc[0].price != p);
        assert(!price_before(p, acc[0].price, buy));
        let t = acc.skip(1);
        crate::orderbook::lemma_side_wf_skip(acc, side);
        assert(t.last() == acc.last());
        lemma_insert_end_queue(t, o, side);
        assert(spec_insert(acc, o, buy) == seq![acc[0]] + spec_insert(t, o, buy));
        assert(spec_insert(acc, o, buy) =~~= acc.update(
            acc.len() - 1,
            LevelView { price: acc.last().price, orders: acc.last().orders.push(o) },
        ));
    }
}

/// Folding a concatenated order list is folding one list after the
/// other.
pub proof fn lemma_fold_append(acc: Seq<LevelView>, a: Seq<Order>, b: Seq<Order>, buy: bool)
    ensures
        fold_insert(acc, a + b, buy) == fold_insert(fold_insert(acc, a, buy), b, buy),
    decreases a.len(),
{
    if a.len() == 0 {
        assert(a + b =~= b);
    } else {
        assert((a + b)[0] == a[0]);
        assert((a + b).skip(1) =~= a.skip(1) + b);
        lemma_fold_append(spec_insert(acc, a[0], buy), a.skip(1), b, buy);
    }
}

/// Folding orders that all belong at the worst level of `done` extends
/// that level's queue in order.
pub proof fn lemma_fold_queue(done: Seq<LevelView>, q0: Seq<Order>, os: Seq<Order>, side: Side)
    requires
        side_wf(done, side),
        done.len() > 0,
        done.last() == (LevelView { price: done.last().price, orders: q0 }),
        forall|k: int|
            0 <= k < os.len() ==> order_ok(#[trigger] os[k], side, done.last().price)
                && os[k].price == Option::<u64>::Some(done.last().price),
        crate::orderbook::queue_ids_unique(q0 + os),
        0 < done.last().price <= MAX_AMOUNT,
    ensures
        fold_insert(done, os, is_buy(side)) == done.update(
            done.len() - 1,
            LevelView { price: done.last().price, orders: q0 + os },
        ),
        side_wf(fold_insert(done, os, is_buy(side)), side),
    decreases os.len(),
{
    let buy = is_buy(side);
    let p = done.last().price;
    if os.len() == 0 {
        assert(q0 + os =~= q0);
        assert(fold_insert(done, os, buy) =~~= done.update(
            done.len() - 1,
            LevelView { price: p, orders: q0 + os },
        ));
    } else {
        let o = os[0];
        lemma_insert_end_queue(done, o, side);
        let done1 = done.update(
            done.len() - 1,
            LevelView { price: p, orders: q0.push(o) },
        );
        assert(spec_insert(done, o, buy) == done1);
        // the grown side is still well-formed
        assert(side_wf(done1, side)) by {
            assert forall|i: int, j: int| 0 <= i < j < done1.len() implies price_before(
                #[trigger] done1[i].price,
                #[trigger] done1[j].price,
                is_buy(side),
            ) by {
                assert(done1[i].price == done[i].price);
                assert(done1[j].price == done[j].price);
            }
            assert forall|i: int| 0 <= i < done1.len() implies level_wf(
                #[trigger] done1[i],
                side,
            ) by {
                if i < done1.len() - 1 {
                    assert(done1[i] == done[i]);
                } else {
                    assert(level_wf(done.last(), side));
                    let nq = q0.push(o);
                    assert forall|k: int| 0 <= k < nq.len() implies order_ok(
                        #[trigger] nq[k],
                        side,
                        p,
                    ) by {
                        if k < q0.len() {
                            assert(nq[k] == q0[k]);
                        } else {
                            assert(nq[k] == o);
                        }
                    }
                    assert(crate::orderbook::queue_ids_unique(nq)) by {
                        assert forall|k: int, l: int|
                            0 <= k < nq.len() && 0 <= l < nq.len() && #[trigger] nq[k].id
                                == #[trigger] nq[l].id implies k == l by {
                            assert(nq[k] == (q0 + os)[k]);
                            assert(nq[l] == (q0 + os)[l]);
                        }
                    }
                }
            }
        }
        assert(done1.last() == (LevelView { price: p, orders: q0.push(o) }));
        assert(crate::orderbook::queue_ids_unique(q0.push(o) + os.skip(1))) by {
            assert(q0.push(o) + os.skip(1) =~= q0 + os);
        }
        assert forall|k: int| 0 <= k < os.skip(1).len() implies order_ok(
            #[trigger] os.skip(1)[k],
            side,
            done1.last().price,
        ) && os.skip(1)[k].price == Option::<u64>::Some(done1.last().price) by {
            assert(os.skip(1)[k] == os[k + 1]);
        }
        lemma_fold_queue(done1, q0.push(o), os.skip(1), side);
        assert(fold_insert(done, os, buy) == fold_insert(done1, os.skip(1), buy));
        assert(fold_insert(done1, os.skip(1), buy) == done1.update(
            done1.len() - 1,
            LevelView { price: p, orders: q0.push(o) + os.skip(1) },
        ));
        assert(fold_insert(done, os, buy) =~~= done.update(
            done.len() - 1,
            LevelView { price: p, orders: q0 + os },
        ));
    }
}

/// Folding the flattened tail of a sorted side onto its already-rebuilt
/// front reproduces the whole side.
pub proof fn lemma_fold_side(done: Seq<LevelView>, rest: Seq<LevelView>, side: Side)
    requires
        side_wf(done + rest, side),
    ensures
        fold_insert(done, flatten(rest), is_buy(side)) == done + rest,
    decreases rest.len(),
{
    let buy = is_buy(side);
    if rest.len() == 0 {
        assert(flatten(rest).len() == 0);
        assert(fold_insert(done, flatten(rest), buy) =~~= done + rest);
    } else {
        lemma_side_wf_split(done, rest, side);
        let lvl = rest[0];
        let p = lvl.price;
        assert(level_wf(lvl, side));
        let o0 = lvl.orders[0];
        let qtail = lvl.orders.skip(1);
        assert(flatten(rest) == lvl.orders + flatten(rest.skip(1)));
        lemma_fold_append(done, lvl.orders, flatten(rest.skip(1)), buy);
        // first order of the level opens it at the end
        assert(order_ok(o0, side, p));
        if done.len() > 0 {
            assert((done + rest)[done.len() - 1] == done.last());
            assert((done + rest)[done.len() as int] == rest[0]);
            assert(price_before(done.last().price, p, buy));
        }
        lemma_insert_end_new(done, o0, side);
        let done1 = done.push(LevelView { price: p, orders: seq![o0] });
        assert(side_wf(done1, side)) by {
            assert forall|i: int, j: int| 0 <= i < j < done1.len() implies price_before(
                #[trigger] done1[i].price,
                #[trigger] done1[j].price,
                is_buy(side),
            ) by {
                if j < done.len() {
                    assert(done1[i] == done[i]);
                    assert(done1[j] == done[j]);
                } else {
                    if i < done.len() {
                        assert(done1[i] == done[i]);
                        assert((done + rest)[i] == done[i]);
                        assert((done + rest)[done.len() as int] == rest[0]);
                    }
                }
            }
            assert forall|i: int| 0 <= i < done1.len() implies level_wf(
                #[trigger] done1[i],
                side,
            ) by {
                if i < done.len() {
                    assert(done1[i] == done[i]);
                } else {
                    assert(done1[i] == (LevelView { price: p, orders: seq![o0] }));
                    assert(order_ok(o0, side, p));
                    assert(crate::orderbook::queue_ids_unique(seq![o0]));
                }
            }
        }
        // the rest of the level's queue joins at its tail
        assert(lvl.orders =~= seq![o0] + qtail);
        assert forall|k: int| 0 <= k < qtail.len() implies order_ok(
            #[trigger] qtail[k],
            side,
            done1.last().price,
        ) && qtail[k].price == Option::<u64>::Some(done1.last().price) by {
            assert(qtail[k] == lvl.orders[k + 1]);
        }
        assert(crate::orderbook::queue_ids_unique(seq![o0] + qtail)) by {
            assert(seq![o0] + qtail =~= lvl.orders);
        }
        assert(done1.last() == (LevelView { price: p, orders: seq![o0] }));
        lemma_fold_queue(done1, seq![o0], qtail, side);
        let done2 = fold_insert(done1, qtail, buy);
        assert(done2 =~~= done.push(rest[0])) by {
            assert(done2 == done1.update(
                done1.len() - 1,
                LevelView { price: p, orders: seq![o0] + qtail },
            ));
            assert(seq![o0] + qtail =~= lvl.orders);
        }
        // fold of the level's full queue equals done2
        assert(fold_insert(done, lvl.orders, buy) == done2) by {
            assert(lvl.orders =~= seq![o0] + qtail);
            lemma_fold_append(done, seq![o0], qtail, buy);
            assert(fold_insert(done, seq![o0], buy) == spec_insert(done, o0, buy)) by {
                assert(seq![o0][0] == o0);
                assert(seq![o0].skip(1) =~= Seq::<Order>::empty());
                assert(fold_insert(spec_insert(done, o0, buy), Seq::<Order>::empty(), buy)
                    == spec_insert(done, o0, buy));
            }
        }
        // recurse over the remaining levels
        assert(done.push(rest[0]) + rest.skip(1) =~= done + rest);
        lemma_fold_side(done.push(rest[0]), rest.skip(1), side);
        assert(fold_insert(done2, flatten(rest.skip(1)), buy) == done.push(rest[0]) + rest.skip(
            1,
        ));
        assert(fold_insert(done, flatten(rest), buy) =~~= done + rest);
    }
}

/// The snapshot round trip on one side: flattening a well-formed side
/// to its order list and rebuilding it by sorted insertion reproduces
/// the side exactly — same levels, same FIFO queues.
pub proof fn lemma_side_roundtrip(levels: Seq<LevelView>, side: Side)
    requires
        side_wf(levels, side),
    ensures
        fold_insert(Seq::<LevelView>::empty(), flatten(levels), is_buy(side)) == levels,
{
    assert(Seq::<LevelView>::empty() + levels =~= levels);
    lemma_fold_side(Seq::<LevelView>::empty(), levels, side);
}


/// Flattening one more level appends exactly that level's queue.
pub proof fn lemma_flatten_take(levels: Seq<LevelView>, i: int)
    requires
        0 <= i < levels.len(),
    ensures
        flatten(levels.take(i + 1)) == flatten(levels.take(i)) + levels[i].orders,
    decreases i,
{
    if i == 0 {
        assert(levels.take(0) =~= Seq::<LevelView>::empty());
        assert(levels.take(1)[0] == levels[0]);
        assert(levels.take(1).skip(1) =~= Seq::<LevelView>::empty());
        assert(flatten(levels.take(1)) =~= flatten(levels.take(0)) + levels[0].orders);
    } else {
        let t = levels.skip(1);
        lemma_flatten_take(t, i - 1);
        assert(levels.take(i + 1)[0] == levels[0]);
        assert(levels.take(i + 1).skip(1) =~= t.take(i));
        assert(levels.take(i)[0] == levels[0]);
        assert(levels.take(i).skip(1) =~= t.take(i - 1));
        assert(t[i - 1] == levels[i]);
        assert(flatten(levels.take(i + 1)) == levels[0].orders + flatten(t.take(i)));
        assert(flatten(levels.take(i)) == levels[0].orders + flatten(t.take(i - 1)));
        assert(flatten(levels.take(i + 1)) =~= flatten(levels.take(i)) + levels[i].orders);
    }
}

/// Flatten one side of the book into a list of copies of its orders,
/// level by level in price order, FIFO within each level.
fn flatten_exec(levels: &Vec<Level>) -> (r: Vec<Order>)
    ensures
        r@.len() == flatten(side_view(levels@)).len(),
        forall|k: int|
            0 <= k < r@.len() ==> order_like(#[trigger] r@[k], flatten(side_view(levels@))[k]),
{
    let ghost whole = side_view(levels@);
    let mut out: Vec<Order> = Vec::new();
    let mut i: usize = 0;
    proof {
        assert(whole.take(0) =~= Seq::<LevelView>::empty());
    }
    while i < levels.len()
        invariant
            0 <= i <= levels@.len(),
            whole == side_view(levels@),
            out@.len() == flatten(whole.take(i as int)).len(),
            forall|k: int|
                0 <= k < out@.len() ==> order_like(
                    #[trigger] out@[k],
                    flatten(whole.take(i as int))[k],
                ),
        decreases levels@.len() - i,
    {
        let lvl = &levels[i];
        let mut j: usize = 0;
        while j < lvl.orders.len()
            invariant
                0 <= j <= lvl.orders@.len(),
                whole == side_view(levels@),
                0 <= i < levels@.len(),
                lvl.orders@ == whole[i as int].orders,
                out@.len() == flatten(whole.take(i as int)).len() + j,
                forall|k: int|
                    0 <= k < out@.len() ==> order_like(
                        #[trigger] out@[k],
                        (flatten(whole.take(i as int)) + whole[i as int].orders.take(j as int))[k],
                    ),
            decreases lvl.orders@.len() - j,
        {
            let o = &lvl.orders[j];
            let copy = o.duplicate();
            out.push(copy);
            proof {
                let fl = flatten(whole.take(i as int));
                assert(whole[i as int].orders.take(j + 1) =~= whole[i as int].orders.take(
                    j as int,
                ).push(whole[i as int].orders[j as int]));
                assert forall|k: int| 0 <= k < out@.len() implies order_like(
                    #[trigger] out@[k],
                    (fl + whole[i as int].orders.take(j + 1))[k],
                ) by {
                    if k < out@.len() - 1 {
                        assert(out@[k] == out@.subrange(0, out@.len() - 1)[k]);
                        assert((fl + whole[i as int].orders.take(j + 1))[k] == (fl + whole[
                            i as int].orders.take(j as int))[k]);
                    } else {
                        assert(out@[k] == copy);
                        assert((fl + whole[i as int].orders.take(j + 1))[k] == whole[
                            i as int].orders[j as int]);
                    }
                }
            }
            j = j + 1;
        }
        proof {
            assert(whole[i as int].orders.take(whole[i as int].orders.len() as int) =~= whole[
                i as int].orders);
            lemma_flatten_take(whole, i as int);
        }
        i = i + 1;
    }
    proof {
        assert(whole.take(levels@.len() as int) =~= whole);
    }
    out
}

impl OrderBook {
    /// The book's resting orders, flattened side by side for a
    /// snapshot: bids then asks, each in price order and FIFO order
    /// within a level.
    pub fn snapshot_orders(&self) -> (r: (Vec<Order>, Vec<Order>))
        ensures
            r.0@.len() == flatten(self.bids_v()).len(),
            forall|k: int|
                0 <= k < r.0@.len() ==> order_like(#[trigger] r.0@[k], flatten(self.bids_v())[k]),
            r.1@.len() == flatten(self.asks_v()).len(),
            forall|k: int|
                0 <= k < r.1@.len() ==> order_like(#[trigger] r.1@[k], flatten(self.asks_v())[k]),
    {
        (flatten_exec(&self.bids), flatten_exec(&self.asks))
    }

}

/// An order fit to rest in a rebuilt book: an in-range positive limit
/// price, a consistent fill state and an active status.
pub open spec fn restable(o: Order) -> bool {
    &&& o.price is Some
    &&& 0 < o.price->0 <= MAX_AMOUNT
    &&& o.quantity <= MAX_AMOUNT
    &&& o.remaining_quantity > 0
    &&& o.filled_quantity + o.remaining_quantity == o.quantity
    &&& o.status is New || o.status is Partial
}

/// Whether `o` can join a book whose sides stand at `bids` and `asks`:
/// it is restable, its id is fresh, and it does not cross.
pub open spec fn insert_ok(bids: Seq<LevelView>, asks: Seq<LevelView>, o: Order) -> bool {
    &&& restable(o)
    &&& !has_order(bids, o.id)
    &&& !has_order(asks, o.id)
    &&& (o.side is Buy ==> asks.len() == 0 || o.price->0 < asks[0].price)
    &&& (o.side is Sell ==> bids.len() == 0 || o.price->0 > bids[0].price)
}

/// Fold a snapshot's order list into book sides, order by order; the
/// first order that cannot join sinks the whole restoration.
pub open spec fn restore_fold(
    bids: Seq<LevelView>,
    asks: Seq<LevelView>,
    orders: Seq<Order>,
) -> Option<(Seq<LevelView>, Seq<LevelView>)>
    decreases orders.len(),
{
    if orders.len() == 0 {
        Option::Some((bids, asks))
    } else {
        let o = orders[0];
        if insert_ok(bids, asks, o) {
            if o.side is Buy {
                restore_fold(spec_insert(bids, o, true), asks, orders.skip(1))
            } else {
                restore_fold(bids, spec_insert(asks, o, false), orders.skip(1))
            }
        } else {
            Option::None
        }
    }
}

impl OrderBook {
    /// Rehydrate a book from a snapshot: the symbol, the saved sequence
    /// counter, and the flat order lists of both sides. Every order is
    /// checked and inserted at its sorted position; a snapshot whose
    /// orders cannot form a well-formed book yields nothing.
    pub fn restore(
        symbol: String,
        sequence: u64,
        checkpoint_interval: u64,
        orders: Vec<Order>,
    ) -> (r: Option<OrderBook>)
        requires
            checkpoint_interval > 0,
        ensures
            (r is Some) == (restore_fold(
                Seq::<LevelView>::empty(),
                Seq::<LevelView>::empty(),
                orders@,
            ) is Some),
            r matches Some(b) ==> {
                &&& b.well_formed()
                &&& b.symbol@ == symbol@
                &&& b.spec_sequence() == sequence
                &&& b.sequence_manager.spec_interval() == checkpoint_interval
                &&& restore_fold(Seq::<LevelView>::empty(), Seq::<LevelView>::empty(), orders@)
                    == Option::Some((b.bids_v(), b.asks_v()))
            },
    {
        let ghost symv = symbol@;
        let ghost orders0 = orders@;
        let mut book = OrderBook::new(symbol);
        book.sequence_manager = SequenceManager::with_interval(checkpoint_interval);
        book.sequence_manager.set(sequence);
        let mut remaining = orders;
        let n = remaining.len();
        let mut i: usize = 0;
        proof {
            assert(book.bids_v() =~= Seq::<LevelView>::empty());
            assert(book.asks_v() =~= Seq::<LevelView>::empty());
        }
        while i < n
            invariant
                book.well_formed(),
                book.symbol@ == symv,
                book.spec_sequence() == sequence,
                book.sequence_manager.spec_interval() == checkpoint_interval,
                remaining@.len() == n - i,
                0 <= i <= n,
                orders0 == orders@,
                restore_fold(Seq::<LevelView>::empty(), Seq::<LevelView>::empty(), orders0)
                    == restore_fold(book.bids_v(), book.asks_v(), remaining@),
            decreases n - i,
    {
            let ghost pre_book = book;
            let ghost pre_orders = remaining@;
            let o = remaining.remove(0);
            let ghost oo = o;
            proof {
                assert(pre_orders.len() > 0);
                assert(pre_orders[0] == oo);
                assert(remaining@ =~= pre_orders.skip(1));
                // an indexed id is a queued id, in both directions
                assert(pre_book.order_index@.contains_key(oo.id) <==> (has_order(
                    pre_book.bids_v(),
                    oo.id,
                ) || has_order(pre_book.asks_v(), oo.id))) by {
                    if pre_book.order_index@.contains_key(oo.id) {
                        if pre_book.order_index@[oo.id].0 is Buy {
                            lemma_has_order_at_implies(
                                pre_book.bids_v(),
                                oo.id,
                                pre_book.order_index@[oo.id].1,
                            );
                        } else {
                            lemma_has_order_at_implies(
                                pre_book.asks_v(),
                                oo.id,
                                pre_book.order_index@[oo.id].1,
                            );
                        }
                    }
                    if has_order(pre_book.bids_v(), oo.id) {
                        let (a, b) = choose|a: int, b: int|
                            0 <= a < pre_book.bids_v().len() && 0 <= b < pre_book.bids_v()[
                                a
                            ].orders.len() && pre_book.bids_v()[a].orders[b].id == oo.id;
                        assert(has_order_at(
                            pre_book.bids_v(),
                            oo.id,
                            pre_book.bids_v()[a].price,
                        ));
                    }
                    if has_order(pre_book.asks_v(), oo.id) {
                        let (a, b) = choose|a: int, b: int|
                            0 <= a < pre_book.asks_v().len() && 0 <= b < pre_book.asks_v()[
                                a
                            ].orders.len() && pre_book.asks_v()[a].orders[b].id == oo.id;
                        assert(has_order_at(
                            pre_book.asks_v(),
                            oo.id,
                            pre_book.asks_v()[a].price,
                        ));
                    }
                }
            }
            // the order must be fit to rest in a book
            let price = match o.price {
                Option::Some(p) => p,
                Option::None => {
                    proof {
                        assert(!insert_ok(pre_book.bids_v(), pre_book.asks_v(), oo));
                    assert(restore_fold(pre_book.bids_v(), pre_book.asks_v(), pre_orders)
                        is None);
    }
                    return Option::None;
                },
            };
            if price == 0 || price > MAX_AMOUNT {
                proof {
                    assert(!insert_ok(pre_book.bids_v(), pre_book.asks_v(), oo));
                    assert(restore_fold(pre_book.bids_v(), pre_book.asks_v(), pre_orders)
                        is None);
}
                return Option::None;
            }
            if !(o.quantity <= MAX_AMOUNT) || o.remaining_quantity == 0 {
                proof {
                    assert(!insert_ok(pre_book.bids_v(), pre_book.asks_v(), oo));
                    assert(restore_fold(pre_book.bids_v(), pre_book.asks_v(), pre_orders)
                        is None);
}
                return Option::None;
            }
            if !(o.filled_quantity <= u64::MAX - o.remaining_quantity)
                || o.filled_quantity + o.remaining_quantity != o.quantity {
                proof {
                    assert(!insert_ok(pre_book.bids_v(), pre_book.asks_v(), oo));
                    assert(restore_fold(pre_book.bids_v(), pre_book.asks_v(), pre_orders)
                        is None);
}
                return Option::None;
            }
            if !matches!(o.status, crate::types::OrderStatus::New | crate::types::OrderStatus::Partial) {
                proof {
                    assert(!insert_ok(pre_book.bids_v(), pre_book.asks_v(), oo));
                    assert(restore_fold(pre_book.bids_v(), pre_book.asks_v(), pre_orders)
                        is None);
}
                return Option::None;
            }
            if book.order_index.contains_key(&o.id) {
                proof {
                    assert(!insert_ok(pre_book.bids_v(), pre_book.asks_v(), oo));
                    assert(restore_fold(pre_book.bids_v(), pre_book.asks_v(), pre_orders)
                        is None);
}
                return Option::None;
            }
            // it must not cross the other side
            match o.side {
                Side::Buy => {
                    match book.best_ask() {
                        Option::Some(a) => {
                            if price >= a {
                                proof {
                                    assert(!insert_ok(pre_book.bids_v(), pre_book.asks_v(), oo));
                    assert(restore_fold(pre_book.bids_v(), pre_book.asks_v(), pre_orders)
                        is None);
                }
                                return Option::None;
                            }
                        },
                        Option::None => {},
                    }
                },
                Side::Sell => {
                    match book.best_bid() {
                        Option::Some(b) => {
                            if price <= b {
                                proof {
                                    assert(!insert_ok(pre_book.bids_v(), pre_book.asks_v(), oo));
                    assert(restore_fold(pre_book.bids_v(), pre_book.asks_v(), pre_orders)
                        is None);
                }
                                return Option::None;
                            }
                        },
                        Option::None => {},
                    }
                },
            }
            proof {
                assert(insert_ok(pre_book.bids_v(), pre_book.asks_v(), oo));
            }
            book.add_limit_order(o);
            i = i + 1;
            proof {
                assert(restore_fold(pre_book.bids_v(), pre_book.asks_v(), pre_orders)
                    == restore_fold(book.bids_v(), book.asks_v(), remaining@));
            }
        }
        proof {
            assert(remaining@.len() == 0);
            assert(restore_fold(book.bids_v(), book.asks_v(), remaining@) == Option::Some(
                (book.bids_v(), book.asks_v()),
            ));
        }
        Option::Some(book)
    }
}

/// Snapshot store naming: one file per symbol under a base directory.
/// Reading and writing the files is the embedding's concern.
pub struct SnapshotManager {
    pub base_path: String,
}

impl SnapshotManager {
    pub fn new(base_path: &str) -> (r: SnapshotManager)
        ensures
            r.base_path@ == base_path@,
    {
        SnapshotManager { base_path: String::from_str(base_path) }
    }

    /// The snapshot file name for a symbol: `<base>/<symbol>.snapshot`.
    pub fn snapshot_filename(&self, symbol: &str) -> (r: String)
        ensures
            r@ == self.base_path@ + "/"@ + symbol@ + ".snapshot"@,
    {
        let mut r = self.base_path.clone();
        r.append("/");
        r.append(symbol);
        r.append(".snapshot");
        r
    }
}


/// Restoring a concatenated order list restores one part after the
/// other, when the first part goes through.
pub proof fn lemma_restore_fold_append(
    bids: Seq<LevelView>,
    asks: Seq<LevelView>,
    a: Seq<Order>,
    b: Seq<Order>,
)
    ensures
        restore_fold(bids, asks, a + b) == (match restore_fold(bids, asks, a) {
            Option::Some(p) => restore_fold(p.0, p.1, b),
            Option::None => Option::None,
        }),
    decreases a.len(),
{
    if a.len() == 0 {
        assert(a + b =~= b);
    } else {
        assert((a + b)[0] == a[0]);
        assert((a + b).skip(1) =~= a.skip(1) + b);
        if insert_ok(bids, asks, a[0]) {
            if a[0].side is Buy {
                lemma_restore_fold_append(spec_insert(bids, a[0], true), asks, a.skip(1), b);
            } else {
                lemma_restore_fold_append(bids, spec_insert(asks, a[0], false), a.skip(1), b);
            }
        }
    }
}

/// What flattening a well-formed side yields: every order restable on
/// its side, at a price no better than the side's best, with distinct
/// ids, and each id resting on the side.
pub proof fn lemma_flatten_props(levels: Seq<LevelView>, side: Side)
    requires
        side_wf(levels, side),
        forall|id: u128, pr1: u64, pr2: u64| #[trigger]
            has_order_at(levels, id, pr1) && #[trigger] has_order_at(levels, id, pr2) ==> pr1
                == pr2,
    ensures
        forall|k: int|
            0 <= k < flatten(levels).len() ==> restable(#[trigger] flatten(levels)[k]) && flatten(
                levels,
            )[k].side == side,
        forall|k: int, l: int|
            0 <= k < l < flatten(levels).len() ==> (#[trigger] flatten(levels)[k]).id != (
            #[trigger] flatten(levels)[l]).id,
        forall|id: u128| #[trigger]
            queue_has_id(flatten(levels), id) ==> has_order(levels, id),
        levels.len() > 0 ==> forall|k: int|
            0 <= k < flatten(levels).len() ==> !price_before(
                (#[trigger] flatten(levels)[k]).price->0,
                levels[0].price,
                is_buy(side),
            ),
    decreases levels.len(),
{
    if levels.len() == 0 {
        assert(flatten(levels) =~= Seq::<Order>::empty());
    } else {
        let q0 = levels[0].orders;
        let t = levels.skip(1);
        let fl = flatten(levels);
        let ft = flatten(t);
        assert(fl == q0 + ft);
        assert(level_wf(levels[0], side));
        lemma_side_wf_skip(levels, side);
        assert forall|id: u128, pr1: u64, pr2: u64| #[trigger]
            has_order_at(t, id, pr1) && #[trigger] has_order_at(t, id, pr2) implies pr1 == pr2 by {
            crate::orderbook::lemma_has_order_at_cons(levels[0], t, id, pr1);
            crate::orderbook::lemma_has_order_at_cons(levels[0], t, id, pr2);
            assert(levels =~= seq![levels[0]] + t);
        }
        lemma_flatten_props(t, side);
        // per-element facts
        assert forall|k: int|
            0 <= k < fl.len() implies restable(#[trigger] fl[k]) && fl[k].side == side by {
            if k < q0.len() {
                assert(fl[k] == q0[k]);
                assert(order_ok(q0[k], side, levels[0].price));
            } else {
                assert(fl[k] == ft[k - q0.len()]);
            }
        }
        // prices never better than the head level
        assert forall|k: int| 0 <= k < fl.len() implies !price_before(
            (#[trigger] fl[k]).price->0,
            levels[0].price,
            is_buy(side),
        ) by {
            if k < q0.len() {
                assert(fl[k] == q0[k]);
                assert(order_ok(q0[k], side, levels[0].price));
            } else {
                assert(fl[k] == ft[k - q0.len()]);
                if t.len() > 0 {
                    assert(t[0] == levels[1]);
                    assert(price_before(levels[0].price, t[0].price, is_buy(side)));
                    assert(!price_before(ft[k - q0.len()].price->0, t[0].price, is_buy(side)));
                } else {
                    assert(ft.len() == 0);
                }
            }
        }
        // membership
        assert forall|id: u128| #[trigger]
            queue_has_id(fl, id) implies has_order(levels, id) by {
            let j = choose|j: int| 0 <= j < fl.len() && fl[j].id == id;
            if j < q0.len() {
                assert(fl[j] == q0[j]);
                assert(0 <= 0 < levels.len() && 0 <= j < levels[0].orders.len()
                    && levels[0].orders[j].id == id);
            } else {
                assert(fl[j] == ft[j - q0.len()]);
                assert(0 <= j - q0.len() < ft.len() && ft[j - q0.len()].id == id);
                assert(queue_has_id(ft, id));
                assert(has_order(t, id));
                let (a, b) = choose|a: int, b: int|
                    0 <= a < t.len() && 0 <= b < t[a].orders.len() && t[a].orders[b].id == id;
                assert(t[a] == levels[a + 1]);
                assert(0 <= a + 1 < levels.len() && 0 <= b < levels[a + 1].orders.len() && levels[
                    a + 1].orders[b].id == id);
            }
        }
        // distinct ids
        assert forall|k: int, l: int|
            0 <= k < l < fl.len() implies (#[trigger] fl[k]).id != (#[trigger] fl[l]).id by {
            if l < q0.len() {
                assert(fl[k] == q0[k]);
                assert(fl[l] == q0[l]);
            } else if k >= q0.len() {
                assert(fl[k] == ft[k - q0.len()]);
                assert(fl[l] == ft[l - q0.len()]);
            } else {
                assert(fl[k] == q0[k]);
                assert(fl[l] == ft[l - q0.len()]);
                if fl[k].id == fl[l].id {
                    let id = fl[k].id;
                    assert(0 <= l - q0.len() < ft.len() && ft[l - q0.len()].id == id);
                    assert(queue_has_id(ft, id));
                    assert(has_order(t, id));
                    let (a, b) = choose|a: int, b: int|
                        0 <= a < t.len() && 0 <= b < t[a].orders.len() && t[a].orders[b].id == id;
                    assert(t[a] == levels[a + 1]);
                    assert(has_order_at(levels, id, levels[a + 1].price)) by {
                        assert(0 <= a + 1 < levels.len() && 0 <= b < levels[a + 1].orders.len()
                            && levels[a + 1].orders[b].id == id);
                    }
                    assert(has_order_at(levels, id, levels[0].price)) by {
                        assert(0 <= 0 < levels.len() && 0 <= k < levels[0].orders.len()
                            && levels[0].orders[k].id == id);
                    }
                    assert(levels[a + 1].price == levels[0].price);
                    assert(price_before(levels[0].price, levels[a + 1].price, is_buy(side)));
                }
            }
        }
    }
}

/// Restoring a batch of fresh, restable, non-crossing buy orders goes
/// through and builds the bid side by sorted insertion.
pub proof fn lemma_restore_fold_buys(bids: Seq<LevelView>, asks: Seq<LevelView>, os: Seq<Order>)
    requires
        side_wf(bids, Side::Buy),
        forall|k: int|
            0 <= k < os.len() ==> restable(#[trigger] os[k]) && os[k].side is Buy,
        forall|k: int|
            0 <= k < os.len() ==> !has_order(bids, (#[trigger] os[k]).id) && !has_order(
                asks,
                os[k].id,
            ),
        forall|k: int|
            0 <= k < os.len() ==> (asks.len() == 0 || (#[trigger] os[k]).price->0
                < asks[0].price),
        forall|k: int, l: int|
            0 <= k < l < os.len() ==> (#[trigger] os[k]).id != (#[trigger] os[l]).id,
    ensures
        restore_fold(bids, asks, os) == Option::Some((fold_insert(bids, os, true), asks)),
    decreases os.len(),
{
    if os.len() == 0 {
    } else {
        let o = os[0];
        assert(restable(o));
        assert(insert_ok(bids, asks, o));
        lemma_spec_insert(bids, o, Side::Buy);
        let bids2 = spec_insert(bids, o, true);
        assert forall|k: int|
            0 <= k < os.skip(1).len() implies restable(#[trigger] os.skip(1)[k]) && os.skip(
            1,
        )[k].side is Buy by {
            assert(os.skip(1)[k] == os[k + 1]);
        }
        assert forall|k: int|
            0 <= k < os.skip(1).len() implies !has_order(bids2, (#[trigger] os.skip(1)[k]).id)
            && !has_order(asks, os.skip(1)[k].id) by {
            assert(os.skip(1)[k] == os[k + 1]);
            assert(has_order(bids2, os[k + 1].id) <==> (has_order(bids, os[k + 1].id) || os[k
                + 1].id == o.id));
        }
        assert forall|k: int|
            0 <= k < os.skip(1).len() implies (asks.len() == 0 || (#[trigger] os.skip(
            1,
        )[k]).price->0 < asks[0].price) by {
            assert(os.skip(1)[k] == os[k + 1]);
        }
        assert forall|k: int, l: int|
            0 <= k < l < os.skip(1).len() implies (#[trigger] os.skip(1)[k]).id != (
            #[trigger] os.skip(1)[l]).id by {
            assert(os.skip(1)[k] == os[k + 1]);
            assert(os.skip(1)[l] == os[l + 1]);
        }
        lemma_restore_fold_buys(bids2, asks, os.skip(1));
    }
}

/// Restoring a batch of fresh, restable, non-crossing sell orders goes
/// through and builds the ask side by sorted insertion.
pub proof fn lemma_restore_fold_sells(bids: Seq<LevelView>, asks: Seq<LevelView>, os: Seq<Order>)
    requires
        side_wf(asks, Side::Sell),
        forall|k: int|
            0 <= k < os.len() ==> restable(#[trigger] os[k]) && os[k].side is Sell,
        forall|k: int|
            0 <= k < os.len() ==> !has_order(bids, (#[trigger] os[k]).id) && !has_order(
                asks,
                os[k].id,
            ),
        forall|k: int|
            0 <= k < os.len() ==> (bids.len() == 0 || (#[trigger] os[k]).price->0
                > bids[0].price),
        forall|k: int, l: int|
            0 <= k < l < os.len() ==> (#[trigger] os[k]).id != (#[trigger] os[l]).id,
    ensures
        restore_fold(bids, asks, os) == Option::Some((bids, fold_insert(asks, os, false))),
    decreases os.len(),
{
    if os.len() == 0 {
    } else {
        let o = os[0];
        assert(restable(o));
        assert(insert_ok(bids, asks, o));
        lemma_spec_insert(asks, o, Side::Sell);
        let asks2 = spec_insert(asks, o, false);
        assert forall|k: int|
            0 <= k < os.skip(1).len() implies restable(#[trigger] os.skip(1)[k]) && os.skip(
            1,
        )[k].side is Sell by {
            assert(os.skip(1)[k] == os[k + 1]);
        }
        assert forall|k: int|
            0 <= k < os.skip(1).len() implies !has_order(bids, (#[trigger] os.skip(1)[k]).id)
            && !has_order(asks2, os.skip(1)[k].id) by {
            assert(os.skip(1)[k] == os[k + 1]);
            assert(has_order(asks2, os[k + 1].id) <==> (has_order(asks, os[k + 1].id) || os[k
                + 1].id == o.id));
        }
        assert forall|k: int|
            0 <= k < os.skip(1).len() implies (bids.len() == 0 || (#[trigger] os.skip(
            1,
        )[k]).price->0 > bids[0].price) by {
            assert(os.skip(1)[k] == os[k + 1]);
        }
        assert forall|k: int, l: int|
            0 <= k < l < os.skip(1).len() implies (#[trigger] os.skip(1)[k]).id != (
            #[trigger] os.skip(1)[l]).id by {
            assert(os.skip(1)[k] == os[k + 1]);
            assert(os.skip(1)[l] == os[l + 1]);
        }
        lemma_restore_fold_sells(bids, asks2, os.skip(1));
    }
}

/// The snapshot round trip of the whole book: restoring a well-formed
/// book's own flattened orders (bids then asks) succeeds and rebuilds
/// exactly the book's sides — same levels, same FIFO queues. With
/// `restore`'s contract this carries the round trip to the executable
/// restoration.
pub proof fn lemma_restore_roundtrip(b: OrderBook)
    requires
        b.well_formed(),
    ensures
        restore_fold(
            Seq::<LevelView>::empty(),
            Seq::<LevelView>::empty(),
            flatten(b.bids_v()) + flatten(b.asks_v()),
        ) == Option::Some((b.bids_v(), b.asks_v())),
{
    let fb = flatten(b.bids_v());
    let fa = flatten(b.asks_v());
    let e = Seq::<LevelView>::empty();
    // a resting id sits at one price only, on either side
    assert forall|id: u128, pr1: u64, pr2: u64| #[trigger]
        has_order_at(b.bids_v(), id, pr1) && #[trigger] has_order_at(b.bids_v(), id, pr2)
        implies pr1 == pr2 by {}
    assert forall|id: u128, pr1: u64, pr2: u64| #[trigger]
        has_order_at(b.asks_v(), id, pr1) && #[trigger] has_order_at(b.asks_v(), id, pr2)
        implies pr1 == pr2 by {}
    lemma_flatten_props(b.bids_v(), Side::Buy);
    lemma_flatten_props(b.asks_v(), Side::Sell);
    assert(side_wf(e, Side::Buy));
    assert(side_wf(e, Side::Sell));
    assert forall|id: u128| true implies !has_order(e, id) by {
        if has_order(e, id) {
            let (i, j) = choose|i: int, j: int|
                0 <= i < e.len() && 0 <= j < e[i].orders.len() && e[i].orders[j].id == id;
        }
    }
    // phase one: the bids go in against an empty book
    assert forall|k: int|
        0 <= k < fb.len() implies !has_order(e, (#[trigger] fb[k]).id) && !has_order(
        e,
        fb[k].id,
    ) by {}
    lemma_restore_fold_buys(e, e, fb);
    lemma_side_roundtrip(b.bids_v(), Side::Buy);
    assert(fold_insert(e, fb, true) == b.bids_v());
    // phase two: the asks go in against the finished bid side
    assert forall|k: int|
        0 <= k < fa.len() implies !has_order(b.bids_v(), (#[trigger] fa[k]).id) && !has_order(
        e,
        fa[k].id,
    ) by {
        assert(0 <= k < fa.len() && fa[k].id == fa[k].id);
        assert(queue_has_id(fa, fa[k].id));
        assert(has_order(b.asks_v(), fa[k].id));
        let (i, j) = choose|i: int, j: int|
            0 <= i < b.asks_v().len() && 0 <= j < b.asks_v()[i].orders.len() && b.asks_v()[
                i
            ].orders[j].id == fa[k].id;
        assert(has_order_at(b.asks_v(), fa[k].id, b.asks_v()[i].price)) by {
            assert(0 <= i < b.asks_v().len() && 0 <= j < b.asks_v()[i].orders.len()
                && b.asks_v()[i].orders[j].id == fa[k].id);
        }
        if has_order(b.bids_v(), fa[k].id) {
            let (a2, b2) = choose|a2: int, b2: int|
                0 <= a2 < b.bids_v().len() && 0 <= b2 < b.bids_v()[a2].orders.len() && b.bids_v()[
                    a2
                ].orders[b2].id == fa[k].id;
            assert(has_order_at(b.bids_v(), fa[k].id, b.bids_v()[a2].price)) by {
                assert(0 <= a2 < b.bids_v().len() && 0 <= b2 < b.bids_v()[a2].orders.len()
                    && b.bids_v()[a2].orders[b2].id == fa[k].id);
            }
        }
    }
    assert forall|k: int|
        0 <= k < fa.len() implies (b.bids_v().len() == 0 || (#[trigger] fa[k]).price->0
        > b.bids_v()[0].price) by {
        if b.bids_v().len() > 0 {
            assert(b.asks_v().len() > 0) by {
                if b.asks_v().len() == 0 {
                    assert(fa =~= Seq::<Order>::empty());
                }
            }
            assert(!price_before(fa[k].price->0, b.asks_v()[0].price, is_buy(Side::Sell)));
            assert(b.bids_v()[0].price < b.asks_v()[0].price);
        }
    }
    lemma_restore_fold_sells(b.bids_v(), e, fa);
    lemma_side_roundtrip(b.asks_v(), Side::Sell);
    assert(fold_insert(e, fa, false) == b.asks_v());
    // stitch the phases together
    lemma_restore_fold_append(e, e, fb, fa);
}

} // verus!
