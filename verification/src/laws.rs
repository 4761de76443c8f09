//! The book's algebraic laws, proved from the public contracts alone:
//! rejected submissions mutate nothing, cancellation is idempotent, and
//! trade sequence ids are strictly increasing.

use vstd::prelude::*;

use crate::matching::{book_unchanged, match_post, trades_stamped};
use crate::orderbook::cancel_post;
use crate::orderbook::OrderBook;
use crate::types::{MatchResult, Order, Trade};

verus! {

/// Any rejected order leaves the book exactly as it was: whatever the
/// rejection — unsupported order type, no liquidity, a post-only order
/// that would cross, an unfillable fill-or-kill, an unfilled
/// immediate-or-cancel — no side, no index entry and no sequence id of
/// the book changes.
pub proof fn lemma_rejected_leaves_book(
    pre: OrderBook,
    post: OrderBook,
    order: Order,
    mr: MatchResult,
)
    requires
        match_post(pre, post, order, mr),
        mr is Rejected,
    ensures
        book_unchanged(pre, post),
{
}

/// Fill-or-kill atomicity: when a fill-or-kill order is rejected, the
/// book equals its pre-submit state — no partial execution leaks.
pub proof fn lemma_fok_atomicity(pre: OrderBook, post: OrderBook, order: Order, mr: MatchResult)
    requires
        order.time_in_force is FOK,
        match_post(pre, post, order, mr),
        mr is Rejected,
    ensures
        book_unchanged(pre, post),
{
    lemma_rejected_leaves_book(pre, post, order, mr);
}

/// Post-only non-mutation: a rejected post-only order leaves book and
/// sequence counter unchanged.
pub proof fn lemma_post_only_non_mutation(
    pre: OrderBook,
    post: OrderBook,
    order: Order,
    mr: MatchResult,
)
    requires
        order.post_only,
        match_post(pre, post, order, mr),
        mr is Rejected,
    ensures
        book_unchanged(pre, post),
{
    lemma_rejected_leaves_book(pre, post, order, mr);
}

/// Cancel idempotence: after one cancellation of an id, a second
/// cancellation of the same id finds nothing and changes nothing; the
/// first call returned the order exactly when it was resting.
pub proof fn lemma_cancel_idempotent(
    b0: OrderBook,
    b1: OrderBook,
    b2: OrderBook,
    id: u128,
    r1: Option<Order>,
    r2: Option<Order>,
)
    requires
        cancel_post(b0, b1, id, r1),
        cancel_post(b1, b2, id, r2),
    ensures
        r2 is None,
        b2 == b1,
        b0.order_index@.contains_key(id) <==> r1 is Some,
{
    if b0.order_index@.contains_key(id) {
        assert(b1.order_index@ == b0.order_index@.remove(id));
        assert(!b1.order_index@.contains_key(id));
    }
}

/// Trade sequence ids are strictly increasing within one submission's
/// trade list (they are consecutive, starting at the stamp that the
/// book's sequence authority issued).
pub proof fn lemma_trades_strictly_increasing(ts: Seq<Trade>, seq0: u64)
    requires
        trades_stamped(ts, seq0),
    ensures
        forall|i: int, j: int|
            0 <= i < j < ts.len() ==> (#[trigger] ts[i]).sequence_id < (
            #[trigger] ts[j]).sequence_id,
{
}

} // verus!
