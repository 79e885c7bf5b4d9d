//! Laws of the order book, stated over its model and proved.
use vstd::prelude::*;
use crate::book_model::{
    better, holds_id, lemma_add_valid, lemma_cancel_valid, lemma_insert_shape, lemma_match_shape,
    lemma_match_trades, match_queue, traded_qty, BookView, Order, Trade,
};

verus! {

/// Quantity of the first order of `q` with id `id`; zero if there is none.
pub open spec fn resting_qty(q: Seq<Order>, id: u32) -> nat
    decreases q.len(),
{
    if q.len() == 0 {
        0
    } else if q[0].order_id == id {
        q[0].quantity as nat
    } else {
        resting_qty(q.drop_first(), id)
    }
}

proof fn lemma_resting_qty_absent(q: Seq<Order>, id: u32)
    requires
        !holds_id(q, id),
    ensures
        resting_qty(q, id) == 0,
    decreases q.len(),
{
    if q.len() > 0 {
        assert(!holds_id(q.drop_first(), id)) by {
            if holds_id(q.drop_first(), id) {
                let i = choose|i: int| 0 <= i < q.drop_first().len() && q.drop_first()[i].order_id == id;
                assert(q[i + 1] == q.drop_first()[i]);
            }
        }
        lemma_resting_qty_absent(q.drop_first(), id);
    }
}

proof fn lemma_resting_qty_skip(a: Seq<Order>, b: Seq<Order>, id: u32)
    requires
        !holds_id(a, id),
    ensures
        resting_qty(a + b, id) == resting_qty(b, id),
    decreases a.len(),
{
    if a.len() == 0 {
        assert(a + b =~= b);
    } else {
        assert((a + b)[0] == a[0]);
        assert((a + b).drop_first() =~= a.drop_first() + b);
        assert(!holds_id(a.drop_first(), id)) by {
            if holds_id(a.drop_first(), id) {
                let i = choose|i: int| 0 <= i < a.drop_first().len() && a.drop_first()[i].order_id == id;
                assert(a[i + 1] == a.drop_first()[i]);
            }
        }
        lemma_resting_qty_skip(a.drop_first(), b, id);
    }
}

/// After any `add` on a valid book, the best bid is below the best ask.
pub proof fn lemma_add_never_crosses(v: BookView, id: u32, price: u32, qty: u32, is_buy: bool)
    requires
        v.valid(),
    ensures
        ({
            let n = v.add(id, price, qty, is_buy).0;
            n.bids.len() > 0 && n.asks.len() > 0 ==> n.bids[0].price < n.asks[0].price
        }),
{
    lemma_add_valid(v, id, price, qty, is_buy);
}

/// The trades of one accepted `add` sum to its quantity less what of it rests.
pub proof fn lemma_add_conserves_quantity(v: BookView, id: u32, price: u32, qty: u32, is_buy: bool)
    requires
        v.valid(),
        qty > 0,
        price > 0,
        !v.resident(id),
    ensures
        ({
            let (n, trades) = v.add(id, price, qty, is_buy);
            traded_qty(trades) + resting_qty(n.side(is_buy), id) == qty
        }),
{
    let own = v.side(is_buy);
    let m = match_queue(v.side(!is_buy), is_buy, id, price, qty as nat, v.next_trade_id);
    lemma_match_shape(v.side(!is_buy), is_buy, id, price, qty as nat, v.next_trade_id);
    assert(!holds_id(own, id));
    if m.2 > 0 {
        let o = Order { order_id: id, price, quantity: m.2 as u32, is_buy_side: is_buy };
        let k = lemma_insert_shape(own, o);
        assert(!holds_id(own.take(k), id)) by {
            if holds_id(own.take(k), id) {
                let i = choose|i: int| 0 <= i < own.take(k).len() && own.take(k)[i].order_id == id;
                assert(own[i] == own.take(k)[i]);
            }
        }
        assert(own.take(k) + seq![o] + own.skip(k) == own.take(k) + (seq![o] + own.skip(k)));
        lemma_resting_qty_skip(own.take(k), seq![o] + own.skip(k), id);
    } else {
        lemma_resting_qty_absent(own, id);
    }
}

/// Price priority: no trade of an `add` is at a price worse for the incoming
/// order than the price of an order left on the opposite side.
pub proof fn lemma_add_price_priority(v: BookView, id: u32, price: u32, qty: u32, is_buy: bool)
    requires
        v.valid(),
    ensures
        ({
            let (n, trades) = v.add(id, price, qty, is_buy);
            let opp = n.side(!is_buy);
            forall|i: int, j: int|
                0 <= i < trades.len() && 0 <= j < opp.len() ==> !better(
                    !is_buy,
                    #[trigger] opp[j].price,
                    #[trigger] trades[i].price,
                )
        }),
{
    if qty == 0 || price == 0 || v.resident(id) {
        return;
    }
    let q = v.side(!is_buy);
    let m = match_queue(q, is_buy, id, price, qty as nat, v.next_trade_id);
    let k = lemma_match_shape(q, is_buy, id, price, qty as nat, v.next_trade_id);
    lemma_match_trades(q, is_buy, id, price, qty as nat, v.next_trade_id);
    let n = v.add(id, price, qty, is_buy).0;
    assert(n.side(!is_buy) == m.0);
    assert forall|i: int, j: int| 0 <= i < m.1.len() && 0 <= j < m.0.len() implies !better(
        !is_buy,
        #[trigger] m.0[j].price,
        #[trigger] m.1[i].price,
    ) by {
        assert(m.0[j].price == q[j + k].price);
        assert(m.1[i].price == q[i].price);
        if i < j + k {
            assert(!better(!is_buy, q[j + k].price, q[i].price));
        }
    }
}

/// Time priority: the trades of an `add` take the resting orders of the
/// opposite side in queue order, the oldest of a price first. (Where a new
/// order joins its queue is stated by `lemma_insert_shape`.)
pub proof fn lemma_add_time_priority(v: BookView, id: u32, price: u32, qty: u32, is_buy: bool)
    requires
        v.valid(),
        qty > 0,
        price > 0,
        !v.resident(id),
    ensures
        ({
            let trades = v.add(id, price, qty, is_buy).1;
            let q = v.side(!is_buy);
            forall|i: int|
                0 <= i < trades.len() ==> (if is_buy {
                    (#[trigger] trades[i]).sell_order_id
                } else {
                    trades[i].buy_order_id
                }) == q[i].order_id
        }),
{
    lemma_match_trades(v.side(!is_buy), is_buy, id, price, qty as nat, v.next_trade_id);
}

/// Trade ids: the trades of an `add` carry the book's next ids in order, and
/// the book's counter moves past them.
pub proof fn lemma_add_trade_ids(v: BookView, id: u32, price: u32, qty: u32, is_buy: bool)
    requires
        v.valid(),
    ensures
        ({
            let (n, trades) = v.add(id, price, qty, is_buy);
            &&& n.next_trade_id == v.next_trade_id + trades.len()
            &&& forall|i: int| 0 <= i < trades.len() ==> (#[trigger] trades[i]).trade_id == (v.next_trade_id + i) as u32
        }),
{
    lemma_match_trades(v.side(!is_buy), is_buy, id, price, qty as nat, v.next_trade_id);
}

/// Cancelling twice: the first call reports whether the order rested, the
/// second reports `false` and leaves the book as the first left it.
pub proof fn lemma_cancel_idempotent(v: BookView, id: u32)
    requires
        v.valid(),
    ensures
        ({
            let (v1, r1) = v.cancel(id);
            let (v2, r2) = v1.cancel(id);
            &&& r1 == v.resident(id)
            &&& !r2
            &&& v2 == v1
        }),
{
    lemma_cancel_valid(v, id);
}

/// An operation on a book.
pub enum BookOp {
    Add { order_id: u32, price: u32, quantity: u32, is_buy_side: bool },
    Cancel { order_id: u32 },
}

/// The book after `ops`, applied in order from `v`, and all the trades they emit.
pub open spec fn apply_ops(v: BookView, ops: Seq<BookOp>) -> (BookView, Seq<Trade>)
    decreases ops.len(),
{
    if ops.len() == 0 {
        (v, seq![])
    } else {
        let (v1, t1) = apply_ops(v, ops.drop_last());
        match ops.last() {
            BookOp::Add { order_id, price, quantity, is_buy_side } => {
                let (v2, t2) = v1.add(order_id, price, quantity, is_buy_side);
                (v2, t1 + t2)
            },
            BookOp::Cancel { order_id } => (v1.cancel(order_id).0, t1),
        }
    }
}

pub open spec fn empty_book() -> BookView {
    BookView { bids: seq![], asks: seq![], next_trade_id: 1 }
}

/// Over a book's lifetime, its trades carry the ids 1, 2, 3, ... in the order
/// they happen, and the book's counter is one past the last.
pub proof fn lemma_trade_ids_dense(ops: Seq<BookOp>)
    ensures
        ({
            let (v, trades) = apply_ops(empty_book(), ops);
            &&& v.valid()
            &&& v.next_trade_id == 1 + trades.len()
            &&& forall|i: int| 0 <= i < trades.len() ==> (#[trigger] trades[i]).trade_id == (1 + i) as u32
        }),
    decreases ops.len(),
{
    if ops.len() > 0 {
        lemma_trade_ids_dense(ops.drop_last());
        let (v1, t1) = apply_ops(empty_book(), ops.drop_last());
        match ops.last() {
            BookOp::Add { order_id, price, quantity, is_buy_side } => {
                lemma_add_valid(v1, order_id, price, quantity, is_buy_side);
                lemma_add_trade_ids(v1, order_id, price, quantity, is_buy_side);
                let (v2, t2) = v1.add(order_id, price, quantity, is_buy_side);
                let all = t1 + t2;
                assert forall|i: int| 0 <= i < all.len() implies (#[trigger] all[i]).trade_id == (1 + i) as u32 by {
                    if i >= t1.len() {
                        assert(all[i] == t2[i - t1.len()]);
                    } else {
                        assert(all[i] == t1[i]);
                    }
                }
            },
            BookOp::Cancel { order_id } => {
                lemma_cancel_valid(v1, order_id);
            },
        }
    } else {
        let (v, trades) = apply_ops(empty_book(), ops);
        assert(v == empty_book());
    }
}

} // verus!
