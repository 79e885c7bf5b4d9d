//! A limit order book with price-time priority matching.
//!
//! Each side is stored as a vector of price levels with the best level last,
//! so that the level matched first is popped and pushed in constant time.
//! Every level keeps its resting orders in arrival order together with their
//! aggregate quantity. A map from order id to price finds the level of an
//! order to cancel, by binary search over the sorted levels.
use vstd::prelude::*;
use std::collections::HashMap;
pub use crate::book_model::{Order, Trade};
use crate::book_model::{
    holds_at, lemma_holds_at_front, lemma_holds_at_insert, lemma_holds_at_remove_id, lemma_holds_at_update_front,
    best_price, better, crosses, fill_trade, holds_id, ids_disjoint, ids_distinct, insert_resting, lemma_add_valid,
    lemma_cancel_valid, lemma_holds_front, lemma_holds_insert, lemma_holds_remove_id, lemma_holds_update_front,
    lemma_match_shape, match_queue, qty_at, remove_id, side_valid, total_qty, BookView,
};

verus! {

broadcast use vstd::std_specs::hash::group_hash_axioms;

#[derive(Clone, Copy, Debug)]
struct Resting {
    order_id: u32,
    quantity: u32,
}

#[derive(Debug)]
struct PriceLevel {
    price: u32,
    /// Aggregate quantity of `orders`.
    total: u32,
    /// Resting orders, oldest first.
    orders: Vec<Resting>,
}

/// A single venue's limit order book.
pub struct OrderBook {
    /// Buy levels, ascending price: the best bid is last.
    bids: Vec<PriceLevel>,
    /// Sell levels, descending price: the best ask is last.
    asks: Vec<PriceLevel>,
    next_trade_id: u32,
    /// The price of each resting order, by id.
    ids: HashMap<u32, u32>,
}

spec fn entry(r: Resting, price: u32, is_buy: bool) -> Order {
    Order { order_id: r.order_id, price, quantity: r.quantity, is_buy_side: is_buy }
}

spec fn level_entries(l: PriceLevel, is_buy: bool) -> Seq<Order> {
    l.orders@.map_values(|r: Resting| entry(r, l.price, is_buy))
}

/// The orders of a side in priority order: best level first.
spec fn queue_of(levels: Seq<PriceLevel>, is_buy: bool) -> Seq<Order>
    decreases levels.len(),
{
    if levels.len() == 0 {
        seq![]
    } else {
        level_entries(levels.last(), is_buy) + queue_of(levels.drop_last(), is_buy)
    }
}

spec fn level_wf(l: PriceLevel, is_buy: bool) -> bool {
    &&& l.orders@.len() > 0
    &&& l.price > 0
    &&& l.total as nat == total_qty(level_entries(l, is_buy))
    &&& forall|i: int| 0 <= i < l.orders@.len() ==> (#[trigger] l.orders@[i]).quantity > 0
}

spec fn levels_wf(levels: Seq<PriceLevel>, is_buy: bool) -> bool {
    &&& forall|i: int| 0 <= i < levels.len() ==> level_wf(#[trigger] levels[i], is_buy)
    &&& forall|i: int, j: int| 0 <= i < j < levels.len() ==> better(is_buy, #[trigger] levels[j].price, #[trigger] levels[i].price)
}

impl View for OrderBook {
    type V = BookView;

    closed spec fn view(&self) -> BookView {
        BookView {
            bids: queue_of(self.bids@, true),
            asks: queue_of(self.asks@, false),
            next_trade_id: self.next_trade_id as nat,
        }
    }
}

impl OrderBook {
    /// The book's invariant: its levels are well formed and its model valid.
    #[verifier::type_invariant]
    pub closed spec fn wf(self) -> bool {
        &&& levels_wf(self.bids@, true)
        &&& levels_wf(self.asks@, false)
        &&& self@.valid()
        &&& forall|x: u32| self.ids@.contains_key(x) <==> #[trigger] self@.resident(x)
        &&& forall|x: u32|
            #[trigger] self.ids@.contains_key(x) ==> holds_at(self@.bids, x, self.ids@[x]) || holds_at(
                self@.asks,
                x,
                self.ids@[x],
            )
    }
}

// ---------------------------------------------------------------------------
// Lemmas on the level storage.

proof fn lemma_queue_push(levels: Seq<PriceLevel>, l: PriceLevel, is_buy: bool)
    ensures
        queue_of(levels.push(l), is_buy) == level_entries(l, is_buy) + queue_of(levels, is_buy),
{
    assert(levels.push(l).drop_last() =~= levels);
}

proof fn lemma_queue_front(levels: Seq<PriceLevel>, is_buy: bool)
    requires
        levels_wf(levels, is_buy),
    ensures
        levels.len() == 0 ==> queue_of(levels, is_buy).len() == 0,
        levels.len() > 0 ==> queue_of(levels, is_buy).len() > 0 && queue_of(levels, is_buy)[0] == entry(
            levels.last().orders@[0],
            levels.last().price,
            is_buy,
        ),
{
    if levels.len() > 0 {
        assert(level_wf(levels[levels.len() - 1], is_buy));
    }
}

proof fn lemma_levels_wf_drop_last(levels: Seq<PriceLevel>, is_buy: bool)
    requires
        levels_wf(levels, is_buy),
        levels.len() > 0,
    ensures
        levels_wf(levels.drop_last(), is_buy),
{
    let d = levels.drop_last();
    assert forall|i: int| 0 <= i < d.len() implies level_wf(#[trigger] d[i], is_buy) by {
        assert(d[i] == levels[i]);
    }
    assert forall|i: int, j: int| 0 <= i < j < d.len() implies better(is_buy, #[trigger] d[j].price, #[trigger] d[i].price) by {
        assert(d[i] == levels[i] && d[j] == levels[j]);
    }
}

proof fn lemma_total_push(s: Seq<Order>, x: Order)
    ensures
        total_qty(s.push(x)) == total_qty(s) + x.quantity,
    decreases s.len(),
{
    if s.len() == 0 {
        assert(s.push(x).drop_first() =~= s);
    } else {
        assert(s.push(x).drop_first() =~= s.drop_first().push(x));
        lemma_total_push(s.drop_first(), x);
    }
}

proof fn lemma_total_remove(s: Seq<Order>, i: int)
    requires
        0 <= i < s.len(),
    ensures
        total_qty(s.remove(i)) + s[i].quantity == total_qty(s),
    decreases i,
{
    if i == 0 {
        assert(s.remove(0) =~= s.drop_first());
    } else {
        assert(s.remove(i).drop_first() =~= s.drop_first().remove(i - 1));
        lemma_total_remove(s.drop_first(), i - 1);
    }
}

proof fn lemma_total_update_front(s: Seq<Order>, x: Order)
    requires
        s.len() > 0,
    ensures
        total_qty(s.update(0, x)) + s[0].quantity == total_qty(s) + x.quantity,
{
    assert(s.update(0, x).drop_first() =~= s.drop_first());
}

proof fn lemma_qty_at_concat(a: Seq<Order>, b: Seq<Order>, p: u32)
    ensures
        qty_at(a + b, p) == qty_at(a, p) + qty_at(b, p),
    decreases a.len(),
{
    if a.len() == 0 {
        assert(a + b =~= b);
    } else {
        assert((a + b).drop_first() =~= a.drop_first() + b);
        lemma_qty_at_concat(a.drop_first(), b, p);
    }
}

proof fn lemma_qty_at_uniform(s: Seq<Order>, lp: u32, p: u32)
    requires
        forall|i: int| 0 <= i < s.len() ==> (#[trigger] s[i]).price == lp,
    ensures
        qty_at(s, p) == if lp == p { total_qty(s) } else { 0 },
    decreases s.len(),
{
    if s.len() > 0 {
        let d = s.drop_first();
        assert forall|i: int| 0 <= i < d.len() implies (#[trigger] d[i]).price == lp by {
            assert(d[i] == s[i + 1]);
        }
        lemma_qty_at_uniform(d, lp, p);
    }
}

/// The aggregate kept at a level is the quantity that the side holds at its
/// price; a price with no level holds nothing.
proof fn lemma_qty_at_levels(levels: Seq<PriceLevel>, is_buy: bool, p: u32)
    requires
        levels_wf(levels, is_buy),
    ensures
        (forall|i: int| 0 <= i < levels.len() ==> (#[trigger] levels[i]).price != p) ==> qty_at(
            queue_of(levels, is_buy),
            p,
        ) == 0,
        forall|i: int|
            0 <= i < levels.len() && (#[trigger] levels[i]).price == p ==> qty_at(queue_of(levels, is_buy), p)
                == levels[i].total,
    decreases levels.len(),
{
    if levels.len() > 0 {
        let last = levels.last();
        let d = levels.drop_last();
        lemma_levels_wf_drop_last(levels, is_buy);
        lemma_qty_at_levels(d, is_buy, p);
        lemma_qty_at_concat(level_entries(last, is_buy), queue_of(d, is_buy), p);
        lemma_qty_at_uniform(level_entries(last, is_buy), last.price, p);
        assert(level_wf(levels[levels.len() - 1], is_buy));
        assert forall|i: int| 0 <= i < levels.len() && (#[trigger] levels[i]).price == p implies qty_at(
            queue_of(levels, is_buy),
            p,
        ) == levels[i].total by {
            if i < levels.len() - 1 {
                assert(d[i] == levels[i]);
                assert(better(is_buy, levels[levels.len() - 1].price, levels[i].price));
                assert forall|j: int| 0 <= j < d.len() && (#[trigger] d[j]).price == p implies j == i by {
                    if j < i {
                        assert(better(is_buy, levels[i].price, levels[j].price));
                    } else if j > i {
                        assert(better(is_buy, levels[j].price, levels[i].price));
                    }
                }
            } else {
                assert forall|j: int| 0 <= j < d.len() implies (#[trigger] d[j]).price != p by {
                    assert(better(is_buy, levels[levels.len() - 1].price, levels[j].price));
                }
            }
        }
        if forall|i: int| 0 <= i < levels.len() ==> (#[trigger] levels[i]).price != p {
            assert forall|j: int| 0 <= j < d.len() implies (#[trigger] d[j]).price != p by {
                assert(d[j] == levels[j]);
            }
            assert(levels[levels.len() - 1].price != p);
        }
    }
}

proof fn lemma_holds_concat(a: Seq<Order>, b: Seq<Order>, id: u32)
    ensures
        holds_id(a + b, id) == (holds_id(a, id) || holds_id(b, id)),
{
    if holds_id(a + b, id) {
        let i = choose|i: int| 0 <= i < (a + b).len() && (a + b)[i].order_id == id;
        if i < a.len() {
            assert(a[i] == (a + b)[i]);
        } else {
            assert(b[i - a.len()] == (a + b)[i]);
        }
    }
    if holds_id(a, id) {
        let i = choose|i: int| 0 <= i < a.len() && a[i].order_id == id;
        assert((a + b)[i] == a[i]);
    }
    if holds_id(b, id) {
        let i = choose|i: int| 0 <= i < b.len() && b[i].order_id == id;
        assert((a + b)[i + a.len()] == b[i]);
    }
}

spec fn level_holds(l: PriceLevel, id: u32) -> bool {
    exists|j: int| 0 <= j < l.orders@.len() && (#[trigger] l.orders@[j]).order_id == id
}

proof fn lemma_level_holds(l: PriceLevel, is_buy: bool, id: u32)
    ensures
        holds_id(level_entries(l, is_buy), id) == level_holds(l, id),
{
    let e = level_entries(l, is_buy);
    if holds_id(e, id) {
        let j = choose|j: int| 0 <= j < e.len() && e[j].order_id == id;
        assert(l.orders@[j].order_id == id);
    }
    if level_holds(l, id) {
        let j = choose|j: int| 0 <= j < l.orders@.len() && (#[trigger] l.orders@[j]).order_id == id;
        assert(e[j].order_id == id);
    }
}

proof fn lemma_levels_hold(levels: Seq<PriceLevel>, is_buy: bool, id: u32)
    ensures
        holds_id(queue_of(levels, is_buy), id) == exists|i: int| 0 <= i < levels.len() && level_holds(#[trigger] levels[i], id),
    decreases levels.len(),
{
    if levels.len() > 0 {
        let d = levels.drop_last();
        lemma_levels_hold(d, is_buy, id);
        lemma_holds_concat(level_entries(levels.last(), is_buy), queue_of(d, is_buy), id);
        lemma_level_holds(levels.last(), is_buy, id);
        if exists|i: int| 0 <= i < levels.len() && level_holds(#[trigger] levels[i], id) {
            let i = choose|i: int| 0 <= i < levels.len() && level_holds(#[trigger] levels[i], id);
            if i < levels.len() - 1 {
                assert(d[i] == levels[i]);
            }
        }
        if exists|i: int| 0 <= i < d.len() && level_holds(#[trigger] d[i], id) {
            let i = choose|i: int| 0 <= i < d.len() && level_holds(#[trigger] d[i], id);
            assert(levels[i] == d[i]);
        }
    }
}

// ---------------------------------------------------------------------------
// Executable parts.

/// Whether an order on side `is_buy` with limit `limit` trades at `level`.
pub fn crosses_at(is_buy: bool, limit: u32, level: u32) -> (r: bool)
    ensures
        r == crosses(is_buy, limit, level),
{
    if is_buy {
        level <= limit
    } else {
        level >= limit
    }
}

fn better_than(is_buy: bool, a: u32, b: u32) -> (r: bool)
    ensures
        r == better(is_buy, a, b),
{
    if is_buy {
        a > b
    } else {
        a < b
    }
}

/// Matches an incoming order against the opposite side `opp`.
/// Returns the trades, the unfilled quantity and the next trade id.
fn match_orders(
    opp: &mut Vec<PriceLevel>,
    ids: &mut HashMap<u32, u32>,
    own: Ghost<Seq<Order>>,
    is_buy: bool,
    id: u32,
    limit: u32,
    qty: u32,
    tid0: u32,
) -> (res: (Vec<Trade>, u32, u32))
    requires
        forall|x: u32| old(ids)@.contains_key(x) <==> (holds_id(own@, x) || holds_id(queue_of(old(opp)@, !is_buy), x)),
        forall|x: u32|
            #[trigger] old(ids)@.contains_key(x) ==> holds_at(own@, x, old(ids)@[x]) || holds_at(
                queue_of(old(opp)@, !is_buy),
                x,
                old(ids)@[x],
            ),
        ids_distinct(queue_of(old(opp)@, !is_buy)),
        ids_disjoint(own@, queue_of(old(opp)@, !is_buy)),
        levels_wf(old(opp)@, !is_buy),
        side_valid(queue_of(old(opp)@, !is_buy), !is_buy),
        tid0 as int + queue_of(old(opp)@, !is_buy).len() <= u32::MAX,
    ensures
        forall|x: u32| final(ids)@.contains_key(x) <==> (holds_id(own@, x) || holds_id(queue_of(final(opp)@, !is_buy), x)),
        forall|x: u32|
            #[trigger] final(ids)@.contains_key(x) ==> holds_at(own@, x, final(ids)@[x]) || holds_at(
                queue_of(final(opp)@, !is_buy),
                x,
                final(ids)@[x],
            ),
        levels_wf(final(opp)@, !is_buy),
        ({
            let m = match_queue(queue_of(old(opp)@, !is_buy), is_buy, id, limit, qty as nat, tid0 as nat);
            &&& queue_of(final(opp)@, !is_buy) == m.0
            &&& res.0@ == m.1
            &&& res.1 as nat == m.2
            &&& res.2 as nat == tid0 as nat + m.1.len()
        }),
        final(opp)@.len() <= old(opp)@.len(),
        forall|i: int| 0 <= i < final(opp)@.len() ==> (#[trigger] final(opp)@[i]).price == old(opp)@[i].price,
{
    let ghost q0 = queue_of(opp@, !is_buy);
    let ghost full = match_queue(q0, is_buy, id, limit, qty as nat, tid0 as nat);
    let ghost opp0 = opp@;
    proof {
        lemma_match_shape(q0, is_buy, id, limit, qty as nat, tid0 as nat);
    }
    let mut trades: Vec<Trade> = Vec::new();
    let mut remaining: u32 = qty;
    let mut tid: u32 = tid0;
    while remaining > 0 && opp.len() > 0 && crosses_at(is_buy, limit, opp[opp.len() - 1].price)
        invariant
            forall|x: u32| ids@.contains_key(x) <==> (holds_id(own@, x) || holds_id(queue_of(opp@, !is_buy), x)),
            forall|x: u32|
                #[trigger] ids@.contains_key(x) ==> holds_at(own@, x, ids@[x]) || holds_at(
                    queue_of(opp@, !is_buy),
                    x,
                    ids@[x],
                ),
            ids_distinct(queue_of(opp@, !is_buy)),
            ids_disjoint(own@, queue_of(opp@, !is_buy)),
            levels_wf(opp@, !is_buy),
            full == match_queue(q0, is_buy, id, limit, qty as nat, tid0 as nat),
            full.1.len() <= q0.len(),
            tid0 as int + q0.len() <= u32::MAX,
            tid as nat == tid0 as nat + trades@.len(),
            ({
                let c = match_queue(queue_of(opp@, !is_buy), is_buy, id, limit, remaining as nat, tid as nat);
                &&& full.0 == c.0
                &&& full.1 == trades@ + c.1
                &&& full.2 == c.2
            }),
            opp@.len() <= opp0.len(),
            forall|i: int| 0 <= i < opp@.len() ==> (#[trigger] opp@[i]).price == opp0[i].price,
        decreases queue_of(opp@, !is_buy).len() + remaining,
    {
        let ghost before = opp@;
        let ghost ids_before = ids@;
        let ghost q = queue_of(before, !is_buy);
        let ghost c = match_queue(q, is_buy, id, limit, remaining as nat, tid as nat);
        proof {
            lemma_queue_front(before, !is_buy);
            assert(level_wf(before[before.len() - 1], !is_buy));
        }
        let mut lvl = opp.pop().unwrap();
        proof {
            assert(opp@ == before.drop_last());
            lemma_levels_wf_drop_last(before, !is_buy);
            assert(q == level_entries(lvl, !is_buy) + queue_of(opp@, !is_buy));
            assert(lvl.orders@[0].quantity > 0);
            assert(c.1.len() >= 1);
            assert(full.1.len() == trades@.len() + c.1.len());
        }
        let front = lvl.orders[0];
        let fill = if remaining < front.quantity {
            remaining
        } else {
            front.quantity
        };
        let t = if is_buy {
            Trade { trade_id: tid, price: lvl.price, quantity: fill, buy_order_id: id, sell_order_id: front.order_id }
        } else {
            Trade { trade_id: tid, price: lvl.price, quantity: fill, buy_order_id: front.order_id, sell_order_id: id }
        };
        let ghost e = level_entries(lvl, !is_buy);
        let ghost rest_q = queue_of(opp@, !is_buy);
        proof {
            assert(t == fill_trade(is_buy, id, q[0], fill as nat, tid as nat));
            assert(total_qty(e) >= e[0].quantity);
        }
        let ghost old_trades = trades@;
        trades.push(t);
        tid = tid + 1;
        remaining = remaining - fill;
        lvl.total = lvl.total - fill;
        if fill == front.quantity {
            lvl.orders.remove(0);
            ids.remove(&front.order_id);
            proof {
                assert(level_entries(lvl, !is_buy) =~= e.drop_first());
                assert(e.drop_first() + rest_q =~= q.drop_first());
            }
        } else {
            lvl.orders[0] = Resting { order_id: front.order_id, quantity: front.quantity - fill };
            proof {
                let head = Order {
                    order_id: q[0].order_id,
                    price: q[0].price,
                    quantity: (q[0].quantity - fill) as u32,
                    is_buy_side: q[0].is_buy_side,
                };
                assert(level_entries(lvl, !is_buy) =~= e.update(0, head));
                lemma_total_update_front(e, head);
                assert(e.update(0, head) + rest_q =~= q.update(0, head));
            }
        }
        proof {
            let d = e.drop_first();
            assert(total_qty(e) == e[0].quantity + total_qty(d));
        }
        if lvl.orders.len() > 0 {
            let ghost mid = opp@;
            opp.push(lvl);
            proof {
                lemma_queue_push(mid, lvl, !is_buy);
                assert forall|i: int| 0 <= i < opp@.len() implies level_wf(#[trigger] opp@[i], !is_buy) by {
                    if i < mid.len() {
                        assert(opp@[i] == mid[i]);
                    }
                }
                assert forall|i: int, j: int| 0 <= i < j < opp@.len() implies better(!is_buy, #[trigger] opp@[j].price, #[trigger] opp@[i].price) by {
                    assert(opp@[i].price == before[i].price);
                    assert(opp@[j].price == before[j].price);
                }
            }
        } else {
            proof {
                assert(level_entries(lvl, !is_buy).len() == 0);
            }
        }
        proof {
            let q2 = queue_of(opp@, !is_buy);
            let head = Order {
                order_id: q[0].order_id,
                price: q[0].price,
                quantity: (q[0].quantity - fill) as u32,
                is_buy_side: q[0].is_buy_side,
            };
            if fill == front.quantity {
                assert(q2 == q.drop_first());
                assert(ids@ == ids_before.remove(q[0].order_id));
                assert forall|x: u32| #[trigger] ids@.contains_key(x) implies holds_at(own@, x, ids@[x]) || holds_at(
                    q2,
                    x,
                    ids@[x],
                ) by {
                    assert(ids_before.contains_key(x));
                    lemma_holds_at_front(q, x, ids@[x]);
                }
                assert forall|x: u32| ids@.contains_key(x) <==> (holds_id(own@, x) || holds_id(q2, x)) by {
                    assert(ids_before.contains_key(x) <==> (holds_id(own@, x) || holds_id(q, x)));
                    lemma_holds_front(q, x);
                    if x == q[0].order_id {
                        if holds_id(q2, x) {
                            let i = choose|i: int| 0 <= i < q2.len() && q2[i].order_id == x;
                            assert(q[i + 1] == q2[i]);
                        }
                        if holds_id(own@, x) {
                            let i = choose|i: int| 0 <= i < own@.len() && own@[i].order_id == x;
                            assert(own@[i].order_id != q[0].order_id);
                        }
                    }
                }
                assert forall|i: int, j: int| 0 <= i < q2.len() && 0 <= j < q2.len() && i != j implies #[trigger] q2[i].order_id != #[trigger] q2[j].order_id by {
                    assert(q2[i] == q[i + 1] && q2[j] == q[j + 1]);
                }
                assert forall|i: int, j: int| 0 <= i < own@.len() && 0 <= j < q2.len() implies #[trigger] own@[i].order_id != #[trigger] q2[j].order_id by {
                    assert(q2[j] == q[j + 1]);
                }
            } else {
                assert(q2 == q.update(0, head));
                assert(ids@ == ids_before);
                assert forall|x: u32| #[trigger] ids@.contains_key(x) implies holds_at(own@, x, ids@[x]) || holds_at(
                    q2,
                    x,
                    ids@[x],
                ) by {
                    lemma_holds_at_update_front(q, head, x, ids@[x]);
                }
                assert forall|x: u32| ids@.contains_key(x) <==> (holds_id(own@, x) || holds_id(q2, x)) by {
                    assert(ids_before.contains_key(x) <==> (holds_id(own@, x) || holds_id(q, x)));
                    lemma_holds_update_front(q, head, x);
                }
                assert forall|i: int, j: int| 0 <= i < q2.len() && 0 <= j < q2.len() && i != j implies #[trigger] q2[i].order_id != #[trigger] q2[j].order_id by {
                    assert(q2[i].order_id == q[i].order_id && q2[j].order_id == q[j].order_id);
                }
                assert forall|i: int, j: int| 0 <= i < own@.len() && 0 <= j < q2.len() implies #[trigger] own@[i].order_id != #[trigger] q2[j].order_id by {
                    assert(q2[j].order_id == q[j].order_id);
                }
            }
            let c2 = match_queue(q2, is_buy, id, limit, remaining as nat, tid as nat);
            assert(trades@ == old_trades.push(t));
            if fill < front.quantity {
                assert(c2.1 =~= seq![]);
                assert(full.1 =~= trades@ + c2.1);
            } else {
                assert(c.1 == seq![t] + c2.1);
                assert(full.1 =~= trades@ + c2.1);
            }
        }
    }
    proof {
        lemma_queue_front(opp@, !is_buy);
    }
    (trades, remaining, tid)
}

proof fn lemma_insert_skip(e: Seq<Order>, r: Seq<Order>, o: Order)
    requires
        forall|i: int| 0 <= i < e.len() ==> !better(o.is_buy_side, o.price, (#[trigger] e[i]).price),
    ensures
        insert_resting(e + r, o) == e + insert_resting(r, o),
    decreases e.len(),
{
    if e.len() == 0 {
        assert(e + r =~= r);
        assert(e + insert_resting(r, o) =~= insert_resting(r, o));
    } else {
        let d = e.drop_first();
        assert((e + r).drop_first() =~= d + r);
        assert forall|i: int| 0 <= i < d.len() implies !better(o.is_buy_side, o.price, (#[trigger] d[i]).price) by {
            assert(d[i] == e[i + 1]);
        }
        lemma_insert_skip(d, r, o);
        assert((e + r)[0] == e[0]);
        assert(seq![e[0]] + (d + insert_resting(r, o)) =~= e + insert_resting(r, o));
    }
}

/// The new order lands in front of every level that ranks below its price.
proof fn lemma_insert_front(levels: Seq<PriceLevel>, is_buy: bool, o: Order)
    requires
        levels_wf(levels, is_buy),
        o.is_buy_side == is_buy,
        levels.len() > 0 ==> better(is_buy, o.price, levels.last().price),
    ensures
        insert_resting(queue_of(levels, is_buy), o) == seq![o] + queue_of(levels, is_buy),
{
    lemma_queue_front(levels, is_buy);
}

proof fn lemma_entries_price(l: PriceLevel, is_buy: bool, o: Order)
    requires
        l.price == o.price,
        o.is_buy_side == is_buy,
    ensures
        forall|i: int| 0 <= i < level_entries(l, is_buy).len() ==> !better(o.is_buy_side, o.price, (#[trigger] level_entries(l, is_buy)[i]).price),
{
}

proof fn lemma_entries_better(l: PriceLevel, is_buy: bool, o: Order)
    requires
        better(is_buy, l.price, o.price),
        o.is_buy_side == is_buy,
    ensures
        forall|i: int| 0 <= i < level_entries(l, is_buy).len() ==> !better(o.is_buy_side, o.price, (#[trigger] level_entries(l, is_buy)[i]).price),
{
}

/// Adding an order to the level `j` of its price puts it where
/// `insert_resting` does.
proof fn lemma_join_level(levels: Seq<PriceLevel>, is_buy: bool, o: Order, j: int, l2: PriceLevel)
    requires
        levels_wf(levels, is_buy),
        o.is_buy_side == is_buy,
        0 <= j < levels.len(),
        levels[j].price == o.price,
        l2.price == o.price,
        level_entries(l2, is_buy) == level_entries(levels[j], is_buy).push(o),
    ensures
        queue_of(levels.update(j, l2), is_buy) == insert_resting(queue_of(levels, is_buy), o),
    decreases levels.len(),
{
    let n = levels.len();
    let new = levels.update(j, l2);
    let d = levels.drop_last();
    lemma_levels_wf_drop_last(levels, is_buy);
    let e = level_entries(levels.last(), is_buy);
    if j == n - 1 {
        assert(new.drop_last() =~= d);
        lemma_entries_price(levels.last(), is_buy, o);
        lemma_insert_skip(e, queue_of(d, is_buy), o);
        if d.len() > 0 {
            assert(better(is_buy, levels[n - 1].price, levels[n - 2].price));
        }
        lemma_insert_front(d, is_buy, o);
        assert(e.push(o) + queue_of(d, is_buy) =~= e + (seq![o] + queue_of(d, is_buy)));
    } else {
        assert(new.drop_last() =~= d.update(j, l2));
        assert(d[j] == levels[j]);
        lemma_join_level(d, is_buy, o, j, l2);
        assert(better(is_buy, levels[n - 1].price, levels[j].price));
        lemma_entries_better(levels.last(), is_buy, o);
        lemma_insert_skip(e, queue_of(d, is_buy), o);
    }
}

/// A new level for the order at position `i`, between the levels that rank
/// below its price and those that rank above, puts it where
/// `insert_resting` does.
proof fn lemma_new_level(levels: Seq<PriceLevel>, is_buy: bool, o: Order, i: int, l2: PriceLevel)
    requires
        levels_wf(levels, is_buy),
        o.is_buy_side == is_buy,
        0 <= i <= levels.len(),
        forall|k: int| i <= k < levels.len() ==> better(is_buy, #[trigger] levels[k].price, o.price),
        i > 0 ==> better(is_buy, o.price, levels[i - 1].price),
        l2.price == o.price,
        level_entries(l2, is_buy) == seq![o],
    ensures
        queue_of(levels.insert(i, l2), is_buy) == insert_resting(queue_of(levels, is_buy), o),
    decreases levels.len(),
{
    let n = levels.len();
    let new = levels.insert(i, l2);
    if i == n {
        assert(new =~= levels.push(l2));
        lemma_queue_push(levels, l2, is_buy);
        if n > 0 {
            lemma_insert_front(levels, is_buy, o);
        } else {
            assert(insert_resting(queue_of(levels, is_buy), o) == seq![o]);
            assert(seq![o] + queue_of(levels, is_buy) =~= seq![o]);
        }
    } else {
        let d = levels.drop_last();
        lemma_levels_wf_drop_last(levels, is_buy);
        assert(new.drop_last() =~= d.insert(i, l2));
        assert(new.last() == levels.last());
        assert forall|k: int| i <= k < d.len() implies better(is_buy, #[trigger] d[k].price, o.price) by {
            assert(d[k] == levels[k]);
        }
        lemma_new_level(d, is_buy, o, i, l2);
        lemma_entries_better(levels.last(), is_buy, o);
        lemma_insert_skip(level_entries(levels.last(), is_buy), queue_of(d, is_buy), o);
    }
}

/// Rests `qty` of order `id` at `price` on side `own`.
fn rest_order(own: &mut Vec<PriceLevel>, ids: &mut HashMap<u32, u32>, is_buy: bool, id: u32, price: u32, qty: u32)
    requires
        levels_wf(old(own)@, is_buy),
        price > 0,
        qty > 0,
        qty_at(queue_of(old(own)@, is_buy), price) + qty <= u32::MAX,
    ensures
        final(ids)@ == old(ids)@.insert(id, price),
        levels_wf(final(own)@, is_buy),
        queue_of(final(own)@, is_buy) == insert_resting(
            queue_of(old(own)@, is_buy),
            Order { order_id: id, price, quantity: qty, is_buy_side: is_buy },
        ),
{
    let ghost o = Order { order_id: id, price, quantity: qty, is_buy_side: is_buy };
    ids.insert(id, price);
    let ghost l0 = own@;
    if let Some(j) = find_price(own, is_buy, price) {
        proof {
            lemma_qty_at_levels(l0, is_buy, price);
            assert(level_wf(l0[j as int], is_buy));
        }
        let ghost e = level_entries(l0[j as int], is_buy);
        let lvl = &mut own[j];
        lvl.orders.push(Resting { order_id: id, quantity: qty });
        lvl.total = lvl.total + qty;
        let ghost joined = *lvl;
        proof {
            assert(level_entries(joined, is_buy) =~= e.push(o));
            lemma_total_push(e, o);
        }
        proof {
            assert(own@ == l0.update(j as int, joined));
            lemma_join_level(l0, is_buy, o, j as int, joined);
            assert forall|k: int| 0 <= k < own@.len() implies level_wf(#[trigger] own@[k], is_buy) by {
                if k != j {
                    assert(own@[k] == l0[k]);
                }
            }
            assert forall|a: int, b: int| 0 <= a < b < own@.len() implies better(is_buy, #[trigger] own@[b].price, #[trigger] own@[a].price) by {
                assert(own@[a].price == l0[a].price);
                assert(own@[b].price == l0[b].price);
            }
        }
        return;
    }
    let mut i: usize = own.len();
    while i > 0 && better_than(is_buy, own[i - 1].price, price)
        invariant
            i <= own@.len(),
            own@ == l0,
            forall|k: int| i <= k < own@.len() ==> better(is_buy, #[trigger] own@[k].price, price),
            forall|k: int| 0 <= k < own@.len() ==> (#[trigger] own@[k]).price != price,
        decreases i,
    {
        i -= 1;
    }
    let lvl = PriceLevel { price, total: qty, orders: vec![Resting { order_id: id, quantity: qty }] };
    proof {
        assert(level_entries(lvl, is_buy) =~= seq![o]);
        assert(seq![o].drop_first() =~= Seq::<Order>::empty());
        assert(total_qty(Seq::<Order>::empty()) == 0);
        assert(total_qty(seq![o]) == qty);
        if i > 0 {
            assert(!better(is_buy, l0[i - 1].price, price));
        }
    }
    own.insert(i, lvl);
    proof {
        assert(own@ =~= l0.insert(i as int, lvl));
        lemma_new_level(l0, is_buy, o, i as int, lvl);
        assert forall|k: int| 0 <= k < own@.len() implies level_wf(#[trigger] own@[k], is_buy) by {
            if k < i {
                assert(own@[k] == l0[k]);
            } else if k > i {
                assert(own@[k] == l0[k - 1]);
            }
        }
        assert forall|a: int, b: int| 0 <= a < b < own@.len() implies better(is_buy, #[trigger] own@[b].price, #[trigger] own@[a].price) by {
            if b < i {
                assert(own@[a] == l0[a] && own@[b] == l0[b]);
            } else if b == i {
                assert(own@[a] == l0[a]);
                if a < i - 1 {
                    assert(better(is_buy, l0[i - 1].price, l0[a].price));
                }
            } else if a == i {
                assert(own@[b] == l0[b - 1]);
            } else if a < i {
                assert(own@[a] == l0[a] && own@[b] == l0[b - 1]);
                assert(better(is_buy, l0[b - 1].price, price));
                if a < i - 1 {
                    assert(better(is_buy, l0[i - 1].price, l0[a].price));
                }
            } else {
                assert(own@[a] == l0[a - 1] && own@[b] == l0[b - 1]);
            }
        }
    }
}

proof fn lemma_remove_id_in(a: Seq<Order>, b: Seq<Order>, id: u32)
    requires
        holds_id(a, id),
    ensures
        remove_id(a + b, id) == remove_id(a, id) + b,
    decreases a.len(),
{
    assert((a + b)[0] == a[0]);
    if a[0].order_id == id {
        assert((a + b).drop_first() =~= a.drop_first() + b);
    } else {
        let d = a.drop_first();
        let i = choose|i: int| 0 <= i < a.len() && a[i].order_id == id;
        assert(d[i - 1] == a[i]);
        assert((a + b).drop_first() =~= d + b);
        lemma_remove_id_in(d, b, id);
        assert(seq![a[0]] + (remove_id(d, id) + b) =~= (seq![a[0]] + remove_id(d, id)) + b);
    }
}

proof fn lemma_remove_id_out(a: Seq<Order>, b: Seq<Order>, id: u32)
    requires
        !holds_id(a, id),
    ensures
        remove_id(a + b, id) == a + remove_id(b, id),
    decreases a.len(),
{
    if a.len() == 0 {
        assert(a + b =~= b);
        assert(a + remove_id(b, id) =~= remove_id(b, id));
    } else {
        let d = a.drop_first();
        assert((a + b)[0] == a[0]);
        assert((a + b).drop_first() =~= d + b);
        assert(!holds_id(d, id)) by {
            if holds_id(d, id) {
                let i = choose|i: int| 0 <= i < d.len() && d[i].order_id == id;
                assert(a[i + 1] == d[i]);
            }
        }
        lemma_remove_id_out(d, b, id);
        assert(seq![a[0]] + (d + remove_id(b, id)) =~= a + remove_id(b, id));
    }
}

proof fn lemma_remove_id_at(s: Seq<Order>, k: int, id: u32)
    requires
        0 <= k < s.len(),
        s[k].order_id == id,
        forall|t: int| 0 <= t < k ==> (#[trigger] s[t]).order_id != id,
    ensures
        remove_id(s, id) == s.remove(k),
    decreases k,
{
    if k == 0 {
        assert(s.drop_first() =~= s.remove(0));
    } else {
        let d = s.drop_first();
        assert forall|t: int| 0 <= t < k - 1 implies (#[trigger] d[t]).order_id != id by {
            assert(d[t] == s[t + 1]);
        }
        lemma_remove_id_at(d, k - 1, id);
        assert(seq![s[0]] + d.remove(k - 1) =~= s.remove(k));
    }
}

/// Replacing the level that holds the first order with id `id` by the same
/// level without that order removes it from the side.
proof fn lemma_remove_in_levels(levels: Seq<PriceLevel>, is_buy: bool, li: int, l2: PriceLevel, id: u32)
    requires
        0 <= li < levels.len(),
        forall|k: int| li < k < levels.len() ==> !level_holds(#[trigger] levels[k], id),
        level_holds(levels[li], id),
        level_entries(l2, is_buy) == remove_id(level_entries(levels[li], is_buy), id),
    ensures
        queue_of(levels.update(li, l2), is_buy) == remove_id(queue_of(levels, is_buy), id),
    decreases levels.len(),
{
    let n = levels.len();
    let new = levels.update(li, l2);
    let d = levels.drop_last();
    let e = level_entries(levels.last(), is_buy);
    if li == n - 1 {
        assert(new.drop_last() =~= d);
        lemma_level_holds(levels.last(), is_buy, id);
        lemma_remove_id_in(e, queue_of(d, is_buy), id);
    } else {
        assert(new.drop_last() =~= d.update(li, l2));
        assert(d[li] == levels[li]);
        assert forall|k: int| li < k < d.len() implies !level_holds(#[trigger] d[k], id) by {
            assert(d[k] == levels[k]);
        }
        lemma_remove_in_levels(d, is_buy, li, l2, id);
        assert(!level_holds(levels[n - 1], id));
        lemma_level_holds(levels.last(), is_buy, id);
        lemma_remove_id_out(e, queue_of(d, is_buy), id);
    }
}

/// A level with no orders contributes nothing to its side.
proof fn lemma_queue_remove_empty(levels: Seq<PriceLevel>, is_buy: bool, li: int, l2: PriceLevel)
    requires
        0 <= li < levels.len(),
        l2.orders@.len() == 0,
    ensures
        queue_of(levels.remove(li), is_buy) == queue_of(levels.update(li, l2), is_buy),
    decreases levels.len(),
{
    let n = levels.len();
    let d = levels.drop_last();
    if li == n - 1 {
        assert(levels.remove(li) =~= d);
        assert(levels.update(li, l2).drop_last() =~= d);
        assert(level_entries(l2, is_buy) =~= Seq::<Order>::empty());
        assert(Seq::<Order>::empty() + queue_of(d, is_buy) =~= queue_of(d, is_buy));
    } else {
        assert(levels.remove(li).drop_last() =~= d.remove(li));
        assert(levels.remove(li).last() == levels.last());
        assert(levels.update(li, l2).drop_last() =~= d.update(li, l2));
        lemma_queue_remove_empty(d, is_buy, li, l2);
    }
}

proof fn lemma_distinct_concat(a: Seq<Order>, b: Seq<Order>)
    requires
        ids_distinct(a + b),
    ensures
        ids_distinct(a),
        ids_distinct(b),
        ids_disjoint(a, b),
{
    assert forall|i: int, j: int| 0 <= i < a.len() && 0 <= j < a.len() && i != j implies #[trigger] a[i].order_id != #[trigger] a[j].order_id by {
        assert((a + b)[i] == a[i] && (a + b)[j] == a[j]);
    }
    assert forall|i: int, j: int| 0 <= i < b.len() && 0 <= j < b.len() && i != j implies #[trigger] b[i].order_id != #[trigger] b[j].order_id by {
        assert((a + b)[i + a.len()] == b[i] && (a + b)[j + a.len()] == b[j]);
    }
    assert forall|i: int, j: int| 0 <= i < a.len() && 0 <= j < b.len() implies #[trigger] a[i].order_id != #[trigger] b[j].order_id by {
        assert((a + b)[i] == a[i] && (a + b)[j + a.len()] == b[j]);
    }
}

/// With distinct ids, the level that holds an id is the only one, and its
/// orders have distinct ids.
proof fn lemma_level_unique(levels: Seq<PriceLevel>, is_buy: bool, id: u32, li: int)
    requires
        ids_distinct(queue_of(levels, is_buy)),
        0 <= li < levels.len(),
        level_holds(levels[li], id),
    ensures
        forall|k: int| 0 <= k < levels.len() && k != li ==> !level_holds(#[trigger] levels[k], id),
        ids_distinct(level_entries(levels[li], is_buy)),
    decreases levels.len(),
{
    let n = levels.len();
    let d = levels.drop_last();
    let e = level_entries(levels.last(), is_buy);
    let r = queue_of(d, is_buy);
    lemma_distinct_concat(e, r);
    if li == n - 1 {
        lemma_level_holds(levels.last(), is_buy, id);
        assert forall|k: int| 0 <= k < levels.len() && k != li implies !level_holds(#[trigger] levels[k], id) by {
            if level_holds(levels[k], id) {
                assert(d[k] == levels[k]);
                lemma_levels_hold(d, is_buy, id);
                let i = choose|i: int| 0 <= i < e.len() && e[i].order_id == id;
                let j = choose|j: int| 0 <= j < r.len() && r[j].order_id == id;
                assert(e[i].order_id != r[j].order_id);
            }
        }
    } else {
        assert(d[li] == levels[li]);
        lemma_level_unique(d, is_buy, id, li);
        assert forall|k: int| 0 <= k < levels.len() && k != li implies !level_holds(#[trigger] levels[k], id) by {
            if k < n - 1 {
                assert(d[k] == levels[k]);
            } else if level_holds(levels[k], id) {
                lemma_level_holds(levels.last(), is_buy, id);
                lemma_levels_hold(d, is_buy, id);
                let i = choose|i: int| 0 <= i < e.len() && e[i].order_id == id;
                let j = choose|j: int| 0 <= j < r.len() && r[j].order_id == id;
                assert(e[i].order_id != r[j].order_id);
            }
        }
    }
}

/// Removes order `oj` of level `li` from a side whose ids are distinct, and
/// the level if it empties.
fn remove_at(levels: &mut Vec<PriceLevel>, is_buy: bool, li: usize, oj: usize)
    requires
        levels_wf(old(levels)@, is_buy),
        ids_distinct(queue_of(old(levels)@, is_buy)),
        li < old(levels)@.len(),
        oj < old(levels)@[li as int].orders@.len(),
    ensures
        levels_wf(final(levels)@, is_buy),
        queue_of(final(levels)@, is_buy) == remove_id(
            queue_of(old(levels)@, is_buy),
            old(levels)@[li as int].orders@[oj as int].order_id,
        ),
{
    let ghost l0 = levels@;
    let ghost id = l0[li as int].orders@[oj as int].order_id;
    proof {
        assert(level_wf(l0[li as int], is_buy));
        assert(level_holds(l0[li as int], id));
        lemma_level_unique(l0, is_buy, id, li as int);
        let e0 = level_entries(l0[li as int], is_buy);
        assert forall|t: int| 0 <= t < oj implies (#[trigger] l0[li as int].orders@[t]).order_id != id by {
            assert(e0[t].order_id == l0[li as int].orders@[t].order_id);
            assert(e0[oj as int].order_id == id);
        }
    }
    let ghost e = level_entries(l0[li as int], is_buy);
    proof {
        assert forall|t: int| 0 <= t < oj implies (#[trigger] e[t]).order_id != id by {
            assert(e[t].order_id == l0[li as int].orders@[t].order_id);
        }
        lemma_remove_id_at(e, oj as int, id);
        lemma_total_remove(e, oj as int);
    }
    if levels[li].orders.len() > 1 {
        let lvl = &mut levels[li];
        let gone = lvl.orders.remove(oj);
        lvl.total = lvl.total - gone.quantity;
        let ghost after = *lvl;
        proof {
            assert(level_entries(after, is_buy) =~= e.remove(oj as int));
            lemma_remove_in_levels(l0, is_buy, li as int, after, id);
        }
        proof {
            assert(levels@ == l0.update(li as int, after));
            assert forall|k: int| 0 <= k < levels@.len() implies level_wf(#[trigger] levels@[k], is_buy) by {
                if k != li {
                    assert(levels@[k] == l0[k]);
                } else {
                    assert forall|t: int| 0 <= t < after.orders@.len() implies (#[trigger] after.orders@[t]).quantity > 0 by {
                        if t < oj {
                            assert(after.orders@[t] == l0[li as int].orders@[t]);
                        } else {
                            assert(after.orders@[t] == l0[li as int].orders@[t + 1]);
                        }
                    }
                }
            }
            assert forall|a: int, b: int| 0 <= a < b < levels@.len() implies better(is_buy, #[trigger] levels@[b].price, #[trigger] levels@[a].price) by {
                assert(levels@[a].price == l0[a].price);
                assert(levels@[b].price == l0[b].price);
            }
        }
    } else {
        let mut lvl = levels.remove(li);
        lvl.orders.remove(oj);
        proof {
            assert(level_entries(lvl, is_buy) =~= e.remove(oj as int));
            lemma_remove_in_levels(l0, is_buy, li as int, lvl, id);
            assert(levels@ =~= l0.remove(li as int));
            lemma_queue_remove_empty(l0, is_buy, li as int, lvl);
            assert forall|k: int| 0 <= k < levels@.len() implies level_wf(#[trigger] levels@[k], is_buy) by {
                if k < li {
                    assert(levels@[k] == l0[k]);
                } else {
                    assert(levels@[k] == l0[k + 1]);
                }
            }
            assert forall|a: int, b: int| 0 <= a < b < levels@.len() implies better(is_buy, #[trigger] levels@[b].price, #[trigger] levels@[a].price) by {
                let aa = if a < li { a } else { a + 1 };
                let bb = if b < li { b } else { b + 1 };
                assert(levels@[a] == l0[aa]);
                assert(levels@[b] == l0[bb]);
            }
        }
    }
}

impl Default for OrderBook {
    fn default() -> (r: OrderBook)
        ensures
            r@ == (BookView { bids: seq![], asks: seq![], next_trade_id: 1 }),
    {
        OrderBook::new()
    }
}

impl OrderBook {
    /// An empty book whose first trade will have id 1.
    pub fn new() -> (r: OrderBook)
        ensures
            r@ == (BookView { bids: seq![], asks: seq![], next_trade_id: 1 }),
    {
        let r = OrderBook { bids: Vec::new(), asks: Vec::new(), next_trade_id: 1, ids: HashMap::new() };
        proof {
            assert(r@.bids =~= Seq::<Order>::empty());
            assert(r@.asks =~= Seq::<Order>::empty());
        }
        r
    }

    /// Whether an order with id `order_id` rests in the book.
    pub fn contains_order(&self, order_id: u32) -> (r: bool)
        ensures
            r == self@.resident(order_id),
    {
        proof {
            use_type_invariant(self);
        }
        self.ids.contains_key(&order_id)
    }

    /// How many orders rest on one side (`usize::MAX` if there are more).
    pub fn resting_count(&self, is_buy_side: bool) -> (r: usize)
        ensures
            r == if self@.side(is_buy_side).len() <= usize::MAX {
                self@.side(is_buy_side).len()
            } else {
                usize::MAX as nat
            },
    {
        let levels = if is_buy_side { &self.bids } else { &self.asks };
        let mut n: usize = 0;
        let mut i: usize = 0;
        while i < levels.len()
            invariant
                i <= levels@.len(),
                n as nat == if queue_of(levels@.take(i as int), is_buy_side).len() <= usize::MAX {
                    queue_of(levels@.take(i as int), is_buy_side).len()
                } else {
                    usize::MAX as nat
                },
                levels@ == (if is_buy_side { self.bids@ } else { self.asks@ }),
            decreases levels@.len() - i,
        {
            proof {
                assert(levels@.take(i + 1).drop_last() =~= levels@.take(i as int));
                lemma_queue_len_le(levels@, is_buy_side, i as int);
            }
            n = n.saturating_add(levels[i].orders.len());
            i += 1;
        }
        proof {
            assert(levels@.take(i as int) =~= levels@);
        }
        n
    }

    /// The id that the next trade of this book will receive.
    pub fn next_trade_id(&self) -> (r: u32)
        ensures
            r as nat == self@.next_trade_id,
    {
        self.next_trade_id
    }

    /// The highest price of a resting buy order.
    pub fn get_best_bid(&self) -> (r: Option<u32>)
        ensures
            r == best_price(self@.bids),
    {
        proof {
            use_type_invariant(self);
            lemma_queue_front(self.bids@, true);
        }
        if self.bids.len() == 0 {
            None
        } else {
            Some(self.bids[self.bids.len() - 1].price)
        }
    }

    /// The lowest price of a resting sell order.
    pub fn get_best_ask(&self) -> (r: Option<u32>)
        ensures
            r == best_price(self@.asks),
    {
        proof {
            use_type_invariant(self);
            lemma_queue_front(self.asks@, false);
        }
        if self.asks.len() == 0 {
            None
        } else {
            Some(self.asks[self.asks.len() - 1].price)
        }
    }

    /// The aggregate quantity of the buy orders resting at `price`.
    pub fn get_bid_quantity_at(&self, price: u32) -> (r: u32)
        ensures
            r as nat == qty_at(self@.bids, price),
    {
        proof {
            use_type_invariant(self);
        }
        level_quantity(&self.bids, true, price)
    }

    /// The aggregate quantity of the sell orders resting at `price`.
    pub fn get_ask_quantity_at(&self, price: u32) -> (r: u32)
        ensures
            r as nat == qty_at(self@.asks, price),
    {
        proof {
            use_type_invariant(self);
        }
        level_quantity(&self.asks, false, price)
    }

    /// Submits a limit order: it trades against the opposite side in price-time
    /// priority as far as its price allows, and what is left of it rests.
    /// An order with zero quantity, zero price or the id of a resting order is
    /// refused and changes nothing.
    pub fn add_order(&mut self, order_id: u32, price: u32, quantity: u32, is_buy_side: bool) -> (trades: Vec<Trade>)
        requires
            old(self)@.next_trade_id + old(self)@.side(!is_buy_side).len() <= u32::MAX,
            qty_at(old(self)@.side(is_buy_side), price) + quantity <= u32::MAX,
        ensures
            (final(self)@, trades@) == old(self)@.add(order_id, price, quantity, is_buy_side),
    {
        proof {
            use_type_invariant(&*self);
        }
        if quantity == 0 || price == 0 || self.contains_order(order_id) {
            return Vec::new();
        }
        let ghost v0 = self@;
        let mut cur = OrderBook::new();
        std::mem::swap(self, &mut cur);
        proof {
            use_type_invariant(&cur);
            assert(cur@ == v0);
            lemma_add_valid(v0, order_id, price, quantity, is_buy_side);
            lemma_match_shape(v0.side(!is_buy_side), is_buy_side, order_id, price, quantity as nat, v0.next_trade_id);
        }
        let ghost ids0 = cur.ids@;
        proof {
            assert forall|x: u32| ids0.contains_key(x) <==> v0.resident(x) by {
                assert(cur.ids@.contains_key(x) == cur@.resident(x));
            }
            assert forall|x: u32| #[trigger] ids0.contains_key(x) implies holds_at(v0.bids, x, ids0[x]) || holds_at(
                v0.asks,
                x,
                ids0[x],
            ) by {
                assert(cur.ids@.contains_key(x));
            }
        }
        let OrderBook { bids, asks, next_trade_id, mut ids } = cur;
        let (mut own, mut opp) = if is_buy_side {
            (bids, asks)
        } else {
            (asks, bids)
        };
        let ghost own0 = queue_of(own@, is_buy_side);
        proof {
            if !is_buy_side {
                assert forall|i: int, j: int| 0 <= i < own0.len() && 0 <= j < v0.bids.len() implies #[trigger] own0[i].order_id != #[trigger] v0.bids[j].order_id by {
                    assert(v0.bids[j].order_id != own0[i].order_id);
                }
            }
            assert forall|x: u32| #[trigger] ids@.contains_key(x) <==> (holds_id(own0, x) || holds_id(queue_of(opp@, !is_buy_side), x)) by {
                assert(ids0.contains_key(x) <==> v0.resident(x));
            }
            assert forall|x: u32| #[trigger] ids@.contains_key(x) implies holds_at(own0, x, ids@[x]) || holds_at(
                queue_of(opp@, !is_buy_side),
                x,
                ids@[x],
            ) by {
                assert(ids0.contains_key(x));
            }
        }
        let (trades, remaining, tid) = match_orders(
            &mut opp,
            &mut ids,
            Ghost(own0),
            is_buy_side,
            order_id,
            price,
            quantity,
            next_trade_id,
        );
        let ghost ids_mid = ids@;
        if remaining > 0 {
            rest_order(&mut own, &mut ids, is_buy_side, order_id, price, remaining);
        }
        proof {
            let o = Order { order_id, price, quantity: remaining, is_buy_side };
            assert forall|x: u32| ids@.contains_key(x) <==> (holds_id(queue_of(own@, is_buy_side), x) || holds_id(queue_of(opp@, !is_buy_side), x)) by {
                if remaining > 0 {
                    lemma_holds_insert(own0, o, x);
                }
            }
            assert forall|x: u32| #[trigger] ids@.contains_key(x) implies holds_at(queue_of(own@, is_buy_side), x, ids@[x])
                || holds_at(queue_of(opp@, !is_buy_side), x, ids@[x]) by {
                if remaining > 0 {
                    if x != order_id {
                        assert(ids_mid.contains_key(x));
                    }
                    lemma_holds_at_insert(own0, o, x, ids@[x]);
                } else {
                    assert(ids_mid.contains_key(x));
                }
            }
        }
        if is_buy_side {
            *self = OrderBook { bids: own, asks: opp, next_trade_id: tid, ids };
        } else {
            *self = OrderBook { bids: opp, asks: own, next_trade_id: tid, ids };
        }
        trades
    }

    /// `add_order` where the book's counters allow it: `None`, with the book
    /// unchanged, when the trade ids could run past `u32::MAX` or the order's
    /// level could exceed a `u32` quantity.
    pub fn try_add_order(&mut self, order_id: u32, price: u32, quantity: u32, is_buy_side: bool) -> (r: Option<Vec<Trade>>)
        ensures
            r is Some <==> (old(self)@.next_trade_id + old(self)@.side(!is_buy_side).len() <= u32::MAX && qty_at(
                old(self)@.side(is_buy_side),
                price,
            ) + quantity <= u32::MAX),
            r is None ==> final(self)@ == old(self)@,
            r matches Some(trades) ==> (final(self)@, trades@) == old(self)@.add(order_id, price, quantity, is_buy_side),
    {
        proof {
            use_type_invariant(&*self);
        }
        let count = self.resting_count(!is_buy_side);
        if count as u64 > (u32::MAX - self.next_trade_id) as u64 {
            return None;
        }
        let level = if is_buy_side {
            self.get_bid_quantity_at(price)
        } else {
            self.get_ask_quantity_at(price)
        };
        if level as u64 + quantity as u64 > u32::MAX as u64 {
            return None;
        }
        Some(self.add_order(order_id, price, quantity, is_buy_side))
    }

    /// Removes a resting order; returns whether it was resting.
    pub fn cancel_order(&mut self, order_id: u32) -> (r: bool)
        ensures
            (final(self)@, r) == old(self)@.cancel(order_id),
    {
        proof {
            use_type_invariant(&*self);
        }
        let ghost v0 = self@;
        let price = match self.ids.get(&order_id) {
            Some(p) => *p,
            None => {
                proof {
                    assert(self.ids@.contains_key(order_id) == self@.resident(order_id));
                }
                return false;
            },
        };
        proof {
            assert(self.ids@.contains_key(order_id));
            assert(self.ids@[order_id] == price);
        }
        let mut pos: Option<(bool, usize, usize)> = None;
        if let Some(li) = find_price(&self.bids, true, price) {
            if let Some(oj) = find_in_level(&self.bids[li], order_id) {
                pos = Some((true, li, oj));
            }
        }
        if pos.is_none() {
            if let Some(li) = find_price(&self.asks, false, price) {
                if let Some(oj) = find_in_level(&self.asks[li], order_id) {
                    pos = Some((false, li, oj));
                }
            }
        }
        let (is_buy_side, li, oj) = match pos {
            Some(found) => found,
            None => {
                proof {
                    if holds_at(v0.bids, order_id, price) {
                        lemma_holds_at_levels(self.bids@, true, order_id, price);
                        let k = choose|k: int| 0 <= k < self.bids@.len() && self.bids@[k].price == price && level_holds(self.bids@[k], order_id);
                        assert(self.bids@[k].price == price);
                    } else {
                        lemma_holds_at_levels(self.asks@, false, order_id, price);
                        let k = choose|k: int| 0 <= k < self.asks@.len() && self.asks@[k].price == price && level_holds(self.asks@[k], order_id);
                        assert(self.asks@[k].price == price);
                    }
                }
                return false;
            },
        };
        let mut cur = OrderBook::new();
        std::mem::swap(self, &mut cur);
        proof {
            use_type_invariant(&cur);
            assert(cur@ == v0);
            lemma_cancel_valid(v0, order_id);
        }
        let ghost ids0 = cur.ids@;
        proof {
            assert forall|x: u32| ids0.contains_key(x) <==> v0.resident(x) by {
                assert(cur.ids@.contains_key(x) == cur@.resident(x));
            }
            assert forall|x: u32| #[trigger] ids0.contains_key(x) implies holds_at(v0.bids, x, ids0[x]) || holds_at(
                v0.asks,
                x,
                ids0[x],
            ) by {
                assert(cur.ids@.contains_key(x));
            }
            if is_buy_side {
                assert(level_holds(cur.bids@[li as int], order_id));
                lemma_levels_hold(cur.bids@, true, order_id);
            } else {
                assert(level_holds(cur.asks@[li as int], order_id));
                lemma_levels_hold(cur.asks@, false, order_id);
                assert(!holds_id(v0.bids, order_id)) by {
                    if holds_id(v0.bids, order_id) {
                        let i = choose|i: int| 0 <= i < v0.bids.len() && v0.bids[i].order_id == order_id;
                        let j = choose|j: int| 0 <= j < v0.asks.len() && v0.asks[j].order_id == order_id;
                        assert(v0.bids[i].order_id != v0.asks[j].order_id);
                    }
                }
            }
        }
        let OrderBook { mut bids, mut asks, next_trade_id, mut ids } = cur;
        if is_buy_side {
            remove_at(&mut bids, true, li, oj);
        } else {
            remove_at(&mut asks, false, li, oj);
        }
        ids.remove(&order_id);
        proof {
            let n = v0.cancel(order_id).0;
            assert(ids@ == ids0.remove(order_id));
            assert forall|x: u32| ids@.contains_key(x) <==> n.resident(x) by {
                assert(ids0.contains_key(x) <==> v0.resident(x));
                if is_buy_side {
                    lemma_holds_remove_id(v0.bids, order_id, x);
                    if x == order_id && holds_id(v0.asks, x) {
                        let j = choose|j: int| 0 <= j < v0.asks.len() && v0.asks[j].order_id == x;
                        let i = choose|i: int| 0 <= i < v0.bids.len() && v0.bids[i].order_id == x;
                        assert(v0.bids[i].order_id != v0.asks[j].order_id);
                    }
                } else {
                    lemma_holds_remove_id(v0.asks, order_id, x);
                }
            }
            assert forall|x: u32| #[trigger] ids@.contains_key(x) implies holds_at(n.bids, x, ids@[x]) || holds_at(
                n.asks,
                x,
                ids@[x],
            ) by {
                assert(ids0.contains_key(x));
                if is_buy_side {
                    lemma_holds_at_remove_id(v0.bids, order_id, x, ids@[x]);
                } else {
                    lemma_holds_at_remove_id(v0.asks, order_id, x, ids@[x]);
                }
            }
        }
        *self = OrderBook { bids, asks, next_trade_id, ids };
        true
    }
}

/// An order with id `x` at price `p` on a side rests in the level of price `p`.
proof fn lemma_holds_at_levels(levels: Seq<PriceLevel>, is_buy: bool, x: u32, p: u32)
    requires
        holds_at(queue_of(levels, is_buy), x, p),
    ensures
        exists|k: int| 0 <= k < levels.len() && levels[k].price == p && level_holds(levels[k], x),
    decreases levels.len(),
{
    let d = levels.drop_last();
    let e = level_entries(levels.last(), is_buy);
    let r = queue_of(d, is_buy);
    let q = queue_of(levels, is_buy);
    let i = choose|i: int| 0 <= i < q.len() && q[i].order_id == x && q[i].price == p;
    if i < e.len() {
        assert(q[i] == e[i]);
        assert(levels.last().orders@[i].order_id == x);
        assert(level_holds(levels[levels.len() - 1], x));
    } else {
        assert(q[i] == r[i - e.len()]);
        lemma_holds_at_levels(d, is_buy, x, p);
        let k = choose|k: int| 0 <= k < d.len() && d[k].price == p && level_holds(d[k], x);
        assert(levels[k] == d[k]);
    }
}

/// The index of the level at `price`, by binary search over the sorted levels.
fn find_price(levels: &Vec<PriceLevel>, is_buy: bool, price: u32) -> (r: Option<usize>)
    requires
        levels_wf(levels@, is_buy),
    ensures
        r matches Some(k) ==> k < levels@.len() && levels@[k as int].price == price,
        r is None ==> forall|k: int| 0 <= k < levels@.len() ==> (#[trigger] levels@[k]).price != price,
{
    let mut lo: usize = 0;
    let mut hi: usize = levels.len();
    while lo < hi
        invariant
            lo <= hi <= levels@.len(),
            levels_wf(levels@, is_buy),
            forall|k: int| 0 <= k < lo ==> better(is_buy, price, #[trigger] levels@[k].price),
            forall|k: int| hi <= k < levels@.len() ==> better(is_buy, #[trigger] levels@[k].price, price),
        decreases hi - lo,
    {
        let mid = lo + (hi - lo) / 2;
        let p = levels[mid].price;
        if p == price {
            return Some(mid);
        } else if better_than(is_buy, p, price) {
            proof {
                assert forall|k: int| mid <= k < levels@.len() implies better(is_buy, #[trigger] levels@[k].price, price) by {
                    if k > mid {
                        assert(better(is_buy, levels@[k].price, levels@[mid as int].price));
                    }
                }
            }
            hi = mid;
        } else {
            proof {
                assert forall|k: int| 0 <= k <= mid implies better(is_buy, price, #[trigger] levels@[k].price) by {
                    if k < mid {
                        assert(better(is_buy, levels@[mid as int].price, levels@[k].price));
                    }
                }
            }
            lo = mid + 1;
        }
    }
    None
}

/// The position of order `id` in a level.
fn find_in_level(level: &PriceLevel, id: u32) -> (r: Option<usize>)
    ensures
        r matches Some(j) ==> j < level.orders@.len() && level.orders@[j as int].order_id == id,
        r is None ==> !level_holds(*level, id),
{
    let mut j: usize = 0;
    while j < level.orders.len()
        invariant
            j <= level.orders@.len(),
            forall|t: int| 0 <= t < j ==> (#[trigger] level.orders@[t]).order_id != id,
        decreases level.orders@.len() - j,
    {
        if level.orders[j].order_id == id {
            return Some(j);
        }
        j += 1;
    }
    None
}

proof fn lemma_queue_len_le(levels: Seq<PriceLevel>, is_buy: bool, i: int)
    requires
        0 <= i < levels.len(),
    ensures
        queue_of(levels.take(i + 1), is_buy).len() == queue_of(levels.take(i), is_buy).len()
            + levels[i].orders@.len(),
{
    let t = levels.take(i + 1);
    assert(t.drop_last() =~= levels.take(i));
    assert(t.last() == levels[i]);
}

/// The aggregate quantity at `price` on one side: the level's, or zero.
fn level_quantity(levels: &Vec<PriceLevel>, is_buy: bool, price: u32) -> (r: u32)
    requires
        levels_wf(levels@, is_buy),
    ensures
        r as nat == qty_at(queue_of(levels@, is_buy), price),
{
    proof {
        lemma_qty_at_levels(levels@, is_buy, price);
    }
    match find_price(levels, is_buy, price) {
        Some(k) => levels[k].total,
        None => 0,
    }
}

/// Sum of the aggregate quantities of a sequence of `(price, aggregate)` pairs.
pub open spec fn sum_aggregates(s: Seq<(u32, u32)>) -> nat
    decreases s.len(),
{
    if s.len() == 0 {
        0
    } else {
        s.last().1 as nat + sum_aggregates(s.drop_last())
    }
}

impl OrderBook {
    /// The price levels of one side as `(price, aggregate quantity)`, in
    /// stored order: the best level last.
    pub closed spec fn level_aggregates(self, is_buy: bool) -> Seq<(u32, u32)> {
        let levels = if is_buy { self.bids@ } else { self.asks@ };
        levels.map_values(|l: PriceLevel| (l.price, l.total))
    }
}

proof fn lemma_total_concat(a: Seq<Order>, b: Seq<Order>)
    ensures
        total_qty(a + b) == total_qty(a) + total_qty(b),
    decreases a.len(),
{
    if a.len() == 0 {
        assert(a + b =~= b);
    } else {
        assert((a + b).drop_first() =~= a.drop_first() + b);
        lemma_total_concat(a.drop_first(), b);
    }
}

proof fn lemma_sum_levels(levels: Seq<PriceLevel>, is_buy: bool)
    requires
        levels_wf(levels, is_buy),
    ensures
        sum_aggregates(levels.map_values(|l: PriceLevel| (l.price, l.total))) == total_qty(queue_of(levels, is_buy)),
    decreases levels.len(),
{
    if levels.len() > 0 {
        let d = levels.drop_last();
        lemma_levels_wf_drop_last(levels, is_buy);
        lemma_sum_levels(d, is_buy);
        assert(levels.map_values(|l: PriceLevel| (l.price, l.total)).drop_last() =~= d.map_values(
            |l: PriceLevel| (l.price, l.total),
        ));
        assert(level_wf(levels[levels.len() - 1], is_buy));
        lemma_total_concat(level_entries(levels.last(), is_buy), queue_of(d, is_buy));
    }
}

/// Conservation: on each side, every level's aggregate is the quantity the
/// side's orders hold at its price, it is positive, and the aggregates sum to
/// the quantity of all the side's orders.
pub proof fn lemma_conservation(book: OrderBook, is_buy: bool)
    requires
        book.wf(),
    ensures
        sum_aggregates(book.level_aggregates(is_buy)) == total_qty(book@.side(is_buy)),
        forall|i: int|
            0 <= i < book.level_aggregates(is_buy).len() ==> {
                &&& (#[trigger] book.level_aggregates(is_buy)[i]).1 as nat == qty_at(
                    book@.side(is_buy),
                    book.level_aggregates(is_buy)[i].0,
                )
                &&& book.level_aggregates(is_buy)[i].1 > 0
            },
{
    let levels = if is_buy { book.bids@ } else { book.asks@ };
    lemma_sum_levels(levels, is_buy);
    let agg = book.level_aggregates(is_buy);
    assert forall|i: int| 0 <= i < agg.len() implies {
        &&& (#[trigger] agg[i]).1 as nat == qty_at(book@.side(is_buy), agg[i].0)
        &&& agg[i].1 > 0
    } by {
        lemma_qty_at_levels(levels, is_buy, levels[i].price);
        assert(level_wf(levels[i], is_buy));
        let e = level_entries(levels[i], is_buy);
        assert(total_qty(e) == e[0].quantity + total_qty(e.drop_first()));
    }
}

/// The aggregate quantity at the top of a non-empty side is positive and fits
/// a `u32`.
pub proof fn lemma_top_quantity(book: OrderBook, is_buy: bool)
    requires
        book.wf(),
    ensures
        book@.valid(),
        book@.side(is_buy).len() > 0 ==> 0 < qty_at(book@.side(is_buy), book@.side(is_buy)[0].price) <= u32::MAX,
{
    let levels = if is_buy { book.bids@ } else { book.asks@ };
    lemma_queue_front(levels, is_buy);
    if levels.len() > 0 {
        lemma_qty_at_levels(levels, is_buy, levels[levels.len() - 1].price);
        let l = levels[levels.len() - 1];
        assert(level_wf(l, is_buy));
        let e = level_entries(l, is_buy);
        assert(total_qty(e) == e[0].quantity + total_qty(e.drop_first()));
    }
}

/// A fixed workload for profiling: ten bid and ten ask levels, fifty pairs of
/// crossing orders, then a hundred orders on each side.
pub fn run_matching_engine_scenario() {
    let mut book = OrderBook::new();
    let mut i: u32 = 0;
    while i < 10
        decreases 10 - i,
    {
        book.try_add_order(i * 2, 10_000 + i * 100, 100, true);
        book.try_add_order(i * 2 + 1, 11_000 + i * 100, 100, false);
        i += 1;
    }
    let mut i: u32 = 0;
    while i < 50
        decreases 50 - i,
    {
        book.try_add_order(1000 + i, 10_900, 50, true);
        book.try_add_order(2000 + i, 10_100, 50, false);
        i += 1;
    }
    let mut i: u32 = 0;
    while i < 100
        decreases 100 - i,
    {
        book.try_add_order(3000 + i, 9_500 + (i % 10) * 100, 100, true);
        book.try_add_order(4000 + i, 11_500 + (i % 10) * 100, 100, false);
        i += 1;
    }
}

} // verus!
