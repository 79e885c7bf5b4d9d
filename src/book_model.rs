//! The mathematical model of an order book: each side is a sequence of resting
//! orders in priority order (best price first, oldest first within a price),
//! and matching consumes the front of the opposite side.
use vstd::prelude::*;

verus! {

/// A fill between an incoming order and a resting one.
#[derive(Clone, Copy, Debug, PartialEq, Eq, Structural)]
pub struct Trade {
    pub trade_id: u32,
    /// Price in ticks; always the resting order's price.
    pub price: u32,
    pub quantity: u32,
    pub buy_order_id: u32,
    pub sell_order_id: u32,
}

impl Trade {
    pub fn new(trade_id: u32, price: u32, quantity: u32, buy_order_id: u32, sell_order_id: u32) -> (r: Trade)
        ensures
            r == (Trade { trade_id, price, quantity, buy_order_id, sell_order_id }),
    {
        Trade { trade_id, price, quantity, buy_order_id, sell_order_id }
    }
}

/// An order of the book, with its price in ticks.
#[derive(Clone, Copy, Debug, PartialEq, Eq, Structural)]
pub struct Order {
    pub order_id: u32,
    pub price: u32,
    pub quantity: u32,
    pub is_buy_side: bool,
}

impl Order {
    pub fn new(order_id: u32, price: u32, quantity: u32, is_buy_side: bool) -> (r: Order)
        ensures
            r == (Order { order_id, price, quantity, is_buy_side }),
    {
        Order { order_id, price, quantity, is_buy_side }
    }
}

/// The state of an order book as its users see it.
pub struct BookView {
    /// Resting buy orders, highest price first, then by time of arrival.
    pub bids: Seq<Order>,
    /// Resting sell orders, lowest price first, then by time of arrival.
    pub asks: Seq<Order>,
    /// The id that the next trade receives.
    pub next_trade_id: nat,
}

/// An incoming order on side `is_buy` with limit `limit` may trade at `level`.
pub open spec fn crosses(is_buy: bool, limit: u32, level: u32) -> bool {
    if is_buy {
        level <= limit
    } else {
        level >= limit
    }
}

/// On side `is_buy`, price `a` ranks strictly before price `b`.
pub open spec fn better(is_buy: bool, a: u32, b: u32) -> bool {
    if is_buy {
        a > b
    } else {
        a < b
    }
}

/// The trade between aggressor `id` on side `is_buy` and the resting `passive`.
pub open spec fn fill_trade(is_buy: bool, id: u32, passive: Order, qty: nat, tid: nat) -> Trade {
    Trade {
        trade_id: tid as u32,
        price: passive.price,
        quantity: qty as u32,
        buy_order_id: if is_buy { id } else { passive.order_id },
        sell_order_id: if is_buy { passive.order_id } else { id },
    }
}

/// Matching of an incoming order against the opposite side `q`: it takes the
/// front resting order while quantity remains and the price crosses.
/// Returns what is left of `q`, the trades, and the unfilled quantity.
pub open spec fn match_queue(
    q: Seq<Order>,
    is_buy: bool,
    id: u32,
    limit: u32,
    rem: nat,
    tid: nat,
) -> (Seq<Order>, Seq<Trade>, nat)
    decreases q.len(),
{
    if rem == 0 || q.len() == 0 || !crosses(is_buy, limit, q[0].price) {
        (q, seq![], rem)
    } else if rem < q[0].quantity {
        let head = Order {
            order_id: q[0].order_id,
            price: q[0].price,
            quantity: (q[0].quantity - rem) as u32,
            is_buy_side: q[0].is_buy_side,
        };
        (q.update(0, head), seq![fill_trade(is_buy, id, q[0], rem, tid)], 0)
    } else {
        let r = match_queue(q.drop_first(), is_buy, id, limit, (rem - q[0].quantity) as nat, tid + 1);
        (r.0, seq![fill_trade(is_buy, id, q[0], q[0].quantity as nat, tid)] + r.1, r.2)
    }
}

/// `o` joins its side behind every order whose price ranks at least as well.
pub open spec fn insert_resting(q: Seq<Order>, o: Order) -> Seq<Order>
    decreases q.len(),
{
    if q.len() == 0 {
        seq![o]
    } else if !better(o.is_buy_side, o.price, q[0].price) {
        seq![q[0]] + insert_resting(q.drop_first(), o)
    } else {
        seq![o] + q
    }
}

/// `q` without its first order whose id is `id`.
pub open spec fn remove_id(q: Seq<Order>, id: u32) -> Seq<Order>
    decreases q.len(),
{
    if q.len() == 0 {
        q
    } else if q[0].order_id == id {
        q.drop_first()
    } else {
        seq![q[0]] + remove_id(q.drop_first(), id)
    }
}

pub open spec fn holds_id(q: Seq<Order>, id: u32) -> bool {
    exists|i: int| 0 <= i < q.len() && q[i].order_id == id
}

/// Sum of the quantities of the orders of `q` resting at `price`.
pub open spec fn qty_at(q: Seq<Order>, price: u32) -> nat
    decreases q.len(),
{
    if q.len() == 0 {
        0
    } else {
        (if q[0].price == price { q[0].quantity as nat } else { 0 }) + qty_at(q.drop_first(), price)
    }
}

/// Sum of the quantities of all orders of `q`.
pub open spec fn total_qty(q: Seq<Order>) -> nat
    decreases q.len(),
{
    if q.len() == 0 {
        0
    } else {
        q[0].quantity as nat + total_qty(q.drop_first())
    }
}

/// Sum of the quantities of `trades`.
pub open spec fn traded_qty(trades: Seq<Trade>) -> nat
    decreases trades.len(),
{
    if trades.len() == 0 {
        0
    } else {
        trades[0].quantity as nat + traded_qty(trades.drop_first())
    }
}

pub open spec fn best_price(q: Seq<Order>) -> Option<u32> {
    if q.len() == 0 {
        None
    } else {
        Some(q[0].price)
    }
}

/// A side holds positive orders of its own kind, sorted by price priority.
pub open spec fn side_valid(q: Seq<Order>, is_buy: bool) -> bool {
    &&& forall|i: int|
        0 <= i < q.len() ==> {
            &&& #[trigger] q[i].quantity > 0
            &&& q[i].price > 0
            &&& q[i].is_buy_side == is_buy
        }
    &&& forall|i: int, j: int| 0 <= i < j < q.len() ==> !better(is_buy, #[trigger] q[j].price, #[trigger] q[i].price)
}

pub open spec fn ids_distinct(q: Seq<Order>) -> bool {
    forall|i: int, j: int|
        0 <= i < q.len() && 0 <= j < q.len() && i != j ==> #[trigger] q[i].order_id != #[trigger] q[j].order_id
}

pub open spec fn ids_disjoint(a: Seq<Order>, b: Seq<Order>) -> bool {
    forall|i: int, j: int|
        0 <= i < a.len() && 0 <= j < b.len() ==> #[trigger] a[i].order_id != #[trigger] b[j].order_id
}

impl BookView {
    /// What holds of every reachable book.
    pub open spec fn valid(self) -> bool {
        &&& side_valid(self.bids, true)
        &&& side_valid(self.asks, false)
        &&& ids_distinct(self.bids)
        &&& ids_distinct(self.asks)
        &&& ids_disjoint(self.bids, self.asks)
        &&& (self.bids.len() > 0 && self.asks.len() > 0 ==> self.bids[0].price < self.asks[0].price)
        &&& self.next_trade_id >= 1
    }

    pub open spec fn side(self, is_buy: bool) -> Seq<Order> {
        if is_buy {
            self.bids
        } else {
            self.asks
        }
    }

    pub open spec fn resident(self, id: u32) -> bool {
        holds_id(self.bids, id) || holds_id(self.asks, id)
    }

    /// The book after `add(id, price, qty, is_buy)`, and the trades it emits.
    pub open spec fn add(self, id: u32, price: u32, qty: u32, is_buy: bool) -> (BookView, Seq<Trade>) {
        if qty == 0 || price == 0 || self.resident(id) {
            (self, seq![])
        } else {
            let m = match_queue(self.side(!is_buy), is_buy, id, price, qty as nat, self.next_trade_id);
            let own = if m.2 > 0 {
                insert_resting(
                    self.side(is_buy),
                    Order { order_id: id, price, quantity: m.2 as u32, is_buy_side: is_buy },
                )
            } else {
                self.side(is_buy)
            };
            let tid = self.next_trade_id + m.1.len();
            if is_buy {
                (BookView { bids: own, asks: m.0, next_trade_id: tid }, m.1)
            } else {
                (BookView { bids: m.0, asks: own, next_trade_id: tid }, m.1)
            }
        }
    }

    /// The book after `cancel(id)`, and whether `id` was resting.
    pub open spec fn cancel(self, id: u32) -> (BookView, bool) {
        if holds_id(self.bids, id) {
            (BookView { bids: remove_id(self.bids, id), ..self }, true)
        } else if holds_id(self.asks, id) {
            (BookView { asks: remove_id(self.asks, id), ..self }, true)
        } else {
            (self, false)
        }
    }
}

/// Shape of the matching result: what is left of `q` is `q` without its first
/// `k` orders, the first of them possibly reduced, and the trades account for
/// the whole filled quantity.
pub proof fn lemma_match_shape(q: Seq<Order>, is_buy: bool, id: u32, limit: u32, rem: nat, tid: nat) -> (k: int)
    requires
        side_valid(q, !is_buy),
    ensures
        0 <= k <= q.len(),
        match_queue(q, is_buy, id, limit, rem, tid).0.len() == q.len() - k,
        forall|i: int|
            0 <= i < q.len() - k ==> {
                let r = #[trigger] match_queue(q, is_buy, id, limit, rem, tid).0[i];
                &&& r.order_id == q[i + k].order_id
                &&& r.price == q[i + k].price
                &&& r.is_buy_side == q[i + k].is_buy_side
                &&& 0 < r.quantity <= q[i + k].quantity
            },
        match_queue(q, is_buy, id, limit, rem, tid).1.len() <= q.len(),
        traded_qty(match_queue(q, is_buy, id, limit, rem, tid).1) + match_queue(q, is_buy, id, limit, rem, tid).2
            == rem,
        match_queue(q, is_buy, id, limit, rem, tid).2 > 0 ==> {
            let r = match_queue(q, is_buy, id, limit, rem, tid).0;
            r.len() == 0 || !crosses(is_buy, limit, r[0].price)
        },
    decreases q.len(),
{
    let m = match_queue(q, is_buy, id, limit, rem, tid);
    if rem == 0 || q.len() == 0 || !crosses(is_buy, limit, q[0].price) {
        assert(traded_qty(m.1) == 0);
        0
    } else if rem < q[0].quantity {
        let t = seq![fill_trade(is_buy, id, q[0], rem, tid)];
        assert(traded_qty(t.drop_first()) == 0);
        assert(t[0].quantity == rem);
        assert(traded_qty(t) == rem);
        0
    } else {
        let rest = q.drop_first();
        let k1 = lemma_match_shape(rest, is_buy, id, limit, (rem - q[0].quantity) as nat, tid + 1);
        let r = match_queue(rest, is_buy, id, limit, (rem - q[0].quantity) as nat, tid + 1);
        let t = seq![fill_trade(is_buy, id, q[0], q[0].quantity as nat, tid)] + r.1;
        assert(t.drop_first() =~= r.1);
        assert forall|i: int| 0 <= i < q.len() - (k1 + 1) implies {
            let x = #[trigger] m.0[i];
            &&& x.order_id == q[i + k1 + 1].order_id
            &&& x.price == q[i + k1 + 1].price
            &&& x.is_buy_side == q[i + k1 + 1].is_buy_side
            &&& 0 < x.quantity <= q[i + k1 + 1].quantity
        } by {
            assert(m.0[i] == r.0[i]);
            assert(rest[i + k1] == q[i + k1 + 1]);
        }
        k1 + 1
    }
}

/// Where `insert_resting` puts the new order: behind the first `k` orders,
/// which all rank at least as well, and before the rest, which rank worse.
pub proof fn lemma_insert_shape(q: Seq<Order>, o: Order) -> (k: int)
    ensures
        0 <= k <= q.len(),
        insert_resting(q, o) == q.take(k) + seq![o] + q.skip(k),
        forall|i: int| 0 <= i < k ==> !better(o.is_buy_side, o.price, #[trigger] q[i].price),
        k < q.len() ==> better(o.is_buy_side, o.price, q[k].price),
    decreases q.len(),
{
    if q.len() == 0 {
        assert(insert_resting(q, o) =~= q.take(0) + seq![o] + q.skip(0));
        0
    } else if !better(o.is_buy_side, o.price, q[0].price) {
        let rest = q.drop_first();
        let k1 = lemma_insert_shape(rest, o);
        assert(insert_resting(q, o) =~= q.take(k1 + 1) + seq![o] + q.skip(k1 + 1));
        assert forall|i: int| 0 <= i < k1 + 1 implies !better(o.is_buy_side, o.price, #[trigger] q[i].price) by {
            if i > 0 {
                assert(q[i] == rest[i - 1]);
            }
        }
        k1 + 1
    } else {
        assert(insert_resting(q, o) =~= q.take(0) + seq![o] + q.skip(0));
        0
    }
}

/// What matching leaves of a valid side is a valid side, with no id that the
/// side did not hold, and its best price ranks no better than before.
proof fn lemma_match_rest_valid(q: Seq<Order>, is_buy: bool, id: u32, limit: u32, rem: nat, tid: nat, other: Seq<Order>)
    requires
        side_valid(q, !is_buy),
        ids_distinct(q),
        ids_disjoint(q, other),
    ensures
        ({
            let r = match_queue(q, is_buy, id, limit, rem, tid).0;
            &&& side_valid(r, !is_buy)
            &&& ids_distinct(r)
            &&& ids_disjoint(r, other)
            &&& ids_disjoint(other, r)
            &&& (r.len() > 0 ==> !better(!is_buy, r[0].price, q[0].price))
            &&& forall|x: u32| holds_id(r, x) ==> holds_id(q, x)
        }),
{
    let k = lemma_match_shape(q, is_buy, id, limit, rem, tid);
    let r = match_queue(q, is_buy, id, limit, rem, tid).0;
    assert forall|i: int| 0 <= i < r.len() implies {
        &&& #[trigger] r[i].quantity > 0
        &&& r[i].price > 0
        &&& r[i].is_buy_side == !is_buy
    } by {
        assert(r[i] == match_queue(q, is_buy, id, limit, rem, tid).0[i]);
    }
    assert forall|i: int, j: int| 0 <= i < j < r.len() implies !better(!is_buy, #[trigger] r[j].price, #[trigger] r[i].price) by {
        assert(r[i] == match_queue(q, is_buy, id, limit, rem, tid).0[i]);
        assert(r[j] == match_queue(q, is_buy, id, limit, rem, tid).0[j]);
        assert(q[i + k].price == r[i].price);
        assert(q[j + k].price == r[j].price);
    }
    assert forall|i: int, j: int| 0 <= i < r.len() && 0 <= j < r.len() && i != j implies #[trigger] r[i].order_id != #[trigger] r[j].order_id by {
        assert(r[i] == match_queue(q, is_buy, id, limit, rem, tid).0[i]);
        assert(r[j] == match_queue(q, is_buy, id, limit, rem, tid).0[j]);
        assert(q[i + k].order_id == r[i].order_id);
        assert(q[j + k].order_id == r[j].order_id);
    }
    assert forall|i: int, j: int| 0 <= i < r.len() && 0 <= j < other.len() implies #[trigger] r[i].order_id != #[trigger] other[j].order_id by {
        assert(r[i] == match_queue(q, is_buy, id, limit, rem, tid).0[i]);
        assert(q[i + k].order_id == r[i].order_id);
    }
    assert forall|i: int, j: int| 0 <= i < other.len() && 0 <= j < r.len() implies #[trigger] other[i].order_id != #[trigger] r[j].order_id by {
        assert(r[j] == match_queue(q, is_buy, id, limit, rem, tid).0[j]);
        assert(q[j + k].order_id == r[j].order_id);
    }
    if r.len() > 0 {
        assert(r[0] == match_queue(q, is_buy, id, limit, rem, tid).0[0]);
        assert(q[k].price == r[0].price);
        if k > 0 {
            assert(!better(!is_buy, q[k].price, q[0].price));
        }
    }
    assert forall|x: u32| holds_id(r, x) implies holds_id(q, x) by {
        let i = choose|i: int| 0 <= i < r.len() && r[i].order_id == x;
        assert(r[i] == match_queue(q, is_buy, id, limit, rem, tid).0[i]);
        assert(q[i + k].order_id == x);
    }
}

/// Inserting an order whose id is new keeps a side valid.
proof fn lemma_insert_valid(q: Seq<Order>, o: Order, other: Seq<Order>)
    requires
        side_valid(q, o.is_buy_side),
        ids_distinct(q),
        ids_disjoint(q, other),
        o.quantity > 0,
        o.price > 0,
        !holds_id(q, o.order_id),
        !holds_id(other, o.order_id),
    ensures
        ({
            let n = insert_resting(q, o);
            &&& side_valid(n, o.is_buy_side)
            &&& ids_distinct(n)
            &&& ids_disjoint(n, other)
            &&& ids_disjoint(other, n)
            &&& n.len() > 0
            &&& (n[0] == o || (q.len() > 0 && n[0] == q[0]))
        }),
{
    let b = o.is_buy_side;
    let k = lemma_insert_shape(q, o);
    let n = insert_resting(q, o);
    assert forall|i: int| 0 <= i < n.len() implies #[trigger] n[i] == (if i < k {
        q[i]
    } else if i == k {
        o
    } else {
        q[i - 1]
    }) by {}
    assert forall|i: int| 0 <= i < n.len() implies {
        &&& #[trigger] n[i].quantity > 0
        &&& n[i].price > 0
        &&& n[i].is_buy_side == b
    } by {
        if i != k {
            let j = if i < k { i } else { i - 1 };
            assert(q[j].quantity > 0);
        }
    }
    assert forall|i: int, j: int| 0 <= i < j < n.len() implies !better(b, #[trigger] n[j].price, #[trigger] n[i].price) by {
        if i < k && j < k {
            assert(!better(b, q[j].price, q[i].price));
        } else if i < k && j == k {
        } else if i < k {
            assert(!better(b, q[j - 1].price, q[i].price));
        } else if i == k {
            assert(better(b, o.price, q[k].price));
            if j - 1 > k {
                assert(!better(b, q[j - 1].price, q[k].price));
            }
        } else {
            assert(!better(b, q[j - 1].price, q[i - 1].price));
        }
    }
    assert forall|i: int, j: int| 0 <= i < n.len() && 0 <= j < n.len() && i != j implies #[trigger] n[i].order_id != #[trigger] n[j].order_id by {
        if i == k {
            let jj = if j < k { j } else { j - 1 };
            assert(q[jj].order_id != o.order_id);
        } else if j == k {
            let ii = if i < k { i } else { i - 1 };
            assert(q[ii].order_id != o.order_id);
        } else {
            let ii = if i < k { i } else { i - 1 };
            let jj = if j < k { j } else { j - 1 };
            assert(q[ii].order_id != q[jj].order_id);
        }
    }
    assert forall|i: int, j: int| 0 <= i < n.len() && 0 <= j < other.len() implies #[trigger] n[i].order_id != #[trigger] other[j].order_id by {
        if i != k {
            let ii = if i < k { i } else { i - 1 };
            assert(q[ii].order_id != other[j].order_id);
        }
    }
    assert forall|i: int, j: int| 0 <= i < other.len() && 0 <= j < n.len() implies #[trigger] other[i].order_id != #[trigger] n[j].order_id by {
        if j != k {
            let jj = if j < k { j } else { j - 1 };
            assert(q[jj].order_id != other[i].order_id);
        }
    }
}

/// Validity is kept by `add`.
pub proof fn lemma_add_valid(v: BookView, id: u32, price: u32, qty: u32, is_buy: bool)
    requires
        v.valid(),
    ensures
        v.add(id, price, qty, is_buy).0.valid(),
{
    if qty == 0 || price == 0 || v.resident(id) {
        return;
    }
    let opp = v.side(!is_buy);
    let own = v.side(is_buy);
    let m = match_queue(opp, is_buy, id, price, qty as nat, v.next_trade_id);
    let o = Order { order_id: id, price, quantity: m.2 as u32, is_buy_side: is_buy };
    let k = lemma_match_shape(opp, is_buy, id, price, qty as nat, v.next_trade_id);
    lemma_match_rest_valid(opp, is_buy, id, price, qty as nat, v.next_trade_id, own);
    let r = m.0;
    if m.2 > 0 {
        lemma_insert_valid(own, o, opp);
        let n = insert_resting(own, o);
        assert forall|i: int, j: int| 0 <= i < n.len() && 0 <= j < r.len() implies #[trigger] n[i].order_id != #[trigger] r[j].order_id by {
            assert(holds_id(r, r[j].order_id));
            assert(holds_id(opp, r[j].order_id));
            let jj = choose|jj: int| 0 <= jj < opp.len() && opp[jj].order_id == r[j].order_id;
            assert(n[i].order_id != opp[jj].order_id);
        }
        assert forall|i: int, j: int| 0 <= i < r.len() && 0 <= j < n.len() implies #[trigger] r[i].order_id != #[trigger] n[j].order_id by {
            assert(holds_id(r, r[i].order_id));
            let ii = choose|ii: int| 0 <= ii < opp.len() && opp[ii].order_id == r[i].order_id;
            assert(opp[ii].order_id != n[j].order_id);
        }
        if r.len() > 0 {
            assert(!crosses(is_buy, price, r[0].price));
            if n[0] != o {
                assert(!better(!is_buy, r[0].price, opp[0].price));
            }
        }
    } else {
        if r.len() > 0 && own.len() > 0 {
            assert(!better(!is_buy, r[0].price, opp[0].price));
        }
    }
}

/// An order that rests is removed by `remove_id`, and nothing else changes
/// but its disappearance.
pub proof fn lemma_remove_id_shape(q: Seq<Order>, id: u32) -> (k: int)
    requires
        holds_id(q, id),
    ensures
        0 <= k < q.len(),
        q[k].order_id == id,
        remove_id(q, id) == q.remove(k),
        forall|i: int| 0 <= i < k ==> (#[trigger] q[i]).order_id != id,
    decreases q.len(),
{
    if q[0].order_id == id {
        assert(remove_id(q, id) =~= q.remove(0));
        0
    } else {
        let rest = q.drop_first();
        let i0 = choose|i: int| 0 <= i < q.len() && q[i].order_id == id;
        assert(rest[i0 - 1].order_id == id);
        let k1 = lemma_remove_id_shape(rest, id);
        assert(remove_id(q, id) =~= q.remove(k1 + 1));
        assert forall|i: int| 0 <= i < k1 + 1 implies (#[trigger] q[i]).order_id != id by {
            if i > 0 {
                assert(q[i] == rest[i - 1]);
            }
        }
        k1 + 1
    }
}

/// Validity is kept by `cancel`.
pub proof fn lemma_cancel_valid(v: BookView, id: u32)
    requires
        v.valid(),
    ensures
        v.cancel(id).0.valid(),
        v.cancel(id).1 ==> !v.cancel(id).0.resident(id),
{
    let n = v.cancel(id).0;
    if holds_id(v.bids, id) {
        let k = lemma_remove_id_shape(v.bids, id);
        lemma_remove_keeps_valid(v.bids, k, true, v.asks);
        assert(!holds_id(v.asks, id)) by {
            if holds_id(v.asks, id) {
                let j = choose|j: int| 0 <= j < v.asks.len() && v.asks[j].order_id == id;
                assert(v.bids[k].order_id != v.asks[j].order_id);
            }
        }
        if v.bids.len() > 1 && k == 0 && v.asks.len() > 0 {
            assert(!better(true, v.bids[1].price, v.bids[0].price));
        }
    } else if holds_id(v.asks, id) {
        let k = lemma_remove_id_shape(v.asks, id);
        lemma_remove_keeps_valid(v.asks, k, false, v.bids);
        if v.asks.len() > 1 && k == 0 && v.bids.len() > 0 {
            assert(!better(false, v.asks[1].price, v.asks[0].price));
        }
    }
}

proof fn lemma_remove_keeps_valid(q: Seq<Order>, k: int, is_buy: bool, other: Seq<Order>)
    requires
        0 <= k < q.len(),
        side_valid(q, is_buy),
        ids_distinct(q),
        ids_disjoint(q, other),
        ids_disjoint(other, q),
    ensures
        ({
            let n = q.remove(k);
            &&& side_valid(n, is_buy)
            &&& ids_distinct(n)
            &&& ids_disjoint(n, other)
            &&& ids_disjoint(other, n)
            &&& !holds_id(n, q[k].order_id)
            &&& (n.len() > 0 ==> n[0] == q[0] || (k == 0 && n[0] == q[1]))
        }),
{
    let n = q.remove(k);
    assert forall|i: int| 0 <= i < n.len() implies #[trigger] n[i] == (if i < k { q[i] } else { q[i + 1] }) by {}
    assert forall|i: int| 0 <= i < n.len() implies {
        &&& #[trigger] n[i].quantity > 0
        &&& n[i].price > 0
        &&& n[i].is_buy_side == is_buy
    } by {
        let ii = if i < k { i } else { i + 1 };
        assert(q[ii].quantity > 0);
    }
    assert forall|i: int, j: int| 0 <= i < j < n.len() implies !better(is_buy, #[trigger] n[j].price, #[trigger] n[i].price) by {
        let ii = if i < k { i } else { i + 1 };
        let jj = if j < k { j } else { j + 1 };
        assert(!better(is_buy, q[jj].price, q[ii].price));
    }
    assert forall|i: int, j: int| 0 <= i < n.len() && 0 <= j < n.len() && i != j implies #[trigger] n[i].order_id != #[trigger] n[j].order_id by {
        let ii = if i < k { i } else { i + 1 };
        let jj = if j < k { j } else { j + 1 };
        assert(q[ii].order_id != q[jj].order_id);
    }
    assert forall|i: int, j: int| 0 <= i < n.len() && 0 <= j < other.len() implies #[trigger] n[i].order_id != #[trigger] other[j].order_id by {
        let ii = if i < k { i } else { i + 1 };
        assert(q[ii].order_id != other[j].order_id);
    }
    assert forall|i: int, j: int| 0 <= i < other.len() && 0 <= j < n.len() implies #[trigger] other[i].order_id != #[trigger] n[j].order_id by {
        let jj = if j < k { j } else { j + 1 };
        assert(q[jj].order_id != other[i].order_id);
    }
    if holds_id(n, q[k].order_id) {
        let i = choose|i: int| 0 <= i < n.len() && n[i].order_id == q[k].order_id;
        let ii = if i < k { i } else { i + 1 };
        assert(q[ii].order_id != q[k].order_id);
    }
}

/// Trade `i` of a match is against the `i`-th order of the queue, at its price,
/// with the `i`-th trade id; at most one order beyond the consumed ones trades.
pub proof fn lemma_match_trades(q: Seq<Order>, is_buy: bool, id: u32, limit: u32, rem: nat, tid: nat)
    ensures
        ({
            let m = match_queue(q, is_buy, id, limit, rem, tid);
            &&& m.0.len() <= q.len()
            &&& m.1.len() <= q.len() - m.0.len() + 1
            &&& m.1.len() <= q.len()
            &&& forall|i: int|
                0 <= i < m.1.len() ==> {
                    &&& (#[trigger] m.1[i]).price == q[i].price
                    &&& m.1[i].trade_id == (tid + i) as u32
                    &&& m.1[i].buy_order_id == (if is_buy { id } else { q[i].order_id })
                    &&& m.1[i].sell_order_id == (if is_buy { q[i].order_id } else { id })
                }
        }),
    decreases q.len(),
{
    let m = match_queue(q, is_buy, id, limit, rem, tid);
    if rem == 0 || q.len() == 0 || !crosses(is_buy, limit, q[0].price) {
    } else if rem < q[0].quantity {
    } else {
        let rest = q.drop_first();
        let r = match_queue(rest, is_buy, id, limit, (rem - q[0].quantity) as nat, tid + 1);
        lemma_match_trades(rest, is_buy, id, limit, (rem - q[0].quantity) as nat, tid + 1);
        assert forall|i: int| 0 <= i < m.1.len() implies {
            &&& (#[trigger] m.1[i]).price == q[i].price
            &&& m.1[i].trade_id == (tid + i) as u32
            &&& m.1[i].buy_order_id == (if is_buy { id } else { q[i].order_id })
            &&& m.1[i].sell_order_id == (if is_buy { q[i].order_id } else { id })
        } by {
            if i > 0 {
                assert(m.1[i] == r.1[i - 1]);
                assert(q[i] == rest[i - 1]);
            }
        }
    }
}

pub proof fn lemma_holds_front(q: Seq<Order>, x: u32)
    requires
        q.len() > 0,
    ensures
        holds_id(q, x) <==> (q[0].order_id == x || holds_id(q.drop_first(), x)),
{
    if holds_id(q, x) && q[0].order_id != x {
        let i = choose|i: int| 0 <= i < q.len() && q[i].order_id == x;
        assert(q.drop_first()[i - 1] == q[i]);
    }
    if holds_id(q.drop_first(), x) {
        let i = choose|i: int| 0 <= i < q.drop_first().len() && q.drop_first()[i].order_id == x;
        assert(q[i + 1] == q.drop_first()[i]);
    }
}

pub proof fn lemma_holds_update_front(q: Seq<Order>, o: Order, x: u32)
    requires
        q.len() > 0,
        o.order_id == q[0].order_id,
    ensures
        holds_id(q.update(0, o), x) == holds_id(q, x),
{
    let u = q.update(0, o);
    if holds_id(q, x) {
        let i = choose|i: int| 0 <= i < q.len() && q[i].order_id == x;
        assert(u[i].order_id == x);
    }
    if holds_id(u, x) {
        let i = choose|i: int| 0 <= i < u.len() && u[i].order_id == x;
        assert(q[i].order_id == x);
    }
}

pub proof fn lemma_holds_insert(q: Seq<Order>, o: Order, x: u32)
    ensures
        holds_id(insert_resting(q, o), x) <==> (holds_id(q, x) || x == o.order_id),
{
    let k = lemma_insert_shape(q, o);
    let n = insert_resting(q, o);
    assert forall|i: int| 0 <= i < n.len() implies #[trigger] n[i] == (if i < k {
        q[i]
    } else if i == k {
        o
    } else {
        q[i - 1]
    }) by {}
    if holds_id(q, x) {
        let i = choose|i: int| 0 <= i < q.len() && q[i].order_id == x;
        let j = if i < k { i } else { i + 1 };
        assert(n[j].order_id == x);
    }
    if x == o.order_id {
        assert(n[k].order_id == x);
    }
    if holds_id(n, x) && x != o.order_id {
        let i = choose|i: int| 0 <= i < n.len() && n[i].order_id == x;
        let j = if i < k { i } else { i - 1 };
        assert(q[j].order_id == x);
    }
}

pub proof fn lemma_holds_remove_id(q: Seq<Order>, id: u32, x: u32)
    requires
        ids_distinct(q),
        holds_id(q, id),
    ensures
        holds_id(remove_id(q, id), x) <==> (holds_id(q, x) && x != id),
{
    let k = lemma_remove_id_shape(q, id);
    let n = q.remove(k);
    assert forall|i: int| 0 <= i < n.len() implies #[trigger] n[i] == (if i < k { q[i] } else { q[i + 1] }) by {}
    if holds_id(n, x) {
        let i = choose|i: int| 0 <= i < n.len() && n[i].order_id == x;
        let j = if i < k { i } else { i + 1 };
        assert(q[j].order_id == x);
        assert(q[j].order_id != q[k].order_id);
    }
    if holds_id(q, x) && x != id {
        let i = choose|i: int| 0 <= i < q.len() && q[i].order_id == x;
        let j = if i < k { i } else { i - 1 };
        assert(i != k);
        assert(n[j].order_id == x);
    }
}

/// `q` holds an order with id `id` at price `price`.
pub open spec fn holds_at(q: Seq<Order>, id: u32, price: u32) -> bool {
    exists|i: int| 0 <= i < q.len() && q[i].order_id == id && q[i].price == price
}

pub proof fn lemma_holds_at_front(q: Seq<Order>, x: u32, p: u32)
    requires
        q.len() > 0,
        q[0].order_id != x,
    ensures
        holds_at(q, x, p) ==> holds_at(q.drop_first(), x, p),
{
    if holds_at(q, x, p) {
        let i = choose|i: int| 0 <= i < q.len() && q[i].order_id == x && q[i].price == p;
        assert(q.drop_first()[i - 1] == q[i]);
    }
}

pub proof fn lemma_holds_at_update_front(q: Seq<Order>, o: Order, x: u32, p: u32)
    requires
        q.len() > 0,
        o.order_id == q[0].order_id,
        o.price == q[0].price,
    ensures
        holds_at(q, x, p) ==> holds_at(q.update(0, o), x, p),
{
    if holds_at(q, x, p) {
        let i = choose|i: int| 0 <= i < q.len() && q[i].order_id == x && q[i].price == p;
        assert(q.update(0, o)[i].order_id == x && q.update(0, o)[i].price == p);
    }
}

pub proof fn lemma_holds_at_insert(q: Seq<Order>, o: Order, x: u32, p: u32)
    ensures
        holds_at(q, x, p) ==> holds_at(insert_resting(q, o), x, p),
        holds_at(insert_resting(q, o), o.order_id, o.price),
{
    let k = lemma_insert_shape(q, o);
    let n = insert_resting(q, o);
    assert(n[k] == o);
    if holds_at(q, x, p) {
        let i = choose|i: int| 0 <= i < q.len() && q[i].order_id == x && q[i].price == p;
        let j = if i < k { i } else { i + 1 };
        assert(n[j] == q[i]);
    }
}

pub proof fn lemma_holds_at_remove_id(q: Seq<Order>, id: u32, x: u32, p: u32)
    requires
        holds_id(q, id),
        x != id,
    ensures
        holds_at(q, x, p) ==> holds_at(remove_id(q, id), x, p),
{
    let k = lemma_remove_id_shape(q, id);
    let n = q.remove(k);
    if holds_at(q, x, p) {
        let i = choose|i: int| 0 <= i < q.len() && q[i].order_id == x && q[i].price == p;
        assert(i != k);
        let j = if i < k { i } else { i - 1 };
        assert(n[j] == q[i]);
    }
}

} // verus!
