//! Mirrors a feed of price-level updates into an order book: an update of a
//! level replaces the order that the previous update at that price left.
use vstd::prelude::*;
use crate::book_model::{BookView, Trade};
use crate::order_book::OrderBook;

verus! {

/// The order id that `placed` holds for `price`, if any.
pub open spec fn lookup(placed: Seq<(u32, u32)>, price: u32) -> Option<u32>
    decreases placed.len(),
{
    if placed.len() == 0 {
        None
    } else if placed[0].0 == price {
        Some(placed[0].1)
    } else {
        lookup(placed.drop_first(), price)
    }
}

/// A local book fed by level updates, with the order each update left.
pub struct DepthMirror {
    book: OrderBook,
    next_order_id: u32,
    bid_orders: Vec<(u32, u32)>,
    ask_orders: Vec<(u32, u32)>,
}

/// The book once the order that `placed` holds for `price` is cancelled.
pub open spec fn without_previous(book: BookView, placed: Seq<(u32, u32)>, price: u32) -> BookView {
    match lookup(placed, price) {
        Some(id) => book.cancel(id).0,
        None => book,
    }
}

proof fn lemma_lookup_prefix(s: Seq<(u32, u32)>, i: int, price: u32)
    requires
        0 <= i <= s.len(),
        forall|k: int| 0 <= k < i ==> (#[trigger] s[k]).0 != price,
    ensures
        lookup(s, price) == lookup(s.skip(i), price),
    decreases i,
{
    if i > 0 {
        assert(s.skip(i) =~= s.drop_first().skip(i - 1));
        assert forall|k: int| 0 <= k < i - 1 implies (#[trigger] s.drop_first()[k]).0 != price by {
            assert(s.drop_first()[k] == s[k + 1]);
        }
        assert(s[0].0 != price);
        lemma_lookup_prefix(s.drop_first(), i - 1, price);
    } else {
        assert(s.skip(0) =~= s);
    }
}

proof fn lemma_lookup_update(s: Seq<(u32, u32)>, i: int, price: u32, id: u32, p: u32)
    requires
        0 <= i < s.len(),
        s[i].0 == price,
        forall|k: int| 0 <= k < i ==> (#[trigger] s[k]).0 != price,
    ensures
        lookup(s.update(i, (price, id)), p) == if p == price { Some(id) } else { lookup(s, p) },
    decreases i,
{
    if i > 0 {
        assert(s.update(i, (price, id)).drop_first() =~= s.drop_first().update(i - 1, (price, id)));
        assert forall|k: int| 0 <= k < i - 1 implies (#[trigger] s.drop_first()[k]).0 != price by {
            assert(s.drop_first()[k] == s[k + 1]);
        }
        lemma_lookup_update(s.drop_first(), i - 1, price, id, p);
    } else {
        assert(s.update(0, (price, id)).drop_first() =~= s.drop_first());
    }
}

proof fn lemma_lookup_push(s: Seq<(u32, u32)>, price: u32, id: u32, p: u32)
    requires
        lookup(s, price) is None,
    ensures
        lookup(s.push((price, id)), p) == if p == price && lookup(s, p) is None { Some(id) } else { lookup(s, p) },
    decreases s.len(),
{
    if s.len() == 0 {
        assert(s.push((price, id)).drop_first() =~= s);
    } else {
        assert(s.push((price, id)).drop_first() =~= s.drop_first().push((price, id)));
        lemma_lookup_push(s.drop_first(), price, id, p);
    }
}

/// Finds the entry for `price`.
fn find_level(placed: &Vec<(u32, u32)>, price: u32) -> (r: Option<usize>)
    ensures
        r is None ==> lookup(placed@, price) is None,
        r matches Some(i) ==> {
            &&& i < placed@.len()
            &&& placed@[i as int].0 == price
            &&& forall|k: int| 0 <= k < i ==> (#[trigger] placed@[k]).0 != price
            &&& lookup(placed@, price) == Some(placed@[i as int].1)
        },
{
    let mut i: usize = 0;
    while i < placed.len()
        invariant
            i <= placed@.len(),
            forall|k: int| 0 <= k < i ==> (#[trigger] placed@[k]).0 != price,
        decreases placed@.len() - i,
    {
        if placed[i].0 == price {
            proof {
                lemma_lookup_prefix(placed@, i as int, price);
            }
            return Some(i);
        }
        i += 1;
    }
    proof {
        lemma_lookup_prefix(placed@, i as int, price);
    }
    None
}

impl DepthMirror {
    pub closed spec fn book_view(&self) -> BookView {
        self.book@
    }

    /// The order id that the next accepted update will use.
    pub closed spec fn next_id(&self) -> nat {
        self.next_order_id as nat
    }

    /// Per price, the order the last update of a side left.
    pub closed spec fn placed(&self, is_buy: bool) -> Seq<(u32, u32)> {
        if is_buy {
            self.bid_orders@
        } else {
            self.ask_orders@
        }
    }

    /// An empty book; the first order will have id `first_order_id`.
    pub fn new(first_order_id: u32) -> (r: DepthMirror)
        ensures
            r.book_view() == (BookView { bids: seq![], asks: seq![], next_trade_id: 1 }),
            r.next_id() == first_order_id,
            r.placed(true).len() == 0,
            r.placed(false).len() == 0,
    {
        DepthMirror { book: OrderBook::new(), next_order_id: first_order_id, bid_orders: Vec::new(), ask_orders: Vec::new() }
    }

    pub fn book(&self) -> (r: &OrderBook)
        ensures
            r@ == self.book_view(),
    {
        &self.book
    }

    /// Applies an update of the level at `price` on one side. An update with
    /// a zero price or quantity is ignored (`Some` of no trades). Otherwise the
    /// order the last update at this price left is cancelled and a new order
    /// of `quantity` takes its place, with the next order id. `None` when the
    /// ids run out or the book's counters would overflow; then only the
    /// cancellation has happened.
    pub fn apply_level(&mut self, price: u32, quantity: u32, is_buy: bool) -> (r: Option<Vec<Trade>>)
        ensures
            final(self).placed(!is_buy) == old(self).placed(!is_buy),
            price == 0 || quantity == 0 || old(self).next_id() == u32::MAX ==> {
                &&& final(self).book_view() == old(self).book_view()
                &&& final(self).placed(is_buy) == old(self).placed(is_buy)
                &&& final(self).next_id() == old(self).next_id()
                &&& (price == 0 || quantity == 0 ==> (r matches Some(t) && t@.len() == 0))
                &&& (price != 0 && quantity != 0 ==> r is None)
            },
            price != 0 && quantity != 0 && old(self).next_id() < u32::MAX ==> {
                let b1 = without_previous(old(self).book_view(), old(self).placed(is_buy), price);
                let id = old(self).next_id() as u32;
                let fits = b1.next_trade_id + b1.side(!is_buy).len() <= u32::MAX && crate::book_model::qty_at(
                    b1.side(is_buy),
                    price,
                ) + quantity <= u32::MAX;
                &&& r is Some <==> fits
                &&& r is None ==> final(self).book_view() == b1
                &&& r matches Some(trades) ==> {
                    &&& (final(self).book_view(), trades@) == b1.add(id, price, quantity, is_buy)
                    &&& final(self).next_id() == old(self).next_id() + 1
                    &&& forall|p: u32|
                        #[trigger] lookup(final(self).placed(is_buy), p) == if p == price {
                            Some(id)
                        } else {
                            lookup(old(self).placed(is_buy), p)
                        }
                }
            },
    {
        if price == 0 || quantity == 0 {
            return Some(Vec::new());
        }
        if self.next_order_id == u32::MAX {
            return None;
        }
        let found = if is_buy {
            find_level(&self.bid_orders, price)
        } else {
            find_level(&self.ask_orders, price)
        };
        if let Some(i) = found {
            let previous = if is_buy {
                self.bid_orders[i].1
            } else {
                self.ask_orders[i].1
            };
            self.book.cancel_order(previous);
        }
        let id = self.next_order_id;
        let trades = match self.book.try_add_order(id, price, quantity, is_buy) {
            Some(t) => t,
            None => return None,
        };
        self.next_order_id = id + 1;
        let ghost before = self.placed(is_buy);
        match found {
            Some(i) => {
                if is_buy {
                    self.bid_orders.set(i, (price, id));
                } else {
                    self.ask_orders.set(i, (price, id));
                }
                proof {
                    assert(self.placed(is_buy) == before.update(i as int, (price, id)));
                    assert forall|p: u32| #[trigger] lookup(self.placed(is_buy), p) == if p == price {
                        Some(id)
                    } else {
                        lookup(before, p)
                    } by {
                        lemma_lookup_update(before, i as int, price, id, p);
                    }
                }
            },
            None => {
                if is_buy {
                    self.bid_orders.push((price, id));
                } else {
                    self.ask_orders.push((price, id));
                }
                proof {
                    assert forall|p: u32| #[trigger] lookup(self.placed(is_buy), p) == if p == price {
                        Some(id)
                    } else {
                        lookup(before, p)
                    } by {
                        lemma_lookup_push(before, price, id, p);
                    }
                }
            },
        }
        Some(trades)
    }
}

} // verus!
