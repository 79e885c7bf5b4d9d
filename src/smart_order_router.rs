//! A smart order router: it scores each active venue's top of book by price,
//! fees and latency, and picks the cheapest venue for a buy or the most
//! lucrative for a sell.
//!
//! Fee rates and fill rates are millionths; latencies are milliseconds.
//! A score is exact: for a buy, `price × fill × (10^6 + fee) × (10^4 + latency)`,
//! for a sell, `price × fill × (10^6 − fee) × (10^4 − latency)`, where the fee
//! and latency terms count only when the router is told to consider them.
use vstd::prelude::*;
use crate::book_model::{best_price, crosses, qty_at};
use crate::order_book::{crosses_at, OrderBook};
pub use crate::ExchangeID;

verus! {

/// One million: the denominator of every rate.
pub const RATE_SCALE: u32 = 1_000_000;

/// Ten thousand: latency in milliseconds is weighed against it.
pub const LATENCY_SCALE: u32 = 10_000;

/// Maker and taker fee rates of a venue, in millionths of the notional.
#[derive(Clone, Copy, Debug, PartialEq, Eq, Structural)]
pub struct FeeSchedule {
    pub maker_fee: u32,
    pub taker_fee: u32,
}

impl FeeSchedule {
    pub fn new(maker: u32, taker: u32) -> (r: FeeSchedule)
        ensures
            r == (FeeSchedule { maker_fee: maker, taker_fee: taker }),
    {
        FeeSchedule { maker_fee: maker, taker_fee: taker }
    }

    /// Both rates are fractions of at most one.
    pub open spec fn valid(self) -> bool {
        self.maker_fee <= RATE_SCALE && self.taker_fee <= RATE_SCALE
    }
}

impl Default for FeeSchedule {
    /// 0.1% maker, 0.2% taker.
    fn default() -> (r: FeeSchedule)
        ensures
            r == (FeeSchedule { maker_fee: 1000, taker_fee: 2000 }),
    {
        FeeSchedule { maker_fee: 1000, taker_fee: 2000 }
    }
}

/// Static performance figures of a venue.
#[derive(Clone, Copy, Debug, PartialEq, Eq, Structural)]
pub struct ExchangeMetrics {
    pub avg_latency_ms: u32,
    /// Share of orders that get filled, in millionths.
    pub fill_rate: u32,
    /// Share of time the venue was up, in millionths.
    pub uptime: u32,
}

impl ExchangeMetrics {
    pub fn new(latency_ms: u32, fill_rate: u32, uptime: u32) -> (r: ExchangeMetrics)
        ensures
            r == (ExchangeMetrics { avg_latency_ms: latency_ms, fill_rate, uptime }),
    {
        ExchangeMetrics { avg_latency_ms: latency_ms, fill_rate, uptime }
    }
}

impl Default for ExchangeMetrics {
    /// 10 ms latency, 95% fill rate, 99.9% uptime.
    fn default() -> (r: ExchangeMetrics)
        ensures
            r == (ExchangeMetrics { avg_latency_ms: 10, fill_rate: 950_000, uptime: 999_000 }),
    {
        ExchangeMetrics { avg_latency_ms: 10, fill_rate: 950_000, uptime: 999_000 }
    }
}

/// The router's choice for one order.
#[derive(Clone, Copy, Debug, PartialEq, Eq, Structural)]
pub struct RoutingDecision {
    pub exchange_id: ExchangeID,
    /// Top-of-book price of the chosen venue, in ticks.
    pub expected_price: u32,
    /// Fee on the fillable quantity, in millionths of tick × quantity.
    pub expected_fee: u128,
    /// The score the router minimised (buy) or maximised (sell).
    pub total_cost: i128,
    pub available_quantity: u32,
    pub is_maker: bool,
}

impl RoutingDecision {
    /// The decision that names no venue.
    pub open spec fn none() -> RoutingDecision {
        RoutingDecision {
            exchange_id: ExchangeID::Unknown,
            expected_price: 0,
            expected_fee: 0,
            total_cost: 0,
            available_quantity: 0,
            is_maker: false,
        }
    }
}

impl Default for RoutingDecision {
    fn default() -> (r: RoutingDecision)
        ensures
            r == RoutingDecision::none(),
    {
        RoutingDecision {
            exchange_id: ExchangeID::Unknown,
            expected_price: 0,
            expected_fee: 0,
            total_cost: 0,
            available_quantity: 0,
            is_maker: false,
        }
    }
}

/// A venue as the router sees it. Implementations hold the venue's order book.
pub trait Exchange {
    spec fn spec_order_book(&self) -> OrderBook;

    spec fn spec_id(&self) -> ExchangeID;

    spec fn spec_available(&self) -> bool;

    spec fn spec_metrics(&self) -> ExchangeMetrics;

    fn get_order_book(&self) -> (r: &OrderBook)
        ensures
            *r == self.spec_order_book(),
    ;

    fn get_order_book_mut(&mut self) -> (r: &mut OrderBook);

    fn get_id(&self) -> (r: ExchangeID)
        ensures
            r == self.spec_id(),
    ;

    fn get_name(&self) -> &str;

    fn is_available(&self) -> (r: bool)
        ensures
            r == self.spec_available(),
    ;

    fn get_metrics(&self) -> (r: ExchangeMetrics)
        ensures
            r == self.spec_metrics(),
    ;
}

/// A venue simulated in process: an order book with fixed metrics.
pub struct SimulatedExchange {
    pub id: ExchangeID,
    pub name: String,
    pub order_book: OrderBook,
    pub metrics: ExchangeMetrics,
    pub available: bool,
}

impl SimulatedExchange {
    pub fn new(id: ExchangeID, name: String, metrics: ExchangeMetrics) -> (r: SimulatedExchange)
        ensures
            r.id == id,
            r.name == name,
            r.metrics == metrics,
            r.available,
            r.order_book@ == (crate::book_model::BookView { bids: seq![], asks: seq![], next_trade_id: 1 }),
    {
        SimulatedExchange { id, name, order_book: OrderBook::new(), metrics, available: true }
    }
}

impl Exchange for SimulatedExchange {
    open spec fn spec_order_book(&self) -> OrderBook {
        self.order_book
    }

    open spec fn spec_id(&self) -> ExchangeID {
        self.id
    }

    open spec fn spec_available(&self) -> bool {
        self.available
    }

    open spec fn spec_metrics(&self) -> ExchangeMetrics {
        self.metrics
    }

    fn get_order_book(&self) -> (r: &OrderBook) {
        &self.order_book
    }

    fn get_order_book_mut(&mut self) -> (r: &mut OrderBook) {
        &mut self.order_book
    }

    fn get_id(&self) -> (r: ExchangeID) {
        self.id
    }

    fn get_name(&self) -> &str {
        self.name.as_str()
    }

    fn is_available(&self) -> (r: bool) {
        self.available
    }

    fn get_metrics(&self) -> (r: ExchangeMetrics) {
        self.metrics
    }
}

/// A venue registered with the router.
pub struct ExchangeInfo<E> {
    pub exchange: E,
    pub fees: FeeSchedule,
    pub is_active: bool,
}

/// The score of filling `fill` at `price` with fee rate `rate` and latency
/// `latency`, as the router compares it.
pub open spec fn score(price: u32, fill: u32, rate: u32, latency: u32, is_buy: bool, fees: bool, lat: bool) -> int {
    let f: int = if fees { rate as int } else { 0 };
    let l: int = if lat { latency as int } else { 0 };
    if is_buy {
        price * fill * (RATE_SCALE + f) * (LATENCY_SCALE + l)
    } else {
        price * fill * (RATE_SCALE - f) * (LATENCY_SCALE - l)
    }
}

/// What one venue offers an order of `qty` at `price`, if it is a candidate:
/// active, available, and with quantity at the top of the opposite side.
pub open spec fn evaluate<E: Exchange>(
    info: ExchangeInfo<E>,
    price: u32,
    qty: u32,
    is_buy: bool,
    fees: bool,
    lat: bool,
) -> Option<RoutingDecision> {
    let book = info.exchange.spec_order_book()@;
    let opp = book.side(!is_buy);
    if !info.is_active || !info.exchange.spec_available() || opp.len() == 0 {
        None
    } else {
        let top = opp[0].price;
        let avail = qty_at(opp, top);
        if avail == 0 {
            None
        } else {
            let is_maker = !crosses(is_buy, price, top);
            let rate = if is_maker { info.fees.maker_fee } else { info.fees.taker_fee };
            let fill = if qty < avail { qty } else { avail as u32 };
            Some(
                RoutingDecision {
                    exchange_id: info.exchange.spec_id(),
                    expected_price: top,
                    expected_fee: if fees { (top * fill * rate) as u128 } else { 0 },
                    total_cost: score(top, fill, rate, info.exchange.spec_metrics().avg_latency_ms, is_buy, fees, lat) as i128,
                    available_quantity: avail as u32,
                    is_maker,
                },
            )
        }
    }
}

/// `d` beats `best`: a lower score for a buy, a higher one for a sell.
pub open spec fn improves(d: RoutingDecision, best: Option<RoutingDecision>, is_buy: bool) -> bool {
    match best {
        None => true,
        Some(b) => if is_buy {
            d.total_cost < b.total_cost
        } else {
            d.total_cost > b.total_cost
        },
    }
}

/// The best candidate among `venues`; among equal scores the first wins.
pub open spec fn route<E: Exchange>(
    venues: Seq<ExchangeInfo<E>>,
    price: u32,
    qty: u32,
    is_buy: bool,
    fees: bool,
    lat: bool,
) -> Option<RoutingDecision>
    decreases venues.len(),
{
    if venues.len() == 0 {
        None
    } else {
        let prev = route(venues.drop_last(), price, qty, is_buy, fees, lat);
        match evaluate(venues.last(), price, qty, is_buy, fees, lat) {
            Some(d) => if improves(d, prev, is_buy) {
                Some(d)
            } else {
                prev
            },
            None => prev,
        }
    }
}

/// Top of book of one side of a venue, if the venue is active and available
/// and the side is not empty: its price and aggregate quantity.
pub open spec fn top_of<E: Exchange>(info: ExchangeInfo<E>, is_buy_side: bool) -> Option<(u32, nat)> {
    let side = info.exchange.spec_order_book()@.side(is_buy_side);
    if !info.is_active || !info.exchange.spec_available() || side.len() == 0 {
        None
    } else {
        Some((side[0].price, qty_at(side, side[0].price)))
    }
}

/// Best prices across venues, with the first venue that quotes each, and the
/// sum of the top-of-book quantities.
#[derive(Clone, Copy, Debug, PartialEq, Eq, Structural)]
pub struct AggregatedMarketData {
    pub best_bid: Option<u32>,
    pub best_ask: Option<u32>,
    pub total_bid_quantity: u128,
    pub total_ask_quantity: u128,
    pub best_bid_exchange: ExchangeID,
    pub best_ask_exchange: ExchangeID,
}

pub open spec fn empty_market() -> AggregatedMarketData {
    AggregatedMarketData {
        best_bid: None,
        best_ask: None,
        total_bid_quantity: 0,
        total_ask_quantity: 0,
        best_bid_exchange: ExchangeID::Unknown,
        best_ask_exchange: ExchangeID::Unknown,
    }
}

/// `a` with one venue's top of book folded in.
pub open spec fn fold_venue<E: Exchange>(a: AggregatedMarketData, info: ExchangeInfo<E>) -> AggregatedMarketData {
    let a1 = match top_of(info, true) {
        Some((p, q)) => AggregatedMarketData {
            best_bid: if a.best_bid is None || p > a.best_bid->0 { Some(p) } else { a.best_bid },
            best_bid_exchange: if a.best_bid is None || p > a.best_bid->0 {
                info.exchange.spec_id()
            } else {
                a.best_bid_exchange
            },
            total_bid_quantity: (a.total_bid_quantity + q) as u128,
            ..a
        },
        None => a,
    };
    match top_of(info, false) {
        Some((p, q)) => AggregatedMarketData {
            best_ask: if a1.best_ask is None || p < a1.best_ask->0 { Some(p) } else { a1.best_ask },
            best_ask_exchange: if a1.best_ask is None || p < a1.best_ask->0 {
                info.exchange.spec_id()
            } else {
                a1.best_ask_exchange
            },
            total_ask_quantity: (a1.total_ask_quantity + q) as u128,
            ..a1
        },
        None => a1,
    }
}

pub open spec fn aggregate<E: Exchange>(venues: Seq<ExchangeInfo<E>>) -> AggregatedMarketData
    decreases venues.len(),
{
    if venues.len() == 0 {
        empty_market()
    } else {
        fold_venue(aggregate(venues.drop_last()), venues.last())
    }
}

/// A slice of an order sent to one venue.
#[derive(Clone, Copy, Debug, PartialEq, Eq, Structural)]
pub struct SplitOrder {
    pub exchange_id: ExchangeID,
    pub quantity: u32,
    pub expected_price: u32,
    /// The decision's fee scaled to this slice, in millionths of tick × quantity.
    pub expected_fee: u128,
}

/// Index of the first venue with id `id`; the number of venues if none has it.
pub open spec fn first_with_id<E: Exchange>(v: Seq<ExchangeInfo<E>>, id: ExchangeID) -> int
    decreases v.len(),
{
    if v.len() == 0 {
        0
    } else if v[0].exchange.spec_id() == id {
        0
    } else {
        1 + first_with_id(v.drop_first(), id)
    }
}

proof fn lemma_first_with_id<E: Exchange>(v: Seq<ExchangeInfo<E>>, id: ExchangeID, i: int)
    requires
        0 <= i <= v.len(),
        forall|k: int| 0 <= k < i ==> (#[trigger] v[k]).exchange.spec_id() != id,
        i < v.len() ==> v[i].exchange.spec_id() == id,
    ensures
        first_with_id(v, id) == i,
    decreases i,
{
    if i > 0 {
        let d = v.drop_first();
        assert forall|k: int| 0 <= k < i - 1 implies (#[trigger] d[k]).exchange.spec_id() != id by {
            assert(d[k] == v[k + 1]);
        }
        assert(v[0].exchange.spec_id() != id);
        lemma_first_with_id(d, id, i - 1);
    }
}

/// Bound on a fee: `u32::MAX² × 10^6`.
pub const FEE_BOUND: u128 = 18_446_744_065_119_617_025_000_000;

proof fn lemma_fee_bound(p: u32, q: u32, rate: u32)
    requires
        rate <= RATE_SCALE,
    ensures
        0 <= p * q <= 0xffff_fffe_0000_0001,
        0 <= p * q * rate <= FEE_BOUND,
{
    assert(0 <= p * q <= 0xffff_fffe_0000_0001) by (nonlinear_arith)
        requires
            0 <= p <= 0xffff_ffff,
            0 <= q <= 0xffff_ffff,
    ;
    assert(0 <= (p * q) * rate <= 0xffff_fffe_0000_0001 * 1_000_000) by (nonlinear_arith)
        requires
            0 <= p * q <= 0xffff_fffe_0000_0001,
            0 <= rate <= 1_000_000,
    ;
}

/// The notional `price × quantity` grossed up by the fee rate.
fn calculate_buy_cost(price: u32, quantity: u32, fee_rate: u32) -> (r: u128)
    requires
        fee_rate <= RATE_SCALE,
    ensures
        r == price * quantity * (RATE_SCALE + fee_rate),
        r <= 0xffff_fffe_0000_0001 * 2_000_000,
{
    proof {
        assert(0 <= price * quantity <= 0xffff_fffe_0000_0001) by (nonlinear_arith)
            requires
                0 <= price <= 0xffff_ffff,
                0 <= quantity <= 0xffff_ffff,
        ;
    }
    let notional = price as u128 * quantity as u128;
    proof {
        assert(0 <= notional * (RATE_SCALE + fee_rate) <= 0xffff_fffe_0000_0001 * 2_000_000) by (nonlinear_arith)
            requires
                0 <= notional <= 0xffff_fffe_0000_0001,
                0 <= RATE_SCALE + fee_rate <= 2_000_000,
        ;
    }
    notional * (RATE_SCALE as u128 + fee_rate as u128)
}

/// The notional `price × quantity` net of the fee rate.
fn calculate_sell_proceeds(price: u32, quantity: u32, fee_rate: u32) -> (r: u128)
    requires
        fee_rate <= RATE_SCALE,
    ensures
        r == price * quantity * (RATE_SCALE - fee_rate),
        r <= 0xffff_fffe_0000_0001 * 2_000_000,
{
    proof {
        assert(0 <= price * quantity <= 0xffff_fffe_0000_0001) by (nonlinear_arith)
            requires
                0 <= price <= 0xffff_ffff,
                0 <= quantity <= 0xffff_ffff,
        ;
    }
    let notional = price as u128 * quantity as u128;
    proof {
        assert(0 <= notional * (RATE_SCALE - fee_rate) <= 0xffff_fffe_0000_0001 * 2_000_000) by (nonlinear_arith)
            requires
                0 <= notional <= 0xffff_fffe_0000_0001,
                0 <= RATE_SCALE - fee_rate <= 2_000_000,
        ;
    }
    notional * (RATE_SCALE as u128 - fee_rate as u128)
}

/// Weighs an amount by latency: up for a buy's cost, down for a sell's proceeds.
fn apply_latency(amount: u128, latency: u32, is_buy: bool) -> (r: i128)
    requires
        amount <= 0xffff_fffe_0000_0001 * 2_000_000,
    ensures
        r == if is_buy { amount * (LATENCY_SCALE + latency) } else { amount * (LATENCY_SCALE - latency) },
{
    let factor: i128 = if is_buy {
        LATENCY_SCALE as i128 + latency as i128
    } else {
        LATENCY_SCALE as i128 - latency as i128
    };
    proof {
        assert(-0x1_0000_0000 <= factor <= 0x2_0000_0000);
        assert(-(0xffff_fffe_0000_0001 * 2_000_000) * 0x2_0000_0000 <= amount * factor <= (0xffff_fffe_0000_0001
            * 2_000_000) * 0x2_0000_0000) by (nonlinear_arith)
            requires
                0 <= amount <= 0xffff_fffe_0000_0001 * 2_000_000,
                -0x1_0000_0000 <= factor <= 0x2_0000_0000,
        ;
    }
    amount as i128 * factor
}

/// With latency considered, of two venues alike in book, fees, activity and
/// availability, the one with the lower latency is chosen, whichever was
/// registered first.
pub proof fn lemma_lower_latency_wins<E: Exchange>(
    a: ExchangeInfo<E>,
    b: ExchangeInfo<E>,
    price: u32,
    qty: u32,
    is_buy: bool,
    fees: bool,
)
    requires
        a.exchange.spec_order_book().wf(),
        a.exchange.spec_order_book()@ == b.exchange.spec_order_book()@,
        a.fees == b.fees,
        a.fees.valid(),
        a.is_active == b.is_active,
        a.exchange.spec_available() == b.exchange.spec_available(),
        a.exchange.spec_metrics().avg_latency_ms < b.exchange.spec_metrics().avg_latency_ms,
        evaluate(a, price, qty, is_buy, fees, true) is Some,
        qty > 0,
        fees && !is_buy ==> a.fees.maker_fee < RATE_SCALE && a.fees.taker_fee < RATE_SCALE,
    ensures
        route(seq![a, b], price, qty, is_buy, fees, true) == evaluate(a, price, qty, is_buy, fees, true),
        route(seq![b, a], price, qty, is_buy, fees, true) == evaluate(a, price, qty, is_buy, fees, true),
{
    let book = a.exchange.spec_order_book()@;
    let opp = book.side(!is_buy);
    crate::order_book::lemma_top_quantity(a.exchange.spec_order_book(), !is_buy);
    let top = opp[0].price;
    let avail = qty_at(opp, top);
    let is_maker = !crosses(is_buy, price, top);
    let rate = if is_maker { a.fees.maker_fee } else { a.fees.taker_fee };
    let fill: u32 = if qty < avail { qty } else { avail as u32 };
    let la = a.exchange.spec_metrics().avg_latency_ms;
    let lb = b.exchange.spec_metrics().avg_latency_ms;
    let f: int = if fees { rate as int } else { 0 };
    assert(top > 0);
    assert(fill > 0);
    let x = top as int * fill as int;
    assert(0 < x <= 0xffff_fffe_0000_0001) by (nonlinear_arith)
        requires
            0 < top <= 0xffff_ffff,
            0 < fill <= 0xffff_ffff,
            x == top as int * fill as int,
    ;
    let g: int = if is_buy { RATE_SCALE + f } else { RATE_SCALE - f };
    assert(0 < g <= 2_000_000);
    let y = x * g;
    assert(0 < y <= 0xffff_fffe_0000_0001 * 2_000_000) by (nonlinear_arith)
        requires
            0 < x <= 0xffff_fffe_0000_0001,
            0 < g <= 2_000_000,
            y == x * g,
    ;
    let ha: int = if is_buy { LATENCY_SCALE + la } else { LATENCY_SCALE - la };
    let hb: int = if is_buy { LATENCY_SCALE + lb } else { LATENCY_SCALE - lb };
    assert(-0x1_0000_0000 <= ha <= 0x2_0000_0000 && -0x1_0000_0000 <= hb <= 0x2_0000_0000);
    let sa = y * ha;
    let sb = y * hb;
    assert(-(0xffff_fffe_0000_0001 * 2_000_000) * 0x2_0000_0000 <= sa <= (0xffff_fffe_0000_0001 * 2_000_000)
        * 0x2_0000_0000) by (nonlinear_arith)
        requires
            0 < y <= 0xffff_fffe_0000_0001 * 2_000_000,
            -0x1_0000_0000 <= ha <= 0x2_0000_0000,
            sa == y * ha,
    ;
    assert(-(0xffff_fffe_0000_0001 * 2_000_000) * 0x2_0000_0000 <= sb <= (0xffff_fffe_0000_0001 * 2_000_000)
        * 0x2_0000_0000) by (nonlinear_arith)
        requires
            0 < y <= 0xffff_fffe_0000_0001 * 2_000_000,
            -0x1_0000_0000 <= hb <= 0x2_0000_0000,
            sb == y * hb,
    ;
    if is_buy {
        assert(sa < sb) by (nonlinear_arith)
            requires
                0 < y,
                ha < hb,
                sa == y * ha,
                sb == y * hb,
        ;
    } else {
        assert(sa > sb) by (nonlinear_arith)
            requires
                0 < y,
                ha > hb,
                sa == y * ha,
                sb == y * hb,
        ;
    }
    assert(score(top, fill, rate, la, is_buy, fees, true) == sa);
    assert(score(top, fill, rate, lb, is_buy, fees, true) == sb);
    let da = evaluate(a, price, qty, is_buy, fees, true)->0;
    let db = evaluate(b, price, qty, is_buy, fees, true)->0;
    assert(da.total_cost == sa);
    assert(db.total_cost == sb);
    let ab = seq![a, b];
    let ba = seq![b, a];
    assert(ab.drop_last() =~= seq![a]);
    assert(ba.drop_last() =~= seq![b]);
    assert(seq![a].drop_last() =~= Seq::<ExchangeInfo<E>>::empty());
    assert(seq![b].drop_last() =~= Seq::<ExchangeInfo<E>>::empty());
    assert(seq![a].last() == a);
    assert(seq![b].last() == b);
    assert(ab.last() == b);
    assert(ba.last() == a);
    assert(route(Seq::<ExchangeInfo<E>>::empty(), price, qty, is_buy, fees, true) is None);
    assert(route(seq![a], price, qty, is_buy, fees, true) == Some(da));
    assert(route(seq![b], price, qty, is_buy, fees, true) == Some(db));
}

/// Decides among several venues where to send orders.
pub struct SmartOrderRouter<E> {
    exchanges: Vec<ExchangeInfo<E>>,
    consider_latency: bool,
    consider_fees: bool,
}

impl<E: Exchange> SmartOrderRouter<E> {
    /// The registered venues, in order of registration.
    pub closed spec fn venues(&self) -> Seq<ExchangeInfo<E>> {
        self.exchanges@
    }

    pub closed spec fn considers_latency(&self) -> bool {
        self.consider_latency
    }

    pub closed spec fn considers_fees(&self) -> bool {
        self.consider_fees
    }

    /// Every registered fee schedule is valid.
    pub open spec fn wf(&self) -> bool {
        forall|i: int| 0 <= i < self.venues().len() ==> (#[trigger] self.venues()[i]).fees.valid()
    }

    /// The decision `route_order` returns.
    pub open spec fn decision(&self, price: u32, qty: u32, is_buy: bool) -> RoutingDecision {
        match route(self.venues(), price, qty, is_buy, self.considers_fees(), self.considers_latency()) {
            Some(d) => d,
            None => RoutingDecision::none(),
        }
    }

    pub fn new(consider_latency: bool, consider_fees: bool) -> (r: Self)
        ensures
            r.venues().len() == 0,
            r.considers_latency() == consider_latency,
            r.considers_fees() == consider_fees,
    {
        SmartOrderRouter { exchanges: Vec::new(), consider_latency, consider_fees }
    }

    /// Registers an active venue.
    pub fn add_exchange(&mut self, exchange: E, fees: FeeSchedule)
        requires
            fees.valid(),
        ensures
            final(self).venues() == old(self).venues().push(ExchangeInfo { exchange, fees, is_active: true }),
            final(self).considers_latency() == old(self).considers_latency(),
            final(self).considers_fees() == old(self).considers_fees(),
    {
        self.exchanges.push(ExchangeInfo { exchange, fees, is_active: true });
    }

    /// Whether an order at `price` would rest on `book` rather than trade.
    fn would_be_maker_order(&self, book: &OrderBook, price: u32, is_buy: bool) -> (r: bool)
        ensures
            r == match best_price(book@.side(!is_buy)) {
                Some(p) => !crosses(is_buy, price, p),
                None => true,
            },
    {
        let top = if is_buy {
            book.get_best_ask()
        } else {
            book.get_best_bid()
        };
        match top {
            Some(p) => !crosses_at(is_buy, price, p),
            None => true,
        }
    }

    fn evaluate_venue(&self, info: &ExchangeInfo<E>, price: u32, quantity: u32, is_buy: bool) -> (r: Option<
        RoutingDecision,
    >)
        requires
            info.fees.valid(),
        ensures
            r == evaluate(*info, price, quantity, is_buy, self.considers_fees(), self.considers_latency()),
            r matches Some(d) ==> d.available_quantity > 0 && d.expected_fee <= FEE_BOUND,
    {
        if !info.is_active || !info.exchange.is_available() {
            return None;
        }
        let book = info.exchange.get_order_book();
        let top = if is_buy {
            book.get_best_ask()
        } else {
            book.get_best_bid()
        };
        let top = match top {
            Some(p) => p,
            None => return None,
        };
        let avail = if is_buy {
            book.get_ask_quantity_at(top)
        } else {
            book.get_bid_quantity_at(top)
        };
        if avail == 0 {
            return None;
        }
        let is_maker = self.would_be_maker_order(book, price, is_buy);
        let rate = if is_maker {
            info.fees.maker_fee
        } else {
            info.fees.taker_fee
        };
        let fill = if quantity < avail {
            quantity
        } else {
            avail
        };
        let fee_rate = if self.consider_fees {
            rate
        } else {
            0
        };
        let amount = if is_buy {
            calculate_buy_cost(top, fill, fee_rate)
        } else {
            calculate_sell_proceeds(top, fill, fee_rate)
        };
        let latency = if self.consider_latency {
            info.exchange.get_metrics().avg_latency_ms
        } else {
            0
        };
        let total_cost = apply_latency(amount, latency, is_buy);
        proof {
            lemma_fee_bound(top, fill, rate);
        }
        let expected_fee = if self.consider_fees {
            top as u128 * fill as u128 * rate as u128
        } else {
            0
        };
        Some(
            RoutingDecision {
                exchange_id: info.exchange.get_id(),
                expected_price: top,
                expected_fee,
                total_cost,
                available_quantity: avail,
                is_maker,
            },
        )
    }

    /// The venue that best fills `quantity` at `price`: the lowest score for a
    /// buy, the highest for a sell, the first registered among equals; a
    /// decision naming `Unknown` if no venue can fill.
    pub fn route_order(&self, _order_id: u32, price: u32, quantity: u32, is_buy_side: bool) -> (r: RoutingDecision)
        requires
            self.wf(),
        ensures
            r == self.decision(price, quantity, is_buy_side),
            route(self.venues(), price, quantity, is_buy_side, self.considers_fees(), self.considers_latency())
                matches Some(d) ==> d.available_quantity > 0 && d.expected_fee <= FEE_BOUND,
    {
        let mut best: Option<RoutingDecision> = None;
        let mut i: usize = 0;
        while i < self.exchanges.len()
            invariant
                i <= self.venues().len(),
                self.wf(),
                best == route(
                    self.venues().take(i as int),
                    price,
                    quantity,
                    is_buy_side,
                    self.considers_fees(),
                    self.considers_latency(),
                ),
                best matches Some(b) ==> b.available_quantity > 0 && b.expected_fee <= FEE_BOUND,
            decreases self.venues().len() - i,
        {
            let info = &self.exchanges[i];
            proof {
                assert(self.venues()[i as int].fees.valid());
                let t = self.venues().take(i + 1);
                assert(t.drop_last() =~= self.venues().take(i as int));
                assert(t.last() == self.venues()[i as int]);
            }
            let cand = self.evaluate_venue(info, price, quantity, is_buy_side);
            match cand {
                Some(d) => {
                    let take = match best {
                        None => true,
                        Some(b) => if is_buy_side {
                            d.total_cost < b.total_cost
                        } else {
                            d.total_cost > b.total_cost
                        },
                    };
                    if take {
                        best = Some(d);
                    }
                },
                None => {},
            }
            i += 1;
        }
        proof {
            assert(self.venues().take(i as int) =~= self.venues());
        }
        match best {
            Some(d) => d,
            None => RoutingDecision::default(),
        }
    }

    /// The market across active venues: best bid and ask with the first venue
    /// quoting each, and the sums of the top-of-book quantities.
    pub fn get_aggregated_market_data(&self) -> (r: AggregatedMarketData)
        ensures
            r == aggregate(self.venues()),
    {
        let mut data = AggregatedMarketData {
            best_bid: None,
            best_ask: None,
            total_bid_quantity: 0,
            total_ask_quantity: 0,
            best_bid_exchange: ExchangeID::Unknown,
            best_ask_exchange: ExchangeID::Unknown,
        };
        let mut i: usize = 0;
        while i < self.exchanges.len()
            invariant
                i <= self.venues().len(),
                data == aggregate(self.venues().take(i as int)),
                data.total_bid_quantity <= i * 0xffff_ffff,
                data.total_ask_quantity <= i * 0xffff_ffff,
            decreases self.venues().len() - i,
        {
            let info = &self.exchanges[i];
            proof {
                let t = self.venues().take(i + 1);
                assert(t.drop_last() =~= self.venues().take(i as int));
                assert(t.last() == self.venues()[i as int]);
            }
            if info.is_active && info.exchange.is_available() {
                let book = info.exchange.get_order_book();
                if let Some(bid) = book.get_best_bid() {
                    let better_bid = match data.best_bid {
                        None => true,
                        Some(b) => bid > b,
                    };
                    if better_bid {
                        data.best_bid = Some(bid);
                        data.best_bid_exchange = info.exchange.get_id();
                    }
                    data.total_bid_quantity = data.total_bid_quantity + book.get_bid_quantity_at(bid) as u128;
                }
                if let Some(ask) = book.get_best_ask() {
                    let better_ask = match data.best_ask {
                        None => true,
                        Some(a) => ask < a,
                    };
                    if better_ask {
                        data.best_ask = Some(ask);
                        data.best_ask_exchange = info.exchange.get_id();
                    }
                    data.total_ask_quantity = data.total_ask_quantity + book.get_ask_quantity_at(ask) as u128;
                }
            }
            i += 1;
        }
        proof {
            assert(self.venues().take(i as int) =~= self.venues());
        }
        data
    }

    /// The slices `route_order_split` returns, from `count` slices already made.
    pub open spec fn splits(&self, price: u32, rem: u32, is_buy: bool, count: nat) -> Seq<SplitOrder>
        decreases self.venues().len() - count,
    {
        if rem == 0 || count >= self.venues().len() {
            seq![]
        } else {
            let d = self.decision(price, rem, is_buy);
            if d.exchange_id == ExchangeID::Unknown {
                seq![]
            } else {
                let fill: u32 = if rem < d.available_quantity { rem } else { d.available_quantity };
                let s = SplitOrder {
                    exchange_id: d.exchange_id,
                    quantity: fill,
                    expected_price: d.expected_price,
                    expected_fee: (d.expected_fee as int * fill as int / d.available_quantity as int) as u128,
                };
                seq![s] + self.splits(price, (rem - fill) as u32, is_buy, count + 1)
            }
        }
    }

    /// Splits an order over venues: each round routes what is left and gives
    /// the chosen venue what it shows at its top, until nothing is left, no
    /// venue can fill, or there are as many slices as venues.
    pub fn route_order_split(&self, order_id: u32, price: u32, total_quantity: u32, is_buy_side: bool) -> (r: Vec<
        SplitOrder,
    >)
        requires
            self.wf(),
        ensures
            r@ == self.splits(price, total_quantity, is_buy_side, 0),
    {
        let mut splits: Vec<SplitOrder> = Vec::new();
        let mut rem = total_quantity;
        let n = self.exchanges.len();
        while rem > 0 && splits.len() < n
            invariant
                self.wf(),
                n == self.venues().len(),
                splits.len() <= n,
                splits@ + self.splits(price, rem, is_buy_side, splits.len() as nat) == self.splits(
                    price,
                    total_quantity,
                    is_buy_side,
                    0,
                ),
            decreases n - splits.len(),
        {
            let d = self.route_order(order_id, price, rem, is_buy_side);
            if d.exchange_id == ExchangeID::Unknown {
                proof {
                    assert(self.splits(price, rem, is_buy_side, splits.len() as nat) == Seq::<SplitOrder>::empty());
                    assert(splits@ + Seq::<SplitOrder>::empty() =~= splits@);
                }
                return splits;
            }
            proof {
                assert(d.expected_fee <= FEE_BOUND && d.available_quantity > 0);
            }
            let fill = if rem < d.available_quantity {
                rem
            } else {
                d.available_quantity
            };
            proof {
                assert(d.expected_fee * fill <= FEE_BOUND * 0xffff_ffff) by (nonlinear_arith)
                    requires
                        0 <= d.expected_fee <= FEE_BOUND,
                        0 <= fill <= 0xffff_ffff,
                ;
            }
            let s = SplitOrder {
                exchange_id: d.exchange_id,
                quantity: fill,
                expected_price: d.expected_price,
                expected_fee: d.expected_fee * fill as u128 / d.available_quantity as u128,
            };
            let ghost before = splits@;
            splits.push(s);
            rem = rem - fill;
            proof {
                assert(before + self.splits(price, (rem + fill) as u32, is_buy_side, before.len() as nat) == self.splits(
                    price,
                    total_quantity,
                    is_buy_side,
                    0,
                ));
                assert(self.splits(price, (rem + fill) as u32, is_buy_side, before.len() as nat) == seq![s]
                    + self.splits(price, rem, is_buy_side, (before.len() + 1) as nat));
                assert(before + (seq![s] + self.splits(price, rem, is_buy_side, (before.len() + 1) as nat))
                    =~= splits@ + self.splits(price, rem, is_buy_side, splits.len() as nat));
            }
        }
        proof {
            assert(self.splits(price, rem, is_buy_side, splits.len() as nat) == Seq::<SplitOrder>::empty());
            assert(splits@ + Seq::<SplitOrder>::empty() =~= splits@);
        }
        splits
    }

    /// Marks the first venue with id `id` active or inactive.
    pub fn set_exchange_active(&mut self, id: ExchangeID, active: bool)
        ensures
            ({
                let v = old(self).venues();
                let k = first_with_id(v, id);
                final(self).venues() == if k < v.len() {
                    v.update(k, ExchangeInfo { exchange: v[k].exchange, fees: v[k].fees, is_active: active })
                } else {
                    v
                }
            }),
            final(self).considers_latency() == old(self).considers_latency(),
            final(self).considers_fees() == old(self).considers_fees(),
    {
        let mut i: usize = 0;
        while i < self.exchanges.len()
            invariant
                i <= self.venues().len(),
                self.venues() == old(self).venues(),
                self.consider_latency == old(self).consider_latency,
                self.consider_fees == old(self).consider_fees,
                forall|k: int| 0 <= k < i ==> (#[trigger] self.venues()[k]).exchange.spec_id() != id,
            decreases self.venues().len() - i,
        {
            if self.exchanges[i].exchange.get_id() == id {
                proof {
                    lemma_first_with_id(self.venues(), id, i as int);
                }
                let mut info = self.exchanges.remove(i);
                info.is_active = active;
                self.exchanges.insert(i, info);
                proof {
                    let v = old(self).venues();
                    assert(self.venues() =~= v.update(
                        i as int,
                        ExchangeInfo { exchange: v[i as int].exchange, fees: v[i as int].fees, is_active: active },
                    ));
                }
                return;
            }
            i += 1;
        }
        proof {
            lemma_first_with_id(self.venues(), id, i as int);
        }
    }

    /// Number of registered venues.
    pub fn exchange_count(&self) -> (r: usize)
        ensures
            r == self.venues().len(),
    {
        self.exchanges.len()
    }

    /// The venue registered `index`-th.
    pub fn get_exchange(&self, index: usize) -> (r: &E)
        requires
            index < self.venues().len(),
        ensures
            *r == self.venues()[index as int].exchange,
    {
        &self.exchanges[index].exchange
    }

    /// The fee schedule of the venue registered `index`-th.
    pub fn get_fees(&self, index: usize) -> (r: FeeSchedule)
        requires
            index < self.venues().len(),
        ensures
            r == self.venues()[index as int].fees,
    {
        self.exchanges[index].fees
    }

    /// Whether the venue registered `index`-th is active.
    pub fn is_exchange_active(&self, index: usize) -> (r: bool)
        requires
            index < self.venues().len(),
        ensures
            r == self.venues()[index as int].is_active,
    {
        self.exchanges[index].is_active
    }
}

} // verus!
