//! A market maker that quotes both sides around the cross-venue midpoint,
//! widening and skewing its quotes with volatility and inventory.
//!
//! Units: prices are ticks; base inventory and quote sizes are hundredths of
//! the base asset (the order books' quantity unit); quote inventory is in
//! ten-thousandths of the quote currency, so that a fill of `q` at price `p`
//! moves it by exactly `p × q`; spreads, skew and volatility are millionths.
//! Integer divisions round toward zero.
use vstd::prelude::*;
use crate::smart_order_router::{aggregate, AggregatedMarketData, SmartOrderRouter, Exchange, FEE_BOUND};
use crate::ExchangeID;

verus! {

/// One million: the denominator of spreads, skew and volatility.
pub const PPM: i128 = 1_000_000;

/// Bound on the inventory skew, in millionths.
pub const SKEW_LIMIT: i128 = 281_474_976_710_656;

/// Bound on the volatility estimate, in millionths.
pub const VOL_LIMIT: i128 = 4_503_599_627_370_496;

/// Bound on the quote inventory's magnitude.
pub const QUOTE_LIMIT: i128 = 1_267_650_600_228_229_401_496_703_205_376;

/// One side's quote.
#[derive(Clone, Copy, Debug, PartialEq, Eq, Structural)]
pub struct Quote {
    pub price: u32,
    pub quantity: u32,
    pub is_buy_side: bool,
    pub target_exchange: ExchangeID,
}

impl Quote {
    pub fn new(price: u32, quantity: u32, is_buy_side: bool, target_exchange: ExchangeID) -> (r: Quote)
        ensures
            r == (Quote { price, quantity, is_buy_side, target_exchange }),
    {
        Quote { price, quantity, is_buy_side, target_exchange }
    }
}

/// A pair of quotes and the edge earned if both fill.
#[derive(Clone, Copy, Debug, PartialEq, Eq, Structural)]
pub struct MarketMakerQuotes {
    pub buy_quote: Quote,
    pub sell_quote: Quote,
    /// `(ask − bid) × 10^6` less both routing fees, in millionths of a tick.
    pub theoretical_edge: i128,
}

/// Inventory valued at the last midpoint.
#[derive(Clone, Copy, Debug, PartialEq, Eq, Structural)]
pub struct InventoryPosition {
    pub base_inventory: i64,
    pub quote_inventory: i128,
    pub base_value: i128,
    pub total_value: i128,
    pub pnl: i128,
}

/// The market maker's tunable parameters.
#[derive(Clone, Copy, Debug, PartialEq, Eq, Structural)]
pub struct MarketMakerParameters {
    pub base_spread_ppm: u32,
    pub min_spread_ppm: u32,
    pub max_spread_ppm: u32,
    pub max_base_inventory: i64,
    pub max_quote_inventory: i64,
    pub target_base_inventory: i64,
    pub inventory_skew_factor: u32,
    pub volatility_adjustment: u32,
    pub base_quote_size: u32,
    pub min_quote_size: u32,
    pub max_quote_size: u32,
}

impl Default for MarketMakerParameters {
    /// A 10 bp spread within 5 to 50 bp, at most 10 units of base and 500,000
    /// of quote, a target of 5 units, 10% skew, full volatility adjustment,
    /// and quotes of 0.1 unit within 0.01 to 1.
    fn default() -> (r: MarketMakerParameters)
        ensures
            r == (MarketMakerParameters {
                base_spread_ppm: 1000,
                min_spread_ppm: 500,
                max_spread_ppm: 5000,
                max_base_inventory: 1000,
                max_quote_inventory: 5_000_000_000,
                target_base_inventory: 500,
                inventory_skew_factor: 100_000,
                volatility_adjustment: 1_000_000,
                base_quote_size: 10,
                min_quote_size: 1,
                max_quote_size: 100,
            }),
    {
        MarketMakerParameters {
            base_spread_ppm: 1000,
            min_spread_ppm: 500,
            max_spread_ppm: 5000,
            max_base_inventory: 1000,
            max_quote_inventory: 5_000_000_000,
            target_base_inventory: 500,
            inventory_skew_factor: 100_000,
            volatility_adjustment: 1_000_000,
            base_quote_size: 10,
            min_quote_size: 1,
            max_quote_size: 100,
        }
    }
}

pub open spec fn div_trunc(a: int, b: int) -> int {
    if a >= 0 {
        a / b
    } else {
        -((-a) / b)
    }
}

/// `x` raised to `lo`, then lowered to `hi`.
pub open spec fn clamp(x: int, lo: int, hi: int) -> int {
    let y = if x < lo { lo } else { x };
    if y > hi {
        hi
    } else {
        y
    }
}

pub open spec fn abs(x: int) -> int {
    if x < 0 {
        -x
    } else {
        x
    }
}

/// `(base / target − 1) × factor`, held within `±SKEW_LIMIT`; zero without a
/// positive target. Positive when holding too much base.
pub open spec fn skew_of(base: int, target: int, factor: int) -> int {
    if target <= 0 {
        0
    } else {
        clamp(div_trunc((base - target) * factor, target), -SKEW_LIMIT, SKEW_LIMIT as int)
    }
}

/// `base × (1 + vol × adjustment) × (1 + |skew| / 2)`, within the limits.
pub open spec fn spread_of(p: MarketMakerParameters, vol: int, skew: int) -> int {
    let vol_scaled = div_trunc(p.base_spread_ppm * (PPM + div_trunc(vol * p.volatility_adjustment, PPM as int)), PPM as int);
    let skew_scaled = div_trunc(vol_scaled * (PPM + abs(skew) / 2), PPM as int);
    clamp(skew_scaled, p.min_spread_ppm as int, p.max_spread_ppm as int)
}

/// How far each quote lies from the midpoint: `mid × spread / 2 × (1 + skew)`.
pub open spec fn price_offset(mid: int, spread: int, skew: int) -> int {
    div_trunc(mid * spread * (PPM + skew), 2 * PPM * PPM)
}

/// Bid and ask, within the range of prices.
pub open spec fn quote_prices(mid: int, spread: int, skew: int) -> (int, int) {
    (
        clamp(mid - price_offset(mid, spread, skew), 0, u32::MAX as int),
        clamp(mid + price_offset(mid, spread, skew), 0, u32::MAX as int),
    )
}

/// Buy size: `base size × (1 − base / max_base / 2)`, or zero without a
/// positive maximum; sell size: `base size × min(base / target, 1)`, or the
/// base size without a positive target; then, raised to zero, within the size
/// limits.
pub open spec fn quote_size(p: MarketMakerParameters, base: int, is_buy: bool) -> int {
    let raw = if is_buy {
        if p.max_base_inventory <= 0 {
            0
        } else {
            div_trunc(p.base_quote_size * (2 * p.max_base_inventory - base), 2 * p.max_base_inventory)
        }
    } else {
        if p.target_base_inventory <= 0 {
            p.base_quote_size as int
        } else {
            div_trunc(
                p.base_quote_size * (if base < p.target_base_inventory { base } else { p.target_base_inventory as int }),
                p.target_base_inventory as int,
            )
        }
    };
    clamp(clamp(raw, 0, u32::MAX as int), p.min_quote_size as int, p.max_quote_size as int)
}

/// The midpoint of the aggregated market, or `last` if a side is missing.
pub open spec fn midpoint_of(data: AggregatedMarketData, last: int) -> int {
    match (data.best_bid, data.best_ask) {
        (Some(b), Some(a)) => (b + a) / 2,
        _ => last,
    }
}

/// The volatility estimate after one observation of the aggregated market.
pub open spec fn volatility_after(data: AggregatedMarketData, vol: int) -> int {
    match (data.best_bid, data.best_ask) {
        (Some(b), Some(a)) => if b == 0 {
            vol
        } else {
            div_trunc(9 * vol + div_trunc((a - b) * PPM, b as int), 10)
        },
        _ => vol,
    }
}

/// The state of a market maker.
pub struct MarketMakerView {
    pub params: MarketMakerParameters,
    pub base_inventory: int,
    pub quote_inventory: int,
    pub initial_base_inventory: int,
    pub initial_quote_inventory: int,
    pub last_midpoint: int,
    pub volatility_estimate: int,
    pub quotes_placed: nat,
    pub quotes_filled: nat,
    pub total_volume: nat,
    pub realized_pnl: int,
}

/// The inventories after a fill of `qty` at `price`: base moves by `qty`,
/// quote by `price × qty` the other way.
pub open spec fn inventories_after_fill(base: int, quote: int, is_buy: bool, price: int, qty: int) -> (int, int) {
    if is_buy {
        (base + qty, quote - price * qty)
    } else {
        (base - qty, quote + price * qty)
    }
}

/// Every fill moves base and quote inventory in opposite directions by
/// exactly the fill's value at its price.
pub proof fn lemma_fill_conserves_value(base: int, quote: int, is_buy: bool, price: int, qty: int)
    ensures
        ({
            let (b, q) = inventories_after_fill(base, quote, is_buy, price, qty);
            (b - base) * price == -(q - quote)
        }),
{
    let (b, q) = inventories_after_fill(base, quote, is_buy, price, qty);
    if is_buy {
        assert((qty) * price == price * qty) by (nonlinear_arith);
    } else {
        assert((-qty) * price == -(price * qty)) by (nonlinear_arith);
    }
}

/// Value of an inventory at `mid` less the value of the initial one.
pub open spec fn pnl_of(base: int, quote: int, init_base: int, init_quote: int, mid: int) -> int {
    (base * mid + quote) - (init_base * mid + init_quote)
}

spec fn mul_assoc_mid(a: int, b: int, c: int) -> bool {
    a * b * c == (a * b) * c
}

pub open spec fn saturating_inc(x: nat, by: nat, max: nat) -> nat {
    if x + by <= max {
        x + by
    } else {
        max
    }
}

fn div_trunc_exec(a: i128, b: i128) -> (r: i128)
    requires
        b > 0,
        a > i128::MIN,
    ensures
        r == div_trunc(a as int, b as int),
        abs(r as int) * b <= abs(a as int),
{
    proof {
        let m = abs(a as int);
        vstd::arithmetic::div_mod::lemma_fundamental_div_mod(m, b as int);
        assert(0 <= m % (b as int) < b);
        assert((m / (b as int)) * b <= m) by (nonlinear_arith)
            requires
                m == b * (m / (b as int)) + m % (b as int),
                0 <= m % (b as int),
        ;
        assert(m / (b as int) >= 0) by (nonlinear_arith)
            requires
                m >= 0,
                b > 0,
        ;
    }
    if a >= 0 {
        a / b
    } else {
        -((-a) / b)
    }
}

fn clamp_exec(x: i128, lo: i128, hi: i128) -> (r: i128)
    ensures
        r == clamp(x as int, lo as int, hi as int),
{
    let y = if x < lo {
        lo
    } else {
        x
    };
    if y > hi {
        hi
    } else {
        y
    }
}


/// The risk predicate: base inventory within `[0, max]`, quote inventory
/// within `[−max / 10, max]`, and the base position's value at the last
/// midpoint within 110% of the largest allowed position's.
pub open spec fn within_limits(v: MarketMakerView) -> bool {
    &&& 0 <= v.base_inventory <= v.params.max_base_inventory
    &&& -(v.params.max_quote_inventory as int) <= 10 * v.quote_inventory
    &&& v.quote_inventory <= v.params.max_quote_inventory
    &&& 10 * abs(v.base_inventory * v.last_midpoint) <= 11 * (v.params.max_base_inventory * v.last_midpoint)
}

/// A market maker quoting through a smart order router.
pub struct MarketMaker<'a, E: Exchange> {
    sor: &'a SmartOrderRouter<E>,
    params: MarketMakerParameters,
    base_inventory: i64,
    quote_inventory: i128,
    initial_base_inventory: i64,
    initial_quote_inventory: i128,
    last_midpoint: u32,
    volatility_estimate: i64,
    quotes_placed: u32,
    quotes_filled: u32,
    total_volume: u64,
    realized_pnl: i128,
}

impl<'a, E: Exchange> View for MarketMaker<'a, E> {
    type V = MarketMakerView;

    closed spec fn view(&self) -> MarketMakerView {
        MarketMakerView {
            params: self.params,
            base_inventory: self.base_inventory as int,
            quote_inventory: self.quote_inventory as int,
            initial_base_inventory: self.initial_base_inventory as int,
            initial_quote_inventory: self.initial_quote_inventory as int,
            last_midpoint: self.last_midpoint as int,
            volatility_estimate: self.volatility_estimate as int,
            quotes_placed: self.quotes_placed as nat,
            quotes_filled: self.quotes_filled as nat,
            total_volume: self.total_volume as nat,
            realized_pnl: self.realized_pnl as int,
        }
    }
}

impl<'a, E: Exchange> MarketMaker<'a, E> {
    /// The router this market maker quotes through.
    pub closed spec fn router(&self) -> SmartOrderRouter<E> {
        *self.sor
    }

    #[verifier::type_invariant]
    closed spec fn inv(self) -> bool {
        &&& self.sor.wf()
        &&& -VOL_LIMIT <= self.volatility_estimate <= VOL_LIMIT
        &&& -QUOTE_LIMIT <= self.quote_inventory <= QUOTE_LIMIT
        &&& -QUOTE_LIMIT <= self.initial_quote_inventory <= QUOTE_LIMIT
    }

    /// Whether the state is one that every market maker keeps.
    pub closed spec fn wf(&self) -> bool {
        self.inv()
    }

    pub fn new(sor: &'a SmartOrderRouter<E>, params: MarketMakerParameters) -> (r: Self)
        requires
            sor.wf(),
        ensures
            r.router() == *sor,
            r@ == (MarketMakerView {
                params,
                base_inventory: 0,
                quote_inventory: 0,
                initial_base_inventory: 0,
                initial_quote_inventory: 0,
                last_midpoint: 0,
                volatility_estimate: 1000,
                quotes_placed: 0,
                quotes_filled: 0,
                total_volume: 0,
                realized_pnl: 0,
            }),
    {
        MarketMaker {
            sor,
            params,
            base_inventory: 0,
            quote_inventory: 0,
            initial_base_inventory: 0,
            initial_quote_inventory: 0,
            last_midpoint: 0,
            volatility_estimate: 1000,
            quotes_placed: 0,
            quotes_filled: 0,
            total_volume: 0,
            realized_pnl: 0,
        }
    }

    /// Seeds both inventories and takes them as the baseline of the P&L.
    pub fn initialize(&mut self, base_inventory: i64, quote_inventory: i128)
        requires
            -QUOTE_LIMIT <= quote_inventory <= QUOTE_LIMIT,
        ensures
            final(self).router() == old(self).router(),
            final(self)@ == (MarketMakerView {
                base_inventory: base_inventory as int,
                quote_inventory: quote_inventory as int,
                initial_base_inventory: base_inventory as int,
                initial_quote_inventory: quote_inventory as int,
                ..old(self)@
            }),
    {
        proof {
            use_type_invariant(&*self);
        }
        self.base_inventory = base_inventory;
        self.quote_inventory = quote_inventory;
        self.initial_base_inventory = base_inventory;
        self.initial_quote_inventory = quote_inventory;
    }

    /// The midpoint across venues; the last one if a side is missing.
    fn calculate_midpoint(&mut self) -> (r: u32)
        ensures
            final(self).router() == old(self).router(),
            r as int == midpoint_of(aggregate(old(self).router().venues()), old(self)@.last_midpoint),
            final(self)@ == (MarketMakerView { last_midpoint: r as int, ..old(self)@ }),
    {
        proof {
            use_type_invariant(&*self);
        }
        let data = self.sor.get_aggregated_market_data();
        match (data.best_bid, data.best_ask) {
            (Some(b), Some(a)) => {
                let mid = ((b as u64 + a as u64) / 2) as u32;
                self.last_midpoint = mid;
                mid
            },
            _ => self.last_midpoint,
        }
    }

    fn calculate_inventory_skew(&self) -> (r: i128)
        ensures
            r == skew_of(self@.base_inventory, self@.params.target_base_inventory as int, self@.params.inventory_skew_factor as int),
            -SKEW_LIMIT <= r <= SKEW_LIMIT,
    {
        let target = self.params.target_base_inventory;
        if target <= 0 {
            return 0;
        }
        let d = self.base_inventory as i128 - target as i128;
        proof {
            assert(-(0x2_0000_0000_0000_0000 * 0x1_0000_0000) <= d * self.params.inventory_skew_factor <= 0x2_0000_0000_0000_0000 * 0x1_0000_0000) by (nonlinear_arith)
                requires
                    -0x2_0000_0000_0000_0000 <= d <= 0x2_0000_0000_0000_0000,
                    0 <= self.params.inventory_skew_factor <= 0xffff_ffff,
            ;
        }
        let raw = div_trunc_exec(d * self.params.inventory_skew_factor as i128, target as i128);
        clamp_exec(raw, -SKEW_LIMIT, SKEW_LIMIT)
    }

    fn calculate_spread(&self, skew: i128) -> (r: u32)
        requires
            -SKEW_LIMIT <= skew <= SKEW_LIMIT,
        ensures
            r as int == spread_of(self@.params, self@.volatility_estimate, skew as int),
    {
        proof {
            use_type_invariant(self);
        }
        let p = self.params;
        let vol = self.volatility_estimate as i128;
        proof {
            assert(-VOL_LIMIT * 0x1_0000_0000 <= vol * p.volatility_adjustment <= VOL_LIMIT * 0x1_0000_0000) by (nonlinear_arith)
                requires
                    -VOL_LIMIT <= vol <= VOL_LIMIT,
                    0 <= p.volatility_adjustment <= 0xffff_ffff,
            ;
        }
        let v = div_trunc_exec(vol * p.volatility_adjustment as i128, PPM);
        let g1 = PPM + v;
        proof {
            assert(abs(v as int) * PPM <= VOL_LIMIT * 0x1_0000_0000);
            assert(abs(v as int) <= 0x2_0000_0000_0000_0000) by (nonlinear_arith)
                requires
                    abs(v as int) * 1_000_000 <= VOL_LIMIT * 0x1_0000_0000,
            ;
            assert(-0x4_0000_0000_0000_0000 <= g1 <= 0x4_0000_0000_0000_0000);
            assert(-(0x1_0000_0000 * 0x4_0000_0000_0000_0000) <= p.base_spread_ppm * g1 <= 0x1_0000_0000 * 0x4_0000_0000_0000_0000) by (nonlinear_arith)
                requires
                    -0x4_0000_0000_0000_0000 <= g1 <= 0x4_0000_0000_0000_0000,
                    0 <= p.base_spread_ppm <= 0xffff_ffff,
            ;
        }
        let vol_scaled = div_trunc_exec(p.base_spread_ppm as i128 * g1, PPM);
        let mag = if skew < 0 {
            -skew
        } else {
            skew
        };
        let g2 = PPM + mag / 2;
        proof {
            assert(abs(vol_scaled as int) <= 0x8000_0000_0000_0000_0000) by (nonlinear_arith)
                requires
                    abs(vol_scaled as int) * 1_000_000 <= 0x1_0000_0000 * 0x4_0000_0000_0000_0000,
            ;
            assert(0 <= g2 <= 0x8100_0000_0000);
            assert(-(0x8000_0000_0000_0000_0000 * 0x8100_0000_0000) <= vol_scaled * g2 <= 0x8000_0000_0000_0000_0000 * 0x8100_0000_0000) by (nonlinear_arith)
                requires
                    -0x8000_0000_0000_0000_0000 <= vol_scaled <= 0x8000_0000_0000_0000_0000,
                    0 <= g2 <= 0x8100_0000_0000,
            ;
        }
        let skew_scaled = div_trunc_exec(vol_scaled * g2, PPM);
        clamp_exec(skew_scaled, p.min_spread_ppm as i128, p.max_spread_ppm as i128) as u32
    }

    fn calculate_quote_prices(&self, midpoint: u32, spread: u32, skew: i128) -> (r: (u32, u32))
        requires
            -SKEW_LIMIT <= skew <= SKEW_LIMIT,
        ensures
            (r.0 as int, r.1 as int) == quote_prices(midpoint as int, spread as int, skew as int),
    {
        proof {
            assert(0 <= midpoint * spread <= 0xffff_ffff * 0xffff_ffff) by (nonlinear_arith)
                requires
                    0 <= midpoint <= 0xffff_ffff,
                    0 <= spread <= 0xffff_ffff,
            ;
        }
        let ms = midpoint as i128 * spread as i128;
        proof {
            assert(-(0x1_0000_0000_0000_0000 * 0x2_0000_0000_0000) <= ms * (PPM + skew) <= 0x1_0000_0000_0000_0000 * 0x2_0000_0000_0000) by (nonlinear_arith)
                requires
                    0 <= ms <= 0xffff_ffff * 0xffff_ffff,
                    -SKEW_LIMIT <= skew <= SKEW_LIMIT,
            ;
        }
        let off = div_trunc_exec(ms * (PPM + skew), 2 * PPM * PPM);
        proof {
            assert(mul_assoc_mid(midpoint as int, spread as int, PPM + skew as int));
        }
        let bid = clamp_exec(midpoint as i128 - off, 0, u32::MAX as i128);
        let ask = clamp_exec(midpoint as i128 + off, 0, u32::MAX as i128);
        (bid as u32, ask as u32)
    }

    fn calculate_quote_size(&self, is_buy_side: bool) -> (r: u32)
        ensures
            r as int == quote_size(self@.params, self@.base_inventory, is_buy_side),
    {
        let p = self.params;
        let base = self.base_inventory as i128;
        let raw: i128 = if is_buy_side {
            if p.max_base_inventory <= 0 {
                0
            } else {
                let m = 2 * p.max_base_inventory as i128 - base;
                proof {
                    assert(-0x4_0000_0000_0000_0000 * 0x1_0000_0000 <= p.base_quote_size * m <= 0x4_0000_0000_0000_0000 * 0x1_0000_0000) by (nonlinear_arith)
                        requires
                            -0x4_0000_0000_0000_0000 <= m <= 0x4_0000_0000_0000_0000,
                            0 <= p.base_quote_size <= 0xffff_ffff,
                    ;
                }
                div_trunc_exec(p.base_quote_size as i128 * m, 2 * p.max_base_inventory as i128)
            }
        } else {
            if p.target_base_inventory <= 0 {
                p.base_quote_size as i128
            } else {
                let held = if base < p.target_base_inventory as i128 {
                    base
                } else {
                    p.target_base_inventory as i128
                };
                proof {
                    assert(-0x1_0000_0000_0000_0000 * 0x1_0000_0000 <= p.base_quote_size * held <= 0x1_0000_0000_0000_0000 * 0x1_0000_0000) by (nonlinear_arith)
                        requires
                            -0x1_0000_0000_0000_0000 <= held <= 0x1_0000_0000_0000_0000,
                            0 <= p.base_quote_size <= 0xffff_ffff,
                    ;
                }
                div_trunc_exec(p.base_quote_size as i128 * held, p.target_base_inventory as i128)
            }
        };
        let q = clamp_exec(raw, 0, u32::MAX as i128);
        clamp_exec(q, p.min_quote_size as i128, p.max_quote_size as i128) as u32
    }


    /// One tick: quotes on both sides around the midpoint, each routed to a
    /// venue; nothing while there is no midpoint.
    pub fn update_quotes(&mut self) -> (r: Option<MarketMakerQuotes>)
        ensures
            final(self).router() == old(self).router(),
            ({
                let v = old(self)@;
                let mid = midpoint_of(aggregate(old(self).router().venues()), v.last_midpoint);
                let skew = skew_of(v.base_inventory, v.params.target_base_inventory as int, v.params.inventory_skew_factor as int);
                let spread = spread_of(v.params, v.volatility_estimate, skew);
                let (bid, ask) = quote_prices(mid, spread, skew);
                let bs = quote_size(v.params, v.base_inventory, true);
                let ss = quote_size(v.params, v.base_inventory, false);
                let bd = old(self).router().decision(bid as u32, bs as u32, true);
                let sd = old(self).router().decision(ask as u32, ss as u32, false);
                if mid == 0 {
                    &&& r is None
                    &&& final(self)@ == (MarketMakerView { last_midpoint: mid, ..v })
                } else {
                    &&& r == Some(
                        MarketMakerQuotes {
                            buy_quote: Quote { price: bid as u32, quantity: bs as u32, is_buy_side: true, target_exchange: bd.exchange_id },
                            sell_quote: Quote { price: ask as u32, quantity: ss as u32, is_buy_side: false, target_exchange: sd.exchange_id },
                            theoretical_edge: ((ask - bid) * PPM - (bd.expected_fee + sd.expected_fee)) as i128,
                        },
                    )
                    &&& final(self)@ == (MarketMakerView {
                        last_midpoint: mid,
                        quotes_placed: saturating_inc(v.quotes_placed, 2, u32::MAX as nat),
                        ..v
                    })
                }
            }),
    {
        proof {
            use_type_invariant(&*self);
        }
        let midpoint = self.calculate_midpoint();
        if midpoint == 0 {
            return None;
        }
        let skew = self.calculate_inventory_skew();
        let spread = self.calculate_spread(skew);
        let (bid_price, ask_price) = self.calculate_quote_prices(midpoint, spread, skew);
        let buy_size = self.calculate_quote_size(true);
        let sell_size = self.calculate_quote_size(false);
        proof {
            use_type_invariant(&*self);
        }
        if self.quotes_placed < u32::MAX {
            self.quotes_placed = self.quotes_placed + 1;
        }
        let buy_routing = self.sor.route_order(self.quotes_placed, bid_price, buy_size, true);
        if self.quotes_placed < u32::MAX {
            self.quotes_placed = self.quotes_placed + 1;
        }
        let sell_routing = self.sor.route_order(self.quotes_placed, ask_price, sell_size, false);
        let buy_quote = Quote::new(bid_price, buy_size, true, buy_routing.exchange_id);
        let sell_quote = Quote::new(ask_price, sell_size, false, sell_routing.exchange_id);
        let theoretical_edge = (ask_price as i128 - bid_price as i128) * PPM - (buy_routing.expected_fee as i128
            + sell_routing.expected_fee as i128);
        Some(MarketMakerQuotes { buy_quote, sell_quote, theoretical_edge })
    }

    /// Books a fill of one of this market maker's quotes, and revalues the
    /// P&L at the last midpoint.
    pub fn on_quote_filled(&mut self, filled_quote: &Quote, fill_price: u32, fill_quantity: u32)
        requires
            ({
                let (b, q) = inventories_after_fill(
                    old(self)@.base_inventory,
                    old(self)@.quote_inventory,
                    filled_quote.is_buy_side,
                    fill_price as int,
                    fill_quantity as int,
                );
                &&& i64::MIN <= b <= i64::MAX
                &&& -QUOTE_LIMIT <= q <= QUOTE_LIMIT
            }),
        ensures
            final(self).router() == old(self).router(),
            ({
                let v = old(self)@;
                let (b, q) = inventories_after_fill(
                    v.base_inventory,
                    v.quote_inventory,
                    filled_quote.is_buy_side,
                    fill_price as int,
                    fill_quantity as int,
                );
                final(self)@ == (MarketMakerView {
                    base_inventory: b,
                    quote_inventory: q,
                    quotes_filled: saturating_inc(v.quotes_filled, 1, u32::MAX as nat),
                    total_volume: saturating_inc(v.total_volume, fill_quantity as nat, u64::MAX as nat),
                    realized_pnl: pnl_of(b, q, v.initial_base_inventory, v.initial_quote_inventory, v.last_midpoint),
                    ..v
                })
            }),
    {
        proof {
            use_type_invariant(&*self);
        }
        if self.quotes_filled < u32::MAX {
            self.quotes_filled = self.quotes_filled + 1;
        }
        if self.total_volume <= u64::MAX - fill_quantity as u64 {
            self.total_volume = self.total_volume + fill_quantity as u64;
        } else {
            self.total_volume = u64::MAX;
        }
        let value = fill_price as i128 * fill_quantity as i128;
        if filled_quote.is_buy_side {
            self.base_inventory = self.base_inventory + fill_quantity as i64;
            self.quote_inventory = self.quote_inventory - value;
        } else {
            self.base_inventory = self.base_inventory - fill_quantity as i64;
            self.quote_inventory = self.quote_inventory + value;
        }
        self.realized_pnl = self.pnl_now();
    }

    fn pnl_now(&self) -> (r: i128)
        ensures
            r == pnl_of(
                self@.base_inventory,
                self@.quote_inventory,
                self@.initial_base_inventory,
                self@.initial_quote_inventory,
                self@.last_midpoint,
            ),
    {
        proof {
            use_type_invariant(self);
        }
        let mid = self.last_midpoint as i128;
        proof {
            assert(-0x8000_0000_0000_0000 * 0x1_0000_0000 <= self.base_inventory * mid <= 0x8000_0000_0000_0000 * 0x1_0000_0000) by (nonlinear_arith)
                requires
                    -0x8000_0000_0000_0000 <= self.base_inventory <= 0x8000_0000_0000_0000,
                    0 <= mid <= 0x1_0000_0000,
            ;
            assert(-0x8000_0000_0000_0000 * 0x1_0000_0000 <= self.initial_base_inventory * mid <= 0x8000_0000_0000_0000 * 0x1_0000_0000) by (nonlinear_arith)
                requires
                    -0x8000_0000_0000_0000 <= self.initial_base_inventory <= 0x8000_0000_0000_0000,
                    0 <= mid <= 0x1_0000_0000,
            ;
        }
        let bv = self.base_inventory as i128 * mid;
        let iv = self.initial_base_inventory as i128 * mid;
        (bv + self.quote_inventory) - (iv + self.initial_quote_inventory)
    }

    /// Whether inventory and position are within the risk limits.
    pub fn is_within_risk_limits(&self) -> (r: bool)
        ensures
            r == within_limits(self@),
    {
        proof {
            use_type_invariant(self);
        }
        let p = self.params;
        if self.base_inventory > p.max_base_inventory || self.base_inventory < 0 {
            return false;
        }
        if self.quote_inventory > p.max_quote_inventory as i128 || 10 * self.quote_inventory < -(
        p.max_quote_inventory as i128) {
            return false;
        }
        let mid = self.last_midpoint as i128;
        proof {
            assert(0 <= self.base_inventory * mid <= 0x8000_0000_0000_0000 * 0x1_0000_0000) by (nonlinear_arith)
                requires
                    0 <= self.base_inventory <= 0x8000_0000_0000_0000,
                    0 <= mid <= 0x1_0000_0000,
            ;
            assert(-0x8000_0000_0000_0000 * 0x1_0000_0000 <= p.max_base_inventory * mid <= 0x8000_0000_0000_0000 * 0x1_0000_0000) by (nonlinear_arith)
                requires
                    -0x8000_0000_0000_0000 <= p.max_base_inventory <= 0x8000_0000_0000_0000,
                    0 <= mid <= 0x1_0000_0000,
            ;
        }
        let value = self.base_inventory as i128 * mid;
        let max_value = p.max_base_inventory as i128 * mid;
        10 * value <= 11 * max_value
    }

    /// Outside the risk limits, widens the base spread by half and halves the
    /// base quote size; inside them, changes nothing.
    pub fn adjust_parameters_for_risk(&mut self)
        ensures
            final(self).router() == old(self).router(),
            within_limits(old(self)@) ==> final(self)@ == old(self)@,
            !within_limits(old(self)@) ==> final(self)@ == (MarketMakerView {
                params: MarketMakerParameters {
                    base_spread_ppm: if old(self)@.params.base_spread_ppm * 3 / 2 <= u32::MAX {
                        (old(self)@.params.base_spread_ppm * 3 / 2) as u32
                    } else {
                        u32::MAX
                    },
                    base_quote_size: old(self)@.params.base_quote_size / 2,
                    ..old(self)@.params
                },
                ..old(self)@
            }),
    {
        proof {
            use_type_invariant(&*self);
        }
        if !self.is_within_risk_limits() {
            let widened = self.params.base_spread_ppm as u64 * 3 / 2;
            self.params.base_spread_ppm = if widened <= u32::MAX as u64 {
                widened as u32
            } else {
                u32::MAX
            };
            self.params.base_quote_size = self.params.base_quote_size / 2;
        }
    }

    pub fn get_inventory_position(&self) -> (r: InventoryPosition)
        ensures
            r.base_inventory == self@.base_inventory,
            r.quote_inventory == self@.quote_inventory,
            r.base_value == self@.base_inventory * self@.last_midpoint,
            r.total_value == r.base_value + self@.quote_inventory,
            r.pnl == pnl_of(
                self@.base_inventory,
                self@.quote_inventory,
                self@.initial_base_inventory,
                self@.initial_quote_inventory,
                self@.last_midpoint,
            ),
    {
        proof {
            use_type_invariant(self);
        }
        let mid = self.last_midpoint as i128;
        proof {
            assert(-0x8000_0000_0000_0000 * 0x1_0000_0000 <= self.base_inventory * mid <= 0x8000_0000_0000_0000 * 0x1_0000_0000) by (nonlinear_arith)
                requires
                    -0x8000_0000_0000_0000 <= self.base_inventory <= 0x8000_0000_0000_0000,
                    0 <= mid <= 0x1_0000_0000,
            ;
        }
        let base_value = self.base_inventory as i128 * mid;
        let total_value = base_value + self.quote_inventory;
        let pnl = self.pnl_now();
        InventoryPosition {
            base_inventory: self.base_inventory,
            quote_inventory: self.quote_inventory,
            base_value,
            total_value,
            pnl,
        }
    }

    /// `(base − target) / target` in millionths; zero without a positive target.
    pub fn get_inventory_imbalance(&self) -> (r: i128)
        ensures
            r == if self@.params.target_base_inventory <= 0 {
                0
            } else {
                div_trunc(
                    (self@.base_inventory - self@.params.target_base_inventory) * PPM,
                    self@.params.target_base_inventory as int,
                )
            },
    {
        let target = self.params.target_base_inventory;
        if target <= 0 {
            return 0;
        }
        let d = self.base_inventory as i128 - target as i128;
        proof {
            assert(-0x2_0000_0000_0000_0000 * PPM <= d * PPM <= 0x2_0000_0000_0000_0000 * PPM) by (nonlinear_arith)
                requires
                    -0x2_0000_0000_0000_0000 <= d <= 0x2_0000_0000_0000_0000,
            ;
        }
        div_trunc_exec(d * PPM, target as i128)
    }

    /// Filled quotes per placed quote, in millionths.
    pub fn get_fill_rate(&self) -> (r: u64)
        ensures
            r == if self@.quotes_placed == 0 {
                0
            } else {
                self@.quotes_filled * 1_000_000 / self@.quotes_placed
            },
    {
        if self.quotes_placed == 0 {
            return 0;
        }
        proof {
            assert(self.quotes_filled * 1_000_000 <= 0xffff_ffff * 1_000_000) by (nonlinear_arith)
                requires
                    0 <= self.quotes_filled <= 0xffff_ffff,
            ;
        }
        self.quotes_filled as u64 * 1_000_000 / self.quotes_placed as u64
    }

    /// Folds the relative spread of the aggregated market into the volatility
    /// estimate (9/10 old, 1/10 new); unchanged while a side is missing.
    pub fn estimate_volatility(&mut self) -> (r: i64)
        ensures
            final(self).router() == old(self).router(),
            r == volatility_after(aggregate(old(self).router().venues()), old(self)@.volatility_estimate),
            final(self)@ == (MarketMakerView { volatility_estimate: r as int, ..old(self)@ }),
    {
        proof {
            use_type_invariant(&*self);
        }
        let data = self.sor.get_aggregated_market_data();
        match (data.best_bid, data.best_ask) {
            (Some(b), Some(a)) => {
                if b == 0 {
                    return self.volatility_estimate;
                }
                let diff = a as i128 - b as i128;
                proof {
                    assert(-0x1_0000_0000 * PPM <= diff * PPM <= 0x1_0000_0000 * PPM) by (nonlinear_arith)
                        requires
                            -0x1_0000_0000 <= diff <= 0x1_0000_0000,
                    ;
                }
                let ratio = div_trunc_exec(diff * PPM, b as i128);
                proof {
                    assert(abs(ratio as int) <= 0x1_0000_0000 * PPM) by (nonlinear_arith)
                        requires
                            abs(ratio as int) * b <= abs(diff * PPM),
                            abs(diff * PPM) <= 0x1_0000_0000 * PPM,
                            b >= 1,
                    ;
                }
                let mixed = 9 * self.volatility_estimate as i128 + ratio;
                let vol = div_trunc_exec(mixed, 10);
                proof {
                    assert(abs(vol as int) <= VOL_LIMIT) by (nonlinear_arith)
                        requires
                            abs(vol as int) * 10 <= abs(mixed as int),
                            abs(mixed as int) <= 10 * VOL_LIMIT,
                    ;
                }
                self.volatility_estimate = vol as i64;
                vol as i64
            },
            _ => self.volatility_estimate,
        }
    }

    pub fn update_parameters(&mut self, new_params: MarketMakerParameters)
        ensures
            final(self).router() == old(self).router(),
            final(self)@ == (MarketMakerView { params: new_params, ..old(self)@ }),
    {
        proof {
            use_type_invariant(&*self);
        }
        self.params = new_params;
    }

    pub fn get_parameters(&self) -> (r: &MarketMakerParameters)
        ensures
            *r == self@.params,
    {
        &self.params
    }

    pub fn get_realized_pnl(&self) -> (r: i128)
        ensures
            r == self@.realized_pnl,
    {
        self.realized_pnl
    }

    /// How many quotes were placed and how many filled.
    pub fn quote_counts(&self) -> (r: (u32, u32))
        ensures
            r.0 == self@.quotes_placed,
            r.1 == self@.quotes_filled,
    {
        (self.quotes_placed, self.quotes_filled)
    }

    /// The volume filled, in hundredths of the base asset.
    pub fn get_total_volume(&self) -> (r: u64)
        ensures
            r == self@.total_volume,
    {
        self.total_volume
    }
}

} // verus!
