use rust_core::market_maker::{MarketMaker, MarketMakerParameters, Quote};
use rust_core::smart_order_router::{Exchange, ExchangeMetrics, FeeSchedule, SimulatedExchange, SmartOrderRouter};
use rust_core::ExchangeID;

fn router_around(bid: u32, ask: u32) -> SmartOrderRouter<SimulatedExchange> {
    let mut ex = SimulatedExchange::new(ExchangeID::Binance, "Binance".to_string(), ExchangeMetrics::new(5, 980_000, 999_000));
    ex.get_order_book_mut().add_order(1, bid, 50, true);
    ex.get_order_book_mut().add_order(2, ask, 50, false);
    let mut sor = SmartOrderRouter::new(true, true);
    sor.add_exchange(ex, FeeSchedule::new(1000, 1000));
    sor
}

fn skewed_params() -> MarketMakerParameters {
    MarketMakerParameters {
        base_spread_ppm: 2000,
        target_base_inventory: 500,
        inventory_skew_factor: 200_000,
        ..MarketMakerParameters::default()
    }
}

#[test]
fn long_inventory_skews_both_quotes_away() {
    let sor = router_around(9_999, 10_001);
    let mut mm = MarketMaker::new(&sor, skewed_params());
    mm.initialize(1000, 2_500_000_000);
    let q = mm.update_quotes().unwrap();
    // mid 10000, spread 2202 millionths, skew 20%: offset 13 ticks
    assert_eq!(q.buy_quote.price, 9_987);
    assert_eq!(q.sell_quote.price, 10_013);
    let half_offset = 10_000 * 2202 / 2 / 1_000_000;
    assert!(q.buy_quote.price < 10_000 - half_offset);
    assert!(q.sell_quote.price > 10_000 + half_offset);
    assert_eq!(q.buy_quote.quantity, 5);
    assert_eq!(q.sell_quote.quantity, 10);
    assert_eq!(q.buy_quote.target_exchange, ExchangeID::Binance);
    assert_eq!(q.sell_quote.target_exchange, ExchangeID::Binance);
    assert_eq!(mm.quote_counts(), (2, 0));
}

#[test]
fn flat_inventory_quotes_symmetrically() {
    let sor = router_around(9_999, 10_001);
    let mut mm = MarketMaker::new(&sor, skewed_params());
    mm.initialize(500, 0);
    let q = mm.update_quotes().unwrap();
    // spread 2002 millionths, no skew: offset 10 ticks
    assert_eq!(q.buy_quote.price, 9_990);
    assert_eq!(q.sell_quote.price, 10_010);
    assert_eq!(q.buy_quote.quantity, 7);
    // both quotes would rest: maker fees on the fillable size at the venue's top
    let fees = 10_001i128 * 7 * 1000 + 9_999i128 * 10 * 1000;
    assert_eq!(q.theoretical_edge, 20 * 1_000_000 - fees);
}

#[test]
fn no_market_gives_no_quotes() {
    let sor: SmartOrderRouter<SimulatedExchange> = SmartOrderRouter::new(true, true);
    let mut mm = MarketMaker::new(&sor, MarketMakerParameters::default());
    mm.initialize(500, 0);
    assert!(mm.update_quotes().is_none());
    assert_eq!(mm.quote_counts(), (0, 0));
}

#[test]
fn fill_moves_inventories_by_its_value() {
    let sor = router_around(9_999, 10_001);
    let mut mm = MarketMaker::new(&sor, MarketMakerParameters::default());
    mm.initialize(500, 1_000_000_000);
    let q = mm.update_quotes().unwrap();
    let before = mm.get_inventory_position();
    mm.on_quote_filled(&q.buy_quote, 9_990, 25);
    let after = mm.get_inventory_position();
    let d_base = after.base_inventory as i128 - before.base_inventory as i128;
    let d_quote = after.quote_inventory - before.quote_inventory;
    assert_eq!(d_base, 25);
    assert_eq!(d_base * 9_990, -d_quote);
    let sell = Quote::new(10_010, 10, false, ExchangeID::Binance);
    mm.on_quote_filled(&sell, 10_010, 10);
    let last = mm.get_inventory_position();
    assert_eq!(last.base_inventory as i128 - after.base_inventory as i128, -10);
    assert_eq!(last.quote_inventory - after.quote_inventory, 10_010 * 10);
    assert_eq!(mm.get_total_volume(), 35);
    assert_eq!(mm.quote_counts(), (2, 2));
    assert_eq!(mm.get_fill_rate(), 1_000_000);
}

#[test]
fn pnl_revalues_at_the_midpoint() {
    let sor = router_around(9_999, 10_001);
    let mut mm = MarketMaker::new(&sor, MarketMakerParameters::default());
    mm.initialize(500, 1_000_000_000);
    mm.update_quotes().unwrap();
    let buy = Quote::new(9_990, 100, true, ExchangeID::Binance);
    mm.on_quote_filled(&buy, 9_990, 100);
    // bought 100 units at 9990, worth 10000 each at the midpoint
    assert_eq!(mm.get_realized_pnl(), 100 * 10_000 - 100 * 9_990);
    assert_eq!(mm.get_inventory_position().pnl, 1_000);
}

#[test]
fn risk_breach_widens_spread_and_halves_size() {
    let sor = router_around(9_999, 10_001);
    let mut mm = MarketMaker::new(&sor, MarketMakerParameters::default());
    mm.initialize(500, 1_000_000_000);
    mm.update_quotes().unwrap();
    assert!(mm.is_within_risk_limits());
    mm.adjust_parameters_for_risk();
    assert_eq!(mm.get_parameters().base_spread_ppm, 1000);
    let buy = Quote::new(10_000, 600, true, ExchangeID::Binance);
    mm.on_quote_filled(&buy, 10_000, 600);
    assert!(!mm.is_within_risk_limits());
    mm.adjust_parameters_for_risk();
    assert_eq!(mm.get_parameters().base_spread_ppm, 1500);
    assert_eq!(mm.get_parameters().base_quote_size, 5);
    mm.adjust_parameters_for_risk();
    assert_eq!(mm.get_parameters().base_spread_ppm, 2250);
}

#[test]
fn negative_quote_beyond_a_tenth_breaches() {
    let sor = router_around(9_999, 10_001);
    let params = MarketMakerParameters { max_quote_inventory: 1_000_000, ..MarketMakerParameters::default() };
    let mut mm = MarketMaker::new(&sor, params);
    mm.initialize(0, -100_000);
    assert!(mm.is_within_risk_limits());
    mm.initialize(0, -100_001);
    assert!(!mm.is_within_risk_limits());
}

#[test]
fn volatility_follows_the_spread() {
    let sor = router_around(9_999, 10_001);
    let mut mm = MarketMaker::new(&sor, MarketMakerParameters::default());
    // relative spread 2 / 9999 = 200 millionths; (9 × 1000 + 200) / 10
    assert_eq!(mm.estimate_volatility(), 920);
    assert_eq!(mm.estimate_volatility(), 848);
}

#[test]
fn imbalance_is_relative_to_target() {
    let sor = router_around(9_999, 10_001);
    let mut mm = MarketMaker::new(&sor, MarketMakerParameters::default());
    mm.initialize(750, 0);
    assert_eq!(mm.get_inventory_imbalance(), 500_000);
    mm.initialize(250, 0);
    assert_eq!(mm.get_inventory_imbalance(), -500_000);
    let mut p = *mm.get_parameters();
    p.target_base_inventory = 0;
    mm.update_parameters(p);
    assert_eq!(mm.get_inventory_imbalance(), 0);
}

#[test]
fn sizes_stay_within_limits() {
    let sor = router_around(9_999, 10_001);
    let params = MarketMakerParameters { base_quote_size: 1000, ..MarketMakerParameters::default() };
    let mut mm = MarketMaker::new(&sor, params);
    mm.initialize(0, 0);
    let q = mm.update_quotes().unwrap();
    assert_eq!(q.buy_quote.quantity, 100);
    assert_eq!(q.sell_quote.quantity, 1);
}
