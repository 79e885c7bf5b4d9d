use rust_core::smart_order_router::{
    Exchange, ExchangeMetrics, FeeSchedule, SimulatedExchange, SmartOrderRouter, SplitOrder,
};
use rust_core::ExchangeID;

fn venue(id: ExchangeID, latency: u32, orders: &[(u32, u32, u32, bool)]) -> SimulatedExchange {
    let mut ex = SimulatedExchange::new(id, id.name().to_string(), ExchangeMetrics::new(latency, 950_000, 999_000));
    for &(oid, px, qty, buy) in orders {
        ex.get_order_book_mut().add_order(oid, px, qty, buy);
    }
    ex
}

fn three_venues(consider_latency: bool, consider_fees: bool) -> SmartOrderRouter<SimulatedExchange> {
    let binance = venue(
        ExchangeID::Binance,
        5,
        &[(1, 4_500_000, 10, true), (2, 4_499_950, 5, true), (3, 4_500_100, 8, false), (4, 4_500_150, 12, false)],
    );
    let coinbase = venue(
        ExchangeID::Coinbase,
        15,
        &[(5, 4_499_900, 7, true), (6, 4_499_800, 3, true), (7, 4_500_200, 6, false), (8, 4_500_300, 9, false)],
    );
    let kraken = venue(
        ExchangeID::Kraken,
        25,
        &[(9, 4_500_050, 15, true), (10, 4_500_000, 5, true), (11, 4_500_250, 10, false), (12, 4_500_350, 8, false)],
    );
    let mut sor = SmartOrderRouter::new(consider_latency, consider_fees);
    sor.add_exchange(binance, FeeSchedule::new(1000, 1000));
    sor.add_exchange(coinbase, FeeSchedule::new(500, 1500));
    sor.add_exchange(kraken, FeeSchedule::new(200, 1200));
    sor
}

fn buy_score(price: u32, fill: u32, fee: u32, latency: u32) -> i128 {
    price as i128 * fill as i128 * (1_000_000 + fee as i128) * (10_000 + latency as i128)
}

fn sell_score(price: u32, fill: u32, fee: u32, latency: u32) -> i128 {
    price as i128 * fill as i128 * (1_000_000 - fee as i128) * (10_000 - latency as i128)
}

#[test]
fn buy_routes_to_cheapest_after_fees_and_latency() {
    let sor = three_venues(true, true);
    let d = sor.route_order(101, 5_000_000, 5, true);
    assert_eq!(d.exchange_id, ExchangeID::Binance);
    assert_eq!(d.expected_price, 4_500_100);
    assert_eq!(d.available_quantity, 8);
    assert!(!d.is_maker);
    assert_eq!(d.total_cost, buy_score(4_500_100, 5, 1000, 5));
    assert_eq!(d.expected_fee, 4_500_100u128 * 5 * 1000);
    assert!(d.total_cost < buy_score(4_500_200, 5, 1500, 15));
    assert!(d.total_cost < buy_score(4_500_250, 5, 1200, 25));
}

#[test]
fn sell_routes_to_highest_proceeds() {
    let sor = three_venues(true, true);
    let d = sor.route_order(102, 4_000_000, 5, false);
    assert_eq!(d.exchange_id, ExchangeID::Binance);
    assert_eq!(d.expected_price, 4_500_000);
    assert_eq!(d.total_cost, sell_score(4_500_000, 5, 1000, 5));
    assert!(d.total_cost > sell_score(4_500_050, 5, 1200, 25));
    assert!(d.total_cost > sell_score(4_499_900, 5, 1500, 15));
}

#[test]
fn passive_order_pays_maker_fee() {
    let sor = three_venues(false, true);
    let d = sor.route_order(103, 4_400_000, 1, true);
    assert!(d.is_maker);
    assert_eq!(d.exchange_id, ExchangeID::Kraken);
    assert_eq!(d.expected_fee, 4_500_250u128 * 200);
}

#[test]
fn split_respects_the_slice_limit() {
    let sor = three_venues(true, true);
    let splits = sor.route_order_split(104, 5_000_000, 20, true);
    let slice = SplitOrder {
        exchange_id: ExchangeID::Coinbase,
        quantity: 6,
        expected_price: 4_500_200,
        expected_fee: 4_500_200u128 * 6 * 1500,
    };
    assert_eq!(splits, vec![slice, slice, slice]);
}

#[test]
fn split_stops_when_filled() {
    let sor = three_venues(true, true);
    let splits = sor.route_order_split(105, 5_000_000, 4, true);
    assert_eq!(splits.len(), 1);
    assert_eq!(splits[0].quantity, 4);
    assert_eq!(splits[0].exchange_id, ExchangeID::Binance);
    assert_eq!(splits[0].expected_fee, 4_500_100u128 * 4 * 1000 * 4 / 8);
}

#[test]
fn inactive_venue_is_skipped() {
    let mut sor = three_venues(true, true);
    sor.set_exchange_active(ExchangeID::Binance, false);
    assert!(!sor.is_exchange_active(0));
    let d = sor.route_order(106, 5_000_000, 5, true);
    assert_eq!(d.exchange_id, ExchangeID::Coinbase);
    sor.set_exchange_active(ExchangeID::Binance, true);
    assert_eq!(sor.route_order(107, 5_000_000, 5, true).exchange_id, ExchangeID::Binance);
}

#[test]
fn without_fees_lowest_price_wins() {
    let mut sor = SmartOrderRouter::new(true, false);
    sor.add_exchange(venue(ExchangeID::Binance, 10, &[(3, 4_500_100, 8, false)]), FeeSchedule::new(1000, 1000));
    sor.add_exchange(venue(ExchangeID::Coinbase, 10, &[(7, 4_500_200, 6, false)]), FeeSchedule::new(500, 1500));
    let d = sor.route_order(108, 5_000_000, 5, true);
    assert_eq!(d.exchange_id, ExchangeID::Binance);
    assert_eq!(d.expected_fee, 0);
}

#[test]
fn no_liquidity_gives_unknown() {
    let mut sor = SmartOrderRouter::new(true, true);
    assert_eq!(sor.route_order(1, 100, 1, true).exchange_id, ExchangeID::Unknown);
    sor.add_exchange(venue(ExchangeID::Kraken, 10, &[(1, 100, 5, true)]), FeeSchedule::default());
    assert_eq!(sor.route_order(2, 100, 1, true).exchange_id, ExchangeID::Unknown);
    assert_eq!(sor.route_order(3, 100, 1, false).exchange_id, ExchangeID::Kraken);
    assert!(sor.route_order_split(4, 100, 3, true).is_empty());
}

#[test]
fn lower_latency_wins_between_twins() {
    for first_slow in [true, false] {
        let mut sor = SmartOrderRouter::new(true, true);
        let slow = venue(ExchangeID::Kraken, 30, &[(1, 10_000, 5, false), (2, 9_900, 5, true)]);
        let fast = venue(ExchangeID::FTX, 3, &[(1, 10_000, 5, false), (2, 9_900, 5, true)]);
        if first_slow {
            sor.add_exchange(slow, FeeSchedule::new(1000, 2000));
            sor.add_exchange(fast, FeeSchedule::new(1000, 2000));
        } else {
            sor.add_exchange(fast, FeeSchedule::new(1000, 2000));
            sor.add_exchange(slow, FeeSchedule::new(1000, 2000));
        }
        assert_eq!(sor.route_order(9, 10_000, 5, true).exchange_id, ExchangeID::FTX);
        assert_eq!(sor.route_order(9, 9_900, 5, false).exchange_id, ExchangeID::FTX);
    }
}

#[test]
fn equal_scores_go_to_the_first_venue() {
    let mut sor = SmartOrderRouter::new(false, true);
    sor.add_exchange(venue(ExchangeID::Kraken, 30, &[(1, 10_000, 5, false)]), FeeSchedule::new(1000, 2000));
    sor.add_exchange(venue(ExchangeID::FTX, 3, &[(1, 10_000, 5, false)]), FeeSchedule::new(1000, 2000));
    assert_eq!(sor.route_order(9, 10_000, 5, true).exchange_id, ExchangeID::Kraken);
}

#[test]
fn aggregated_market_takes_best_of_each_side() {
    let sor = three_venues(true, true);
    let data = sor.get_aggregated_market_data();
    assert_eq!(data.best_bid, Some(4_500_050));
    assert_eq!(data.best_bid_exchange, ExchangeID::Kraken);
    assert_eq!(data.best_ask, Some(4_500_100));
    assert_eq!(data.best_ask_exchange, ExchangeID::Binance);
    assert_eq!(data.total_bid_quantity, 10 + 7 + 15);
    assert_eq!(data.total_ask_quantity, 8 + 6 + 10);
}

#[test]
fn aggregated_market_of_nothing_is_empty() {
    let sor: SmartOrderRouter<SimulatedExchange> = SmartOrderRouter::new(false, false);
    let data = sor.get_aggregated_market_data();
    assert_eq!(data.best_bid, None);
    assert_eq!(data.best_ask_exchange, ExchangeID::Unknown);
    assert_eq!(data.total_ask_quantity, 0);
}

#[test]
fn defaults_match_documented_values() {
    let f = FeeSchedule::default();
    assert_eq!((f.maker_fee, f.taker_fee), (1000, 2000));
    let m = ExchangeMetrics::default();
    assert_eq!((m.avg_latency_ms, m.fill_rate, m.uptime), (10, 950_000, 999_000));
    assert_eq!(ExchangeID::FTX.name(), "FTX");
}
