use rust_core::book_model::Trade;
use rust_core::order_book::{run_matching_engine_scenario, OrderBook};

fn trade(trade_id: u32, price: u32, quantity: u32, buy_order_id: u32, sell_order_id: u32) -> Trade {
    Trade { trade_id, price, quantity, buy_order_id, sell_order_id }
}

#[test]
fn resting_buy_does_not_match() {
    let mut book = OrderBook::new();
    let trades = book.add_order(1, 10050, 10, true);
    assert!(trades.is_empty());
    assert_eq!(book.get_best_bid(), Some(10050));
    assert_eq!(book.get_bid_quantity_at(10050), 10);
    assert_eq!(book.get_best_ask(), None);
}

#[test]
fn orders_aggregate_at_their_level() {
    let mut book = OrderBook::new();
    book.add_order(1, 10050, 10, true);
    let trades = book.add_order(4, 10050, 20, true);
    assert!(trades.is_empty());
    assert_eq!(book.get_bid_quantity_at(10050), 30);
    assert_eq!(book.get_bid_quantity_at(10049), 0);
}

#[test]
fn crossing_buy_stops_at_its_limit() {
    let mut book = OrderBook::new();
    book.add_order(1, 10050, 10, true);
    book.add_order(4, 10100, 10, false);
    book.add_order(5, 10125, 15, false);
    let trades = book.add_order(6, 10110, 25, true);
    assert_eq!(trades, vec![trade(1, 10100, 10, 6, 4)]);
    assert_eq!(book.get_best_bid(), Some(10110));
    assert_eq!(book.get_bid_quantity_at(10110), 15);
    assert_eq!(book.get_best_ask(), Some(10125));
    assert_eq!(book.get_ask_quantity_at(10125), 15);
}

#[test]
fn crossing_buy_sweeps_two_levels() {
    let mut book = OrderBook::new();
    book.add_order(1, 10050, 10, true);
    book.add_order(4, 10100, 10, false);
    book.add_order(5, 10125, 15, false);
    let trades = book.add_order(6, 10125, 25, true);
    assert_eq!(trades, vec![trade(1, 10100, 10, 6, 4), trade(2, 10125, 15, 6, 5)]);
    assert_eq!(book.get_best_ask(), None);
    assert_eq!(book.get_best_bid(), Some(10050));
    assert!(!book.contains_order(6));
}

#[test]
fn partial_fill_leaves_residual_resting() {
    let mut book = OrderBook::new();
    book.add_order(10, 5000, 5, false);
    let trades = book.add_order(11, 6000, 8, true);
    assert_eq!(trades, vec![trade(1, 5000, 5, 11, 10)]);
    assert_eq!(book.get_best_bid(), Some(6000));
    assert_eq!(book.get_bid_quantity_at(6000), 3);
    assert_eq!(book.get_best_ask(), None);
}

#[test]
fn sell_aggressor_takes_bids_best_first() {
    let mut book = OrderBook::new();
    book.add_order(1, 10050, 10, true);
    book.add_order(2, 10075, 5, true);
    book.add_order(3, 10025, 15, true);
    let trades = book.add_order(7, 10000, 30, false);
    assert_eq!(
        trades,
        vec![trade(1, 10075, 5, 2, 7), trade(2, 10050, 10, 1, 7), trade(3, 10025, 15, 3, 7)]
    );
    assert_eq!(book.get_best_bid(), None);
    assert_eq!(book.get_best_ask(), None);
}

#[test]
fn trades_follow_price_priority() {
    let mut book = OrderBook::new();
    book.add_order(1, 10300, 1, false);
    book.add_order(2, 10100, 1, false);
    book.add_order(3, 10200, 1, false);
    let trades = book.add_order(4, 10400, 3, true);
    let prices: Vec<u32> = trades.iter().map(|t| t.price).collect();
    assert_eq!(prices, vec![10100, 10200, 10300]);
}

#[test]
fn untouched_levels_rank_no_better_than_trades() {
    let mut book = OrderBook::new();
    book.add_order(1, 10100, 5, false);
    book.add_order(2, 10200, 5, false);
    book.add_order(3, 10300, 5, false);
    let trades = book.add_order(4, 10250, 8, true);
    let best_left = book.get_best_ask().unwrap();
    assert_eq!(best_left, 10200);
    assert!(trades.iter().all(|t| t.price <= best_left));
}

#[test]
fn same_price_orders_fill_oldest_first() {
    let mut book = OrderBook::new();
    book.add_order(1, 10000, 4, false);
    book.add_order(2, 10000, 4, false);
    book.add_order(3, 10000, 4, false);
    let trades = book.add_order(9, 10000, 10, true);
    let sellers: Vec<u32> = trades.iter().map(|t| t.sell_order_id).collect();
    assert_eq!(sellers, vec![1, 2, 3]);
    assert_eq!(trades[2].quantity, 2);
    assert_eq!(book.get_ask_quantity_at(10000), 2);
    // the partly filled order keeps its place ahead of a newcomer
    book.add_order(4, 10000, 4, false);
    let trades = book.add_order(10, 10000, 3, true);
    assert_eq!(trades, vec![trade(4, 10000, 2, 10, 3), trade(5, 10000, 1, 10, 4)]);
}

#[test]
fn trade_ids_are_dense_from_one() {
    let mut book = OrderBook::new();
    book.add_order(1, 10000, 1, false);
    book.add_order(2, 10000, 1, false);
    book.add_order(3, 10100, 1, false);
    let mut ids = Vec::new();
    for t in book.add_order(4, 10000, 2, true) {
        ids.push(t.trade_id);
    }
    for t in book.add_order(5, 10100, 1, true) {
        ids.push(t.trade_id);
    }
    assert_eq!(ids, vec![1, 2, 3]);
    assert_eq!(book.next_trade_id(), 4);
}

#[test]
fn traded_quantity_is_order_less_residual() {
    let mut book = OrderBook::new();
    book.add_order(1, 10000, 3, false);
    book.add_order(2, 10100, 4, false);
    let trades = book.add_order(3, 10100, 10, true);
    let traded: u32 = trades.iter().map(|t| t.quantity).sum();
    assert_eq!(traded, 7);
    assert_eq!(book.get_bid_quantity_at(10100), 10 - traded);
}

#[test]
fn book_never_crosses_after_adds() {
    let mut book = OrderBook::new();
    let orders = [
        (1, 10000, 5, true),
        (2, 10100, 5, false),
        (3, 10150, 7, true),
        (4, 9900, 20, false),
        (5, 10200, 3, true),
        (6, 10050, 2, false),
    ];
    for (id, px, qty, buy) in orders {
        book.add_order(id, px, qty, buy);
        if let (Some(b), Some(a)) = (book.get_best_bid(), book.get_best_ask()) {
            assert!(b < a);
        }
    }
}

#[test]
fn level_aggregates_match_their_orders() {
    let mut book = OrderBook::new();
    book.add_order(1, 10000, 5, true);
    book.add_order(2, 10000, 7, true);
    book.add_order(3, 9900, 2, true);
    book.add_order(4, 10000, 6, false);
    assert_eq!(book.get_bid_quantity_at(10000), 6);
    assert_eq!(book.get_bid_quantity_at(9900), 2);
    assert!(book.cancel_order(2));
    assert_eq!(book.get_bid_quantity_at(10000), 0);
    assert_eq!(book.get_best_bid(), Some(9900));
    assert_eq!(book.resting_count(true), 1);
}

#[test]
fn cancel_twice_reports_true_then_false() {
    let mut book = OrderBook::new();
    book.add_order(1, 10000, 5, true);
    book.add_order(2, 10000, 7, true);
    book.add_order(3, 10100, 7, false);
    assert!(book.cancel_order(1));
    let bid = book.get_best_bid();
    let qty = book.get_bid_quantity_at(10000);
    assert!(!book.cancel_order(1));
    assert_eq!(book.get_best_bid(), bid);
    assert_eq!(book.get_bid_quantity_at(10000), qty);
    assert_eq!(qty, 7);
    assert_eq!(book.get_best_ask(), Some(10100));
}

#[test]
fn cancel_of_unknown_id_is_a_no_op() {
    let mut book = OrderBook::new();
    book.add_order(1, 10000, 5, true);
    assert!(!book.cancel_order(99));
    assert_eq!(book.get_bid_quantity_at(10000), 5);
}

#[test]
fn cancel_removes_empty_level() {
    let mut book = OrderBook::new();
    book.add_order(1, 10100, 5, false);
    book.add_order(2, 10200, 5, false);
    assert!(book.cancel_order(1));
    assert_eq!(book.get_best_ask(), Some(10200));
    assert_eq!(book.get_ask_quantity_at(10100), 0);
}

#[test]
fn refused_orders_change_nothing() {
    let mut book = OrderBook::new();
    book.add_order(1, 10000, 5, true);
    assert!(book.add_order(2, 10000, 0, true).is_empty());
    assert!(book.add_order(3, 0, 5, false).is_empty());
    assert!(book.add_order(1, 9000, 5, false).is_empty());
    assert_eq!(book.get_best_ask(), None);
    assert_eq!(book.get_bid_quantity_at(10000), 5);
    assert!(!book.contains_order(2));
    assert!(!book.contains_order(3));
}

#[test]
fn try_add_refuses_level_overflow() {
    let mut book = OrderBook::new();
    assert_eq!(book.try_add_order(1, 10000, u32::MAX, true), Some(vec![]));
    assert_eq!(book.try_add_order(2, 10000, 1, true), None);
    assert!(!book.contains_order(2));
    assert_eq!(book.try_add_order(3, 9999, 1, true), Some(vec![]));
}

#[test]
fn matching_scenario_runs() {
    run_matching_engine_scenario();
}
