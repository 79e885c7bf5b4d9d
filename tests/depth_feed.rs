use rust_core::book_model::{Order, Trade};
use rust_core::depth_feed::DepthMirror;
use rust_core::order_book::OrderBook;

#[test]
fn level_update_replaces_previous_order() {
    let mut m = DepthMirror::new(1);
    assert_eq!(m.apply_level(10_000, 5, true), Some(vec![]));
    assert_eq!(m.book().get_bid_quantity_at(10_000), 5);
    assert_eq!(m.apply_level(10_000, 8, true), Some(vec![]));
    assert_eq!(m.book().get_bid_quantity_at(10_000), 8);
    assert!(!m.book().contains_order(1));
    assert!(m.book().contains_order(2));
}

#[test]
fn empty_updates_are_ignored() {
    let mut m = DepthMirror::new(7);
    assert_eq!(m.apply_level(0, 5, true), Some(vec![]));
    assert_eq!(m.apply_level(10_000, 0, false), Some(vec![]));
    assert_eq!(m.book().get_best_bid(), None);
    assert_eq!(m.book().get_best_ask(), None);
    m.apply_level(10_000, 3, false);
    assert!(m.book().contains_order(7));
}

#[test]
fn crossing_update_trades() {
    let mut m = DepthMirror::new(1);
    m.apply_level(10_000, 5, false);
    let trades = m.apply_level(10_100, 2, true).unwrap();
    assert_eq!(trades, vec![Trade::new(1, 10_000, 2, 2, 1)]);
    assert_eq!(m.book().get_ask_quantity_at(10_000), 3);
}

#[test]
fn sides_are_tracked_apart() {
    let mut m = DepthMirror::new(1);
    m.apply_level(10_000, 5, true);
    m.apply_level(10_100, 4, false);
    m.apply_level(10_100, 6, false);
    assert_eq!(m.book().get_bid_quantity_at(10_000), 5);
    assert_eq!(m.book().get_ask_quantity_at(10_100), 6);
}

#[test]
fn exhausted_ids_refuse_updates() {
    let mut m = DepthMirror::new(u32::MAX);
    assert_eq!(m.apply_level(10_000, 5, true), None);
    assert_eq!(m.book().get_best_bid(), None);
}

#[test]
fn constructors_keep_their_fields() {
    let o = Order::new(3, 10_000, 4, true);
    assert_eq!((o.order_id, o.price, o.quantity, o.is_buy_side), (3, 10_000, 4, true));
    let t = Trade::new(1, 10_000, 4, 3, 9);
    assert_eq!((t.trade_id, t.buy_order_id, t.sell_order_id), (1, 3, 9));
    let book = OrderBook::default();
    assert_eq!(book.next_trade_id(), 1);
    assert_eq!(book.resting_count(false), 0);
}
