// Scenario tests for the book's stated behaviour.  Quantities and prices
// are in whole units.

use orderbook::book_side::BookSide;
use orderbook::order::{Order, Side};
use orderbook::order_book::FillStatus;
use orderbook::OrderBook;

#[test]
fn price_time_priority_fills_in_order() {
    let mut book = OrderBook::new();
    book.submit_limit_order(Side::Ask, 10, 50);
    let a = book.submit_limit_order(Side::Ask, 10, 75).partial.unwrap();
    let b = book.submit_limit_order(Side::Ask, 10, 75).partial.unwrap();

    let result = book.submit_market_order(Side::Bid, 25);

    assert_eq!(result.quantity_filled, 25);
    assert_eq!(result.done.len(), 3);

    assert_eq!(result.done[0].price, 50);
    assert_eq!(result.done[0].quantity, 10);
    assert_eq!(result.done[0].status, FillStatus::Full);

    assert_eq!(result.done[1].price, 75);
    assert_eq!(result.done[1].quantity, 10);
    assert_eq!(result.done[1].status, FillStatus::Full);
    assert_eq!(result.done[1].order_id, a.id);

    assert_eq!(result.done[2].price, 75);
    assert_eq!(result.done[2].quantity, 5);
    assert_eq!(result.done[2].status, FillStatus::Partial);
    assert_eq!(result.done[2].order_id, b.id);
}

#[test]
fn partial_fill_preserves_id_and_timestamp() {
    let mut book = OrderBook::new();
    let resting = book.submit_limit_order(Side::Ask, 10, 50).partial.unwrap();

    let result = book.submit_market_order(Side::Bid, 4);
    assert_eq!(result.quantity_filled, 4);

    let after = *book.get(resting.id).unwrap();
    assert_eq!(after.id, resting.id);
    assert_eq!(after.timestamp, resting.timestamp);
    assert_eq!(after.price, resting.price);
    assert_eq!(after.quantity, resting.quantity - 4);
}

#[test]
fn market_order_with_insufficient_liquidity_rests_nothing() {
    let mut book = OrderBook::new();
    book.submit_limit_order(Side::Ask, 5, 50);

    let result = book.submit_market_order(Side::Bid, 20);

    assert_eq!(result.quantity_filled, 5);
    assert_eq!(result.done.len(), 1);
    assert_eq!(result.done[0].status, FillStatus::Full);
    assert!(result.partial.is_none());
    assert_eq!(book.orders.len(), 0);
}

#[test]
fn limit_crossing_boundary_is_inclusive() {
    let mut book = OrderBook::new();
    book.submit_limit_order(Side::Ask, 5, 50);

    // A bid at exactly the ask price crosses and fully fills.
    let at_boundary = book.submit_limit_order(Side::Bid, 5, 50);
    assert_eq!(at_boundary.quantity_filled, 5);
    assert!(at_boundary.partial.is_none());

    // Against a fresh ask, a bid below the ask price does not fill and
    // rests instead.
    book.submit_limit_order(Side::Ask, 5, 50);
    let below = book.submit_limit_order(Side::Bid, 5, 49);
    assert_eq!(below.quantity_filled, 0);
    let rested = below.partial.unwrap();
    assert_eq!(rested.price, 49);
    assert_eq!(rested.quantity, 5);
    assert_eq!(*book.get(rested.id).unwrap(), rested);
}

#[test]
fn level_cleanup_erases_price_from_both_indices() {
    let mut side = BookSide::new();
    let keep = Order::new(Side::Ask, 3, 7, 0);
    let lone = Order::new(Side::Ask, 5, 9, 1);
    side.append(keep);
    side.append(lone);
    assert_eq!(side.depth, 2);

    side.remove(lone);

    assert!(side.level_at(9).is_none());
    assert!(side.price_tree.get(&9).is_none());
    assert_eq!(side.depth, 1);
}

#[test]
fn append_then_remove_restores_the_side() {
    let mut side = BookSide::new();
    side.append(Order::new(Side::Ask, 3, 7, 0));
    side.append(Order::new(Side::Ask, 4, 9, 1));

    let depth = side.depth;
    let volume = side.volume;
    let num_orders = side.num_orders;

    let order = Order::new(Side::Ask, 5, 9, 2);
    side.append(order);
    side.remove(order);

    assert_eq!(side.depth, depth);
    assert_eq!(side.volume, volume);
    assert_eq!(side.num_orders, num_orders);
}

#[test]
fn submissions_with_chosen_ids_are_deterministic() {
    let mut book = OrderBook::new();
    let first = book.submit_limit_order_with_id(Side::Ask, 5, 50, 7, 0);
    assert_eq!(first.partial.unwrap().id, 7);

    // The id is already resting, so a clashing remainder rests nothing.
    let clash = book.submit_limit_order_with_id(Side::Bid, 5, 40, 7, 1);
    assert_eq!(clash.quantity_filled, 0);
    assert!(clash.partial.is_none());
    assert_eq!(book.get(7).unwrap().side, Side::Ask);
}

#[test]
fn round_trip_append_remove_on_the_book() {
    let mut book = OrderBook::new();
    book.submit_limit_order(Side::Bid, 5, 40);

    let order = Order::new(Side::Bid, 3, 41, 9);
    book.append(order);
    assert_eq!(*book.get(order.id).unwrap(), order);

    let removed = book.remove(order.id).unwrap();
    assert_eq!(removed, order);
    assert!(book.get(order.id).is_none());
    assert_eq!(book.bids.num_orders, 1);
    assert_eq!(book.bids.volume, 5);
    assert_eq!(book.bids.depth, 1);
}
