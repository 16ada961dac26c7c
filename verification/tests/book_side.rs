// Quantities are in tenths of a unit, prices in whole units.

use orderbook::book_side::BookSide;
use orderbook::order::{Order, Side};

#[test]
fn test_append_with_no_price_levels() {
    let mut side = BookSide::new();

    let price: u64 = 10;
    let order = Order::new(Side::Ask, 10, price, 0);

    side.append(order);

    let pl = side.level_at(price).unwrap();
    assert_eq!(*pl.front().unwrap(), order, "Order wasn't appended");

    let pl2 = side.price_tree.get(&price);
    assert!(pl2.is_some(), "Internal data is inconsistent");

    assert_eq!(side.depth, 1);
    assert_eq!(side.volume, order.quantity);
    assert_eq!(side.num_orders, 1);
}

#[test]
fn test_append_with_existing_price_level() {
    let mut side = BookSide::new();

    let price: u64 = 10;
    let order = Order::new(Side::Ask, 10, price, 0);
    let order2 = Order::new(Side::Ask, 20, price, 1);

    side.append(order);
    side.append(order2);

    let pl = side.level_at(price).unwrap();
    assert_eq!(*pl.front().unwrap(), order, "Order wasn't appended");

    let pl2 = side.price_tree.get(&price);
    assert!(pl2.is_some(), "Internal data is inconsistent");

    assert_eq!(side.depth, 1, "Depth should not increment");
    assert_eq!(side.volume, order.quantity + order2.quantity);
    assert_eq!(side.num_orders, 2);
}

#[test]
fn test_append_with_new_price_level() {
    let mut side = BookSide::new();

    let order = Order::new(Side::Ask, 10, 5, 0);
    let order2 = Order::new(Side::Ask, 20, 10, 1);

    side.append(order);
    side.append(order2);

    assert_eq!(side.levels.len(), 2);
    assert_eq!(side.depth, 2);
}

#[test]
fn book_side_test_remove() {
    let mut side = BookSide::new();

    let order = Order::new(Side::Ask, 10, 10, 0);
    let order2 = Order::new(Side::Ask, 20, 10, 1);

    side.append(order);
    side.append(order2);

    side.remove(order2);

    assert_eq!(side.depth, 1);
    assert_eq!(side.volume, order.quantity);
    assert_eq!(side.num_orders, 1);
}

#[test]
fn test_remove_with_last_order_at_price_level() {
    let mut side = BookSide::new();

    let order = Order::new(Side::Ask, 10, 10, 0);

    side.append(order);
    side.remove(order);

    assert_eq!(side.depth, 0);
    assert_eq!(side.volume, 0);
    assert_eq!(side.num_orders, 0);
}

#[test]
fn best_levels_follow_the_ordered_index() {
    let mut side = BookSide::new();
    side.append(Order::new(Side::Ask, 10, 10, 0));
    side.append(Order::new(Side::Ask, 20, 5, 1));
    side.append(Order::new(Side::Ask, 30, 7, 2));

    assert_eq!(side.min_price_level().unwrap().price, 5);
    assert_eq!(side.max_price_level().unwrap().price, 10);

    let min_order = Order::new(Side::Ask, 20, 5, 1);
    let mut probe = min_order;
    probe.id = side.min_price_level().unwrap().front().unwrap().id;
    side.remove(probe);
    assert_eq!(side.min_price_level().unwrap().price, 7);
}

#[test]
fn empty_side_has_no_best_level() {
    let side = BookSide::new();
    assert!(side.min_price_level().is_none());
    assert!(side.max_price_level().is_none());
}
