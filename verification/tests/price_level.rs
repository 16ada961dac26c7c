// Quantities are in tenths of a unit, prices in whole units.

use orderbook::order::{Order, Side};
use orderbook::price_level::PriceLevel;

#[test]
fn test_append() {
    let mut price_level = PriceLevel::new(10);
    let order = Order::new(Side::Ask, 10, 10, 0);

    price_level.append(order);

    assert_eq!(price_level.volume, order.quantity);
    assert_eq!(*price_level.front().unwrap(), order);
}

#[test]
fn price_level_test_remove() {
    let mut price_level = PriceLevel::new(10);
    let order = Order::new(Side::Ask, 10, 10, 0);
    let order2 = Order::new(Side::Ask, 20, 10, 1);

    price_level.append(order);
    price_level.append(order2);

    price_level.remove(order);

    assert_eq!(price_level.volume, order2.quantity);
    assert_eq!(*price_level.front().unwrap(), order2);
}

#[test]
fn test_len() {
    let mut price_level = PriceLevel::new(10);
    let order = Order::new(Side::Ask, 10, 10, 0);
    let order2 = Order::new(Side::Ask, 20, 10, 1);

    price_level.append(order);
    price_level.append(order2);

    assert_eq!(price_level.len(), 2);
}

#[test]
fn test_front() {
    let mut price_level = PriceLevel::new(10);
    let order = Order::new(Side::Ask, 10, 10, 0);
    let order2 = Order::new(Side::Ask, 20, 10, 1);

    price_level.append(order);
    price_level.append(order2);

    assert_eq!(*price_level.front().unwrap(), order);
}

#[test]
fn test_replace_front() {
    let mut price_level = PriceLevel::new(10);
    let order = Order::new(Side::Ask, 10, 10, 0);
    let order2 = Order::new(Side::Ask, 20, 10, 1);

    price_level.append(order);
    price_level.append(order2);

    let mut new_order = order.clone();
    new_order.quantity = 1;

    price_level.replace_front(new_order);
    assert_eq!(*price_level.front().unwrap(), new_order);
    assert_eq!(price_level.volume, new_order.quantity + order2.quantity);
}

#[test]
fn remove_of_absent_id_changes_nothing() {
    let mut price_level = PriceLevel::new(10);
    let order = Order::new(Side::Ask, 10, 10, 0);
    price_level.append(order);

    let stranger = Order::new(Side::Ask, 30, 10, 1);
    assert!(price_level.remove(stranger).is_none());
    assert_eq!(price_level.volume, order.quantity);
    assert_eq!(price_level.len(), 1);
}
