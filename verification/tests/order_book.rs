// Quantities and prices are in whole units.

use orderbook::order::Side;
use orderbook::OrderBook;

#[test]
fn test_submit_market_order() {
    let mut order_book = OrderBook::new();

    let o1 = order_book.submit_limit_order(Side::Ask, 10, 50);
    let o2 = order_book.submit_limit_order(Side::Ask, 10, 75);
    let o3 = order_book.submit_limit_order(Side::Ask, 10, 75);

    let result = order_book.submit_market_order(Side::Bid, 25);
    let mut order_ids = result.done.iter().map(|f| f.order_id);

    // Order was filled with price-time priority
    assert_eq!(result.quantity_filled, 25);

    assert_eq!(order_ids.next(), Some(o1.partial.unwrap().id));
    assert_eq!(order_ids.next(), Some(o2.partial.unwrap().id));
    assert_eq!(order_ids.next(), Some(o3.partial.unwrap().id));
    assert_eq!(order_ids.next(), None);

    // Filled orders were taken off the book
    assert!(order_book.get(o1.partial.unwrap().id).is_none());
    assert!(order_book.get(o2.partial.unwrap().id).is_none());

    // Partially filled order is still on the book with updated quantity
    assert_eq!(order_book.get(o3.partial.unwrap().id).unwrap().quantity, 5);
}

#[test]
fn test_submit_market_order_partial() {
    let mut order_book = OrderBook::new();

    let o1 = order_book.submit_limit_order(Side::Ask, 5, 50);

    let result = order_book.submit_market_order(Side::Bid, 20);

    // Order was partially filled
    assert_eq!(result.quantity_filled, 5);

    let mut order_ids = result.done.iter().map(|f| f.order_id);
    assert_eq!(order_ids.next(), Some(o1.partial.unwrap().id));
    assert_eq!(order_ids.next(), None);

    // Nothing is left on the book
    assert_eq!(order_book.orders.len(), 0);
}

#[test]
fn test_submit_limit_order() {
    let mut order_book = OrderBook::new();

    let o1 = order_book.submit_limit_order(Side::Ask, 5, 50);
    let o2 = order_book.submit_limit_order(Side::Ask, 20, 51);

    let result = order_book.submit_limit_order(Side::Bid, 15, 52);

    // Order was filled with price-time priority
    assert_eq!(result.quantity_filled, 15);

    let mut order_ids = result.done.iter().map(|f| f.order_id);
    assert_eq!(order_ids.next(), Some(o1.partial.unwrap().id));
    assert_eq!(order_ids.next(), Some(o2.partial.unwrap().id));
    assert_eq!(order_ids.next(), None);

    // Filled orders were taken off the book
    assert!(order_book.get(o1.partial.unwrap().id).is_none());

    // Partially filled order is still on the book with updated quantity
    assert_eq!(order_book.get(o2.partial.unwrap().id).unwrap().quantity, 10);
}

#[test]
fn test_submit_limit_order_partial() {
    let mut order_book = OrderBook::new();

    let o1 = order_book.submit_limit_order(Side::Ask, 5, 50);
    let _o2 = order_book.submit_limit_order(Side::Ask, 20, 60);

    let result = order_book.submit_limit_order(Side::Bid, 15, 55);

    // Order was partially filled
    assert_eq!(result.quantity_filled, 5);

    let mut order_ids = result.done.iter().map(|f| f.order_id);
    assert_eq!(order_ids.next(), Some(o1.partial.unwrap().id));
    assert_eq!(order_ids.next(), None);

    // Filled orders were taken off the book
    assert!(order_book.get(o1.partial.unwrap().id).is_none());

    // New order for partial quantity was added to the book
    assert_eq!(
        order_book.get(result.partial.unwrap().id).unwrap().quantity,
        10
    );
}

#[test]
fn test_submit_limit_order_no_fill() {
    let mut order_book = OrderBook::new();

    let _o1 = order_book.submit_limit_order(Side::Ask, 5, 50);

    let result = order_book.submit_limit_order(Side::Bid, 5, 40);

    // Order was not filled
    assert_eq!(result.done.len(), 0);

    // Order is now resting on the book
    assert_eq!(
        order_book.get(result.partial.unwrap().id).unwrap().quantity,
        5
    );
}

#[test]
fn order_book_test_remove() {
    let mut order_book = OrderBook::new();

    let _o1 = order_book.submit_limit_order(Side::Ask, 5, 50);
    let o2 = order_book.submit_limit_order(Side::Bid, 5, 40);

    let result = order_book.remove(o2.partial.unwrap().id);

    // Order was removed
    assert_eq!(result.unwrap().id, o2.partial.unwrap().id);

    // Order is no longer on the book
    assert_eq!(order_book.get(result.unwrap().id), None);
}

#[test]
fn test_get() {
    let mut order_book = OrderBook::new();

    let result = order_book.submit_limit_order(Side::Ask, 5, 50);

    // Gets an order on the book
    assert_eq!(
        order_book.get(result.partial.unwrap().id).map(|&o| o),
        result.partial
    );
}

#[test]
fn test_get_no_order() {
    let order_book = OrderBook::new();

    let id = uuid::Uuid::new_v4().as_u128();

    // Returns None for a bogus ID
    assert_eq!(order_book.get(id), None);
}

#[test]
fn remove_unknown_id_returns_none() {
    let mut order_book = OrderBook::new();
    order_book.submit_limit_order(Side::Ask, 5, 50);

    assert!(order_book.remove(uuid::Uuid::new_v4().as_u128()).is_none());
    assert_eq!(order_book.orders.len(), 1);
}

#[test]
fn market_order_on_empty_book_fills_nothing() {
    let mut order_book = OrderBook::new();
    let result = order_book.submit_market_order(Side::Bid, 7);
    assert_eq!(result.quantity_filled, 0);
    assert!(result.done.is_empty());
    assert!(result.partial.is_none());
}
