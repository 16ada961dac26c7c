use orderbook::order::{Order, Side};

#[test]
fn test_new_returns_order() {
    let side = Side::Ask;
    let quantity: u64 = 10;
    let price: u64 = 10;
    let time: u64 = 0;

    let order = Order::new(side, quantity, price, time);

    assert_eq!(order.side, side);
    assert_eq!(order.quantity, quantity);
    assert_eq!(order.price, price);
    assert_eq!(order.timestamp, time);
}

#[test]
fn new_orders_draw_distinct_ids() {
    let a = Order::new(Side::Ask, 10, 10, 0);
    let b = Order::new(Side::Ask, 10, 10, 1);
    assert_ne!(a.id, b.id);
}
