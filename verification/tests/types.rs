use orderbook::order::{IdCounter, Order, Side};
use orderbook::price::Price;
use orderbook::quantity::Quantity;

#[test]
fn id_counter_is_strictly_increasing() {
    let mut counter = IdCounter::new();
    assert_eq!(counter.next(), 0);
    assert_eq!(counter.next(), 1);
    assert_eq!(counter.next(), 2);
}

#[test]
fn order_carries_its_fields() {
    let mut counter = IdCounter::new();
    counter.next();
    let order = Order::new(Price::define(123), Quantity::define(7), Side::Ask, &mut counter);
    assert_eq!(order.id(), 1);
    assert_eq!(order.price().value(), 123);
    assert_eq!(order.quantity().value(), 7);
    assert_eq!(order.side(), Side::Ask);
}

#[test]
fn price_and_quantity_round_trip() {
    assert_eq!(Price::define(9999).value(), 9999);
    assert_eq!(Quantity::define(0).value(), 0);
    assert_eq!(Quantity::define(4_000_000_000).value(), 4_000_000_000);
}
