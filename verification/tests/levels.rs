use std::collections::HashMap;

use orderbook::fixed_tick::Level;
use orderbook::order::{IdCounter, Order, OrderId, Side};
use orderbook::price::Price;
use orderbook::quantity::Quantity;
use orderbook::soa::LevelSoA;

fn make_order(counter: &mut IdCounter, price: u32, qty: u32, side: Side) -> Order {
    Order::new(Price::define(price), Quantity::define(qty), side, counter)
}

#[test]
fn level_add_cancel_and_first() {
    let mut counter = IdCounter::new();
    let mut level = Level::default();
    assert!(level.is_empty());
    assert!(level.first_order().is_none());

    level.add_order(make_order(&mut counter, 42, 3, Side::Bid));
    level.add_order(make_order(&mut counter, 42, 4, Side::Bid));
    assert!(!level.is_empty());
    assert_eq!(level.total_quantity(), 7);
    assert_eq!(level.first_order().map(|o| o.id()), Some(0));

    let removed = level.cancel_order(0).expect("first arrival rests");
    assert_eq!(removed.id(), 0);
    assert_eq!(removed.quantity().value(), 3);
    assert_eq!(level.total_quantity(), 4);
    assert!(level.cancel_order(99).is_none());
}

#[test]
fn level_match_orders_is_fifo() {
    let mut counter = IdCounter::new();
    let mut level = Level::default();
    level.add_order(make_order(&mut counter, 42, 3, Side::Ask));
    level.add_order(make_order(&mut counter, 42, 5, Side::Ask));
    let mut index: HashMap<OrderId, (Side, Price)> = HashMap::new();
    index.insert(0, (Side::Ask, Price::define(42)));
    index.insert(1, (Side::Ask, Price::define(42)));

    let mut remaining = Quantity::define(3);
    let (fills, split) = level.match_orders(&mut remaining, Price::define(42), &mut index);
    assert!(!split);
    assert_eq!(remaining.value(), 0);
    assert_eq!(fills.len(), 1);
    assert_eq!(fills[0].maker_order_id, 0);
    assert!(!index.contains_key(&0));
    assert!(index.contains_key(&1));
    assert_eq!(level.total_quantity(), 5);

    // A remainder smaller than the head order reports the split condition.
    let mut remaining = Quantity::define(2);
    let (fills, split) = level.match_orders(&mut remaining, Price::define(42), &mut index);
    assert!(split);
    assert!(fills.is_empty());
    assert_eq!(remaining.value(), 2);
    assert_eq!(level.total_quantity(), 5);
}

#[test]
fn soa_level_mirrors_aos_level() {
    let mut counter = IdCounter::new();
    let mut level = LevelSoA::default();
    assert!(level.is_empty());
    level.add_order(make_order(&mut counter, 7, 2, Side::Bid));
    level.add_order(make_order(&mut counter, 7, 9, Side::Bid));
    assert_eq!(level.total_quantity(), 11);

    let removed = level.cancel_order(1).expect("second arrival rests");
    // The rebuilt order carries the stored fields under a zeroed counter id.
    assert_eq!(removed.id(), 0);
    assert_eq!(removed.price().value(), 7);
    assert_eq!(removed.quantity().value(), 9);
    assert_eq!(removed.side(), Side::Bid);
    assert_eq!(level.total_quantity(), 2);

    let mut index: HashMap<OrderId, (Side, Price)> = HashMap::new();
    index.insert(0, (Side::Bid, Price::define(7)));
    let mut remaining = Quantity::define(2);
    let (fills, split) = level.match_orders(&mut remaining, Price::define(7), &mut index);
    assert!(!split);
    assert_eq!(fills.len(), 1);
    assert_eq!(fills[0].quantity.value(), 2);
    assert!(level.is_empty());
}
