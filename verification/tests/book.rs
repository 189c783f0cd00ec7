use orderbook::book::{BookError, Fill, OrderbookTrait};
use orderbook::fixed_tick::Orderbook as FixedTickOrderbook;
use orderbook::hybrid::Orderbook as HybridOrderbook;
use orderbook::order::{IdCounter, Order, Side};
use orderbook::price::Price;
use orderbook::quantity::Quantity;
use orderbook::soa::Orderbook as SoAOrderbook;
use orderbook::tree::Orderbook as TreeOrderbook;

fn place_order<O: OrderbookTrait>(book: &mut O, counter: &mut IdCounter, side: Side, price: u32, qty: u32) -> u64 {
    let order = Order::new(Price::define(price), Quantity::define(qty), side, counter);
    let id = order.id();
    book.add_order(order).expect("admission should succeed");
    id
}

fn fill_tuple(f: &Fill) -> (u32, u32, u64) {
    (f.price.value(), f.quantity.value(), f.maker_order_id)
}

fn scenario_best_and_mid<O: OrderbookTrait>() {
    let mut book = O::new();
    let mut counter = IdCounter::new();
    place_order(&mut book, &mut counter, Side::Bid, 100, 10);
    place_order(&mut book, &mut counter, Side::Ask, 101, 10);
    assert_eq!(book.best_bid().map(|p| p.value()), Some(100));
    assert_eq!(book.best_ask().map(|p| p.value()), Some(101));
    assert_eq!(book.mid_price().map(|p| p.value()), Some(100));
}

#[test]
fn best_and_mid_all_representations() {
    scenario_best_and_mid::<FixedTickOrderbook>();
    scenario_best_and_mid::<SoAOrderbook>();
    scenario_best_and_mid::<TreeOrderbook>();
    scenario_best_and_mid::<HybridOrderbook>();
}

fn scenario_partial_level_consumption<O: OrderbookTrait>() {
    let mut book = O::new();
    let mut counter = IdCounter::new();
    place_order(&mut book, &mut counter, Side::Ask, 50, 5);
    place_order(&mut book, &mut counter, Side::Ask, 50, 7);
    let fills = book
        .execute_market_order(Side::Bid, Quantity::define(5))
        .expect("full fill expected");
    assert_eq!(fills.len(), 1);
    assert_eq!(fill_tuple(&fills[0]), (50, 5, 0));
    assert_eq!(book.depth_at_price(Price::define(50), Side::Ask), 7);
    assert_eq!(book.best_ask().map(|p| p.value()), Some(50));
}

#[test]
fn partial_level_consumption_all_representations() {
    scenario_partial_level_consumption::<FixedTickOrderbook>();
    scenario_partial_level_consumption::<SoAOrderbook>();
    scenario_partial_level_consumption::<TreeOrderbook>();
    scenario_partial_level_consumption::<HybridOrderbook>();
}

fn scenario_sweep_three_levels<O: OrderbookTrait>() {
    let mut book = O::new();
    let mut counter = IdCounter::new();
    place_order(&mut book, &mut counter, Side::Ask, 50, 5);
    place_order(&mut book, &mut counter, Side::Ask, 51, 5);
    place_order(&mut book, &mut counter, Side::Ask, 52, 5);
    let fills = book
        .execute_market_order(Side::Bid, Quantity::define(15))
        .expect("full fill expected");
    let got: Vec<(u32, u32, u64)> = fills.iter().map(fill_tuple).collect();
    assert_eq!(got, vec![(50, 5, 0), (51, 5, 1), (52, 5, 2)]);
    assert!(book.best_bid().is_none());
    assert!(book.best_ask().is_none());
    assert_eq!(book.depth_at_price(Price::define(50), Side::Ask), 0);
    assert_eq!(book.depth_at_price(Price::define(51), Side::Ask), 0);
    assert_eq!(book.depth_at_price(Price::define(52), Side::Ask), 0);
}

#[test]
fn sweep_three_levels_all_representations() {
    scenario_sweep_three_levels::<FixedTickOrderbook>();
    scenario_sweep_three_levels::<SoAOrderbook>();
    scenario_sweep_three_levels::<TreeOrderbook>();
    scenario_sweep_three_levels::<HybridOrderbook>();
}

fn scenario_insufficient_liquidity<O: OrderbookTrait>() {
    let mut book = O::new();
    let mut counter = IdCounter::new();
    place_order(&mut book, &mut counter, Side::Ask, 50, 5);
    let err = book
        .execute_market_order(Side::Bid, Quantity::define(10))
        .expect_err("liquidity should run out");
    match err {
        BookError::PartiallyFilled { remaining, fills } => {
            assert_eq!(remaining, 5);
            assert_eq!(fills.len(), 1);
            assert_eq!(fill_tuple(&fills[0]), (50, 5, 0));
        }
        other => panic!("unexpected error: {:?}", other),
    }
    // The consumed order is gone for good.
    assert!(book.best_ask().is_none());
    assert!(matches!(
        book.cancel_order(0),
        Err(BookError::OrderNotFound { id: 0 })
    ));
}

#[test]
fn insufficient_liquidity_all_representations() {
    scenario_insufficient_liquidity::<FixedTickOrderbook>();
    scenario_insufficient_liquidity::<SoAOrderbook>();
    scenario_insufficient_liquidity::<TreeOrderbook>();
    scenario_insufficient_liquidity::<HybridOrderbook>();
}

fn scenario_cancel_then_cancel_again<O: OrderbookTrait>() {
    let mut book = O::new();
    let mut counter = IdCounter::new();
    let id = place_order(&mut book, &mut counter, Side::Bid, 100, 10);
    book.cancel_order(id).expect("resting order cancels");
    assert!(book.best_bid().is_none());
    assert_eq!(book.depth_at_price(Price::define(100), Side::Bid), 0);
    assert!(matches!(
        book.cancel_order(id),
        Err(BookError::OrderNotFound { .. })
    ));
}

#[test]
fn cancel_then_cancel_again_all_representations() {
    scenario_cancel_then_cancel_again::<FixedTickOrderbook>();
    scenario_cancel_then_cancel_again::<SoAOrderbook>();
    scenario_cancel_then_cancel_again::<TreeOrderbook>();
    scenario_cancel_then_cancel_again::<HybridOrderbook>();
}

fn scenario_deep_sweep<O: OrderbookTrait>() {
    let mut book = O::new();
    let mut counter = IdCounter::new();
    for price in 4001..=5000u32 {
        place_order(&mut book, &mut counter, Side::Ask, price, 1);
    }
    let fills = book
        .execute_market_order(Side::Bid, Quantity::define(500))
        .expect("full fill expected");
    assert_eq!(fills.len(), 500);
    for (i, fill) in fills.iter().enumerate() {
        assert_eq!(fill.price.value(), 4001 + i as u32);
        assert_eq!(fill.quantity.value(), 1);
    }
    assert_eq!(book.best_ask().map(|p| p.value()), Some(4501));
}

#[test]
fn deep_sweep_all_representations() {
    scenario_deep_sweep::<FixedTickOrderbook>();
    scenario_deep_sweep::<SoAOrderbook>();
    scenario_deep_sweep::<TreeOrderbook>();
    scenario_deep_sweep::<HybridOrderbook>();
}

fn scenario_rejections<O: OrderbookTrait>() {
    let mut book = O::new();
    let mut counter = IdCounter::new();
    // A fresh book quotes nothing, and cancelling a never-admitted id fails.
    assert!(book.best_bid().is_none());
    assert!(matches!(
        book.cancel_order(7),
        Err(BookError::OrderNotFound { id: 7 })
    ));
    let zero_price = Order::new(Price::define(0), Quantity::define(5), Side::Bid, &mut counter);
    assert!(matches!(
        book.add_order(zero_price),
        Err(BookError::OutOfBounds { price: 0 })
    ));
    let too_high = Order::new(
        Price::define(10_000),
        Quantity::define(5),
        Side::Bid,
        &mut counter,
    );
    assert!(matches!(
        book.add_order(too_high),
        Err(BookError::OutOfBounds { price: 10_000 })
    ));
    let zero_qty = Order::new(Price::define(100), Quantity::define(0), Side::Bid, &mut counter);
    assert!(matches!(book.add_order(zero_qty), Err(BookError::ZeroQuantity)));
    // The book is unchanged by rejected admissions.
    assert!(book.best_bid().is_none());
    assert!(book.best_ask().is_none());
    assert_eq!(book.depth_at_price(Price::define(100), Side::Bid), 0);
}

#[test]
fn rejections_all_representations() {
    scenario_rejections::<FixedTickOrderbook>();
    scenario_rejections::<SoAOrderbook>();
    scenario_rejections::<TreeOrderbook>();
    scenario_rejections::<HybridOrderbook>();
}

fn scenario_market_on_empty_side<O: OrderbookTrait>() {
    let mut book = O::new();
    let mut counter = IdCounter::new();
    place_order(&mut book, &mut counter, Side::Bid, 100, 10);
    let err = book
        .execute_market_order(Side::Bid, Quantity::define(4))
        .expect_err("no asks rest");
    match err {
        BookError::PartiallyFilled { remaining, fills } => {
            assert_eq!(remaining, 4);
            assert!(fills.is_empty());
        }
        other => panic!("unexpected error: {:?}", other),
    }
    assert!(book.mid_price().is_none());
}

#[test]
fn market_on_empty_side_all_representations() {
    scenario_market_on_empty_side::<FixedTickOrderbook>();
    scenario_market_on_empty_side::<SoAOrderbook>();
    scenario_market_on_empty_side::<TreeOrderbook>();
    scenario_market_on_empty_side::<HybridOrderbook>();
}

fn scenario_unsupported_partial_fill<O: OrderbookTrait>() {
    let mut book = O::new();
    let mut counter = IdCounter::new();
    place_order(&mut book, &mut counter, Side::Ask, 50, 5);
    let err = book
        .execute_market_order(Side::Bid, Quantity::define(3))
        .expect_err("a resting order may not be split");
    assert!(matches!(err, BookError::UnsupportedPartialFill));
    // The untouched resting order still quotes.
    assert_eq!(book.best_ask().map(|p| p.value()), Some(50));
    assert_eq!(book.depth_at_price(Price::define(50), Side::Ask), 5);
}

#[test]
fn unsupported_partial_fill_all_representations() {
    scenario_unsupported_partial_fill::<FixedTickOrderbook>();
    scenario_unsupported_partial_fill::<SoAOrderbook>();
    scenario_unsupported_partial_fill::<TreeOrderbook>();
    scenario_unsupported_partial_fill::<HybridOrderbook>();
}

fn scenario_fifo_within_level<O: OrderbookTrait>() {
    let mut book = O::new();
    let mut counter = IdCounter::new();
    let o1 = place_order(&mut book, &mut counter, Side::Ask, 70, 2);
    let o2 = place_order(&mut book, &mut counter, Side::Ask, 70, 2);
    let o3 = place_order(&mut book, &mut counter, Side::Ask, 70, 2);
    let fills = book
        .execute_market_order(Side::Bid, Quantity::define(4))
        .expect("two whole orders match");
    assert_eq!(fills.len(), 2);
    assert_eq!(fills[0].maker_order_id, o1);
    assert_eq!(fills[1].maker_order_id, o2);
    // The third arrival is still resting.
    assert_eq!(book.depth_at_price(Price::define(70), Side::Ask), 2);
    book.cancel_order(o3).expect("third arrival rests");
}

#[test]
fn fifo_within_level_all_representations() {
    scenario_fifo_within_level::<FixedTickOrderbook>();
    scenario_fifo_within_level::<SoAOrderbook>();
    scenario_fifo_within_level::<TreeOrderbook>();
    scenario_fifo_within_level::<HybridOrderbook>();
}

fn scenario_price_priority<O: OrderbookTrait>() {
    let mut book = O::new();
    let mut counter = IdCounter::new();
    place_order(&mut book, &mut counter, Side::Ask, 60, 1);
    place_order(&mut book, &mut counter, Side::Ask, 55, 1);
    place_order(&mut book, &mut counter, Side::Bid, 40, 1);
    place_order(&mut book, &mut counter, Side::Bid, 45, 1);
    let ask_fills = book
        .execute_market_order(Side::Bid, Quantity::define(1))
        .expect("one ask matches");
    assert_eq!(ask_fills[0].price.value(), 55);
    let bid_fills = book
        .execute_market_order(Side::Ask, Quantity::define(1))
        .expect("one bid matches");
    assert_eq!(bid_fills[0].price.value(), 45);
}

#[test]
fn price_priority_all_representations() {
    scenario_price_priority::<FixedTickOrderbook>();
    scenario_price_priority::<SoAOrderbook>();
    scenario_price_priority::<TreeOrderbook>();
    scenario_price_priority::<HybridOrderbook>();
}

fn scenario_admit_cancel_roundtrip<O: OrderbookTrait>() {
    let mut book = O::new();
    let mut counter = IdCounter::new();
    place_order(&mut book, &mut counter, Side::Bid, 4950, 3);
    place_order(&mut book, &mut counter, Side::Ask, 5050, 4);
    let before = (
        book.best_bid().map(|p| p.value()),
        book.best_ask().map(|p| p.value()),
        book.depth_at_price(Price::define(4950), Side::Bid),
        book.depth_at_price(Price::define(5050), Side::Ask),
    );
    let id = place_order(&mut book, &mut counter, Side::Bid, 4960, 7);
    book.cancel_order(id).expect("round trip cancels");
    let after = (
        book.best_bid().map(|p| p.value()),
        book.best_ask().map(|p| p.value()),
        book.depth_at_price(Price::define(4950), Side::Bid),
        book.depth_at_price(Price::define(5050), Side::Ask),
    );
    assert_eq!(before, after);
    assert_eq!(book.depth_at_price(Price::define(4960), Side::Bid), 0);
}

#[test]
fn admit_cancel_roundtrip_all_representations() {
    scenario_admit_cancel_roundtrip::<FixedTickOrderbook>();
    scenario_admit_cancel_roundtrip::<SoAOrderbook>();
    scenario_admit_cancel_roundtrip::<TreeOrderbook>();
    scenario_admit_cancel_roundtrip::<HybridOrderbook>();
}

fn observe<O: OrderbookTrait>(ops: &[(u8, Side, u32, u32)]) -> Vec<String> {
    let mut book = O::new();
    let mut counter = IdCounter::new();
    let mut log = Vec::new();
    for &(kind, side, a, b) in ops {
        match kind {
            0 => {
                let order = Order::new(
                    Price::define(a),
                    Quantity::define(b),
                    side,
                    &mut counter,
                );
                log.push(format!("add {:?}", book.add_order(order).is_ok()));
            }
            1 => {
                log.push(format!("cancel {:?}", book.cancel_order(a as u64).is_ok()));
            }
            _ => {
                let fills: Vec<(u32, u32, u64)> = match book
                    .execute_market_order(side, Quantity::define(b))
                {
                    Ok(fills) => fills.iter().map(fill_tuple).collect(),
                    Err(BookError::PartiallyFilled { remaining, fills }) => {
                        log.push(format!("partial {}", remaining));
                        fills.iter().map(fill_tuple).collect()
                    }
                    Err(e) => {
                        log.push(format!("err {:?}", e));
                        Vec::new()
                    }
                };
                log.push(format!("fills {:?}", fills));
            }
        }
        log.push(format!(
            "state {:?} {:?} {:?}",
            book.best_bid().map(|p| p.value()),
            book.best_ask().map(|p| p.value()),
            (1u32..8)
                .map(|i| {
                    let p = Price::define(i * 700);
                    (
                        book.depth_at_price(p, Side::Bid),
                        book.depth_at_price(p, Side::Ask),
                    )
                })
                .collect::<Vec<_>>(),
        ));
    }
    log
}

#[test]
fn cross_representation_equivalence() {
    // One admissible operation sequence, replayed against all four
    // representations; every observation must coincide.
    let ops: Vec<(u8, Side, u32, u32)> = vec![
        (0, Side::Bid, 2100, 5),
        (0, Side::Ask, 2800, 5),
        (0, Side::Ask, 2800, 3),
        (0, Side::Bid, 4950, 2),
        (0, Side::Ask, 5050, 2),
        (0, Side::Ask, 700, 1),
        (2, Side::Bid, 0, 6),
        (1, Side::Bid, 0, 0),
        (1, Side::Bid, 42, 0),
        (0, Side::Bid, 1400, 9),
        (2, Side::Ask, 0, 11),
        (2, Side::Bid, 0, 9),
        (1, Side::Bid, 3, 0),
    ];
    let fixed = observe::<FixedTickOrderbook>(&ops);
    let soa = observe::<SoAOrderbook>(&ops);
    let tree = observe::<TreeOrderbook>(&ops);
    let hybrid = observe::<HybridOrderbook>(&ops);
    assert_eq!(fixed, soa);
    assert_eq!(fixed, tree);
    assert_eq!(fixed, hybrid);
}

fn scenario_window_boundaries<O: OrderbookTrait>() {
    let mut book = O::new();
    let mut counter = IdCounter::new();
    // Liquidity on both sides of the central window and inside it.
    place_order(&mut book, &mut counter, Side::Ask, 4950, 1);
    place_order(&mut book, &mut counter, Side::Ask, 9000, 1);
    place_order(&mut book, &mut counter, Side::Bid, 5050, 1);
    place_order(&mut book, &mut counter, Side::Bid, 200, 1);
    // The extrema straddle the window.
    assert_eq!(book.best_ask().map(|p| p.value()), Some(4950));
    assert_eq!(book.best_bid().map(|p| p.value()), Some(5050));
    // A deep bid-side sweep crosses from the window into the high tail.
    let fills = book
        .execute_market_order(Side::Bid, Quantity::define(2))
        .expect("both asks match");
    let got: Vec<(u32, u32, u64)> = fills.iter().map(fill_tuple).collect();
    assert_eq!(got, vec![(4950, 1, 0), (9000, 1, 1)]);
    // A deep ask-side sweep crosses from the window into the low tail.
    let fills = book
        .execute_market_order(Side::Ask, Quantity::define(2))
        .expect("both bids match");
    let got: Vec<(u32, u32, u64)> = fills.iter().map(fill_tuple).collect();
    assert_eq!(got, vec![(5050, 1, 2), (200, 1, 3)]);
    assert!(book.best_bid().is_none());
    assert!(book.best_ask().is_none());
}

#[test]
fn window_boundaries_all_representations() {
    scenario_window_boundaries::<FixedTickOrderbook>();
    scenario_window_boundaries::<SoAOrderbook>();
    scenario_window_boundaries::<TreeOrderbook>();
    scenario_window_boundaries::<HybridOrderbook>();
}
