//! The hybrid book representation.
//!
//! The price axis is split into a hot zone — a contiguous window of ticks
//! centred on the middle of the price range, held in fixed arrays — and a
//! cold zone holding every other price in ordered maps. Admission,
//! cancellation and depth lookups pick the zone from the price alone; the
//! market sweep and the best-price queries visit both zones in strict
//! price order, so the hybrid meets the same operational contract as the
//! other representations. The centre is fixed at construction; recentring
//! is out of scope.

use std::collections::{BTreeMap, HashMap};

use vstd::prelude::*;

pub use crate::book::Fill;
pub use crate::fixed_tick::Level;

use crate::book::{
    fills_view, index_view, lemma_fills_view_add, lemma_index_view_insert, lemma_index_view_remove,
    lemma_orders_view_push, lemma_orders_view_remove, orders_view, BookError, OrderbookTrait,
};
use crate::model::{
    BookView, FillView, RestingView, admit_check, consume_asc, consume_desc, consume_level, contains_id, empty_book, find_id, lemma_admit_wf, lemma_best_ask_from_props, lemma_best_ask_from_unique, lemma_best_bid_from_props, lemma_best_bid_from_unique, lemma_cancel_wf, lemma_consume_asc_skips_empty, lemma_consume_asc_wf, lemma_consume_desc_skips_empty, lemma_consume_desc_wf, lemma_consume_level_shape, lemma_empty_book_wf, lemma_find_id_props, lemma_side_wf_of, side_levels, spec_admit, spec_best_ask, spec_best_bid, spec_cancel, spec_execute, sum_qty, view_wf,
};
use crate::order::{Order, OrderId, Side};
use crate::price::{Price, MAX_PRICE, TICK_SIZE};
use crate::quantity::{Quantity, LOT_SIZE};
use crate::tree::{btree_max_key, btree_min_key};

verus! {

broadcast use
    vstd::laws_cmp::group_laws_cmp,
    crate::order::lemma_order_view_ranges,
    crate::price::lemma_price_view_range,
    crate::quantity::lemma_quantity_view_range,
;

/// Number of ticks the hot window covers.
pub const HOT_ZONE_SIZE: usize = 200;

/// The hot window extends this many ticks either side of the centre.
pub const HOT_ZONE_RADIUS: u32 = 100;

/// The lowest tick of the hot window.
pub open spec fn hot_lo() -> int {
    MAX_PRICE as int / 2 - HOT_ZONE_RADIUS as int
}

/// One past the highest tick of the hot window.
pub open spec fn hot_hi() -> int {
    MAX_PRICE as int / 2 + HOT_ZONE_RADIUS as int
}

/// Whether a tick falls in the hot window.
pub open spec fn in_hot(p: int) -> bool {
    hot_lo() <= p < hot_hi()
}

/// The model's reading of one side: the hot array covers the window, the
/// cold map everything else, empty where no cold key is stored.
pub open spec fn hybrid_levels_view(hot: Seq<Level>, cold: Map<u32, Level>) -> Seq<
    Seq<RestingView>,
> {
    Seq::new(
        MAX_PRICE as nat,
        |p: int|
            if in_hot(p) {
                orders_view(hot[p - hot_lo()].orders@)
            } else if cold.contains_key(p as u32) {
                orders_view(cold[p as u32].orders@)
            } else {
                Seq::empty()
            },
    )
}

/// The hybrid book: fixed hot arrays around the centre, ordered cold maps
/// for the tails, and a hash index for cancellation.
pub struct Orderbook {
    hot_bids: Vec<Level>,
    hot_asks: Vec<Level>,
    cold_bids: BTreeMap<u32, Level>,
    cold_asks: BTreeMap<u32, Level>,
    hot_zone_center: u32,
    order_index: HashMap<OrderId, (Side, Price)>,
}

impl Orderbook {
    /// The hot arrays span the window, the centre is the fixed one, only
    /// admissible out-of-window prices are cold keys, and no stored cold
    /// level is empty.
    pub closed spec fn zones_inv(&self) -> bool {
        &&& self.hot_zone_center == MAX_PRICE / 2
        &&& self.hot_bids@.len() == HOT_ZONE_SIZE
        &&& self.hot_asks@.len() == HOT_ZONE_SIZE
        &&& forall|k: u32|
            #[trigger] self.cold_bids@.contains_key(k) ==> 1 <= k < MAX_PRICE && !in_hot(k as int)
                && self.cold_bids@[k].orders@.len() > 0
        &&& forall|k: u32|
            #[trigger] self.cold_asks@.contains_key(k) ==> 1 <= k < MAX_PRICE && !in_hot(k as int)
                && self.cold_asks@[k].orders@.len() > 0
    }

    /// Whether a price falls inside the hot window.
    fn is_in_hot_zone(&self, price_value: u32) -> (r: bool)
        requires
            self.zones_inv(),
        ensures
            r == in_hot(price_value as int),
    {
        let lower_bound = self.hot_zone_center - HOT_ZONE_RADIUS;
        let upper_bound = self.hot_zone_center + HOT_ZONE_RADIUS;
        price_value >= lower_bound && price_value < upper_bound
    }

    /// The hot-array slot of an in-window price.
    fn hot_zone_index(&self, price_value: u32) -> (r: usize)
        requires
            self.zones_inv(),
            in_hot(price_value as int),
        ensures
            r as int == price_value as int - hot_lo(),
            r < HOT_ZONE_SIZE,
    {
        (price_value - (self.hot_zone_center - HOT_ZONE_RADIUS)) as usize
    }

    /// Match an incoming market-order remainder against one level, FIFO,
    /// retiring fully matched orders from the level and the index.
    fn match_level(
        level: &mut Level,
        remaining_qty: &mut Quantity,
        price: Price,
        order_index: &mut HashMap<OrderId, (Side, Price)>,
    ) -> (r: (Vec<Fill>, bool))
        ensures
            ({
                let res = consume_level(
                    orders_view(old(level).orders@),
                    price@,
                    old(remaining_qty)@,
                    index_view(old(order_index)@),
                );
                &&& fills_view(r.0@) == res.fills
                &&& r.0@.len() == res.fills.len()
                &&& final(remaining_qty)@ == res.rem
                &&& orders_view(final(level).orders@) == res.left
                &&& index_view(final(order_index)@) == res.index
                &&& r.1 == res.split
            }),
    {
        level.match_orders(remaining_qty, price, order_index)
    }
}

impl OrderbookTrait for Orderbook {
    closed spec fn abs(&self) -> BookView {
        BookView {
            bids: hybrid_levels_view(self.hot_bids@, self.cold_bids@),
            asks: hybrid_levels_view(self.hot_asks@, self.cold_asks@),
            index: index_view(self.order_index@),
        }
    }

    closed spec fn wf(&self) -> bool {
        &&& self.zones_inv()
        &&& view_wf(self.abs())
    }

    proof fn lemma_wf_view(&self) {
    }

    fn new() -> (r: Self) {
        let mut hot_bids: Vec<Level> = Vec::new();
        let mut i: usize = 0;
        while i < HOT_ZONE_SIZE
            invariant
                i <= HOT_ZONE_SIZE,
                hot_bids@.len() == i,
                forall|j: int| 0 <= j < i ==> (#[trigger] hot_bids@[j]).orders@.len() == 0,
            decreases HOT_ZONE_SIZE - i,
        {
            hot_bids.push(Level::default());
            i = i + 1;
        }
        let mut hot_asks: Vec<Level> = Vec::new();
        let mut i2: usize = 0;
        while i2 < HOT_ZONE_SIZE
            invariant
                i2 <= HOT_ZONE_SIZE,
                hot_asks@.len() == i2,
                forall|j: int| 0 <= j < i2 ==> (#[trigger] hot_asks@[j]).orders@.len() == 0,
            decreases HOT_ZONE_SIZE - i2,
        {
            hot_asks.push(Level::default());
            i2 = i2 + 1;
        }
        let r = Orderbook {
            hot_bids,
            hot_asks,
            cold_bids: BTreeMap::new(),
            cold_asks: BTreeMap::new(),
            hot_zone_center: MAX_PRICE / 2,
            order_index: HashMap::new(),
        };
        proof {
            lemma_empty_book_wf();
            assert forall|p: int| 0 <= p < MAX_PRICE implies #[trigger] r.abs().bids[p]
                == empty_book().bids[p] by {
                assert(r.abs().bids[p] =~= empty_book().bids[p]);
            }
            assert forall|p: int| 0 <= p < MAX_PRICE implies #[trigger] r.abs().asks[p]
                == empty_book().asks[p] by {
                assert(r.abs().asks[p] =~= empty_book().asks[p]);
            }
            assert(r.abs().bids =~= empty_book().bids);
            assert(r.abs().asks =~= empty_book().asks);
            assert(r.abs().index =~= empty_book().index);
            assert(r.abs() =~= empty_book());
        }
        r
    }

    fn add_order(&mut self, order: Order) -> (r: Result<(), BookError>) {
        let order_id = order.id();
        let side = order.side();
        let price = order.price();
        let price_value = price.value();
        let quantity_value = order.quantity().value();

        if price_value % TICK_SIZE != 0 {
            return Err(BookError::InvalidTick { price: price_value });
        }
        if price_value == 0 || price_value >= MAX_PRICE {
            return Err(BookError::OutOfBounds { price: price_value });
        }
        if quantity_value % LOT_SIZE != 0 {
            return Err(BookError::InvalidLot { quantity: quantity_value });
        }
        if quantity_value == 0 {
            return Err(BookError::ZeroQuantity);
        }

        let ghost v0 = self.abs();
        proof {
            assert(admit_check(order@.price, order@.qty) is Accept);
        }
        let ghost rv = RestingView { id: order@.id, qty: order@.qty };
        if self.is_in_hot_zone(price_value) {
            let idx = self.hot_zone_index(price_value);
            match side {
                Side::Bid => {
                    let ghost lvl0 = self.hot_bids@[idx as int].orders@;
                    self.hot_bids[idx].add_order(order);
                    proof {
                        lemma_orders_view_push(lvl0, order);
                        assert(hybrid_levels_view(self.hot_bids@, self.cold_bids@)
                            =~~= v0.bids.update(price_value as int, v0.bids[price_value as int].push(rv)));
                    }
                },
                Side::Ask => {
                    let ghost lvl0 = self.hot_asks@[idx as int].orders@;
                    self.hot_asks[idx].add_order(order);
                    proof {
                        lemma_orders_view_push(lvl0, order);
                        assert(hybrid_levels_view(self.hot_asks@, self.cold_asks@)
                            =~~= v0.asks.update(price_value as int, v0.asks[price_value as int].push(rv)));
                    }
                },
            }
        } else {
            match side {
                Side::Bid => {
                    let ghost lvl0 = v0.bids[price_value as int];
                    let mut level = match self.cold_bids.remove(&price_value) {
                        Some(l) => l,
                        None => Level::default(),
                    };
                    proof {
                        assert(orders_view(level.orders@) =~= lvl0);
                    }
                    let ghost before_push = level.orders@;
                    level.add_order(order);
                    self.cold_bids.insert(price_value, level);
                    proof {
                        lemma_orders_view_push(before_push, order);
                        assert(hybrid_levels_view(self.hot_bids@, self.cold_bids@)
                            =~~= v0.bids.update(price_value as int, lvl0.push(rv)));
                    }
                },
                Side::Ask => {
                    let ghost lvl0 = v0.asks[price_value as int];
                    let mut level = match self.cold_asks.remove(&price_value) {
                        Some(l) => l,
                        None => Level::default(),
                    };
                    proof {
                        assert(orders_view(level.orders@) =~= lvl0);
                    }
                    let ghost before_push = level.orders@;
                    level.add_order(order);
                    self.cold_asks.insert(price_value, level);
                    proof {
                        lemma_orders_view_push(before_push, order);
                        assert(hybrid_levels_view(self.hot_asks@, self.cold_asks@)
                            =~~= v0.asks.update(price_value as int, lvl0.push(rv)));
                    }
                },
            }
        }
        let ghost map_before = self.order_index@;
        self.order_index.insert(order_id, (side, price));
        proof {
            lemma_index_view_insert(map_before, order_id, (side, price));
            lemma_admit_wf(v0, order@);
            assert(self.abs() =~= spec_admit(v0, order@));
        }
        Ok(())
    }

    fn cancel_order(&mut self, order_id: OrderId) -> (r: Result<(), BookError>) {
        let ghost v0 = self.abs();
        let ghost map_before = self.order_index@;
        let removed = self.order_index.remove(&order_id);
        match removed {
            None => {
                proof {
                    assert(!v0.index.contains_key(order_id));
                    assert(self.order_index@ =~= map_before);
                    assert(self.abs() =~= v0);
                }
                Err(BookError::OrderNotFound { id: order_id })
            },
            Some((side, price)) => {
                proof {
                    lemma_index_view_remove(map_before, order_id);
                    assert(v0.index.contains_key(order_id));
                    assert(v0.index[order_id] == (side, price@));
                }
                let ghost s = side;
                let ghost p = price@;
                let ghost levels = side_levels(v0, s);
                proof {
                    assert(0 <= p < levels.len());
                    assert(contains_id(levels[p], order_id));
                    lemma_find_id_props(levels[p], order_id);
                }
                let price_value = price.value();
                let ghost f = find_id(levels[p], order_id);
                if self.is_in_hot_zone(price_value) {
                    let idx = self.hot_zone_index(price_value);
                    match side {
                        Side::Bid => {
                            let ghost lvl0 = self.hot_bids@[idx as int].orders@;
                            let _ = self.hot_bids[idx].cancel_order(order_id);
                            proof {
                                lemma_orders_view_remove(lvl0, f);
                                assert(hybrid_levels_view(self.hot_bids@, self.cold_bids@)
                                    =~~= v0.bids.update(p, levels[p].remove(f)));
                            }
                        },
                        Side::Ask => {
                            let ghost lvl0 = self.hot_asks@[idx as int].orders@;
                            let _ = self.hot_asks[idx].cancel_order(order_id);
                            proof {
                                lemma_orders_view_remove(lvl0, f);
                                assert(hybrid_levels_view(self.hot_asks@, self.cold_asks@)
                                    =~~= v0.asks.update(p, levels[p].remove(f)));
                            }
                        },
                    }
                    proof {
                        lemma_cancel_wf(v0, order_id);
                        assert(self.abs() =~= spec_cancel(v0, order_id));
                    }
                    Ok(())
                } else {
                    match side {
                        Side::Bid => {
                            let taken = self.cold_bids.remove(&price_value);
                            match taken {
                                Some(mut level) => {
                                    let ghost lvl0 = level.orders@;
                                    proof {
                                        assert(orders_view(lvl0) == levels[p]);
                                    }
                                    let _ = level.cancel_order(order_id);
                                    proof {
                                        lemma_orders_view_remove(lvl0, f);
                                    }
                                    if !level.is_empty() {
                                        self.cold_bids.insert(price_value, level);
                                    }
                                    proof {
                                        assert(hybrid_levels_view(self.hot_bids@, self.cold_bids@)
                                            =~~= v0.bids.update(p, levels[p].remove(f)));
                                        lemma_cancel_wf(v0, order_id);
                                        assert(self.abs() =~= spec_cancel(v0, order_id));
                                    }
                                    Ok(())
                                },
                                None => {
                                    proof {
                                        assert(v0.bids[p].len() > 0);
                                        assert(false);
                                    }
                                    Err(BookError::DataInconsistency { id: order_id })
                                },
                            }
                        },
                        Side::Ask => {
                            let taken = self.cold_asks.remove(&price_value);
                            match taken {
                                Some(mut level) => {
                                    let ghost lvl0 = level.orders@;
                                    proof {
                                        assert(orders_view(lvl0) == levels[p]);
                                    }
                                    let _ = level.cancel_order(order_id);
                                    proof {
                                        lemma_orders_view_remove(lvl0, f);
                                    }
                                    if !level.is_empty() {
                                        self.cold_asks.insert(price_value, level);
                                    }
                                    proof {
                                        assert(hybrid_levels_view(self.hot_asks@, self.cold_asks@)
                                            =~~= v0.asks.update(p, levels[p].remove(f)));
                                        lemma_cancel_wf(v0, order_id);
                                        assert(self.abs() =~= spec_cancel(v0, order_id));
                                    }
                                    Ok(())
                                },
                                None => {
                                    proof {
                                        assert(v0.asks[p].len() > 0);
                                        assert(false);
                                    }
                                    Err(BookError::DataInconsistency { id: order_id })
                                },
                            }
                        },
                    }
                }
            },
        }
    }

    #[verifier::rlimit(100)]
    fn execute_market_order(&mut self, side: Side, quantity: Quantity) -> (r: Result<
        Vec<Fill>,
        BookError,
    >) {
        let ghost v0 = self.abs();
        let mut remaining_qty = quantity;
        let mut fills: Vec<Fill> = Vec::new();
        let mut split = false;
        let mut cold_done = false;

        match side {
            Side::Bid => {
                let ghost res = consume_asc(v0.asks, 0, quantity@, v0.index);
                proof {
                    assert(fills_view(fills@) + res.fills =~= res.fills);
                }
                // Phase one: cold ask levels below the hot window, lowest first.
                while !split && !cold_done && remaining_qty.value() > 0
                    invariant
                        self.hot_bids@ == old(self).hot_bids@,
                        self.cold_bids@ == old(self).cold_bids@,
                        self.hot_asks@ == old(self).hot_asks@,
                        self.zones_inv(),
                        ({
                            let sub = consume_asc(
                                hybrid_levels_view(self.hot_asks@, self.cold_asks@),
                                0,
                                remaining_qty@,
                                index_view(self.order_index@),
                            );
                            !split ==> {
                                &&& res.fills == fills_view(fills@) + sub.fills
                                &&& res.rem == sub.rem
                                &&& res.levels == sub.levels
                                &&& res.index == sub.index
                                &&& res.split == sub.split
                            }
                        }),
                        split ==> {
                            &&& res.fills == fills_view(fills@)
                            &&& res.rem == remaining_qty@
                            &&& res.levels == hybrid_levels_view(self.hot_asks@, self.cold_asks@)
                            &&& res.index == index_view(self.order_index@)
                            &&& res.split
                        },
                        cold_done ==> forall|k2: u32|
                            #[trigger] self.cold_asks@.contains_key(k2) ==> k2 as int >= hot_lo(),
                    decreases self.cold_asks@.dom().len() + if split || cold_done
                        || remaining_qty@ == 0 {
                        0int
                    } else {
                        1int
                    },
                {
                    proof {
                        vstd::std_specs::btree::axiom_btree_map_view_finite_dom(self.cold_asks);
                    }
                    let best = btree_min_key(&self.cold_asks);
                    let k = match best {
                        None => {
                            cold_done = true;
                            continue;
                        },
                        Some(k) => k,
                    };
                    if k >= self.hot_zone_center - HOT_ZONE_RADIUS {
                        cold_done = true;
                        continue;
                    }
                    let ghost curv = hybrid_levels_view(self.hot_asks@, self.cold_asks@);
                    let ghost icur = index_view(self.order_index@);
                    let ghost rem0 = remaining_qty@;
                    let ghost m0 = self.cold_asks@;
                    proof {
                        assert forall|q: int| 0 <= q < k as int implies (#[trigger] curv[q]).len()
                            == 0 by {
                            if m0.contains_key(q as u32) {
                                assert(k <= q as u32);
                            }
                        }
                        lemma_consume_asc_skips_empty(curv, 0, k as int, rem0, icur);
                    }
                    let mut level = self.cold_asks.remove(&k).unwrap();
                    let ghost lvl0 = level.orders@;
                    proof {
                        assert(orders_view(lvl0) == curv[k as int]);
                    }
                    let price = Price::define(k * TICK_SIZE);
                    proof {
                        assert(price@ == k as int);
                    }
                    let ghost fills_before = fills@;
                    let (mut level_fills, lsplit) = Self::match_level(
                        &mut level,
                        &mut remaining_qty,
                        price,
                        &mut self.order_index,
                    );
                    let ghost lf = level_fills@;
                    fills.append(&mut level_fills);
                    if !level.is_empty() {
                        self.cold_asks.insert(k, level);
                    }
                    proof {
                        broadcast use vstd::set::axiom_set_remove_len;

                        let lr = consume_level(curv[k as int], k as int, rem0, icur);
                        assert(hybrid_levels_view(self.hot_asks@, self.cold_asks@) =~~= curv.update(
                            k as int,
                            lr.left,
                        ));
                        lemma_fills_view_add(fills_before, lf);
                        assert(fills@ == fills_before + lf);
                        let sub_k = consume_asc(curv, k as int, rem0, icur);
                        if lsplit {
                            assert(res.fills == fills_view(fills_before) + lr.fills);
                            assert(res.fills =~= fills_view(fills@));
                        } else {
                            let sub_n = consume_asc(
                                hybrid_levels_view(self.hot_asks@, self.cold_asks@),
                                k as int + 1,
                                remaining_qty@,
                                index_view(self.order_index@),
                            );
                            assert(sub_k.fills == lr.fills + sub_n.fills);
                            assert(fills_view(fills_before) + (lr.fills + sub_n.fills)
                                =~= fills_view(fills@) + sub_n.fills);
                            if remaining_qty@ > 0 {
                                assert(lr.left.len() == 0) by {
                                    assert forall|j: int| 0 <= j < curv[k as int].len() implies (
                                    #[trigger] curv[k as int][j]).qty >= 0 by {
                                        assert(curv[k as int][j] == orders_view(lvl0)[j]);
                                    }
                                    lemma_consume_level_shape(
                                        curv[k as int],
                                        k as int,
                                        rem0,
                                        icur,
                                    );
                                }
                                assert forall|q: int|
                                    0 <= q < k as int + 1 implies (#[trigger] hybrid_levels_view(
                                    self.hot_asks@,
                                    self.cold_asks@,
                                )[q]).len() == 0 by {
                                    if q < k as int {
                                        if self.cold_asks@.contains_key(q as u32) {
                                            assert(m0.contains_key(q as u32));
                                            assert(k <= q as u32);
                                        }
                                    }
                                }
                                lemma_consume_asc_skips_empty(
                                    hybrid_levels_view(self.hot_asks@, self.cold_asks@),
                                    0,
                                    k as int + 1,
                                    remaining_qty@,
                                    index_view(self.order_index@),
                                );
                            }
                        }
                        if lsplit || remaining_qty@ == 0 {
                            if self.cold_asks@.contains_key(k) {
                                assert(self.cold_asks@.dom() =~= m0.dom());
                            } else {
                                assert(self.cold_asks@.dom() =~= m0.dom().remove(k));
                            }
                        } else {
                            assert(!self.cold_asks@.contains_key(k));
                            assert(self.cold_asks@.dom() =~= m0.dom().remove(k));
                        }
                    }
                    if lsplit {
                        split = true;
                    }
                }
                // Phase two: the hot window, lowest slot first.
                let ghost hl = hot_lo();
                proof {
                    if !split && remaining_qty@ > 0 {
                        assert forall|q: int| 0 <= q < hl implies (#[trigger] hybrid_levels_view(
                            self.hot_asks@,
                            self.cold_asks@,
                        )[q]).len() == 0 by {
                            if self.cold_asks@.contains_key(q as u32) {
                                assert(q as u32 as int >= hot_lo());
                            }
                        }
                        lemma_consume_asc_skips_empty(
                            hybrid_levels_view(self.hot_asks@, self.cold_asks@),
                            0,
                            hl,
                            remaining_qty@,
                            index_view(self.order_index@),
                        );
                    }
                }
                let mut i: usize = 0;
                while !split && remaining_qty.value() > 0 && i < HOT_ZONE_SIZE
                    invariant
                        i <= HOT_ZONE_SIZE,
                        self.hot_bids@ == old(self).hot_bids@,
                        self.cold_bids@ == old(self).cold_bids@,
                        self.zones_inv(),
                        (!split && remaining_qty@ > 0) ==> forall|k2: u32|
                            #[trigger] self.cold_asks@.contains_key(k2) ==> k2 as int >= hot_lo(),
                        ({
                            let sub = consume_asc(
                                hybrid_levels_view(self.hot_asks@, self.cold_asks@),
                                hl + i,
                                remaining_qty@,
                                index_view(self.order_index@),
                            );
                            !split ==> {
                                &&& res.fills == fills_view(fills@) + sub.fills
                                &&& res.rem == sub.rem
                                &&& res.levels == sub.levels
                                &&& res.index == sub.index
                                &&& res.split == sub.split
                            }
                        }),
                        split ==> {
                            &&& res.fills == fills_view(fills@)
                            &&& res.rem == remaining_qty@
                            &&& res.levels == hybrid_levels_view(self.hot_asks@, self.cold_asks@)
                            &&& res.index == index_view(self.order_index@)
                            &&& res.split
                        },
                    decreases HOT_ZONE_SIZE - i + if split {
                        0int
                    } else {
                        1int
                    },
                {
                    let ghost curv = hybrid_levels_view(self.hot_asks@, self.cold_asks@);
                    let ghost icur = index_view(self.order_index@);
                    let ghost rem0 = remaining_qty@;
                    let ghost sub_i = consume_asc(curv, hl + i, rem0, icur);
                    if self.hot_asks[i].is_empty() {
                        proof {
                            assert(curv[hl + i].len() == 0);
                            let lr = consume_level(curv[hl + i], hl + i, rem0, icur);
                            assert(curv.update(hl + i, lr.left) =~~= curv);
                            assert(sub_i == consume_asc(curv, hl + i + 1, rem0, icur));
                        }
                        i = i + 1;
                    } else {
                        let price_value = self.hot_zone_center - HOT_ZONE_RADIUS + (i as u32);
                        let price = Price::define(price_value * TICK_SIZE);
                        proof {
                            assert(price@ == hl + i);
                        }
                        let ghost fills_before = fills@;
                        let (mut level_fills, lsplit) = self.hot_asks[i].match_orders(
                            &mut remaining_qty,
                            price,
                            &mut self.order_index,
                        );
                        let ghost lf = level_fills@;
                        fills.append(&mut level_fills);
                        proof {
                            let lr = consume_level(curv[hl + i], hl + i, rem0, icur);
                            assert(hybrid_levels_view(self.hot_asks@, self.cold_asks@)
                                =~~= curv.update(hl + i, lr.left));
                            lemma_fills_view_add(fills_before, lf);
                            assert(fills@ == fills_before + lf);
                            if lsplit {
                                assert(res.fills == fills_view(fills_before) + lr.fills);
                                assert(res.fills =~= fills_view(fills@));
                            } else {
                                let sub_n = consume_asc(
                                    hybrid_levels_view(self.hot_asks@, self.cold_asks@),
                                    hl + i + 1,
                                    remaining_qty@,
                                    index_view(self.order_index@),
                                );
                                assert(sub_i.fills == lr.fills + sub_n.fills);
                                assert(fills_view(fills_before) + (lr.fills + sub_n.fills)
                                    =~= fills_view(fills@) + sub_n.fills);
                            }
                        }
                        if lsplit {
                            split = true;
                        } else {
                            i = i + 1;
                        }
                    }
                }
                // Phase three: cold ask levels above the hot window.
                proof {
                    if !split && remaining_qty@ > 0 {
                        assert(i == HOT_ZONE_SIZE);
                        assert(hl + HOT_ZONE_SIZE as int == hot_hi());
                    }
                }
                let mut cold_done2 = false;
                while !split && !cold_done2 && remaining_qty.value() > 0
                    invariant
                        self.hot_bids@ == old(self).hot_bids@,
                        self.cold_bids@ == old(self).cold_bids@,
                        self.zones_inv(),
                        (!split && remaining_qty@ > 0) ==> forall|k2: u32|
                            #[trigger] self.cold_asks@.contains_key(k2) ==> k2 as int >= hot_lo(),
                        ({
                            let sub = consume_asc(
                                hybrid_levels_view(self.hot_asks@, self.cold_asks@),
                                hot_hi(),
                                remaining_qty@,
                                index_view(self.order_index@),
                            );
                            !split ==> {
                                &&& res.fills == fills_view(fills@) + sub.fills
                                &&& res.rem == sub.rem
                                &&& res.levels == sub.levels
                                &&& res.index == sub.index
                                &&& res.split == sub.split
                            }
                        }),
                        split ==> {
                            &&& res.fills == fills_view(fills@)
                            &&& res.rem == remaining_qty@
                            &&& res.levels == hybrid_levels_view(self.hot_asks@, self.cold_asks@)
                            &&& res.index == index_view(self.order_index@)
                            &&& res.split
                        },
                        cold_done2 ==> forall|k2: u32| !(#[trigger] self.cold_asks@.contains_key(
                            k2,
                        )),
                    decreases self.cold_asks@.dom().len() + if split || cold_done2
                        || remaining_qty@ == 0 {
                        0int
                    } else {
                        1int
                    },
                {
                    proof {
                        vstd::std_specs::btree::axiom_btree_map_view_finite_dom(self.cold_asks);
                    }
                    let best = btree_min_key(&self.cold_asks);
                    let k = match best {
                        None => {
                            cold_done2 = true;
                            continue;
                        },
                        Some(k) => k,
                    };
                    let ghost curv = hybrid_levels_view(self.hot_asks@, self.cold_asks@);
                    let ghost icur = index_view(self.order_index@);
                    let ghost rem0 = remaining_qty@;
                    let ghost m0 = self.cold_asks@;
                    proof {
                        assert(k as int >= hot_lo());
                        assert(!in_hot(k as int));
                        assert(k as int >= hot_hi());
                        assert forall|q: int| hot_hi() <= q < k as int implies (
                        #[trigger] curv[q]).len() == 0 by {
                            if m0.contains_key(q as u32) {
                                assert(k <= q as u32);
                            }
                        }
                        lemma_consume_asc_skips_empty(curv, hot_hi(), k as int, rem0, icur);
                    }
                    let mut level = self.cold_asks.remove(&k).unwrap();
                    let ghost lvl0 = level.orders@;
                    proof {
                        assert(orders_view(lvl0) == curv[k as int]);
                    }
                    let price = Price::define(k * TICK_SIZE);
                    proof {
                        assert(price@ == k as int);
                    }
                    let ghost fills_before = fills@;
                    let (mut level_fills, lsplit) = Self::match_level(
                        &mut level,
                        &mut remaining_qty,
                        price,
                        &mut self.order_index,
                    );
                    let ghost lf = level_fills@;
                    fills.append(&mut level_fills);
                    if !level.is_empty() {
                        self.cold_asks.insert(k, level);
                    }
                    proof {
                        broadcast use vstd::set::axiom_set_remove_len;

                        let lr = consume_level(curv[k as int], k as int, rem0, icur);
                        assert(hybrid_levels_view(self.hot_asks@, self.cold_asks@) =~~= curv.update(
                            k as int,
                            lr.left,
                        ));
                        lemma_fills_view_add(fills_before, lf);
                        assert(fills@ == fills_before + lf);
                        let sub_k = consume_asc(curv, k as int, rem0, icur);
                        if lsplit {
                            assert(res.fills == fills_view(fills_before) + lr.fills);
                            assert(res.fills =~= fills_view(fills@));
                        } else {
                            let sub_n = consume_asc(
                                hybrid_levels_view(self.hot_asks@, self.cold_asks@),
                                k as int + 1,
                                remaining_qty@,
                                index_view(self.order_index@),
                            );
                            assert(sub_k.fills == lr.fills + sub_n.fills);
                            assert(fills_view(fills_before) + (lr.fills + sub_n.fills)
                                =~= fills_view(fills@) + sub_n.fills);
                            if remaining_qty@ > 0 {
                                assert(lr.left.len() == 0) by {
                                    assert forall|j: int| 0 <= j < curv[k as int].len() implies (
                                    #[trigger] curv[k as int][j]).qty >= 0 by {
                                        assert(curv[k as int][j] == orders_view(lvl0)[j]);
                                    }
                                    lemma_consume_level_shape(
                                        curv[k as int],
                                        k as int,
                                        rem0,
                                        icur,
                                    );
                                }
                                assert forall|q: int|
                                    hot_hi() <= q < k as int + 1 implies (
                                #[trigger] hybrid_levels_view(self.hot_asks@, self.cold_asks@)[q]).len()
                                    == 0 by {
                                    if q < k as int {
                                        if self.cold_asks@.contains_key(q as u32) {
                                            assert(m0.contains_key(q as u32));
                                            assert(k <= q as u32);
                                        }
                                    }
                                }
                                lemma_consume_asc_skips_empty(
                                    hybrid_levels_view(self.hot_asks@, self.cold_asks@),
                                    hot_hi(),
                                    k as int + 1,
                                    remaining_qty@,
                                    index_view(self.order_index@),
                                );
                            }
                        }
                        if lsplit || remaining_qty@ == 0 {
                            if self.cold_asks@.contains_key(k) {
                                assert(self.cold_asks@.dom() =~= m0.dom());
                            } else {
                                assert(self.cold_asks@.dom() =~= m0.dom().remove(k));
                            }
                        } else {
                            assert(!self.cold_asks@.contains_key(k));
                            assert(self.cold_asks@.dom() =~= m0.dom().remove(k));
                        }
                    }
                    if lsplit {
                        split = true;
                    }
                }
                proof {
                    if !split {
                        let sub = consume_asc(
                            hybrid_levels_view(self.hot_asks@, self.cold_asks@),
                            hot_hi(),
                            remaining_qty@,
                            index_view(self.order_index@),
                        );
                        if remaining_qty@ > 0 {
                            assert forall|q: int| hot_hi() <= q < MAX_PRICE implies (
                            #[trigger] hybrid_levels_view(self.hot_asks@, self.cold_asks@)[q]).len()
                                == 0 by {
                                if self.cold_asks@.contains_key(q as u32) {
                                }
                            }
                            lemma_consume_asc_skips_empty(
                                hybrid_levels_view(self.hot_asks@, self.cold_asks@),
                                hot_hi(),
                                MAX_PRICE as int,
                                remaining_qty@,
                                index_view(self.order_index@),
                            );
                        }
                        assert(sub.fills == Seq::<FillView>::empty());
                        assert(res.fills =~= fills_view(fills@));
                        assert(res.levels == hybrid_levels_view(self.hot_asks@, self.cold_asks@));
                    }
                    lemma_consume_asc_wf(v0, 0, quantity@);
                    assert(self.abs() =~= spec_execute(v0, side, quantity@).book);
                }
            },
            Side::Ask => {
                let ghost res = consume_desc(v0.bids, v0.bids.len() - 1, quantity@, v0.index);
                proof {
                    assert(fills_view(fills@) + res.fills =~= res.fills);
                }
                // Phase one: cold bid levels above the hot window, highest first.
                while !split && !cold_done && remaining_qty.value() > 0
                    invariant
                        self.hot_asks@ == old(self).hot_asks@,
                        self.cold_asks@ == old(self).cold_asks@,
                        self.hot_bids@ == old(self).hot_bids@,
                        self.zones_inv(),
                        ({
                            let sub = consume_desc(
                                hybrid_levels_view(self.hot_bids@, self.cold_bids@),
                                MAX_PRICE as int - 1,
                                remaining_qty@,
                                index_view(self.order_index@),
                            );
                            !split ==> {
                                &&& res.fills == fills_view(fills@) + sub.fills
                                &&& res.rem == sub.rem
                                &&& res.levels == sub.levels
                                &&& res.index == sub.index
                                &&& res.split == sub.split
                            }
                        }),
                        split ==> {
                            &&& res.fills == fills_view(fills@)
                            &&& res.rem == remaining_qty@
                            &&& res.levels == hybrid_levels_view(self.hot_bids@, self.cold_bids@)
                            &&& res.index == index_view(self.order_index@)
                            &&& res.split
                        },
                        cold_done ==> forall|k2: u32|
                            #[trigger] self.cold_bids@.contains_key(k2) ==> (k2 as int) < hot_hi(),
                    decreases self.cold_bids@.dom().len() + if split || cold_done
                        || remaining_qty@ == 0 {
                        0int
                    } else {
                        1int
                    },
                {
                    proof {
                        vstd::std_specs::btree::axiom_btree_map_view_finite_dom(self.cold_bids);
                    }
                    let best = btree_max_key(&self.cold_bids);
                    let k = match best {
                        None => {
                            cold_done = true;
                            continue;
                        },
                        Some(k) => k,
                    };
                    if k < self.hot_zone_center + HOT_ZONE_RADIUS {
                        cold_done = true;
                        continue;
                    }
                    let ghost curv = hybrid_levels_view(self.hot_bids@, self.cold_bids@);
                    let ghost icur = index_view(self.order_index@);
                    let ghost rem0 = remaining_qty@;
                    let ghost m0 = self.cold_bids@;
                    proof {
                        assert forall|q: int| (k as int) < q <= (MAX_PRICE as int - 1) implies (
                        #[trigger] curv[q]).len() == 0 by {
                            if m0.contains_key(q as u32) {
                                assert(q as u32 <= k);
                            }
                        }
                        lemma_consume_desc_skips_empty(
                            curv,
                            MAX_PRICE as int - 1,
                            k as int,
                            rem0,
                            icur,
                        );
                    }
                    let mut level = self.cold_bids.remove(&k).unwrap();
                    let ghost lvl0 = level.orders@;
                    proof {
                        assert(orders_view(lvl0) == curv[k as int]);
                    }
                    let price = Price::define(k * TICK_SIZE);
                    proof {
                        assert(price@ == k as int);
                    }
                    let ghost fills_before = fills@;
                    let (mut level_fills, lsplit) = Self::match_level(
                        &mut level,
                        &mut remaining_qty,
                        price,
                        &mut self.order_index,
                    );
                    let ghost lf = level_fills@;
                    fills.append(&mut level_fills);
                    if !level.is_empty() {
                        self.cold_bids.insert(k, level);
                    }
                    proof {
                        broadcast use vstd::set::axiom_set_remove_len;

                        let lr = consume_level(curv[k as int], k as int, rem0, icur);
                        assert(hybrid_levels_view(self.hot_bids@, self.cold_bids@) =~~= curv.update(
                            k as int,
                            lr.left,
                        ));
                        lemma_fills_view_add(fills_before, lf);
                        assert(fills@ == fills_before + lf);
                        let sub_k = consume_desc(curv, k as int, rem0, icur);
                        if lsplit {
                            assert(res.fills == fills_view(fills_before) + lr.fills);
                            assert(res.fills =~= fills_view(fills@));
                        } else {
                            let sub_n = consume_desc(
                                hybrid_levels_view(self.hot_bids@, self.cold_bids@),
                                k as int - 1,
                                remaining_qty@,
                                index_view(self.order_index@),
                            );
                            assert(sub_k.fills == lr.fills + sub_n.fills);
                            assert(fills_view(fills_before) + (lr.fills + sub_n.fills)
                                =~= fills_view(fills@) + sub_n.fills);
                            if remaining_qty@ > 0 {
                                assert(lr.left.len() == 0) by {
                                    assert forall|j: int| 0 <= j < curv[k as int].len() implies (
                                    #[trigger] curv[k as int][j]).qty >= 0 by {
                                        assert(curv[k as int][j] == orders_view(lvl0)[j]);
                                    }
                                    lemma_consume_level_shape(
                                        curv[k as int],
                                        k as int,
                                        rem0,
                                        icur,
                                    );
                                }
                                assert forall|q: int|
                                    (k as int - 1) < q <= (MAX_PRICE as int - 1) implies (
                                #[trigger] hybrid_levels_view(self.hot_bids@, self.cold_bids@)[q]).len()
                                    == 0 by {
                                    if q > k as int {
                                        if self.cold_bids@.contains_key(q as u32) {
                                            assert(m0.contains_key(q as u32));
                                            assert(q as u32 <= k);
                                        }
                                    }
                                }
                                lemma_consume_desc_skips_empty(
                                    hybrid_levels_view(self.hot_bids@, self.cold_bids@),
                                    MAX_PRICE as int - 1,
                                    k as int - 1,
                                    remaining_qty@,
                                    index_view(self.order_index@),
                                );
                            }
                        }
                        if lsplit || remaining_qty@ == 0 {
                            if self.cold_bids@.contains_key(k) {
                                assert(self.cold_bids@.dom() =~= m0.dom());
                            } else {
                                assert(self.cold_bids@.dom() =~= m0.dom().remove(k));
                            }
                        } else {
                            assert(!self.cold_bids@.contains_key(k));
                            assert(self.cold_bids@.dom() =~= m0.dom().remove(k));
                        }
                    }
                    if lsplit {
                        split = true;
                    }
                }
                // Phase two: the hot window, highest slot first.
                let ghost hl = hot_lo();
                proof {
                    if !split && remaining_qty@ > 0 {
                        assert forall|q: int| (hot_hi() - 1) < q <= (MAX_PRICE as int - 1) implies (
                        #[trigger] hybrid_levels_view(self.hot_bids@, self.cold_bids@)[q]).len()
                            == 0 by {
                            if self.cold_bids@.contains_key(q as u32) {
                                assert((q as u32 as int) < hot_hi());
                            }
                        }
                        lemma_consume_desc_skips_empty(
                            hybrid_levels_view(self.hot_bids@, self.cold_bids@),
                            MAX_PRICE as int - 1,
                            hot_hi() - 1,
                            remaining_qty@,
                            index_view(self.order_index@),
                        );
                    }
                }
                let mut i: usize = HOT_ZONE_SIZE;
                while !split && remaining_qty.value() > 0 && i > 0
                    invariant
                        i <= HOT_ZONE_SIZE,
                        self.hot_asks@ == old(self).hot_asks@,
                        self.cold_asks@ == old(self).cold_asks@,
                        self.zones_inv(),
                        (!split && remaining_qty@ > 0) ==> forall|k2: u32|
                            #[trigger] self.cold_bids@.contains_key(k2) ==> (k2 as int) < hot_hi(),
                        ({
                            let sub = consume_desc(
                                hybrid_levels_view(self.hot_bids@, self.cold_bids@),
                                hl + i - 1,
                                remaining_qty@,
                                index_view(self.order_index@),
                            );
                            !split ==> {
                                &&& res.fills == fills_view(fills@) + sub.fills
                                &&& res.rem == sub.rem
                                &&& res.levels == sub.levels
                                &&& res.index == sub.index
                                &&& res.split == sub.split
                            }
                        }),
                        split ==> {
                            &&& res.fills == fills_view(fills@)
                            &&& res.rem == remaining_qty@
                            &&& res.levels == hybrid_levels_view(self.hot_bids@, self.cold_bids@)
                            &&& res.index == index_view(self.order_index@)
                            &&& res.split
                        },
                    decreases i + if split {
                        0int
                    } else {
                        1int
                    },
                {
                    let ghost curv = hybrid_levels_view(self.hot_bids@, self.cold_bids@);
                    let ghost icur = index_view(self.order_index@);
                    let ghost rem0 = remaining_qty@;
                    let ghost sub_i = consume_desc(curv, hl + i - 1, rem0, icur);
                    let p = i - 1;
                    if self.hot_bids[p].is_empty() {
                        proof {
                            assert(curv[hl + p].len() == 0);
                            let lr = consume_level(curv[hl + p], hl + p, rem0, icur);
                            assert(curv.update(hl + p, lr.left) =~~= curv);
                            assert(sub_i == consume_desc(curv, hl + p - 1, rem0, icur));
                        }
                        i = i - 1;
                    } else {
                        let price_value = self.hot_zone_center - HOT_ZONE_RADIUS + (p as u32);
                        let price = Price::define(price_value * TICK_SIZE);
                        proof {
                            assert(price@ == hl + p);
                        }
                        let ghost fills_before = fills@;
                        let (mut level_fills, lsplit) = self.hot_bids[p].match_orders(
                            &mut remaining_qty,
                            price,
                            &mut self.order_index,
                        );
                        let ghost lf = level_fills@;
                        fills.append(&mut level_fills);
                        proof {
                            let lr = consume_level(curv[hl + p], hl + p, rem0, icur);
                            assert(hybrid_levels_view(self.hot_bids@, self.cold_bids@)
                                =~~= curv.update(hl + p, lr.left));
                            lemma_fills_view_add(fills_before, lf);
                            assert(fills@ == fills_before + lf);
                            if lsplit {
                                assert(res.fills == fills_view(fills_before) + lr.fills);
                                assert(res.fills =~= fills_view(fills@));
                            } else {
                                let sub_n = consume_desc(
                                    hybrid_levels_view(self.hot_bids@, self.cold_bids@),
                                    hl + p - 1,
                                    remaining_qty@,
                                    index_view(self.order_index@),
                                );
                                assert(sub_i.fills == lr.fills + sub_n.fills);
                                assert(fills_view(fills_before) + (lr.fills + sub_n.fills)
                                    =~= fills_view(fills@) + sub_n.fills);
                            }
                        }
                        if lsplit {
                            split = true;
                        } else {
                            i = i - 1;
                        }
                    }
                }
                // Phase three: cold bid levels below the hot window.
                let mut cold_done2 = false;
                while !split && !cold_done2 && remaining_qty.value() > 0
                    invariant
                        self.hot_asks@ == old(self).hot_asks@,
                        self.cold_asks@ == old(self).cold_asks@,
                        self.zones_inv(),
                        (!split && remaining_qty@ > 0) ==> forall|k2: u32|
                            #[trigger] self.cold_bids@.contains_key(k2) ==> (k2 as int) < hot_hi(),
                        ({
                            let sub = consume_desc(
                                hybrid_levels_view(self.hot_bids@, self.cold_bids@),
                                hot_lo() - 1,
                                remaining_qty@,
                                index_view(self.order_index@),
                            );
                            !split ==> {
                                &&& res.fills == fills_view(fills@) + sub.fills
                                &&& res.rem == sub.rem
                                &&& res.levels == sub.levels
                                &&& res.index == sub.index
                                &&& res.split == sub.split
                            }
                        }),
                        split ==> {
                            &&& res.fills == fills_view(fills@)
                            &&& res.rem == remaining_qty@
                            &&& res.levels == hybrid_levels_view(self.hot_bids@, self.cold_bids@)
                            &&& res.index == index_view(self.order_index@)
                            &&& res.split
                        },
                        cold_done2 ==> forall|k2: u32| !(#[trigger] self.cold_bids@.contains_key(
                            k2,
                        )),
                    decreases self.cold_bids@.dom().len() + if split || cold_done2
                        || remaining_qty@ == 0 {
                        0int
                    } else {
                        1int
                    },
                {
                    proof {
                        vstd::std_specs::btree::axiom_btree_map_view_finite_dom(self.cold_bids);
                    }
                    let best = btree_max_key(&self.cold_bids);
                    let k = match best {
                        None => {
                            cold_done2 = true;
                            continue;
                        },
                        Some(k) => k,
                    };
                    let ghost curv = hybrid_levels_view(self.hot_bids@, self.cold_bids@);
                    let ghost icur = index_view(self.order_index@);
                    let ghost rem0 = remaining_qty@;
                    let ghost m0 = self.cold_bids@;
                    proof {
                        assert((k as int) < hot_hi());
                        assert(!in_hot(k as int));
                        assert((k as int) < hot_lo());
                        assert forall|q: int| (k as int) < q <= (hot_lo() - 1) implies (
                        #[trigger] curv[q]).len() == 0 by {
                            if m0.contains_key(q as u32) {
                                assert(q as u32 <= k);
                            }
                        }
                        lemma_consume_desc_skips_empty(curv, hot_lo() - 1, k as int, rem0, icur);
                    }
                    let mut level = self.cold_bids.remove(&k).unwrap();
                    let ghost lvl0 = level.orders@;
                    proof {
                        assert(orders_view(lvl0) == curv[k as int]);
                    }
                    let price = Price::define(k * TICK_SIZE);
                    proof {
                        assert(price@ == k as int);
                    }
                    let ghost fills_before = fills@;
                    let (mut level_fills, lsplit) = Self::match_level(
                        &mut level,
                        &mut remaining_qty,
                        price,
                        &mut self.order_index,
                    );
                    let ghost lf = level_fills@;
                    fills.append(&mut level_fills);
                    if !level.is_empty() {
                        self.cold_bids.insert(k, level);
                    }
                    proof {
                        broadcast use vstd::set::axiom_set_remove_len;

                        let lr = consume_level(curv[k as int], k as int, rem0, icur);
                        assert(hybrid_levels_view(self.hot_bids@, self.cold_bids@) =~~= curv.update(
                            k as int,
                            lr.left,
                        ));
                        lemma_fills_view_add(fills_before, lf);
                        assert(fills@ == fills_before + lf);
                        let sub_k = consume_desc(curv, k as int, rem0, icur);
                        if lsplit {
                            assert(res.fills == fills_view(fills_before) + lr.fills);
                            assert(res.fills =~= fills_view(fills@));
                        } else {
                            let sub_n = consume_desc(
                                hybrid_levels_view(self.hot_bids@, self.cold_bids@),
                                k as int - 1,
                                remaining_qty@,
                                index_view(self.order_index@),
                            );
                            assert(sub_k.fills == lr.fills + sub_n.fills);
                            assert(fills_view(fills_before) + (lr.fills + sub_n.fills)
                                =~= fills_view(fills@) + sub_n.fills);
                            if remaining_qty@ > 0 {
                                assert(lr.left.len() == 0) by {
                                    assert forall|j: int| 0 <= j < curv[k as int].len() implies (
                                    #[trigger] curv[k as int][j]).qty >= 0 by {
                                        assert(curv[k as int][j] == orders_view(lvl0)[j]);
                                    }
                                    lemma_consume_level_shape(
                                        curv[k as int],
                                        k as int,
                                        rem0,
                                        icur,
                                    );
                                }
                                assert forall|q: int|
                                    (k as int - 1) < q <= (hot_lo() - 1) implies (
                                #[trigger] hybrid_levels_view(self.hot_bids@, self.cold_bids@)[q]).len()
                                    == 0 by {
                                    if q > k as int {
                                        if self.cold_bids@.contains_key(q as u32) {
                                            assert(m0.contains_key(q as u32));
                                            assert(q as u32 <= k);
                                        }
                                    }
                                }
                                lemma_consume_desc_skips_empty(
                                    hybrid_levels_view(self.hot_bids@, self.cold_bids@),
                                    hot_lo() - 1,
                                    k as int - 1,
                                    remaining_qty@,
                                    index_view(self.order_index@),
                                );
                            }
                        }
                        if lsplit || remaining_qty@ == 0 {
                            if self.cold_bids@.contains_key(k) {
                                assert(self.cold_bids@.dom() =~= m0.dom());
                            } else {
                                assert(self.cold_bids@.dom() =~= m0.dom().remove(k));
                            }
                        } else {
                            assert(!self.cold_bids@.contains_key(k));
                            assert(self.cold_bids@.dom() =~= m0.dom().remove(k));
                        }
                    }
                    if lsplit {
                        split = true;
                    }
                }
                proof {
                    if !split {
                        let sub = consume_desc(
                            hybrid_levels_view(self.hot_bids@, self.cold_bids@),
                            hot_lo() - 1,
                            remaining_qty@,
                            index_view(self.order_index@),
                        );
                        if remaining_qty@ > 0 {
                            assert forall|q: int| -1 < q <= (hot_lo() - 1) implies (
                            #[trigger] hybrid_levels_view(self.hot_bids@, self.cold_bids@)[q]).len()
                                == 0 by {
                                if self.cold_bids@.contains_key(q as u32) {
                                }
                            }
                            lemma_consume_desc_skips_empty(
                                hybrid_levels_view(self.hot_bids@, self.cold_bids@),
                                hot_lo() - 1,
                                -1,
                                remaining_qty@,
                                index_view(self.order_index@),
                            );
                        }
                        assert(sub.fills == Seq::<FillView>::empty());
                        assert(res.fills =~= fills_view(fills@));
                        assert(res.levels == hybrid_levels_view(self.hot_bids@, self.cold_bids@));
                    }
                    lemma_consume_desc_wf(v0, v0.bids.len() - 1, quantity@);
                    assert(self.abs() =~= spec_execute(v0, side, quantity@).book);
                }
            },
        }

        if split {
            return Err(BookError::UnsupportedPartialFill);
        }
        let remaining_value = remaining_qty.value();
        if remaining_value > 0 {
            return Err(BookError::PartiallyFilled { remaining: remaining_value, fills });
        }
        Ok(fills)
    }

    fn best_bid(&self) -> (r: Option<Price>) {
        let ghost v = self.abs();
        // A cold bid above the hot window beats everything in or below it.
        let cold_best = btree_max_key(&self.cold_bids);
        if let Some(k) = cold_best {
            if k >= self.hot_zone_center + HOT_ZONE_RADIUS {
                proof {
                    assert(v.bids[k as int].len() > 0);
                    assert forall|q: int| (k as int) < q <= (MAX_PRICE as int - 1) implies (
                    #[trigger] v.bids[q]).len() == 0 by {
                        if self.cold_bids@.contains_key(q as u32) {
                            assert(q as u32 <= k);
                        }
                    }
                    lemma_best_bid_from_unique(v.bids, MAX_PRICE as int - 1, k as int);
                }
                return Some(Price::define(k * TICK_SIZE));
            }
        }
        // Otherwise scan the hot window from the top.
        let mut i: usize = HOT_ZONE_SIZE;
        while i > 0
            invariant
                i <= HOT_ZONE_SIZE,
                forall|q: int|
                    hot_lo() + i <= q <= (MAX_PRICE as int - 1) ==> (#[trigger] v.bids[q]).len()
                        == 0,
            decreases i,
        {
            i = i - 1;
            if !self.hot_bids[i].is_empty() {
                proof {
                    assert(v.bids[hot_lo() + i].len() > 0);
                    lemma_best_bid_from_unique(v.bids, MAX_PRICE as int - 1, hot_lo() + i);
                }
                let price_value = self.hot_zone_center - HOT_ZONE_RADIUS + (i as u32);
                return Some(Price::define(price_value * TICK_SIZE));
            }
            proof {
                assert(v.bids[hot_lo() + i].len() == 0);
            }
        }
        // Finally the cold zone below the window.
        match cold_best {
            Some(k) => {
                proof {
                    assert((k as int) < hot_lo());
                    assert(v.bids[k as int].len() > 0);
                    assert forall|q: int| (k as int) < q <= (MAX_PRICE as int - 1) implies (
                    #[trigger] v.bids[q]).len() == 0 by {
                        if in_hot(q) {
                        } else if self.cold_bids@.contains_key(q as u32) {
                            assert(q as u32 <= k);
                        }
                    }
                    lemma_best_bid_from_unique(v.bids, MAX_PRICE as int - 1, k as int);
                }
                Some(Price::define(k * TICK_SIZE))
            },
            None => {
                proof {
                    lemma_best_bid_from_props(v.bids, MAX_PRICE as int - 1);
                    if spec_best_bid(v) is Some {
                        let b = spec_best_bid(v)->Some_0;
                        assert(v.bids[b].len() > 0);
                        if in_hot(b) {
                        } else {
                            assert(self.cold_bids@.contains_key(b as u32));
                        }
                    }
                }
                None
            },
        }
    }

    fn best_ask(&self) -> (r: Option<Price>) {
        let ghost v = self.abs();
        // A cold ask below the hot window beats everything in or above it.
        let cold_best = btree_min_key(&self.cold_asks);
        if let Some(k) = cold_best {
            if k < self.hot_zone_center - HOT_ZONE_RADIUS {
                proof {
                    assert(v.asks[k as int].len() > 0);
                    assert forall|q: int| 0 <= q < k as int implies (#[trigger] v.asks[q]).len()
                        == 0 by {
                        if self.cold_asks@.contains_key(q as u32) {
                            assert(k <= q as u32);
                        }
                    }
                    lemma_best_ask_from_unique(v.asks, 0, k as int);
                }
                return Some(Price::define(k * TICK_SIZE));
            }
        }
        // Otherwise scan the hot window from the bottom.
        let mut i: usize = 0;
        while i < HOT_ZONE_SIZE
            invariant
                i <= HOT_ZONE_SIZE,
                forall|q: int| 0 <= q < hot_lo() + i ==> (#[trigger] v.asks[q]).len() == 0,
            decreases HOT_ZONE_SIZE - i,
        {
            if !self.hot_asks[i].is_empty() {
                proof {
                    assert(v.asks[hot_lo() + i].len() > 0);
                    lemma_best_ask_from_unique(v.asks, 0, hot_lo() + i);
                }
                let price_value = self.hot_zone_center - HOT_ZONE_RADIUS + (i as u32);
                return Some(Price::define(price_value * TICK_SIZE));
            }
            proof {
                assert(v.asks[hot_lo() + i].len() == 0);
            }
            i = i + 1;
        }
        // Finally the cold zone above the window.
        match cold_best {
            Some(k) => {
                proof {
                    assert(k as int >= hot_hi());
                    assert(v.asks[k as int].len() > 0);
                    assert forall|q: int| 0 <= q < k as int implies (#[trigger] v.asks[q]).len()
                        == 0 by {
                        if in_hot(q) {
                        } else if self.cold_asks@.contains_key(q as u32) {
                            assert(k <= q as u32);
                        }
                    }
                    lemma_best_ask_from_unique(v.asks, 0, k as int);
                }
                Some(Price::define(k * TICK_SIZE))
            },
            None => {
                proof {
                    lemma_best_ask_from_props(v.asks, 0);
                    if spec_best_ask(v) is Some {
                        let b = spec_best_ask(v)->Some_0;
                        assert(v.asks[b].len() > 0);
                        if in_hot(b) {
                        } else {
                            assert(self.cold_asks@.contains_key(b as u32));
                        }
                    }
                }
                None
            },
        }
    }

    fn depth_at_price(&self, price: Price, side: Side) -> (r: u32) {
        let price_value = price.value();

        if price_value == 0 || price_value >= MAX_PRICE {
            return 0;
        }
        if price_value % TICK_SIZE != 0 {
            return 0;
        }
        proof {
            lemma_side_wf_of(self.abs(), side);
        }
        if self.is_in_hot_zone(price_value) {
            let idx = self.hot_zone_index(price_value);
            match side {
                Side::Bid => {
                    proof {
                        assert(side_levels(self.abs(), side) == self.abs().bids);
                        assert(orders_view(self.hot_bids@[idx as int].orders@) == self.abs().bids[
                            price_value as int
                        ]);
                        assert(sum_qty(self.abs().bids[price_value as int]) <= u32::MAX);
                    }
                    self.hot_bids[idx].total_quantity() as u32
                },
                Side::Ask => {
                    proof {
                        assert(side_levels(self.abs(), side) == self.abs().asks);
                        assert(orders_view(self.hot_asks@[idx as int].orders@) == self.abs().asks[
                            price_value as int
                        ]);
                        assert(sum_qty(self.abs().asks[price_value as int]) <= u32::MAX);
                    }
                    self.hot_asks[idx].total_quantity() as u32
                },
            }
        } else {
            match side {
                Side::Bid => {
                    match self.cold_bids.get(&price_value) {
                        Some(level) => {
                            proof {
                                assert(side_levels(self.abs(), side)
                                    == self.abs().bids);
                                assert(orders_view(level.orders@) == self.abs().bids[
                                    price_value as int
                                ]);
                                assert(sum_qty(self.abs().bids[price_value as int]) <= u32::MAX);
                            }
                            level.total_quantity() as u32
                        },
                        None => {
                            proof {
                                assert(self.abs().bids[price_value as int] =~= Seq::<
                                    RestingView,
                                >::empty());
                                assert(sum_qty(Seq::<RestingView>::empty()) == 0);
                            }
                            0
                        },
                    }
                },
                Side::Ask => {
                    match self.cold_asks.get(&price_value) {
                        Some(level) => {
                            proof {
                                assert(side_levels(self.abs(), side)
                                    == self.abs().asks);
                                assert(orders_view(level.orders@) == self.abs().asks[
                                    price_value as int
                                ]);
                                assert(sum_qty(self.abs().asks[price_value as int]) <= u32::MAX);
                            }
                            level.total_quantity() as u32
                        },
                        None => {
                            proof {
                                assert(self.abs().asks[price_value as int] =~= Seq::<
                                    RestingView,
                                >::empty());
                                assert(sum_qty(Seq::<RestingView>::empty()) == 0);
                            }
                            0
                        },
                    }
                },
            }
        }
    }
}

} // verus!
