//! The tree book representation.
//!
//! Each side is an ordered map keyed by price whose value is a level;
//! levels are created on first admission at a price and removed eagerly as
//! soon as they empty, so the maps stay sparse. Best-price queries read the
//! map's extremum; market execution repeatedly consumes the extremal level.

use std::collections::{BTreeMap, HashMap};

use vstd::prelude::*;

pub use crate::book::Fill;
pub use crate::fixed_tick::Level;

use crate::book::{
    fills_view, index_view, lemma_fills_view_add, lemma_index_view_insert, lemma_index_view_remove,
    lemma_orders_view_push, lemma_orders_view_remove, orders_view, BookError, OrderbookTrait,
};
use crate::model::{
    BookView, FillView, RestingView, admit_check, consume_asc, consume_desc, consume_level, contains_id, empty_book, find_id, lemma_admit_wf, lemma_best_ask_from_props, lemma_best_ask_from_unique, lemma_best_bid_from_props, lemma_best_bid_from_unique, lemma_cancel_wf, lemma_consume_asc_skips_empty, lemma_consume_asc_wf, lemma_consume_desc_skips_empty, lemma_consume_desc_wf, lemma_consume_level_shape, lemma_empty_book_wf, lemma_find_id_props, lemma_side_wf_of, side_levels, spec_admit, spec_best_ask, spec_best_bid, spec_cancel, spec_execute, sum_qty, view_wf,
};
use crate::order::{Order, OrderId, Side};
use crate::price::{Price, MAX_PRICE, TICK_SIZE};
use crate::quantity::{Quantity, LOT_SIZE};

verus! {

broadcast use
    vstd::laws_cmp::group_laws_cmp,
    crate::order::lemma_order_view_ranges,
    crate::price::lemma_price_view_range,
    crate::quantity::lemma_quantity_view_range,
;

/// Relies on `BTreeMap::first_key_value`: the least key present in the
/// map, or `None` exactly when the map is empty.
#[verifier::external_body]
pub(crate) fn btree_min_key<V>(m: &BTreeMap<u32, V>) -> (r: Option<u32>)
    ensures
        match r {
            Some(k) => m@.contains_key(k) && forall|k2: u32|
                #[trigger] m@.contains_key(k2) ==> k <= k2,
            None => forall|k2: u32| !(#[trigger] m@.contains_key(k2)),
        },
{
    m.first_key_value().map(|(k, _)| *k)
}

/// Relies on `BTreeMap::last_key_value`: the greatest key present in the
/// map, or `None` exactly when the map is empty.
#[verifier::external_body]
pub(crate) fn btree_max_key<V>(m: &BTreeMap<u32, V>) -> (r: Option<u32>)
    ensures
        match r {
            Some(k) => m@.contains_key(k) && forall|k2: u32|
                #[trigger] m@.contains_key(k2) ==> k2 <= k,
            None => forall|k2: u32| !(#[trigger] m@.contains_key(k2)),
        },
{
    m.last_key_value().map(|(k, _)| *k)
}

/// The model's reading of one side's ordered map: a level per tick, empty
/// where no key is stored.
pub open spec fn tree_levels_view(m: Map<u32, Level>) -> Seq<Seq<RestingView>> {
    Seq::new(
        MAX_PRICE as nat,
        |p: int|
            if m.contains_key(p as u32) {
                orders_view(m[p as u32].orders@)
            } else {
                Seq::empty()
            },
    )
}

/// The tree book: one ordered map of levels per side, keyed by price, with
/// empty levels removed eagerly, and a hash index for cancellation.
pub struct Orderbook {
    bids: BTreeMap<u32, Level>,
    asks: BTreeMap<u32, Level>,
    order_index: HashMap<OrderId, (Side, Price)>,
}

impl Orderbook {
    /// Only admissible prices are keys, and no stored level is empty.
    pub closed spec fn maps_inv(&self) -> bool {
        &&& forall|k: u32|
            #[trigger] self.bids@.contains_key(k) ==> 1 <= k < MAX_PRICE
                && self.bids@[k].orders@.len() > 0
        &&& forall|k: u32|
            #[trigger] self.asks@.contains_key(k) ==> 1 <= k < MAX_PRICE
                && self.asks@[k].orders@.len() > 0
    }

    /// Match an incoming market-order remainder against one level, FIFO,
    /// retiring fully matched orders from the level and the index.
    fn match_level(
        level: &mut Level,
        remaining_qty: &mut Quantity,
        price: Price,
        order_index: &mut HashMap<OrderId, (Side, Price)>,
    ) -> (r: (Vec<Fill>, bool))
        ensures
            ({
                let res = consume_level(
                    orders_view(old(level).orders@),
                    price@,
                    old(remaining_qty)@,
                    index_view(old(order_index)@),
                );
                &&& fills_view(r.0@) == res.fills
                &&& r.0@.len() == res.fills.len()
                &&& final(remaining_qty)@ == res.rem
                &&& orders_view(final(level).orders@) == res.left
                &&& index_view(final(order_index)@) == res.index
                &&& r.1 == res.split
            }),
    {
        level.match_orders(remaining_qty, price, order_index)
    }
}

impl OrderbookTrait for Orderbook {
    closed spec fn abs(&self) -> BookView {
        BookView {
            bids: tree_levels_view(self.bids@),
            asks: tree_levels_view(self.asks@),
            index: index_view(self.order_index@),
        }
    }

    closed spec fn wf(&self) -> bool {
        &&& self.maps_inv()
        &&& view_wf(self.abs())
    }

    proof fn lemma_wf_view(&self) {
    }

    fn new() -> (r: Self) {
        let r = Orderbook {
            bids: BTreeMap::new(),
            asks: BTreeMap::new(),
            order_index: HashMap::new(),
        };
        proof {
            lemma_empty_book_wf();
            assert forall|p: int| 0 <= p < MAX_PRICE implies #[trigger] r.abs().bids[p]
                == empty_book().bids[p] by {
                assert(r.abs().bids[p] =~= empty_book().bids[p]);
            }
            assert forall|p: int| 0 <= p < MAX_PRICE implies #[trigger] r.abs().asks[p]
                == empty_book().asks[p] by {
                assert(r.abs().asks[p] =~= empty_book().asks[p]);
            }
            assert(r.abs().bids =~= empty_book().bids);
            assert(r.abs().asks =~= empty_book().asks);
            assert(r.abs().index =~= empty_book().index);
            assert(r.abs() =~= empty_book());
        }
        r
    }

    fn add_order(&mut self, order: Order) -> (r: Result<(), BookError>) {
        let order_id = order.id();
        let side = order.side();
        let price = order.price();
        let price_value = price.value();
        let quantity_value = order.quantity().value();

        if price_value % TICK_SIZE != 0 {
            return Err(BookError::InvalidTick { price: price_value });
        }
        if price_value == 0 || price_value >= MAX_PRICE {
            return Err(BookError::OutOfBounds { price: price_value });
        }
        if quantity_value % LOT_SIZE != 0 {
            return Err(BookError::InvalidLot { quantity: quantity_value });
        }
        if quantity_value == 0 {
            return Err(BookError::ZeroQuantity);
        }

        let ghost v0 = self.abs();
        proof {
            assert(admit_check(order@.price, order@.qty) is Accept);
        }
        let ghost rv = RestingView { id: order@.id, qty: order@.qty };
        match side {
            Side::Bid => {
                let ghost m0 = self.bids@;
                let ghost lvl0 = v0.bids[price_value as int];
                let mut level = match self.bids.remove(&price_value) {
                    Some(l) => l,
                    None => Level::default(),
                };
                proof {
                    assert(orders_view(level.orders@) =~= lvl0);
                }
                let ghost before_push = level.orders@;
                level.add_order(order);
                self.bids.insert(price_value, level);
                proof {
                    lemma_orders_view_push(before_push, order);
                    assert(tree_levels_view(self.bids@) =~~= v0.bids.update(
                        price_value as int,
                        lvl0.push(rv),
                    ));
                }
            },
            Side::Ask => {
                let ghost m0 = self.asks@;
                let ghost lvl0 = v0.asks[price_value as int];
                let mut level = match self.asks.remove(&price_value) {
                    Some(l) => l,
                    None => Level::default(),
                };
                proof {
                    assert(orders_view(level.orders@) =~= lvl0);
                }
                let ghost before_push = level.orders@;
                level.add_order(order);
                self.asks.insert(price_value, level);
                proof {
                    lemma_orders_view_push(before_push, order);
                    assert(tree_levels_view(self.asks@) =~~= v0.asks.update(
                        price_value as int,
                        lvl0.push(rv),
                    ));
                }
            },
        }
        let ghost map_before = self.order_index@;
        self.order_index.insert(order_id, (side, price));
        proof {
            lemma_index_view_insert(map_before, order_id, (side, price));
            lemma_admit_wf(v0, order@);
            assert(self.abs() =~= spec_admit(v0, order@));
        }
        Ok(())
    }

    fn cancel_order(&mut self, order_id: OrderId) -> (r: Result<(), BookError>) {
        let ghost v0 = self.abs();
        let ghost map_before = self.order_index@;
        let removed = self.order_index.remove(&order_id);
        match removed {
            None => {
                proof {
                    assert(!v0.index.contains_key(order_id));
                    assert(self.order_index@ =~= map_before);
                    assert(self.abs() =~= v0);
                }
                Err(BookError::OrderNotFound { id: order_id })
            },
            Some((side, price)) => {
                proof {
                    lemma_index_view_remove(map_before, order_id);
                    assert(v0.index.contains_key(order_id));
                    assert(v0.index[order_id] == (side, price@));
                }
                let ghost s = side;
                let ghost p = price@;
                let ghost levels = side_levels(v0, s);
                proof {
                    assert(0 <= p < levels.len());
                    assert(contains_id(levels[p], order_id));
                    lemma_find_id_props(levels[p], order_id);
                }
                let price_value = price.value();
                let ghost f = find_id(levels[p], order_id);
                match side {
                    Side::Bid => {
                        let taken = self.bids.remove(&price_value);
                        match taken {
                            Some(mut level) => {
                                let ghost lvl0 = level.orders@;
                                proof {
                                    assert(orders_view(lvl0) == levels[p]);
                                }
                                let _ = level.cancel_order(order_id);
                                proof {
                                    lemma_orders_view_remove(lvl0, f);
                                }
                                if !level.is_empty() {
                                    self.bids.insert(price_value, level);
                                }
                                proof {
                                    assert(tree_levels_view(self.bids@) =~~= v0.bids.update(
                                        p,
                                        levels[p].remove(f),
                                    ));
                                    lemma_cancel_wf(v0, order_id);
                                    assert(self.abs() =~= spec_cancel(v0, order_id));
                                }
                                Ok(())
                            },
                            None => {
                                proof {
                                    assert(v0.bids[p].len() > 0);
                                    assert(false);
                                }
                                Err(BookError::DataInconsistency { id: order_id })
                            },
                        }
                    },
                    Side::Ask => {
                        let taken = self.asks.remove(&price_value);
                        match taken {
                            Some(mut level) => {
                                let ghost lvl0 = level.orders@;
                                proof {
                                    assert(orders_view(lvl0) == levels[p]);
                                }
                                let _ = level.cancel_order(order_id);
                                proof {
                                    lemma_orders_view_remove(lvl0, f);
                                }
                                if !level.is_empty() {
                                    self.asks.insert(price_value, level);
                                }
                                proof {
                                    assert(tree_levels_view(self.asks@) =~~= v0.asks.update(
                                        p,
                                        levels[p].remove(f),
                                    ));
                                    lemma_cancel_wf(v0, order_id);
                                    assert(self.abs() =~= spec_cancel(v0, order_id));
                                }
                                Ok(())
                            },
                            None => {
                                proof {
                                    assert(v0.asks[p].len() > 0);
                                    assert(false);
                                }
                                Err(BookError::DataInconsistency { id: order_id })
                            },
                        }
                    },
                }
            },
        }
    }

    fn execute_market_order(&mut self, side: Side, quantity: Quantity) -> (r: Result<
        Vec<Fill>,
        BookError,
    >) {
        let ghost v0 = self.abs();
        let mut remaining_qty = quantity;
        let mut fills: Vec<Fill> = Vec::new();
        let mut split = false;
        let mut exhausted = false;

        match side {
            Side::Bid => {
                let ghost res = consume_asc(v0.asks, 0, quantity@, v0.index);
                proof {
                    assert(fills_view(fills@) + res.fills =~= res.fills);
                }
                while !split && !exhausted && remaining_qty.value() > 0
                    invariant
                        self.bids@ == old(self).bids@,
                        self.maps_inv(),
                        ({
                            let sub = consume_asc(
                                tree_levels_view(self.asks@),
                                0,
                                remaining_qty@,
                                index_view(self.order_index@),
                            );
                            !split ==> {
                                &&& res.fills == fills_view(fills@) + sub.fills
                                &&& res.rem == sub.rem
                                &&& res.levels == sub.levels
                                &&& res.index == sub.index
                                &&& res.split == sub.split
                            }
                        }),
                        split ==> {
                            &&& res.fills == fills_view(fills@)
                            &&& res.rem == remaining_qty@
                            &&& res.levels == tree_levels_view(self.asks@)
                            &&& res.index == index_view(self.order_index@)
                            &&& res.split
                        },
                        exhausted ==> forall|k2: u32| !(#[trigger] self.asks@.contains_key(k2)),
                    decreases self.asks@.dom().len() + if split || exhausted
                        || remaining_qty@ == 0 {
                        0int
                    } else {
                        1int
                    },
                {
                    proof {
                        vstd::std_specs::btree::axiom_btree_map_view_finite_dom(self.asks);
                    }
                    let best = btree_min_key(&self.asks);
                    match best {
                        None => {
                            exhausted = true;
                        },
                        Some(k) => {
                            let ghost curv = tree_levels_view(self.asks@);
                            let ghost icur = index_view(self.order_index@);
                            let ghost rem0 = remaining_qty@;
                            let ghost m0 = self.asks@;
                            proof {
                                assert forall|q: int| 0 <= q < k as int implies (
                                #[trigger] curv[q]).len() == 0 by {
                                    if m0.contains_key(q as u32) {
                                        assert(k <= q as u32);
                                    }
                                }
                                lemma_consume_asc_skips_empty(curv, 0, k as int, rem0, icur);
                            }
                            let mut level = self.asks.remove(&k).unwrap();
                            let ghost lvl0 = level.orders@;
                            proof {
                                assert(orders_view(lvl0) == curv[k as int]);
                            }
                            let price = Price::define(k * TICK_SIZE);
                            proof {
                                assert(price@ == k as int);
                            }
                            let ghost fills_before = fills@;
                            let (mut level_fills, lsplit) = Self::match_level(
                                &mut level,
                                &mut remaining_qty,
                                price,
                                &mut self.order_index,
                            );
                            let ghost lf = level_fills@;
                            fills.append(&mut level_fills);
                            if !level.is_empty() {
                                self.asks.insert(k, level);
                            }
                            proof {
                                broadcast use vstd::set::axiom_set_remove_len;

                                let lr = consume_level(curv[k as int], k as int, rem0, icur);
                                assert(tree_levels_view(self.asks@) =~~= curv.update(
                                    k as int,
                                    lr.left,
                                ));
                                lemma_fills_view_add(fills_before, lf);
                                assert(fills@ == fills_before + lf);
                                let sub_k = consume_asc(curv, k as int, rem0, icur);
                                if lsplit {
                                    assert(res.fills == fills_view(fills_before) + lr.fills);
                                    assert(res.fills =~= fills_view(fills@));
                                } else {
                                    let sub_n = consume_asc(
                                        tree_levels_view(self.asks@),
                                        k as int + 1,
                                        remaining_qty@,
                                        index_view(self.order_index@),
                                    );
                                    assert(sub_k.fills == lr.fills + sub_n.fills);
                                    assert(fills_view(fills_before) + (lr.fills + sub_n.fills)
                                        =~= fills_view(fills@) + sub_n.fills);
                                    if remaining_qty@ > 0 {
                                        // The level was exhausted, its key is gone, and
                                        // everything at or below `k` is now empty, so the
                                        // next sweep starts past `k`.
                                        assert(lr.left.len() == 0) by {
                                            assert forall|j: int|
                                                0 <= j < curv[k as int].len() implies (
                                            #[trigger] curv[k as int][j]).qty >= 0 by {
                                                assert(curv[k as int][j] == orders_view(lvl0)[j]);
                                            }
                                            lemma_consume_level_shape(
                                                curv[k as int],
                                                k as int,
                                                rem0,
                                                icur,
                                            );
                                        }
                                        assert forall|q: int|
                                            0 <= q < k as int + 1 implies (#[trigger] tree_levels_view(
                                            self.asks@,
                                        )[q]).len() == 0 by {
                                            if q < k as int {
                                                if self.asks@.contains_key(q as u32) {
                                                    assert(m0.contains_key(q as u32));
                                                    assert(k <= q as u32);
                                                }
                                            }
                                        }
                                        lemma_consume_asc_skips_empty(
                                            tree_levels_view(self.asks@),
                                            0,
                                            k as int + 1,
                                            remaining_qty@,
                                            index_view(self.order_index@),
                                        );
                                    }
                                }
                                // Termination: either a key left the map, or the
                                // remainder reached zero or the split flag is set.
                                if lsplit || remaining_qty@ == 0 {
                                    if self.asks@.contains_key(k) {
                                        assert(self.asks@.dom() =~= m0.dom());
                                    } else {
                                        assert(self.asks@.dom() =~= m0.dom().remove(k));
                                    }
                                } else {
                                    assert(!self.asks@.contains_key(k));
                                    assert(self.asks@.dom() =~= m0.dom().remove(k));
                                }
                            }
                            if lsplit {
                                split = true;
                            }
                        },
                    }
                }
                proof {
                    if !split {
                        let sub = consume_asc(
                            tree_levels_view(self.asks@),
                            0,
                            remaining_qty@,
                            index_view(self.order_index@),
                        );
                        if remaining_qty@ > 0 {
                            assert forall|q: int| 0 <= q < MAX_PRICE implies (
                            #[trigger] tree_levels_view(self.asks@)[q]).len() == 0 by {}
                            lemma_consume_asc_skips_empty(
                                tree_levels_view(self.asks@),
                                0,
                                MAX_PRICE as int,
                                remaining_qty@,
                                index_view(self.order_index@),
                            );
                        }
                        assert(sub.fills == Seq::<FillView>::empty());
                        assert(res.fills =~= fills_view(fills@));
                        assert(res.levels == tree_levels_view(self.asks@));
                    }
                    lemma_consume_asc_wf(v0, 0, quantity@);
                    assert(self.abs() =~= spec_execute(v0, side, quantity@).book);
                }
            },
            Side::Ask => {
                let ghost res = consume_desc(v0.bids, v0.bids.len() - 1, quantity@, v0.index);
                proof {
                    assert(fills_view(fills@) + res.fills =~= res.fills);
                }
                while !split && !exhausted && remaining_qty.value() > 0
                    invariant
                        self.asks@ == old(self).asks@,
                        self.maps_inv(),
                        ({
                            let sub = consume_desc(
                                tree_levels_view(self.bids@),
                                MAX_PRICE as int - 1,
                                remaining_qty@,
                                index_view(self.order_index@),
                            );
                            !split ==> {
                                &&& res.fills == fills_view(fills@) + sub.fills
                                &&& res.rem == sub.rem
                                &&& res.levels == sub.levels
                                &&& res.index == sub.index
                                &&& res.split == sub.split
                            }
                        }),
                        split ==> {
                            &&& res.fills == fills_view(fills@)
                            &&& res.rem == remaining_qty@
                            &&& res.levels == tree_levels_view(self.bids@)
                            &&& res.index == index_view(self.order_index@)
                            &&& res.split
                        },
                        exhausted ==> forall|k2: u32| !(#[trigger] self.bids@.contains_key(k2)),
                    decreases self.bids@.dom().len() + if split || exhausted
                        || remaining_qty@ == 0 {
                        0int
                    } else {
                        1int
                    },
                {
                    proof {
                        vstd::std_specs::btree::axiom_btree_map_view_finite_dom(self.bids);
                    }
                    let best = btree_max_key(&self.bids);
                    match best {
                        None => {
                            exhausted = true;
                        },
                        Some(k) => {
                            let ghost curv = tree_levels_view(self.bids@);
                            let ghost icur = index_view(self.order_index@);
                            let ghost rem0 = remaining_qty@;
                            let ghost m0 = self.bids@;
                            proof {
                                assert forall|q: int| (k as int) < q <= (MAX_PRICE as int - 1) implies (
                                #[trigger] curv[q]).len() == 0 by {
                                    if m0.contains_key(q as u32) {
                                        assert(q as u32 <= k);
                                    }
                                }
                                lemma_consume_desc_skips_empty(
                                    curv,
                                    MAX_PRICE as int - 1,
                                    k as int,
                                    rem0,
                                    icur,
                                );
                            }
                            let mut level = self.bids.remove(&k).unwrap();
                            let ghost lvl0 = level.orders@;
                            proof {
                                assert(orders_view(lvl0) == curv[k as int]);
                            }
                            let price = Price::define(k * TICK_SIZE);
                            proof {
                                assert(price@ == k as int);
                            }
                            let ghost fills_before = fills@;
                            let (mut level_fills, lsplit) = Self::match_level(
                                &mut level,
                                &mut remaining_qty,
                                price,
                                &mut self.order_index,
                            );
                            let ghost lf = level_fills@;
                            fills.append(&mut level_fills);
                            if !level.is_empty() {
                                self.bids.insert(k, level);
                            }
                            proof {
                                broadcast use vstd::set::axiom_set_remove_len;

                                let lr = consume_level(curv[k as int], k as int, rem0, icur);
                                assert(tree_levels_view(self.bids@) =~~= curv.update(
                                    k as int,
                                    lr.left,
                                ));
                                lemma_fills_view_add(fills_before, lf);
                                assert(fills@ == fills_before + lf);
                                let sub_k = consume_desc(curv, k as int, rem0, icur);
                                if lsplit {
                                    assert(res.fills == fills_view(fills_before) + lr.fills);
                                    assert(res.fills =~= fills_view(fills@));
                                } else {
                                    let sub_n = consume_desc(
                                        tree_levels_view(self.bids@),
                                        k as int - 1,
                                        remaining_qty@,
                                        index_view(self.order_index@),
                                    );
                                    assert(sub_k.fills == lr.fills + sub_n.fills);
                                    assert(fills_view(fills_before) + (lr.fills + sub_n.fills)
                                        =~= fills_view(fills@) + sub_n.fills);
                                    if remaining_qty@ > 0 {
                                        assert(lr.left.len() == 0) by {
                                            assert forall|j: int|
                                                0 <= j < curv[k as int].len() implies (
                                            #[trigger] curv[k as int][j]).qty >= 0 by {
                                                assert(curv[k as int][j] == orders_view(lvl0)[j]);
                                            }
                                            lemma_consume_level_shape(
                                                curv[k as int],
                                                k as int,
                                                rem0,
                                                icur,
                                            );
                                        }
                                        assert forall|q: int|
                                            (k as int - 1) < q <= (MAX_PRICE as int - 1) implies (
                                        #[trigger] tree_levels_view(self.bids@)[q]).len() == 0 by {
                                            if q > k as int {
                                                if self.bids@.contains_key(q as u32) {
                                                    assert(m0.contains_key(q as u32));
                                                    assert(q as u32 <= k);
                                                }
                                            }
                                        }
                                        lemma_consume_desc_skips_empty(
                                            tree_levels_view(self.bids@),
                                            MAX_PRICE as int - 1,
                                            k as int - 1,
                                            remaining_qty@,
                                            index_view(self.order_index@),
                                        );
                                    }
                                }
                                if lsplit || remaining_qty@ == 0 {
                                    if self.bids@.contains_key(k) {
                                        assert(self.bids@.dom() =~= m0.dom());
                                    } else {
                                        assert(self.bids@.dom() =~= m0.dom().remove(k));
                                    }
                                } else {
                                    assert(!self.bids@.contains_key(k));
                                    assert(self.bids@.dom() =~= m0.dom().remove(k));
                                }
                            }
                            if lsplit {
                                split = true;
                            }
                        },
                    }
                }
                proof {
                    if !split {
                        let sub = consume_desc(
                            tree_levels_view(self.bids@),
                            MAX_PRICE as int - 1,
                            remaining_qty@,
                            index_view(self.order_index@),
                        );
                        if remaining_qty@ > 0 {
                            assert forall|q: int| -1 < q <= (MAX_PRICE as int - 1) implies (
                            #[trigger] tree_levels_view(self.bids@)[q]).len() == 0 by {}
                            lemma_consume_desc_skips_empty(
                                tree_levels_view(self.bids@),
                                MAX_PRICE as int - 1,
                                -1,
                                remaining_qty@,
                                index_view(self.order_index@),
                            );
                        }
                        assert(sub.fills == Seq::<FillView>::empty());
                        assert(res.fills =~= fills_view(fills@));
                        assert(res.levels == tree_levels_view(self.bids@));
                    }
                    lemma_consume_desc_wf(v0, v0.bids.len() - 1, quantity@);
                    assert(self.abs() =~= spec_execute(v0, side, quantity@).book);
                }
            },
        }

        if split {
            return Err(BookError::UnsupportedPartialFill);
        }
        let remaining_value = remaining_qty.value();
        if remaining_value > 0 {
            return Err(BookError::PartiallyFilled { remaining: remaining_value, fills });
        }
        Ok(fills)
    }

    fn best_bid(&self) -> (r: Option<Price>) {
        let ghost v = self.abs();
        let best = btree_max_key(&self.bids);
        match best {
            Some(k) => {
                proof {
                    assert(v.bids[k as int].len() > 0);
                    assert forall|q: int| (k as int) < q <= (MAX_PRICE as int - 1) implies (
                    #[trigger] v.bids[q]).len() == 0 by {
                        if self.bids@.contains_key(q as u32) {
                            assert(q as u32 <= k);
                        }
                    }
                    lemma_best_bid_from_unique(v.bids, MAX_PRICE as int - 1, k as int);
                }
                Some(Price::define(k * TICK_SIZE))
            },
            None => {
                proof {
                    lemma_best_bid_from_props(v.bids, MAX_PRICE as int - 1);
                    if spec_best_bid(v) is Some {
                        let b = spec_best_bid(v)->Some_0;
                        assert(v.bids[b].len() > 0);
                        assert(self.bids@.contains_key(b as u32));
                    }
                }
                None
            },
        }
    }

    fn best_ask(&self) -> (r: Option<Price>) {
        let ghost v = self.abs();
        let best = btree_min_key(&self.asks);
        match best {
            Some(k) => {
                proof {
                    assert(v.asks[k as int].len() > 0);
                    assert forall|q: int| 0 <= q < k as int implies (#[trigger] v.asks[q]).len()
                        == 0 by {
                        if self.asks@.contains_key(q as u32) {
                            assert(k <= q as u32);
                        }
                    }
                    lemma_best_ask_from_unique(v.asks, 0, k as int);
                }
                Some(Price::define(k * TICK_SIZE))
            },
            None => {
                proof {
                    lemma_best_ask_from_props(v.asks, 0);
                    if spec_best_ask(v) is Some {
                        let b = spec_best_ask(v)->Some_0;
                        assert(v.asks[b].len() > 0);
                        assert(self.asks@.contains_key(b as u32));
                    }
                }
                None
            },
        }
    }

    fn depth_at_price(&self, price: Price, side: Side) -> (r: u32) {
        let price_value = price.value();

        if price_value == 0 || price_value >= MAX_PRICE {
            return 0;
        }
        if price_value % TICK_SIZE != 0 {
            return 0;
        }
        proof {
            lemma_side_wf_of(self.abs(), side);
        }
        match side {
            Side::Bid => {
                match self.bids.get(&price_value) {
                    Some(level) => {
                        proof {
                            assert(side_levels(self.abs(), side) == self.abs().bids);
                            assert(orders_view(level.orders@) == self.abs().bids[
                                price_value as int
                            ]);
                            assert(sum_qty(self.abs().bids[price_value as int]) <= u32::MAX);
                        }
                        level.total_quantity() as u32
                    },
                    None => {
                        proof {
                            assert(self.abs().bids[price_value as int] =~= Seq::<
                                RestingView,
                            >::empty());
                            assert(sum_qty(Seq::<RestingView>::empty()) == 0);
                        }
                        0
                    },
                }
            },
            Side::Ask => {
                match self.asks.get(&price_value) {
                    Some(level) => {
                        proof {
                            assert(side_levels(self.abs(), side) == self.abs().asks);
                            assert(orders_view(level.orders@) == self.abs().asks[
                                price_value as int
                            ]);
                            assert(sum_qty(self.abs().asks[price_value as int]) <= u32::MAX);
                        }
                        level.total_quantity() as u32
                    },
                    None => {
                        proof {
                            assert(self.abs().asks[price_value as int] =~= Seq::<
                                RestingView,
                            >::empty());
                            assert(sum_qty(Seq::<RestingView>::empty()) == 0);
                        }
                        0
                    },
                }
            },
        }
    }
}

} // verus!
