//! The dense-array book representation.
//!
//! Two fixed-length vectors of levels, one per side, indexed directly by
//! tick. Admission and cancellation are O(1) slot lookups; the best-price
//! scans walk the whole tick range in the worst case. That trade is the
//! point of this layout.

use std::collections::HashMap;

use vstd::prelude::*;

pub use crate::book::Fill;

use crate::book::{
    fills_view, index_view, lemma_fills_view_add, lemma_fills_view_push, lemma_index_view_insert,
    lemma_index_view_remove, lemma_orders_view_push, lemma_orders_view_remove,
    lemma_orders_view_skip, orders_view, BookError, OrderbookTrait,
};
use crate::model::{
    BookView, RestingView, admit_check, best_ask_from, best_bid_from, consume_asc, consume_desc, consume_level, contains_id, empty_book, find_id, lemma_admit_wf, lemma_cancel_wf, lemma_consume_asc_wf, lemma_consume_desc_wf, lemma_empty_book_wf, lemma_find_id_props, lemma_side_wf_of, lemma_sum_qty_nonneg, lemma_sum_qty_split, lemma_sum_qty_take_step, side_levels, spec_admit, spec_best_ask, spec_best_bid, spec_cancel, spec_execute, sum_qty, view_wf,
};
use crate::order::{Order, OrderId, Side};
use crate::price::{Price, MAX_PRICE, TICK_SIZE};
use crate::quantity::{Quantity, LOT_SIZE};

verus! {

broadcast use crate::order::lemma_order_view_ranges;

/// Number of level slots per side: one per tick.
pub const ELEMENT_NUM: usize = 10000;

/// One price level: the resting orders in arrival order.
#[derive(Clone)]
pub struct Level {
    pub orders: Vec<Order>,
}

impl Default for Level {
    fn default() -> (r: Self)
        ensures
            r.orders@.len() == 0,
    {
        Level { orders: Vec::new() }
    }
}

/// The model's reading of a side's level slots.
pub open spec fn levels_view(s: Seq<Level>) -> Seq<Seq<RestingView>> {
    Seq::new(s.len(), |p: int| orders_view(s[p].orders@))
}

impl Level {
    /// Append an order at the tail of the level.
    pub fn add_order(&mut self, order: Order)
        ensures
            final(self).orders@ == old(self).orders@.push(order),
    {
        self.orders.push(order);
    }

    /// Remove the order with the given identifier, returning it; `None`
    /// when no resting order carries the identifier.
    pub fn cancel_order(&mut self, order_id: u64) -> (r: Option<Order>)
        ensures
            ({
                let lv = orders_view(old(self).orders@);
                let i = find_id(lv, order_id);
                if i >= 0 {
                    (r matches Some(o) && o == old(self).orders@[i]) && final(self).orders@ == old(
                        self,
                    ).orders@.remove(i)
                } else {
                    (r is None) && final(self).orders@ == old(self).orders@
                }
            }),
    {
        let ghost lv = orders_view(self.orders@);
        proof {
            lemma_find_id_props(lv, order_id);
        }
        let mut idx: usize = 0;
        while idx < self.orders.len()
            invariant
                idx <= self.orders@.len(),
                self.orders@ == old(self).orders@,
                lv == orders_view(self.orders@),
                forall|j: int| 0 <= j < idx ==> (#[trigger] lv[j]).id != order_id,
            decreases self.orders@.len() - idx,
        {
            if self.orders[idx].id() == order_id {
                proof {
                    assert(lv[idx as int].id == order_id);
                    assert(contains_id(lv, order_id));
                    let f = find_id(lv, order_id);
                    assert(lv[f].id == order_id);
                    assert(f == idx as int);
                    lemma_orders_view_remove(self.orders@, idx as int);
                }
                let removed = self.orders.remove(idx);
                return Some(removed);
            }
            idx += 1;
        }
        proof {
            if contains_id(lv, order_id) {
                let w = choose|w: int| 0 <= w < lv.len() && lv[w].id == order_id;
                assert(lv[w].id != order_id);
            }
        }
        None
    }

    /// The total quantity resting at this level.
    pub fn total_quantity(&self) -> (q: u64)
        requires
            sum_qty(orders_view(self.orders@)) <= u64::MAX,
        ensures
            q as int == sum_qty(orders_view(self.orders@)),
    {
        let ghost lv = orders_view(self.orders@);
        let mut q: u64 = 0;
        let mut idx: usize = 0;
        while idx < self.orders.len()
            invariant
                idx <= self.orders@.len(),
                lv == orders_view(self.orders@),
                sum_qty(lv) <= u64::MAX,
                q as int == sum_qty(lv.take(idx as int)),
            decreases self.orders@.len() - idx,
        {
            proof {
                let n = idx as int + 1;
                lemma_sum_qty_take_step(lv, idx as int);
                lemma_sum_qty_split(lv, n);
                assert forall|j: int| 0 <= j < lv.skip(n).len() implies (#[trigger] lv.skip(n)[j]).qty
                    >= 0 by {
                    assert(lv.skip(n)[j] == lv[j + n]);
                }
                lemma_sum_qty_nonneg(lv.skip(n));
            }
            q = q + self.orders[idx].quantity().value() as u64;
            idx += 1;
        }
        proof {
            assert(lv.take(lv.len() as int) =~= lv);
        }
        q
    }

    /// Whether the level holds no orders.
    pub fn is_empty(&self) -> (r: bool)
        ensures
            r == (self.orders@.len() == 0),
    {
        if self.orders.len() == 0 {
            return true;
        }
        false
    }

    /// The earliest-admitted order at this level, if any.
    pub fn first_order(&self) -> (r: Option<&Order>)
        ensures
            match r {
                Some(o) => self.orders@.len() > 0 && *o == self.orders@[0],
                None => self.orders@.len() == 0,
            },
    {
        if self.orders.len() > 0 {
            Some(&self.orders[0])
        } else {
            None
        }
    }

    /// Match an incoming market-order remainder against this level, FIFO.
    /// Fully matched orders are retired from the level and from the index;
    /// the returned flag reports a remainder smaller than the next resting
    /// order (the unsupported partial-fill condition), which stops matching.
    pub fn match_orders(
        &mut self,
        remaining_qty: &mut Quantity,
        price: Price,
        order_index: &mut HashMap<OrderId, (Side, Price)>,
    ) -> (r: (Vec<Fill>, bool))
        ensures
            ({
                let res = consume_level(
                    orders_view(old(self).orders@),
                    price@,
                    old(remaining_qty)@,
                    index_view(old(order_index)@),
                );
                &&& fills_view(r.0@) == res.fills
                &&& r.0@.len() == res.fills.len()
                &&& final(remaining_qty)@ == res.rem
                &&& orders_view(final(self).orders@) == res.left
                &&& final(self).orders@ == old(self).orders@.skip(r.0@.len() as int)
                &&& index_view(final(order_index)@) == res.index
                &&& r.1 == res.split
            }),
    {
        broadcast use vstd::std_specs::hash::group_hash_axioms;

        let ghost l0 = self.orders@;
        let ghost ov = orders_view(l0);
        let ghost q0 = remaining_qty@;
        let ghost i0 = index_view(order_index@);
        let ghost res = consume_level(ov, price@, q0, i0);

        let mut fills: Vec<Fill> = Vec::new();
        let mut split = false;
        let mut k: usize = 0;
        proof {
            assert(ov.skip(0) =~= ov);
            assert(fills_view(fills@) =~= Seq::<crate::model::FillView>::empty());
            assert(fills_view(fills@) + res.fills =~= res.fills);
        }
        while !split && remaining_qty.value() > 0 && k < self.orders.len()
            invariant
                k <= self.orders@.len(),
                self.orders@ == l0,
                fills@.len() == k,
                split ==> k < l0.len() && remaining_qty@ > 0 && ov.skip(k as int)[0].qty
                    > remaining_qty@,
                ({
                    let sub = consume_level(
                        ov.skip(k as int),
                        price@,
                        remaining_qty@,
                        index_view(order_index@),
                    );
                    &&& res.fills == fills_view(fills@) + sub.fills
                    &&& res.rem == sub.rem
                    &&& res.left == sub.left
                    &&& res.index == sub.index
                    &&& res.split == sub.split
                }),
            decreases l0.len() - k + if split {
                0int
            } else {
                1int
            },
        {
            proof {
                assert(ov.skip(k as int).len() == ov.len() - k);
            }
            let oq = self.orders[k].quantity().value();
            let oid = self.orders[k].id();
            proof {
                assert(ov.skip(k as int)[0] == ov[k as int]);
                assert(ov[k as int].qty == oq as int);
                assert(ov[k as int].id == oid);
            }
            if oq <= remaining_qty.value() {
                let fill = Fill {
                    price,
                    quantity: Quantity::define(oq),
                    maker_order_id: oid,
                };
                let ghost fills_before = fills@;
                let ghost rem_before = remaining_qty@;
                let ghost map_before = order_index@;
                let ghost idx_before = index_view(order_index@);
                fills.push(fill);
                *remaining_qty = Quantity::define(remaining_qty.value() - oq);
                order_index.remove(&oid);
                k = k + 1;
                proof {
                    let sub_old = consume_level(
                        ov.skip(k - 1 as int),
                        price@,
                        rem_before,
                        idx_before,
                    );
                    assert(ov.skip(k - 1 as int).drop_first() =~= ov.skip(k as int));
                    assert(order_index@ == map_before.remove(oid));
                    lemma_index_view_remove(map_before, oid);
                    assert(index_view(order_index@) == idx_before.remove(oid));
                    let sub_new = consume_level(
                        ov.skip(k as int),
                        price@,
                        remaining_qty@,
                        index_view(order_index@),
                    );
                    assert(sub_old.fills == seq![
                        crate::model::FillView { price: price@, qty: oq as int, maker: oid },
                    ] + sub_new.fills);
                    lemma_fills_view_push(fills_before, fill);
                    assert(fill@ == crate::model::FillView {
                        price: price@,
                        qty: oq as int,
                        maker: oid,
                    });
                    assert(fills_view(fills_before) + sub_old.fills =~= fills_view(fills@)
                        + sub_new.fills);
                }
            } else {
                split = true;
            }
        }
        proof {
            let sub = consume_level(
                ov.skip(k as int),
                price@,
                remaining_qty@,
                index_view(order_index@),
            );
            if k == l0.len() {
                assert(ov.skip(k as int) =~= Seq::<RestingView>::empty());
            }
            assert(sub.fills == Seq::<crate::model::FillView>::empty());
            assert(res.fills =~= fills_view(fills@));
            assert(res.split == split);
            assert(res.left == ov.skip(k as int));
        }

        // Retire the fully matched prefix from the level.
        let mut j: usize = 0;
        while j < k
            invariant
                j <= k <= l0.len(),
                self.orders@ == l0.skip(j as int),
            decreases k - j,
        {
            proof {
                assert(l0.skip(j as int).remove(0) =~= l0.skip(j + 1 as int));
            }
            self.orders.remove(0);
            j += 1;
        }
        proof {
            lemma_orders_view_skip(l0, k as int);
        }
        (fills, split)
    }
}

/// The dense-array book: one preallocated level slot per tick on each side,
/// and a hash index from order id to (side, price) for O(1) cancellation.
pub struct Orderbook {
    bids: Vec<Level>,
    asks: Vec<Level>,
    order_index: HashMap<OrderId, (Side, Price)>,
}

impl OrderbookTrait for Orderbook {
    closed spec fn abs(&self) -> BookView {
        BookView {
            bids: levels_view(self.bids@),
            asks: levels_view(self.asks@),
            index: index_view(self.order_index@),
        }
    }

    closed spec fn wf(&self) -> bool {
        &&& self.bids@.len() == MAX_PRICE
        &&& self.asks@.len() == MAX_PRICE
        &&& view_wf(self.abs())
    }

    proof fn lemma_wf_view(&self) {
    }

    fn new() -> (r: Self) {
        let mut bids: Vec<Level> = Vec::new();
        let mut i: usize = 0;
        while i < ELEMENT_NUM
            invariant
                i <= ELEMENT_NUM,
                bids@.len() == i,
                forall|j: int| 0 <= j < i ==> (#[trigger] bids@[j]).orders@.len() == 0,
            decreases ELEMENT_NUM - i,
        {
            bids.push(Level::default());
            i = i + 1;
        }
        let mut asks: Vec<Level> = Vec::new();
        let mut i2: usize = 0;
        while i2 < ELEMENT_NUM
            invariant
                i2 <= ELEMENT_NUM,
                asks@.len() == i2,
                forall|j: int| 0 <= j < i2 ==> (#[trigger] asks@[j]).orders@.len() == 0,
            decreases ELEMENT_NUM - i2,
        {
            asks.push(Level::default());
            i2 = i2 + 1;
        }
        let r = Orderbook { bids, asks, order_index: HashMap::new() };
        proof {
            lemma_empty_book_wf();
            assert forall|p: int| 0 <= p < MAX_PRICE implies #[trigger] r.abs().bids[p]
                == empty_book().bids[p] by {
                assert(r.abs().bids[p] =~= empty_book().bids[p]);
            }
            assert forall|p: int| 0 <= p < MAX_PRICE implies #[trigger] r.abs().asks[p]
                == empty_book().asks[p] by {
                assert(r.abs().asks[p] =~= empty_book().asks[p]);
            }
            assert(r.abs().bids =~= empty_book().bids);
            assert(r.abs().asks =~= empty_book().asks);
            assert(r.abs().index =~= empty_book().index);
            assert(r.abs() =~= empty_book());
        }
        r
    }

    fn add_order(&mut self, order: Order) -> (r: Result<(), BookError>) {
        let order_id = order.id();
        let side = order.side();
        let price = order.price();
        let price_value = price.value();
        let quantity_value = order.quantity().value();

        if price_value % TICK_SIZE != 0 {
            return Err(BookError::InvalidTick { price: price_value });
        }
        if price_value == 0 || price_value >= MAX_PRICE {
            return Err(BookError::OutOfBounds { price: price_value });
        }
        if quantity_value % LOT_SIZE != 0 {
            return Err(BookError::InvalidLot { quantity: quantity_value });
        }
        if quantity_value == 0 {
            return Err(BookError::ZeroQuantity);
        }

        let ghost v0 = self.abs();
        proof {
            assert(admit_check(order@.price, order@.qty) is Accept);
        }
        let i = (price_value / TICK_SIZE) as usize;
        let ghost rv = RestingView { id: order@.id, qty: order@.qty };
        match side {
            Side::Bid => {
                let ghost lvl0 = self.bids@[i as int].orders@;
                self.bids[i].add_order(order);
                proof {
                    lemma_orders_view_push(lvl0, order);
                    assert(levels_view(self.bids@) =~= v0.bids.update(
                        i as int,
                        orders_view(lvl0).push(rv),
                    ));
                }
            },
            Side::Ask => {
                let ghost lvl0 = self.asks@[i as int].orders@;
                self.asks[i].add_order(order);
                proof {
                    lemma_orders_view_push(lvl0, order);
                    assert(levels_view(self.asks@) =~= v0.asks.update(
                        i as int,
                        orders_view(lvl0).push(rv),
                    ));
                }
            },
        }
        let ghost map_before = self.order_index@;
        self.order_index.insert(order_id, (side, price));
        proof {
            lemma_index_view_insert(map_before, order_id, (side, price));
            lemma_admit_wf(v0, order@);
            assert(self.abs() =~= spec_admit(v0, order@));
        }
        Ok(())
    }

    fn cancel_order(&mut self, order_id: OrderId) -> (r: Result<(), BookError>) {
        let ghost v0 = self.abs();
        let ghost map_before = self.order_index@;
        let removed = self.order_index.remove(&order_id);
        match removed {
            None => {
                proof {
                    assert(!v0.index.contains_key(order_id));
                    assert(self.order_index@ =~= map_before);
                    assert(self.abs() =~= v0);
                }
                Err(BookError::OrderNotFound { id: order_id })
            },
            Some((side, price)) => {
                proof {
                    lemma_index_view_remove(map_before, order_id);
                    assert(v0.index.contains_key(order_id));
                    assert(v0.index[order_id] == (side, price@));
                }
                let ghost s = side;
                let ghost p = price@;
                let ghost levels = side_levels(v0, s);
                proof {
                    assert(0 <= p < levels.len());
                    assert(contains_id(levels[p], order_id));
                    lemma_find_id_props(levels[p], order_id);
                }
                let i = (price.value() / TICK_SIZE) as usize;
                let ghost f = find_id(levels[p], order_id);
                match side {
                    Side::Bid => {
                        let ghost lvl0 = self.bids@[i as int].orders@;
                        let _ = self.bids[i].cancel_order(order_id);
                        proof {
                            lemma_orders_view_remove(lvl0, f);
                            assert(levels_view(self.bids@) =~= v0.bids.update(
                                p,
                                levels[p].remove(f),
                            ));
                        }
                    },
                    Side::Ask => {
                        let ghost lvl0 = self.asks@[i as int].orders@;
                        let _ = self.asks[i].cancel_order(order_id);
                        proof {
                            lemma_orders_view_remove(lvl0, f);
                            assert(levels_view(self.asks@) =~= v0.asks.update(
                                p,
                                levels[p].remove(f),
                            ));
                        }
                    },
                }
                proof {
                    lemma_cancel_wf(v0, order_id);
                    assert(self.abs() =~= spec_cancel(v0, order_id));
                }
                Ok(())
            },
        }
    }

    fn execute_market_order(&mut self, side: Side, quantity: Quantity) -> (r: Result<
        Vec<Fill>,
        BookError,
    >) {
        let ghost v0 = self.abs();
        let mut remaining_qty = quantity;
        let mut fills: Vec<Fill> = Vec::new();
        let mut split = false;

        match side {
            Side::Bid => {
                let ghost res = consume_asc(v0.asks, 0, quantity@, v0.index);
                let mut i: usize = 0;
                proof {
                    assert(fills_view(fills@) + res.fills =~= res.fills);
                }
                while !split && remaining_qty.value() > 0 && i < ELEMENT_NUM
                    invariant
                        i <= ELEMENT_NUM,
                        self.bids@ == old(self).bids@,
                        self.asks@.len() == ELEMENT_NUM,
                        ({
                            let sub = consume_asc(
                                levels_view(self.asks@),
                                i as int,
                                remaining_qty@,
                                index_view(self.order_index@),
                            );
                            !split ==> {
                                &&& res.fills == fills_view(fills@) + sub.fills
                                &&& res.rem == sub.rem
                                &&& res.levels == sub.levels
                                &&& res.index == sub.index
                                &&& res.split == sub.split
                            }
                        }),
                        split ==> {
                            &&& res.fills == fills_view(fills@)
                            &&& res.rem == remaining_qty@
                            &&& res.levels == levels_view(self.asks@)
                            &&& res.index == index_view(self.order_index@)
                            &&& res.split
                        },
                    decreases ELEMENT_NUM - i + if split {
                        0int
                    } else {
                        1int
                    },
                {
                    let ghost curv = levels_view(self.asks@);
                    let ghost icur = index_view(self.order_index@);
                    let ghost rem0 = remaining_qty@;
                    let ghost sub_i = consume_asc(curv, i as int, rem0, icur);
                    if self.asks[i].is_empty() {
                        proof {
                            assert(curv[i as int].len() == 0);
                            let lr = consume_level(curv[i as int], i as int, rem0, icur);
                            assert(curv.update(i as int, lr.left) =~= curv);
                            assert(sub_i == consume_asc(curv, i as int + 1, rem0, icur));
                        }
                        i = i + 1;
                    } else {
                        let price = Price::define((i as u32) * TICK_SIZE);
                        proof {
                            assert(price@ == i as int);
                        }
                        let ghost fills_before = fills@;
                        let (mut level_fills, lsplit) = self.asks[i].match_orders(
                            &mut remaining_qty,
                            price,
                            &mut self.order_index,
                        );
                        let ghost lf = level_fills@;
                        fills.append(&mut level_fills);
                        proof {
                            let lr = consume_level(curv[i as int], i as int, rem0, icur);
                            assert(levels_view(self.asks@) =~= curv.update(i as int, lr.left));
                            lemma_fills_view_add(fills_before, lf);
                            assert(fills@ == fills_before + lf);
                            if lsplit {
                                assert(res.fills == fills_view(fills_before) + lr.fills);
                                assert(res.fills =~= fills_view(fills@));
                            } else {
                                let sub_n = consume_asc(
                                    levels_view(self.asks@),
                                    i as int + 1,
                                    remaining_qty@,
                                    index_view(self.order_index@),
                                );
                                assert(sub_i.fills == lr.fills + sub_n.fills);
                                assert(fills_view(fills_before) + (lr.fills + sub_n.fills)
                                    =~= fills_view(fills@) + sub_n.fills);
                            }
                        }
                        if lsplit {
                            split = true;
                        } else {
                            i = i + 1;
                        }
                    }
                }
                proof {
                    if !split {
                        let sub = consume_asc(
                            levels_view(self.asks@),
                            i as int,
                            remaining_qty@,
                            index_view(self.order_index@),
                        );
                        assert(sub.fills == Seq::<crate::model::FillView>::empty());
                        assert(res.fills =~= fills_view(fills@));
                    }
                    lemma_consume_asc_wf(v0, 0, quantity@);
                    assert(self.abs() =~= spec_execute(v0, side, quantity@).book);
                }
            },
            Side::Ask => {
                let ghost res = consume_desc(v0.bids, v0.bids.len() - 1, quantity@, v0.index);
                let mut i: usize = ELEMENT_NUM;
                proof {
                    assert(fills_view(fills@) + res.fills =~= res.fills);
                }
                while !split && remaining_qty.value() > 0 && i > 0
                    invariant
                        i <= ELEMENT_NUM,
                        self.asks@ == old(self).asks@,
                        self.bids@.len() == ELEMENT_NUM,
                        ({
                            let sub = consume_desc(
                                levels_view(self.bids@),
                                i as int - 1,
                                remaining_qty@,
                                index_view(self.order_index@),
                            );
                            !split ==> {
                                &&& res.fills == fills_view(fills@) + sub.fills
                                &&& res.rem == sub.rem
                                &&& res.levels == sub.levels
                                &&& res.index == sub.index
                                &&& res.split == sub.split
                            }
                        }),
                        split ==> {
                            &&& res.fills == fills_view(fills@)
                            &&& res.rem == remaining_qty@
                            &&& res.levels == levels_view(self.bids@)
                            &&& res.index == index_view(self.order_index@)
                            &&& res.split
                        },
                    decreases i + if split {
                        0int
                    } else {
                        1int
                    },
                {
                    let ghost curv = levels_view(self.bids@);
                    let ghost icur = index_view(self.order_index@);
                    let ghost rem0 = remaining_qty@;
                    let ghost sub_i = consume_desc(curv, i as int - 1, rem0, icur);
                    let p = i - 1;
                    if self.bids[p].is_empty() {
                        proof {
                            assert(curv[p as int].len() == 0);
                            let lr = consume_level(curv[p as int], p as int, rem0, icur);
                            assert(curv.update(p as int, lr.left) =~= curv);
                            assert(sub_i == consume_desc(curv, p as int - 1, rem0, icur));
                        }
                        i = i - 1;
                    } else {
                        let price = Price::define((p as u32) * TICK_SIZE);
                        proof {
                            assert(price@ == p as int);
                        }
                        let ghost fills_before = fills@;
                        let (mut level_fills, lsplit) = self.bids[p].match_orders(
                            &mut remaining_qty,
                            price,
                            &mut self.order_index,
                        );
                        let ghost lf = level_fills@;
                        fills.append(&mut level_fills);
                        proof {
                            let lr = consume_level(curv[p as int], p as int, rem0, icur);
                            assert(levels_view(self.bids@) =~= curv.update(p as int, lr.left));
                            lemma_fills_view_add(fills_before, lf);
                            assert(fills@ == fills_before + lf);
                            if lsplit {
                                assert(res.fills == fills_view(fills_before) + lr.fills);
                                assert(res.fills =~= fills_view(fills@));
                            } else {
                                let sub_n = consume_desc(
                                    levels_view(self.bids@),
                                    p as int - 1,
                                    remaining_qty@,
                                    index_view(self.order_index@),
                                );
                                assert(sub_i.fills == lr.fills + sub_n.fills);
                                assert(fills_view(fills_before) + (lr.fills + sub_n.fills)
                                    =~= fills_view(fills@) + sub_n.fills);
                            }
                        }
                        if lsplit {
                            split = true;
                        } else {
                            i = i - 1;
                        }
                    }
                }
                proof {
                    if !split {
                        let sub = consume_desc(
                            levels_view(self.bids@),
                            i as int - 1,
                            remaining_qty@,
                            index_view(self.order_index@),
                        );
                        assert(sub.fills == Seq::<crate::model::FillView>::empty());
                        assert(res.fills =~= fills_view(fills@));
                    }
                    lemma_consume_desc_wf(v0, v0.bids.len() - 1, quantity@);
                    assert(self.abs() =~= spec_execute(v0, side, quantity@).book);
                }
            },
        }

        if split {
            return Err(BookError::UnsupportedPartialFill);
        }
        let remaining_value = remaining_qty.value();
        if remaining_value > 0 {
            return Err(BookError::PartiallyFilled { remaining: remaining_value, fills });
        }
        Ok(fills)
    }

    fn best_bid(&self) -> (r: Option<Price>) {
        let ghost v = self.abs();
        let mut i: usize = ELEMENT_NUM;
        while i > 0
            invariant
                i <= ELEMENT_NUM,
                spec_best_bid(v) == best_bid_from(v.bids, i as int - 1),
            decreases i,
        {
            i = i - 1;
            if !self.bids[i].is_empty() {
                proof {
                    assert(v.bids[i as int].len() > 0);
                }
                return Some(Price::define((i as u32) * TICK_SIZE));
            }
            proof {
                assert(v.bids[i as int].len() == 0);
            }
        }
        None
    }

    fn best_ask(&self) -> (r: Option<Price>) {
        let ghost v = self.abs();
        let mut i: usize = 0;
        while i < ELEMENT_NUM
            invariant
                i <= ELEMENT_NUM,
                spec_best_ask(v) == best_ask_from(v.asks, i as int),
            decreases ELEMENT_NUM - i,
        {
            if !self.asks[i].is_empty() {
                proof {
                    assert(v.asks[i as int].len() > 0);
                }
                return Some(Price::define((i as u32) * TICK_SIZE));
            }
            proof {
                assert(v.asks[i as int].len() == 0);
            }
            i = i + 1;
        }
        None
    }

    fn depth_at_price(&self, price: Price, side: Side) -> (r: u32) {
        let price_value = price.value();

        if price_value == 0 || price_value >= MAX_PRICE {
            return 0;
        }
        if price_value % TICK_SIZE != 0 {
            return 0;
        }
        let idx = (price_value / TICK_SIZE) as usize;
        proof {
            lemma_side_wf_of(self.abs(), side);
        }
        let total = match side {
            Side::Bid => {
                proof {
                    assert(side_levels(self.abs(), side) == self.abs().bids);
                    assert(sum_qty(self.abs().bids[idx as int]) <= u32::MAX);
                }
                self.bids[idx].total_quantity()
            },
            Side::Ask => {
                proof {
                    assert(side_levels(self.abs(), side) == self.abs().asks);
                    assert(sum_qty(self.abs().asks[idx as int]) <= u32::MAX);
                }
                self.asks[idx].total_quantity()
            },
        };
        total as u32
    }
}

} // verus!
