//! The algebraic laws of the book model.
//!
//! Every operation of [`crate::book::OrderbookTrait`] pins its result and
//! its new state to the spec-level transitions of [`crate::model`]. The
//! proofs here therefore hold of every representation: the universal
//! invariants of the id index, the dominance of the best prices, the
//! admit/cancel round trip, FIFO consumption within a level, price
//! priority across levels, and cross-representation equivalence.

use vstd::prelude::*;

use crate::book::OrderbookTrait;
use crate::model::{
    BookView, RestingView, admit_check, best_ask_from, best_bid_from, consume_asc, consume_desc, consume_level, contains_id, find_id, lemma_best_ask_from_props, lemma_best_bid_from_props, lemma_consume_asc_skips_empty, lemma_consume_desc_skips_empty, lemma_consume_level_shape, lemma_find_id_props, lemma_find_id_push_fresh, lemma_side_wf_of, lemma_sum_qty_nonneg, lemma_wf_id_unique, opposite, side_levels, spec_admit, spec_best_ask, spec_best_bid, spec_cancel, spec_depth_at, spec_execute, spec_mid, sum_qty, valid_price, view_wf,
};
use crate::order::{OrderView, Side};
use crate::price::MAX_PRICE;

verus! {

/// Every resting order is mirrored in the id index: the entry for its
/// identifier is exactly its (side, price) locator.
pub proof fn lemma_index_mirrors_resting(v: BookView, s: Side, p: int, i: int)
    requires
        view_wf(v),
        0 <= p < side_levels(v, s).len(),
        0 <= i < side_levels(v, s)[p].len(),
    ensures
        v.index.contains_key(side_levels(v, s)[p][i].id),
        v.index[side_levels(v, s)[p][i].id] == (s, p),
{
    lemma_side_wf_of(v, s);
}

/// Every id-index entry is witnessed by exactly one resting order: the
/// level it points at holds the identifier, and any position holding that
/// identifier is that single position.
pub proof fn lemma_index_entry_unique_order(v: BookView, id: u64)
    requires
        view_wf(v),
        v.index.contains_key(id),
    ensures
        ({
            let s = v.index[id].0;
            let p = v.index[id].1;
            let levels = side_levels(v, s);
            &&& 0 <= p < levels.len()
            &&& contains_id(levels[p], id)
            &&& 0 <= find_id(levels[p], id) < levels[p].len()
            &&& levels[p][find_id(levels[p], id)].id == id
            &&& forall|s2: Side, p2: int, i2: int|
                0 <= p2 < side_levels(v, s2).len() && 0 <= i2 < side_levels(v, s2)[p2].len() && (
                #[trigger] side_levels(v, s2)[p2][i2]).id == id ==> s2 == s && p2 == p && i2
                    == find_id(levels[p], id)
        }),
{
    let s = v.index[id].0;
    let p = v.index[id].1;
    let levels = side_levels(v, s);
    lemma_find_id_props(levels[p], id);
    let f = find_id(levels[p], id);
    assert forall|s2: Side, p2: int, i2: int|
        0 <= p2 < side_levels(v, s2).len() && 0 <= i2 < side_levels(v, s2)[p2].len() && (
        #[trigger] side_levels(v, s2)[p2][i2]).id == id implies s2 == s && p2 == p && i2
        == f by {
        lemma_wf_id_unique(v, s2, p2, i2, s, p, f);
    }
}

/// The cardinality of the id index equals the number of resting orders.
/// Every transition preserves this, because admission inserts one fresh
/// key per appended order and every removal path deletes one key per
/// retired order.
pub proof fn lemma_index_cardinality(v: BookView)
    requires
        view_wf(v),
    ensures
        v.index.dom().len() == crate::model::order_count(v),
{
}

/// The depth at a price is the sum of the quantities resting there, and it
/// is bounded by the machine word that carries quantities.
pub proof fn lemma_depth_is_level_sum(v: BookView, p: int, s: Side)
    requires
        view_wf(v),
        valid_price(p),
    ensures
        spec_depth_at(v, p, s) == sum_qty(side_levels(v, s)[p]),
        0 <= spec_depth_at(v, p, s) <= u32::MAX,
{
    lemma_side_wf_of(v, s);
    let level = side_levels(v, s)[p];
    assert forall|i: int| 0 <= i < level.len() implies (#[trigger] level[i]).qty >= 0 by {}
    lemma_sum_qty_nonneg(level);
}

/// The best bid dominates every resting bid price; when it is absent, no
/// bid rests at all. Symmetrically for the ask side below.
pub proof fn lemma_best_bid_dominates(v: BookView)
    requires
        view_wf(v),
    ensures
        match spec_best_bid(v) {
            Some(b) => {
                &&& valid_price(b)
                &&& v.bids[b].len() > 0
                &&& forall|p: int|
                    0 <= p < v.bids.len() && (#[trigger] v.bids[p]).len() > 0 ==> p <= b
            },
            None => forall|p: int| 0 <= p < v.bids.len() ==> (#[trigger] v.bids[p]).len() == 0,
        },
{
    lemma_side_wf_of(v, Side::Bid);
    lemma_best_bid_from_props(v.bids, v.bids.len() - 1);
}

/// The best ask is dominated by every resting ask price; when it is
/// absent, no ask rests at all.
pub proof fn lemma_best_ask_dominates(v: BookView)
    requires
        view_wf(v),
    ensures
        match spec_best_ask(v) {
            Some(b) => {
                &&& valid_price(b)
                &&& v.asks[b].len() > 0
                &&& forall|p: int|
                    0 <= p < v.asks.len() && (#[trigger] v.asks[p]).len() > 0 ==> p >= b
            },
            None => forall|p: int| 0 <= p < v.asks.len() ==> (#[trigger] v.asks[p]).len() == 0,
        },
{
    lemma_side_wf_of(v, Side::Ask);
    lemma_best_ask_from_props(v.asks, 0);
}

/// Admit/cancel round trip: admitting an accepted order with a fresh
/// identifier and then cancelling that identifier restores the book
/// exactly — same best prices, same depths, same index.
pub proof fn lemma_admit_cancel_roundtrip(v: BookView, o: OrderView)
    requires
        view_wf(v),
        admit_check(o.price, o.qty) is Accept,
        0 <= o.qty <= u32::MAX,
        !v.index.contains_key(o.id),
        sum_qty(side_levels(v, o.side)[o.price]) + o.qty <= u32::MAX,
    ensures
        spec_admit(v, o).index.contains_key(o.id),
        spec_cancel(spec_admit(v, o), o.id) == v,
{
    let v1 = spec_admit(v, o);
    let levels = side_levels(v, o.side);
    let x = RestingView { id: o.id, qty: o.qty };
    let nl = levels[o.price].push(x);
    lemma_side_wf_of(v, o.side);
    assert(!contains_id(levels[o.price], o.id)) by {
        if contains_id(levels[o.price], o.id) {
            let w = choose|w: int|
                0 <= w < levels[o.price].len() && levels[o.price][w].id == o.id;
            assert(v.index.contains_key(levels[o.price][w].id));
        }
    }
    lemma_find_id_push_fresh(levels[o.price], x);
    assert(v1.index[o.id] == (o.side, o.price));
    assert(side_levels(v1, o.side) == levels.update(o.price, nl));
    assert(side_levels(v1, o.side)[o.price] == nl);
    assert(find_id(nl, o.id) == levels[o.price].len() as int);
    assert(nl.remove(levels[o.price].len() as int) =~= levels[o.price]);
    assert(levels.update(o.price, nl).update(o.price, levels[o.price]) =~= levels);
    assert(v.index.insert(o.id, (o.side, o.price)).remove(o.id) =~= v.index);
    assert(spec_cancel(v1, o.id) =~= v);
}

proof fn lemma_consume_level_exact(
    orders: Seq<RestingView>,
    price: int,
    k: int,
    index: Map<u64, (Side, int)>,
)
    requires
        0 <= k <= orders.len(),
        forall|i: int| 0 <= i < orders.len() ==> (#[trigger] orders[i]).qty > 0,
    ensures
        ({
            let lr = consume_level(orders, price, sum_qty(orders.take(k)), index);
            &&& lr.fills.len() == k
            &&& lr.rem == 0
            &&& !lr.split
        }),
    decreases k,
{
    let qty = sum_qty(orders.take(k));
    if k == 0 {
        assert(orders.take(0) =~= Seq::<RestingView>::empty());
        assert(sum_qty(Seq::<RestingView>::empty()) == 0);
    } else {
        let head = orders[0];
        let rest = orders.drop_first();
        assert(orders.take(k)[0] == head);
        assert(orders.take(k).drop_first() =~= rest.take(k - 1));
        assert(qty == head.qty + sum_qty(rest.take(k - 1)));
        assert forall|i: int| 0 <= i < rest.len() implies (#[trigger] rest[i]).qty > 0 by {
            assert(rest[i] == orders[i + 1]);
        }
        assert forall|i: int| 0 <= i < rest.take(k - 1).len() implies (#[trigger] rest.take(k - 1)[i]).qty
            >= 0 by {
            assert(rest.take(k - 1)[i] == rest[i]);
        }
        lemma_sum_qty_nonneg(rest.take(k - 1));
        assert(head.qty <= qty);
        assert(qty > 0);
        lemma_consume_level_exact(rest, price, k - 1, index.remove(head.id));
    }
}

/// FIFO within a level: a market order whose quantity is exactly the total
/// of the first `k` resting orders at the best opposing price fills those
/// `k` orders in arrival order, leaves the later arrivals at that price
/// resting, and touches no other level.
pub proof fn lemma_fifo_within_level(v: BookView, side: Side, k: int)
    requires
        view_wf(v),
        match side {
            Side::Bid => spec_best_ask(v) is Some,
            Side::Ask => spec_best_bid(v) is Some,
        },
        ({
            let b = match side {
                Side::Bid => spec_best_ask(v)->Some_0,
                Side::Ask => spec_best_bid(v)->Some_0,
            };
            0 < k <= side_levels(v, opposite(side))[b].len()
        }),
    ensures
        ({
            let b = match side {
                Side::Bid => spec_best_ask(v)->Some_0,
                Side::Ask => spec_best_bid(v)->Some_0,
            };
            let level = side_levels(v, opposite(side))[b];
            let m = spec_execute(v, side, sum_qty(level.take(k)));
            &&& !m.split
            &&& m.rem == 0
            &&& m.fills.len() == k
            &&& forall|j: int|
                0 <= j < k ==> (#[trigger] m.fills[j]).maker == level[j].id && m.fills[j].qty
                    == level[j].qty && m.fills[j].price == b
            &&& side_levels(m.book, opposite(side))[b] == level.skip(k)
            &&& forall|p: int|
                0 <= p < MAX_PRICE && p != b ==> (#[trigger] side_levels(m.book, opposite(side))[p])
                    == side_levels(v, opposite(side))[p]
            &&& side_levels(m.book, side) == side_levels(v, side)
        }),
{
    let opp = opposite(side);
    lemma_side_wf_of(v, opp);
    let b = match side {
        Side::Bid => spec_best_ask(v)->Some_0,
        Side::Ask => spec_best_bid(v)->Some_0,
    };
    let levels = side_levels(v, opp);
    let level = levels[b];
    let qty = sum_qty(level.take(k));
    match side {
        Side::Bid => {
            lemma_best_ask_from_props(v.asks, 0);
        },
        Side::Ask => {
            lemma_best_bid_from_props(v.bids, v.bids.len() - 1);
        },
    }
    assert(0 <= b < levels.len());
    assert forall|i: int| 0 <= i < level.len() implies (#[trigger] level[i]).qty > 0 by {
        assert(crate::model::valid_qty(side_levels(v, opp)[b][i].qty));
    }
    lemma_consume_level_exact(level, b, k, v.index);
    // The incoming quantity is positive because it covers at least the head order.
    assert(level.take(k)[0] == level[0]);
    assert(level.take(k).drop_first() =~= level.drop_first().take(k - 1));
    assert forall|i: int| 0 <= i < level.drop_first().take(k - 1).len() implies (
    #[trigger] level.drop_first().take(k - 1)[i]).qty >= 0 by {
        assert(level.drop_first().take(k - 1)[i] == level[i + 1]);
    }
    lemma_sum_qty_nonneg(level.drop_first().take(k - 1));
    assert(qty > 0);
    let lr = consume_level(level, b, qty, v.index);
    lemma_consume_level_shape(level, b, qty, v.index);
    let levels2 = levels.update(b, lr.left);
    match side {
        Side::Bid => {
            lemma_best_ask_from_props(v.asks, 0);
            lemma_consume_asc_skips_empty(v.asks, 0, b, qty, v.index);
            assert(consume_asc(v.asks, b, qty, v.index).fills == lr.fills + consume_asc(
                levels2,
                b + 1,
                0,
                lr.index,
            ).fills);
            assert(lr.fills + Seq::<crate::model::FillView>::empty() =~= lr.fills);
        },
        Side::Ask => {
            lemma_best_bid_from_props(v.bids, v.bids.len() - 1);
            lemma_consume_desc_skips_empty(v.bids, v.bids.len() - 1, b, qty, v.index);
            assert(consume_desc(v.bids, b, qty, v.index).fills == lr.fills + consume_desc(
                levels2,
                b - 1,
                0,
                lr.index,
            ).fills);
            assert(lr.fills + Seq::<crate::model::FillView>::empty() =~= lr.fills);
        },
    }
}

proof fn lemma_consume_asc_priority(
    levels: Seq<Seq<RestingView>>,
    p: int,
    qty: int,
    index: Map<u64, (Side, int)>,
)
    requires
        0 <= p,
        forall|q: int, i: int|
            0 <= q < levels.len() && 0 <= i < levels[q].len() ==> (#[trigger] levels[q][i]).qty
                >= 0,
    ensures
        ({
            let r = consume_asc(levels, p, qty, index);
            &&& forall|j: int| 0 <= j < r.fills.len() ==> p <= (#[trigger] r.fills[j]).price
            &&& forall|j1: int, j2: int|
                0 <= j1 <= j2 < r.fills.len() ==> (#[trigger] r.fills[j1]).price <= (
                #[trigger] r.fills[j2]).price
            &&& r.fills.len() > 0 ==> best_ask_from(levels, p) == Some(r.fills[0].price)
        }),
    decreases levels.len() - p,
{
    let r = consume_asc(levels, p, qty, index);
    if qty <= 0 || p >= levels.len() {
    } else {
        let lr = consume_level(levels[p], p, qty, index);
        lemma_consume_level_shape(levels[p], p, qty, index);
        let n = lr.fills.len() as int;
        let levels2 = levels.update(p, lr.left);
        if lr.split {
            assert(levels[p].len() > 0);
        } else {
            assert forall|q: int, i: int|
                0 <= q < levels2.len() && 0 <= i < levels2[q].len() implies (
            #[trigger] levels2[q][i]).qty >= 0 by {
                if q == p {
                    assert(levels2[q][i] == levels[p][i + n]);
                } else {
                    assert(levels2[q][i] == levels[q][i]);
                }
            }
            lemma_consume_asc_priority(levels2, p + 1, lr.rem, lr.index);
            let r2 = consume_asc(levels2, p + 1, lr.rem, lr.index);
            assert(r.fills == lr.fills + r2.fills);
            assert forall|j: int| 0 <= j < r.fills.len() implies p <= (
            #[trigger] r.fills[j]).price by {
                if j < n {
                    assert(r.fills[j] == lr.fills[j]);
                } else {
                    assert(r.fills[j] == r2.fills[j - n]);
                }
            }
            assert forall|j1: int, j2: int|
                0 <= j1 <= j2 < r.fills.len() implies (#[trigger] r.fills[j1]).price <= (
            #[trigger] r.fills[j2]).price by {
                if j1 < n {
                    assert(r.fills[j1] == lr.fills[j1]);
                } else {
                    assert(r.fills[j1] == r2.fills[j1 - n]);
                }
                if j2 < n {
                    assert(r.fills[j2] == lr.fills[j2]);
                } else {
                    assert(r.fills[j2] == r2.fills[j2 - n]);
                }
            }
            if r.fills.len() > 0 {
                if n > 0 {
                    assert(r.fills[0] == lr.fills[0]);
                    assert(levels[p].len() > 0);
                } else {
                    assert(levels[p].len() == 0);
                    assert(levels2 =~= levels);
                    assert(r.fills =~= r2.fills);
                }
            }
        }
    }
}

proof fn lemma_consume_desc_priority(
    levels: Seq<Seq<RestingView>>,
    p: int,
    qty: int,
    index: Map<u64, (Side, int)>,
)
    requires
        p < levels.len(),
        forall|q: int, i: int|
            0 <= q < levels.len() && 0 <= i < levels[q].len() ==> (#[trigger] levels[q][i]).qty
                >= 0,
    ensures
        ({
            let r = consume_desc(levels, p, qty, index);
            &&& forall|j: int| 0 <= j < r.fills.len() ==> (#[trigger] r.fills[j]).price <= p
            &&& forall|j1: int, j2: int|
                0 <= j1 <= j2 < r.fills.len() ==> (#[trigger] r.fills[j1]).price >= (
                #[trigger] r.fills[j2]).price
            &&& r.fills.len() > 0 ==> best_bid_from(levels, p) == Some(r.fills[0].price)
        }),
    decreases p + 1,
{
    let r = consume_desc(levels, p, qty, index);
    if qty <= 0 || p < 0 {
    } else {
        let lr = consume_level(levels[p], p, qty, index);
        lemma_consume_level_shape(levels[p], p, qty, index);
        let n = lr.fills.len() as int;
        let levels2 = levels.update(p, lr.left);
        if lr.split {
            assert(levels[p].len() > 0);
        } else {
            assert forall|q: int, i: int|
                0 <= q < levels2.len() && 0 <= i < levels2[q].len() implies (
            #[trigger] levels2[q][i]).qty >= 0 by {
                if q == p {
                    assert(levels2[q][i] == levels[p][i + n]);
                } else {
                    assert(levels2[q][i] == levels[q][i]);
                }
            }
            lemma_consume_desc_priority(levels2, p - 1, lr.rem, lr.index);
            let r2 = consume_desc(levels2, p - 1, lr.rem, lr.index);
            assert(r.fills == lr.fills + r2.fills);
            assert forall|j: int| 0 <= j < r.fills.len() implies (#[trigger] r.fills[j]).price
                <= p by {
                if j < n {
                    assert(r.fills[j] == lr.fills[j]);
                } else {
                    assert(r.fills[j] == r2.fills[j - n]);
                }
            }
            assert forall|j1: int, j2: int|
                0 <= j1 <= j2 < r.fills.len() implies (#[trigger] r.fills[j1]).price >= (
            #[trigger] r.fills[j2]).price by {
                if j1 < n {
                    assert(r.fills[j1] == lr.fills[j1]);
                } else {
                    assert(r.fills[j1] == r2.fills[j1 - n]);
                }
                if j2 < n {
                    assert(r.fills[j2] == lr.fills[j2]);
                } else {
                    assert(r.fills[j2] == r2.fills[j2 - n]);
                }
            }
            if r.fills.len() > 0 {
                if n > 0 {
                    assert(r.fills[0] == lr.fills[0]);
                    assert(levels[p].len() > 0);
                } else {
                    assert(levels[p].len() == 0);
                    assert(levels2 =~= levels);
                    assert(r.fills =~= r2.fills);
                }
            }
        }
    }
}

/// Price priority: a bid-side market order fills the lowest-priced ask
/// first and its fills carry ascending prices; an ask-side market order
/// fills the highest-priced bid first and its fills carry descending
/// prices.
pub proof fn lemma_price_priority(v: BookView, side: Side, qty: int)
    requires
        view_wf(v),
    ensures
        ({
            let m = spec_execute(v, side, qty);
            match side {
                Side::Bid => {
                    &&& m.fills.len() > 0 ==> spec_best_ask(v) == Some(m.fills[0].price)
                    &&& forall|j1: int, j2: int|
                        0 <= j1 <= j2 < m.fills.len() ==> (#[trigger] m.fills[j1]).price <= (
                        #[trigger] m.fills[j2]).price
                },
                Side::Ask => {
                    &&& m.fills.len() > 0 ==> spec_best_bid(v) == Some(m.fills[0].price)
                    &&& forall|j1: int, j2: int|
                        0 <= j1 <= j2 < m.fills.len() ==> (#[trigger] m.fills[j1]).price >= (
                        #[trigger] m.fills[j2]).price
                },
            }
        }),
{
    match side {
        Side::Bid => {
            lemma_side_wf_of(v, Side::Ask);
            assert forall|q: int, i: int|
                0 <= q < v.asks.len() && 0 <= i < v.asks[q].len() implies (
            #[trigger] v.asks[q][i]).qty >= 0 by {
                assert(crate::model::valid_qty(side_levels(v, Side::Ask)[q][i].qty));
            }
            lemma_consume_asc_priority(v.asks, 0, qty, v.index);
        },
        Side::Ask => {
            lemma_side_wf_of(v, Side::Bid);
            assert forall|q: int, i: int|
                0 <= q < v.bids.len() && 0 <= i < v.bids[q].len() implies (
            #[trigger] v.bids[q][i]).qty >= 0 by {
                assert(crate::model::valid_qty(side_levels(v, Side::Bid)[q][i].qty));
            }
            lemma_consume_desc_priority(v.bids, v.bids.len() - 1, qty, v.index);
        },
    }
}

/// Cross-representation equivalence: any two well-formed books that denote
/// the same abstract state produce, by the shared operational contract,
/// identical results and identical successor states for every operation.
/// Each operation's contract pins its outcome to the spec transition of
/// the abstract state alone, so equal abstractions behave identically.
pub proof fn lemma_cross_representation<A: OrderbookTrait, B: OrderbookTrait>(
    a: &A,
    b: &B,
    o: OrderView,
    id: u64,
    side: Side,
    qty: int,
    price: int,
)
    requires
        a.wf(),
        b.wf(),
        a.abs() == b.abs(),
    ensures
        spec_admit(a.abs(), o) == spec_admit(b.abs(), o),
        spec_cancel(a.abs(), id) == spec_cancel(b.abs(), id),
        spec_execute(a.abs(), side, qty) == spec_execute(b.abs(), side, qty),
        spec_best_bid(a.abs()) == spec_best_bid(b.abs()),
        spec_best_ask(a.abs()) == spec_best_ask(b.abs()),
        spec_depth_at(a.abs(), price, side) == spec_depth_at(b.abs(), price, side),
        spec_mid(a.abs()) == spec_mid(b.abs()),
{
}

} // verus!
