//! The abstract model of an order book.
//!
//! Every book representation is specified against one ghost state,
//! [`BookView`]: for each side a sequence of price levels indexed by tick,
//! each level an insertion-ordered sequence of resting orders, together with
//! the id index mapping each resting order's identifier to its locator.
//! The operational contract of every representation pins its result and its
//! new state to the spec-level transitions defined here.

use vstd::prelude::*;

use crate::order::{OrderView, Side};
use crate::price::{MAX_PRICE, TICK_SIZE};
use crate::quantity::LOT_SIZE;

verus! {

/// One resting order as the model sees it: identifier and remaining lots.
pub ghost struct RestingView {
    pub id: u64,
    pub qty: int,
}

/// One fill as the model sees it: execution price, lots traded, and the
/// identifier of the resting (maker) order that was consumed.
pub ghost struct FillView {
    pub price: int,
    pub qty: int,
    pub maker: u64,
}

/// The abstract state of an order book. `bids` and `asks` each hold
/// `MAX_PRICE` levels, indexed directly by tick; `index` maps each resting
/// order's id to its (side, price) locator.
#[verifier::ext_equal]
pub ghost struct BookView {
    pub bids: Seq<Seq<RestingView>>,
    pub asks: Seq<Seq<RestingView>>,
    pub index: Map<u64, (Side, int)>,
}

/// A price is admissible when it lies strictly between zero and the tick
/// bound. The tick size is one, so every integer price is tick-aligned.
pub open spec fn valid_price(p: int) -> bool {
    1 <= p < MAX_PRICE
}

/// A quantity is admissible when it is a positive lot count that fits the
/// machine word quantities are carried in.
pub open spec fn valid_qty(q: int) -> bool {
    0 < q <= u32::MAX
}

/// The levels of one side of the book.
pub open spec fn side_levels(v: BookView, s: Side) -> Seq<Seq<RestingView>> {
    match s {
        Side::Bid => v.bids,
        Side::Ask => v.asks,
    }
}

/// The side a market order consumes liquidity from.
pub open spec fn opposite(s: Side) -> Side {
    match s {
        Side::Bid => Side::Ask,
        Side::Ask => Side::Bid,
    }
}

/// Total resting quantity of one level.
pub open spec fn sum_qty(level: Seq<RestingView>) -> int
    decreases level.len(),
{
    if level.len() == 0 {
        0
    } else {
        level[0].qty + sum_qty(level.drop_first())
    }
}

/// Number of resting orders on one side, over the levels from `i` on.
pub open spec fn count_side_from(levels: Seq<Seq<RestingView>>, i: int) -> int
    decreases levels.len() - i,
{
    if i < 0 || i >= levels.len() {
        0
    } else {
        levels[i].len() + count_side_from(levels, i + 1)
    }
}

/// Number of resting orders on one side.
pub open spec fn count_side(levels: Seq<Seq<RestingView>>) -> int {
    count_side_from(levels, 0)
}

/// Total number of resting orders in the book.
pub open spec fn order_count(v: BookView) -> int {
    count_side(v.bids) + count_side(v.asks)
}

/// Whether some order in `level` carries the identifier `id`.
pub open spec fn contains_id(level: Seq<RestingView>, id: u64) -> bool {
    exists|i: int| 0 <= i < level.len() && level[i].id == id
}

/// The position of the first order in `level` with identifier `id`,
/// or `-1` when no order carries it.
pub open spec fn find_id(level: Seq<RestingView>, id: u64) -> int
    decreases level.len(),
{
    if level.len() == 0 {
        -1
    } else if level[0].id == id {
        0
    } else {
        let r = find_id(level.drop_first(), id);
        if r == -1 {
            -1
        } else {
            r + 1
        }
    }
}

/// No two orders of `level` share an identifier.
pub open spec fn level_ids_distinct(level: Seq<RestingView>) -> bool {
    forall|i: int, j: int| 0 <= i < j < level.len() ==> level[i].id != level[j].id
}

/// The per-side half of the book invariant: one level per tick, every
/// resting order at an admissible price with an admissible quantity and a
/// correct index entry, identifiers distinct within a level, and each
/// level's total quantity within machine range.
pub open spec fn side_wf(v: BookView, s: Side) -> bool {
    let levels = side_levels(v, s);
    &&& levels.len() == MAX_PRICE
    &&& forall|p: int, i: int|
        0 <= p < levels.len() && 0 <= i < levels[p].len() ==> {
            &&& valid_price(p)
            &&& valid_qty((#[trigger] levels[p][i]).qty)
            &&& v.index.contains_key(levels[p][i].id)
            &&& v.index[levels[p][i].id] == (s, p)
        }
    &&& forall|p: int| 0 <= p < levels.len() ==> level_ids_distinct(#[trigger] levels[p])
    &&& forall|p: int| 0 <= p < levels.len() ==> sum_qty(#[trigger] levels[p]) <= u32::MAX
}

/// The index half of the book invariant: the index is finite and every
/// entry points at a level that holds the identifier.
pub open spec fn index_wf(v: BookView) -> bool {
    &&& v.index.dom().finite()
    &&& forall|id: u64| #[trigger] v.index.contains_key(id) ==> {
        let s = v.index[id].0;
        let p = v.index[id].1;
        let levels = side_levels(v, s);
        &&& 0 <= p < levels.len()
        &&& contains_id(levels[p], id)
    }
}

/// The book invariant: both sides well formed, the index an exact mirror of
/// resting-order membership, and the index cardinality equal to the number
/// of resting orders.
pub open spec fn view_wf(v: BookView) -> bool {
    &&& side_wf(v, Side::Bid)
    &&& side_wf(v, Side::Ask)
    &&& index_wf(v)
    &&& v.index.dom().len() == order_count(v)
}

/// The empty book: every level empty on both sides, no index entries.
pub open spec fn empty_book() -> BookView {
    BookView {
        bids: Seq::new(MAX_PRICE as nat, |p: int| Seq::empty()),
        asks: Seq::new(MAX_PRICE as nat, |p: int| Seq::empty()),
        index: Map::empty(),
    }
}

/// Replace the levels of one side of the book.
pub open spec fn with_side(v: BookView, s: Side, levels: Seq<Seq<RestingView>>) -> BookView {
    match s {
        Side::Bid => BookView { bids: levels, ..v },
        Side::Ask => BookView { asks: levels, ..v },
    }
}

/// The outcome of one admission validation step, checked in the order the
/// book applies them: tick alignment, price bounds, lot alignment, then a
/// zero-quantity check.
pub ghost enum AdmitCheck {
    TickErr,
    BoundsErr,
    LotErr,
    ZeroErr,
    Accept,
}

/// Which validation an admission fails, if any. The tick and lot sizes are
/// one, so the alignment checks never fail; they are kept because they are
/// part of the validation order the contract commits to.
pub open spec fn admit_check(price: int, qty: int) -> AdmitCheck {
    if price % (TICK_SIZE as int) != 0 {
        AdmitCheck::TickErr
    } else if !(1 <= price < MAX_PRICE) {
        AdmitCheck::BoundsErr
    } else if qty % (LOT_SIZE as int) != 0 {
        AdmitCheck::LotErr
    } else if qty == 0 {
        AdmitCheck::ZeroErr
    } else {
        AdmitCheck::Accept
    }
}

/// The book after admitting an accepted order: the order is appended to the
/// tail of its (side, price) level and its id is entered into the index.
pub open spec fn spec_admit(v: BookView, o: OrderView) -> BookView {
    let levels = side_levels(v, o.side);
    let levels2 = levels.update(o.price, levels[o.price].push(RestingView { id: o.id, qty: o.qty }));
    let v2 = with_side(v, o.side, levels2);
    BookView { index: v.index.insert(o.id, (o.side, o.price)), ..v2 }
}

/// The book after cancelling the resting order `id`, which must be present
/// in the index: the order leaves its level and the index entry is removed.
pub open spec fn spec_cancel(v: BookView, id: u64) -> BookView {
    let s = v.index[id].0;
    let p = v.index[id].1;
    let levels = side_levels(v, s);
    let i = find_id(levels[p], id);
    let v2 = with_side(v, s, levels.update(p, levels[p].remove(i)));
    BookView { index: v.index.remove(id), ..v2 }
}

/// The result of consuming liquidity from one level, FIFO: the fills
/// emitted, the unfilled remainder, the orders left resting, the index with
/// the consumed ids removed, and whether consumption stopped because the
/// next resting order was larger than the remainder (a partial fill of a
/// resting order, which the book does not support).
pub ghost struct LevelRes {
    pub fills: Seq<FillView>,
    pub rem: int,
    pub left: Seq<RestingView>,
    pub index: Map<u64, (Side, int)>,
    pub split: bool,
}

/// Consume orders of one level in FIFO order. Each resting order either
/// matches exactly and is retired, or is left untouched; a remainder
/// smaller than the head order stops consumption with `split` set.
pub open spec fn consume_level(
    orders: Seq<RestingView>,
    price: int,
    qty: int,
    index: Map<u64, (Side, int)>,
) -> LevelRes
    decreases orders.len(),
{
    if qty <= 0 || orders.len() == 0 {
        LevelRes { fills: Seq::empty(), rem: qty, left: orders, index, split: false }
    } else if orders[0].qty <= qty {
        let head = orders[0];
        let r = consume_level(orders.drop_first(), price, qty - head.qty, index.remove(head.id));
        LevelRes {
            fills: seq![FillView { price, qty: head.qty, maker: head.id }] + r.fills,
            rem: r.rem,
            left: r.left,
            index: r.index,
            split: r.split,
        }
    } else {
        LevelRes { fills: Seq::empty(), rem: qty, left: orders, index, split: true }
    }
}

/// The result of consuming liquidity across levels: the fills emitted in
/// price-priority order, the unfilled remainder, the levels after
/// consumption, the index with the consumed ids removed, and the split flag.
pub ghost struct SweepRes {
    pub fills: Seq<FillView>,
    pub rem: int,
    pub levels: Seq<Seq<RestingView>>,
    pub index: Map<u64, (Side, int)>,
    pub split: bool,
}

/// Consume liquidity walking the levels upward from tick `p` (ask-side
/// consumption for an incoming bid: lowest price first).
pub open spec fn consume_asc(
    levels: Seq<Seq<RestingView>>,
    p: int,
    qty: int,
    index: Map<u64, (Side, int)>,
) -> SweepRes
    decreases levels.len() - p,
{
    if qty <= 0 || p < 0 || p >= levels.len() {
        SweepRes { fills: Seq::empty(), rem: qty, levels, index, split: false }
    } else {
        let lr = consume_level(levels[p], p, qty, index);
        let levels2 = levels.update(p, lr.left);
        if lr.split {
            SweepRes { fills: lr.fills, rem: lr.rem, levels: levels2, index: lr.index, split: true }
        } else {
            let r = consume_asc(levels2, p + 1, lr.rem, lr.index);
            SweepRes {
                fills: lr.fills + r.fills,
                rem: r.rem,
                levels: r.levels,
                index: r.index,
                split: r.split,
            }
        }
    }
}

/// Consume liquidity walking the levels downward from tick `p` (bid-side
/// consumption for an incoming ask: highest price first).
pub open spec fn consume_desc(
    levels: Seq<Seq<RestingView>>,
    p: int,
    qty: int,
    index: Map<u64, (Side, int)>,
) -> SweepRes
    decreases p + 1,
{
    if qty <= 0 || p < 0 || p >= levels.len() {
        SweepRes { fills: Seq::empty(), rem: qty, levels, index, split: false }
    } else {
        let lr = consume_level(levels[p], p, qty, index);
        let levels2 = levels.update(p, lr.left);
        if lr.split {
            SweepRes { fills: lr.fills, rem: lr.rem, levels: levels2, index: lr.index, split: true }
        } else {
            let r = consume_desc(levels2, p - 1, lr.rem, lr.index);
            SweepRes {
                fills: lr.fills + r.fills,
                rem: r.rem,
                levels: r.levels,
                index: r.index,
                split: r.split,
            }
        }
    }
}

/// The result of a market order at the level of the model: the book after
/// execution, the fills emitted, the unfilled remainder, and whether
/// execution stopped on an unsupported partial fill of a resting order.
pub ghost struct MarketRes {
    pub book: BookView,
    pub fills: Seq<FillView>,
    pub rem: int,
    pub split: bool,
}

/// Execute a market order of `qty` lots on side `side`: an incoming bid
/// consumes asks in ascending price order, an incoming ask consumes bids in
/// descending price order, FIFO within each level.
pub open spec fn spec_execute(v: BookView, side: Side, qty: int) -> MarketRes {
    match side {
        Side::Bid => {
            let r = consume_asc(v.asks, 0, qty, v.index);
            MarketRes {
                book: BookView { asks: r.levels, index: r.index, ..v },
                fills: r.fills,
                rem: r.rem,
                split: r.split,
            }
        },
        Side::Ask => {
            let r = consume_desc(v.bids, v.bids.len() - 1, qty, v.index);
            MarketRes {
                book: BookView { bids: r.levels, index: r.index, ..v },
                fills: r.fills,
                rem: r.rem,
                split: r.split,
            }
        },
    }
}

/// The best (highest) populated bid tick at or below `p`.
pub open spec fn best_bid_from(levels: Seq<Seq<RestingView>>, p: int) -> Option<int>
    decreases p + 1,
{
    if p < 0 || p >= levels.len() {
        None
    } else if levels[p].len() > 0 {
        Some(p)
    } else {
        best_bid_from(levels, p - 1)
    }
}

/// The best (lowest) populated ask tick at or above `p`.
pub open spec fn best_ask_from(levels: Seq<Seq<RestingView>>, p: int) -> Option<int>
    decreases levels.len() - p,
{
    if p < 0 || p >= levels.len() {
        None
    } else if levels[p].len() > 0 {
        Some(p)
    } else {
        best_ask_from(levels, p + 1)
    }
}

/// The highest resting bid price, or `None` when the bid side is empty.
pub open spec fn spec_best_bid(v: BookView) -> Option<int> {
    best_bid_from(v.bids, v.bids.len() - 1)
}

/// The lowest resting ask price, or `None` when the ask side is empty.
pub open spec fn spec_best_ask(v: BookView) -> Option<int> {
    best_ask_from(v.asks, 0)
}

/// The total quantity resting at exactly (price, side); zero for an
/// out-of-range price.
pub open spec fn spec_depth_at(v: BookView, price: int, s: Side) -> int {
    if valid_price(price) && price % (TICK_SIZE as int) == 0 {
        sum_qty(side_levels(v, s)[price])
    } else {
        0
    }
}

/// The mid price: the floored average of the best bid and best ask, or
/// `None` when either side is empty.
pub open spec fn spec_mid(v: BookView) -> Option<int> {
    match (spec_best_bid(v), spec_best_ask(v)) {
        (Some(b), Some(a)) => Some((b + a) / 2),
        _ => None,
    }
}

pub proof fn lemma_sum_qty_push(level: Seq<RestingView>, x: RestingView)
    ensures
        sum_qty(level.push(x)) == sum_qty(level) + x.qty,
    decreases level.len(),
{
    if level.len() == 0 {
        assert(level.push(x)[0] == x);
        assert(level.push(x).len() == 1);
        assert(level.push(x).drop_first() =~= Seq::<RestingView>::empty());
        assert(sum_qty(Seq::<RestingView>::empty()) == 0);
        assert(sum_qty(level) == 0);
        assert(sum_qty(level.push(x)) == level.push(x)[0].qty + sum_qty(level.push(x).drop_first()));
    } else {
        assert(level.push(x)[0] == level[0]);
        assert(level.push(x).drop_first() =~= level.drop_first().push(x));
        lemma_sum_qty_push(level.drop_first(), x);
    }
}

pub proof fn lemma_sum_qty_remove(level: Seq<RestingView>, i: int)
    requires
        0 <= i < level.len(),
    ensures
        sum_qty(level.remove(i)) == sum_qty(level) - level[i].qty,
    decreases level.len(),
{
    if i == 0 {
        assert(level.remove(0) =~= level.drop_first());
    } else {
        assert(level.remove(i).drop_first() =~= level.drop_first().remove(i - 1));
        lemma_sum_qty_remove(level.drop_first(), i - 1);
    }
}

pub proof fn lemma_sum_qty_nonneg(level: Seq<RestingView>)
    requires
        forall|i: int| 0 <= i < level.len() ==> (#[trigger] level[i]).qty >= 0,
    ensures
        sum_qty(level) >= 0,
    decreases level.len(),
{
    if level.len() > 0 {
        lemma_sum_qty_nonneg(level.drop_first());
    }
}

pub proof fn lemma_sum_qty_split(level: Seq<RestingView>, m: int)
    requires
        0 <= m <= level.len(),
    ensures
        sum_qty(level) == sum_qty(level.take(m)) + sum_qty(level.skip(m)),
    decreases m,
{
    if m == 0 {
        assert(level.take(0) =~= Seq::<RestingView>::empty());
        assert(level.skip(0) =~= level);
        assert(sum_qty(Seq::<RestingView>::empty()) == 0);
    } else {
        assert(level.take(m)[0] == level[0]);
        assert(level.take(m).drop_first() =~= level.drop_first().take(m - 1));
        assert(level.skip(m) =~= level.drop_first().skip(m - 1));
        lemma_sum_qty_split(level.drop_first(), m - 1);
    }
}

pub proof fn lemma_sum_qty_take_step(level: Seq<RestingView>, m: int)
    requires
        0 <= m < level.len(),
    ensures
        sum_qty(level.take(m + 1)) == sum_qty(level.take(m)) + level[m].qty,
{
    assert(level.take(m + 1) =~= level.take(m).push(level[m]));
    lemma_sum_qty_push(level.take(m), level[m]);
}

pub proof fn lemma_count_side_from_update(
    levels: Seq<Seq<RestingView>>,
    i: int,
    p: int,
    nl: Seq<RestingView>,
)
    requires
        0 <= p < levels.len(),
        0 <= i,
    ensures
        count_side_from(levels.update(p, nl), i) == count_side_from(levels, i) + if i <= p {
            nl.len() - levels[p].len()
        } else {
            0
        },
    decreases levels.len() - i,
{
    if i >= levels.len() {
    } else {
        lemma_count_side_from_update(levels, i + 1, p, nl);
    }
}

pub proof fn lemma_count_side_from_all_empty(levels: Seq<Seq<RestingView>>, i: int)
    requires
        forall|p: int| 0 <= p < levels.len() ==> (#[trigger] levels[p]).len() == 0,
    ensures
        count_side_from(levels, i) == 0,
    decreases levels.len() - i,
{
    if 0 <= i < levels.len() {
        lemma_count_side_from_all_empty(levels, i + 1);
    }
}

pub proof fn lemma_count_side_from_nonneg(levels: Seq<Seq<RestingView>>, i: int)
    ensures
        count_side_from(levels, i) >= 0,
    decreases levels.len() - i,
{
    if 0 <= i < levels.len() {
        lemma_count_side_from_nonneg(levels, i + 1);
    }
}

pub proof fn lemma_find_id_props(level: Seq<RestingView>, id: u64)
    ensures
        find_id(level, id) >= 0 <==> contains_id(level, id),
        find_id(level, id) >= 0 ==> {
            let i = find_id(level, id);
            &&& 0 <= i < level.len()
            &&& level[i].id == id
            &&& forall|j: int| 0 <= j < i ==> level[j].id != id
        },
        find_id(level, id) >= 0 || find_id(level, id) == -1,
    decreases level.len(),
{
    if level.len() == 0 {
        assert(!contains_id(level, id));
    } else if level[0].id == id {
        assert(contains_id(level, id));
    } else {
        let rest = level.drop_first();
        lemma_find_id_props(rest, id);
        if contains_id(level, id) {
            let w = choose|w: int| 0 <= w < level.len() && level[w].id == id;
            assert(rest[w - 1].id == id);
            assert(contains_id(rest, id));
        }
        if contains_id(rest, id) {
            let w = choose|w: int| 0 <= w < rest.len() && rest[w].id == id;
            assert(level[w + 1].id == id);
            assert(contains_id(level, id));
        }
        if find_id(level, id) >= 0 {
            let i = find_id(level, id);
            assert(level[i] == rest[i - 1]);
            assert forall|j: int| 0 <= j < i implies level[j].id != id by {
                if j > 0 {
                    assert(level[j] == rest[j - 1]);
                }
            }
        }
    }
}

pub proof fn lemma_find_id_push_fresh(level: Seq<RestingView>, x: RestingView)
    requires
        !contains_id(level, x.id),
    ensures
        find_id(level.push(x), x.id) == level.len(),
    decreases level.len(),
{
    let pushed = level.push(x);
    if level.len() == 0 {
        assert(pushed[0] == x);
    } else {
        assert(level[0].id != x.id);
        assert(pushed[0].id != x.id);
        assert(pushed.drop_first() =~= level.drop_first().push(x));
        assert(!contains_id(level.drop_first(), x.id)) by {
            if contains_id(level.drop_first(), x.id) {
                let w = choose|w: int|
                    0 <= w < level.drop_first().len() && level.drop_first()[w].id == x.id;
                assert(level[w + 1].id == x.id);
            }
        }
        lemma_find_id_push_fresh(level.drop_first(), x);
    }
}

/// The book with the resting order at position `i` of level `p` on side `s`
/// removed, together with its index entry.
pub open spec fn remove_order(v: BookView, s: Side, p: int, i: int) -> BookView {
    let levels = side_levels(v, s);
    let id = levels[p][i].id;
    let v2 = with_side(v, s, levels.update(p, levels[p].remove(i)));
    BookView { index: v.index.remove(id), ..v2 }
}

/// The book invariant holds of each side separately, whichever side is asked for.
pub proof fn lemma_side_wf_of(v: BookView, s: Side)
    requires
        view_wf(v),
    ensures
        side_wf(v, s),
{
    match s {
        Side::Bid => {},
        Side::Ask => {},
    }
}

/// In a well-formed book, a resting order's identifier determines its
/// position: two positions holding the same identifier are the same position.
pub proof fn lemma_wf_id_unique(
    v: BookView,
    s1: Side,
    p1: int,
    i1: int,
    s2: Side,
    p2: int,
    i2: int,
)
    requires
        view_wf(v),
        0 <= p1 < side_levels(v, s1).len(),
        0 <= i1 < side_levels(v, s1)[p1].len(),
        0 <= p2 < side_levels(v, s2).len(),
        0 <= i2 < side_levels(v, s2)[p2].len(),
        side_levels(v, s1)[p1][i1].id == side_levels(v, s2)[p2][i2].id,
    ensures
        s1 == s2,
        p1 == p2,
        i1 == i2,
{
    lemma_side_wf_of(v, s1);
    lemma_side_wf_of(v, s2);
    let id = side_levels(v, s1)[p1][i1].id;
    assert(v.index[id] == (s1, p1));
    assert(v.index[id] == (s2, p2));
    assert(level_ids_distinct(side_levels(v, s1)[p1]));
}

/// Admission of an accepted order with a fresh identifier preserves the
/// book invariant and grows the book by one resting order.
pub proof fn lemma_admit_wf(v: BookView, o: OrderView)
    requires
        view_wf(v),
        admit_check(o.price, o.qty) is Accept,
        0 <= o.qty <= u32::MAX,
        !v.index.contains_key(o.id),
        sum_qty(side_levels(v, o.side)[o.price]) + o.qty <= u32::MAX,
    ensures
        view_wf(spec_admit(v, o)),
        order_count(spec_admit(v, o)) == order_count(v) + 1,
{
    broadcast use vstd::set::axiom_set_insert_len;

    let v2 = spec_admit(v, o);
    let s = o.side;
    let other = opposite(s);
    let x = RestingView { id: o.id, qty: o.qty };
    let levels = side_levels(v, s);
    let olevels = side_levels(v, other);
    let nl = levels[o.price].push(x);
    let levels2 = levels.update(o.price, nl);

    lemma_side_wf_of(v, s);
    lemma_side_wf_of(v, other);
    lemma_sum_qty_push(levels[o.price], x);
    lemma_count_side_from_update(levels, 0, o.price, nl);

    assert(side_levels(v2, s) == levels2);
    assert(side_levels(v2, other) == olevels);
    assert(v2.index == v.index.insert(o.id, (s, o.price)));
    assert(s != other);

    // The augmented side keeps every clause: old entries are unchanged and
    // their identifiers differ from the fresh one, the appended entry is
    // admissible and indexed.
    assert forall|p: int, i: int|
        0 <= p < levels2.len() && 0 <= i < levels2[p].len() implies {
            &&& valid_price(p)
            &&& valid_qty((#[trigger] levels2[p][i]).qty)
            &&& v2.index.contains_key(levels2[p][i].id)
            &&& v2.index[levels2[p][i].id] == (s, p)
        } by {
        if p == o.price && i == levels[p].len() {
            assert(levels2[p][i] == x);
        } else {
            assert(levels2[p][i] == levels[p][i]);
            assert(v.index.contains_key(levels[p][i].id));
            assert(levels[p][i].id != o.id);
        }
    }
    assert forall|p: int| 0 <= p < levels2.len() implies level_ids_distinct(
        #[trigger] levels2[p],
    ) by {
        assert(level_ids_distinct(levels[p]));
        if p == o.price {
            assert forall|i: int, j: int| 0 <= i < j < nl.len() implies nl[i].id != nl[j].id by {
                assert(nl[i] == levels[p][i]);
                if j < levels[p].len() {
                    assert(nl[j] == levels[p][j]);
                } else {
                    assert(nl[j] == x);
                    assert(v.index.contains_key(levels[p][i].id));
                }
            }
        }
    }
    assert forall|p: int| 0 <= p < levels2.len() implies sum_qty(#[trigger] levels2[p])
        <= u32::MAX by {
        if p != o.price {
            assert(levels2[p] == levels[p]);
        }
    }
    assert(side_wf(v2, s));

    // The opposite side is untouched and its index entries survive the insert.
    assert forall|p: int, i: int|
        0 <= p < olevels.len() && 0 <= i < olevels[p].len() implies {
            &&& valid_price(p)
            &&& valid_qty((#[trigger] olevels[p][i]).qty)
            &&& v2.index.contains_key(olevels[p][i].id)
            &&& v2.index[olevels[p][i].id] == (other, p)
        } by {
        assert(v.index.contains_key(olevels[p][i].id));
        assert(olevels[p][i].id != o.id);
    }
    assert(side_wf(v2, other));

    // Every index entry still points at a level holding its identifier.
    assert forall|id: u64| #[trigger] v2.index.contains_key(id) implies {
        let s1 = v2.index[id].0;
        let p1 = v2.index[id].1;
        let lv = side_levels(v2, s1);
        &&& 0 <= p1 < lv.len()
        &&& contains_id(lv[p1], id)
    } by {
        if id == o.id {
            let k = levels[o.price].len() as int;
            assert(nl[k] == x);
            assert(contains_id(levels2[o.price], o.id));
        } else {
            assert(v.index.contains_key(id));
            let s1 = v.index[id].0;
            let p1 = v.index[id].1;
            assert(contains_id(side_levels(v, s1)[p1], id));
            let w = choose|w: int|
                0 <= w < side_levels(v, s1)[p1].len() && side_levels(v, s1)[p1][w].id == id;
            if s1 == s && p1 == o.price {
                assert(nl[w].id == id);
                assert(contains_id(levels2[p1], id));
            } else {
                assert(side_levels(v2, s1)[p1] == side_levels(v, s1)[p1]);
                assert(side_levels(v2, s1)[p1][w].id == id);
            }
        }
    }

    // Cardinality: one fresh key, one more resting order.
    assert(v2.index.dom() == v.index.dom().insert(o.id));
    assert(v2.index.dom().len() == v.index.dom().len() + 1);
    assert(count_side(levels2) == count_side(levels) + 1);
    match s {
        Side::Bid => {
            assert(order_count(v2) == order_count(v) + 1);
        },
        Side::Ask => {
            assert(order_count(v2) == order_count(v) + 1);
        },
    }
}

/// Removing one resting order together with its index entry preserves the
/// book invariant and shrinks the book by one resting order. The level's
/// total quantity shrinks by the removed order's quantity.
pub proof fn lemma_remove_order_wf(v: BookView, s: Side, p: int, i: int)
    requires
        view_wf(v),
        0 <= p < side_levels(v, s).len(),
        0 <= i < side_levels(v, s)[p].len(),
    ensures
        view_wf(remove_order(v, s, p, i)),
        order_count(remove_order(v, s, p, i)) == order_count(v) - 1,
        sum_qty(side_levels(remove_order(v, s, p, i), s)[p]) == sum_qty(side_levels(v, s)[p])
            - side_levels(v, s)[p][i].qty,
{
    broadcast use vstd::set::axiom_set_remove_len;

    let v2 = remove_order(v, s, p, i);
    let other = opposite(s);
    let levels = side_levels(v, s);
    let olevels = side_levels(v, other);
    let id = levels[p][i].id;
    let nl = levels[p].remove(i);
    let levels2 = levels.update(p, nl);

    lemma_side_wf_of(v, s);
    lemma_side_wf_of(v, other);
    lemma_sum_qty_remove(levels[p], i);
    lemma_count_side_from_update(levels, 0, p, nl);

    assert(side_levels(v2, s) == levels2);
    assert(side_levels(v2, other) == olevels);
    assert(v2.index == v.index.remove(id));
    assert(s != other);
    assert(v.index[id] == (s, p));

    // The consumed side keeps every clause: surviving entries shift but are
    // unchanged values, and their identifiers differ from the removed one.
    assert forall|q: int, j: int|
        0 <= q < levels2.len() && 0 <= j < levels2[q].len() implies {
            &&& valid_price(q)
            &&& valid_qty((#[trigger] levels2[q][j]).qty)
            &&& v2.index.contains_key(levels2[q][j].id)
            &&& v2.index[levels2[q][j].id] == (s, q)
        } by {
        if q == p {
            let oj = if j < i {
                j
            } else {
                j + 1
            };
            assert(levels2[q][j] == levels[p][oj]);
            assert(level_ids_distinct(levels[p]));
            assert(levels[p][oj].id != id);
        } else {
            assert(levels2[q][j] == levels[q][j]);
            assert(v.index[levels[q][j].id] == (s, q));
            assert(levels[q][j].id != id);
        }
    }
    assert forall|q: int| 0 <= q < levels2.len() implies level_ids_distinct(
        #[trigger] levels2[q],
    ) by {
        assert(level_ids_distinct(levels[q]));
        if q == p {
            assert forall|a: int, b: int| 0 <= a < b < nl.len() implies nl[a].id != nl[b].id by {
                let oa = if a < i {
                    a
                } else {
                    a + 1
                };
                let ob = if b < i {
                    b
                } else {
                    b + 1
                };
                assert(nl[a] == levels[p][oa]);
                assert(nl[b] == levels[p][ob]);
            }
        }
    }
    assert forall|q: int| 0 <= q < levels2.len() implies sum_qty(#[trigger] levels2[q])
        <= u32::MAX by {
        if q == p {
            assert(valid_qty(levels[p][i].qty));
        } else {
            assert(levels2[q] == levels[q]);
        }
    }
    assert(side_wf(v2, s));

    // The opposite side is untouched; its identifiers differ from the removed one.
    assert forall|q: int, j: int|
        0 <= q < olevels.len() && 0 <= j < olevels[q].len() implies {
            &&& valid_price(q)
            &&& valid_qty((#[trigger] olevels[q][j]).qty)
            &&& v2.index.contains_key(olevels[q][j].id)
            &&& v2.index[olevels[q][j].id] == (other, q)
        } by {
        assert(v.index[olevels[q][j].id] == (other, q));
        assert(olevels[q][j].id != id);
    }
    assert(side_wf(v2, other));

    // Every surviving index entry still points at a level holding its identifier.
    assert forall|id2: u64| #[trigger] v2.index.contains_key(id2) implies {
        let s1 = v2.index[id2].0;
        let p1 = v2.index[id2].1;
        let lv = side_levels(v2, s1);
        &&& 0 <= p1 < lv.len()
        &&& contains_id(lv[p1], id2)
    } by {
        assert(v.index.contains_key(id2));
        assert(id2 != id);
        let s1 = v.index[id2].0;
        let p1 = v.index[id2].1;
        assert(contains_id(side_levels(v, s1)[p1], id2));
        let w = choose|w: int|
            0 <= w < side_levels(v, s1)[p1].len() && side_levels(v, s1)[p1][w].id == id2;
        if s1 == s && p1 == p {
            assert(w != i);
            let w2 = if w < i {
                w
            } else {
                w - 1
            };
            assert(nl[w2] == levels[p][w]);
            assert(contains_id(levels2[p1], id2));
        } else {
            assert(side_levels(v2, s1)[p1] == side_levels(v, s1)[p1]);
            assert(side_levels(v2, s1)[p1][w].id == id2);
        }
    }

    // Cardinality: one key removed, one less resting order.
    assert(v2.index.dom() == v.index.dom().remove(id));
    assert(v2.index.dom().len() == v.index.dom().len() - 1);
    match s {
        Side::Bid => {
            assert(order_count(v2) == order_count(v) - 1);
        },
        Side::Ask => {
            assert(order_count(v2) == order_count(v) - 1);
        },
    }
}

/// Cancelling a resting order preserves the book invariant and shrinks the
/// book by one resting order.
pub proof fn lemma_cancel_wf(v: BookView, id: u64)
    requires
        view_wf(v),
        v.index.contains_key(id),
    ensures
        view_wf(spec_cancel(v, id)),
        order_count(spec_cancel(v, id)) == order_count(v) - 1,
{
    let s = v.index[id].0;
    let p = v.index[id].1;
    lemma_find_id_props(side_levels(v, s)[p], id);
    let i = find_id(side_levels(v, s)[p], id);
    assert(side_levels(v, s)[p][i].id == id);
    lemma_remove_order_wf(v, s, p, i);
    assert(spec_cancel(v, id) == remove_order(v, s, p, i));
}

/// The shape of FIFO consumption within one level: the fills are exactly
/// the consumed prefix of the level, in order; what is left is the
/// corresponding suffix; and the remainder accounts for the consumed lots.
pub proof fn lemma_consume_level_shape(
    orders: Seq<RestingView>,
    price: int,
    qty: int,
    index: Map<u64, (Side, int)>,
)
    requires
        forall|i: int| 0 <= i < orders.len() ==> (#[trigger] orders[i]).qty >= 0,
    ensures
        ({
            let lr = consume_level(orders, price, qty, index);
            &&& 0 <= lr.fills.len() <= orders.len()
            &&& lr.left == orders.skip(lr.fills.len() as int)
            &&& forall|k: int|
                0 <= k < lr.fills.len() ==> {
                    &&& (#[trigger] lr.fills[k]).price == price
                    &&& lr.fills[k].maker == orders[k].id
                    &&& lr.fills[k].qty == orders[k].qty
                }
            &&& sum_qty(orders.take(lr.fills.len() as int)) == qty - lr.rem
            &&& qty >= 0 ==> 0 <= lr.rem <= qty
            &&& !lr.split ==> lr.rem <= 0 || lr.fills.len() == orders.len()
            &&& lr.split ==> lr.fills.len() < orders.len() && 0 < lr.rem < orders[lr.fills.len() as int].qty
        }),
    decreases orders.len(),
{
    let lr = consume_level(orders, price, qty, index);
    if qty <= 0 || orders.len() == 0 {
        assert(orders.skip(0) =~= orders);
        assert(orders.take(0) =~= Seq::<RestingView>::empty());
        assert(sum_qty(Seq::<RestingView>::empty()) == 0);
    } else if orders[0].qty <= qty {
        let head = orders[0];
        let rest = orders.drop_first();
        lemma_consume_level_shape(rest, price, qty - head.qty, index.remove(head.id));
        let r = consume_level(rest, price, qty - head.qty, index.remove(head.id));
        let n = r.fills.len() as int;
        assert(lr.fills.len() == n + 1);
        assert(orders.skip(n + 1) =~= rest.skip(n));
        assert forall|k: int| 0 <= k < lr.fills.len() implies {
            &&& (#[trigger] lr.fills[k]).price == price
            &&& lr.fills[k].maker == orders[k].id
            &&& lr.fills[k].qty == orders[k].qty
        } by {
            if k > 0 {
                assert(lr.fills[k] == r.fills[k - 1]);
                assert(orders[k] == rest[k - 1]);
            }
        }
        assert(orders.take(n + 1).drop_first() =~= rest.take(n));
        assert(orders.take(n + 1)[0] == head);
        assert(sum_qty(orders.take(n + 1)) == head.qty + sum_qty(rest.take(n)));
    } else {
        assert(orders.skip(0) =~= orders);
        assert(orders.take(0) =~= Seq::<RestingView>::empty());
        assert(sum_qty(Seq::<RestingView>::empty()) == 0);
    }
}

/// FIFO consumption of one level, with the consumed identifiers removed
/// from the index, preserves the book invariant.
pub proof fn lemma_consume_level_wf(v: BookView, s: Side, p: int, qty: int)
    requires
        view_wf(v),
        0 <= p < side_levels(v, s).len(),
    ensures
        ({
            let lr = consume_level(side_levels(v, s)[p], p, qty, v.index);
            let v2 = BookView {
                index: lr.index,
                ..with_side(v, s, side_levels(v, s).update(p, lr.left))
            };
            view_wf(v2)
        }),
    decreases side_levels(v, s)[p].len(),
{
    let levels = side_levels(v, s);
    let orders = levels[p];
    let lr = consume_level(orders, p, qty, v.index);
    let v2 = BookView { index: lr.index, ..with_side(v, s, levels.update(p, lr.left)) };
    if qty <= 0 || orders.len() == 0 {
        assert(levels.update(p, lr.left) =~= levels);
        assert(v2 =~= v);
    } else if orders[0].qty <= qty {
        let head = orders[0];
        let v1 = remove_order(v, s, p, 0);
        lemma_remove_order_wf(v, s, p, 0);
        assert(orders.remove(0) =~= orders.drop_first());
        assert(side_levels(v1, s) == levels.update(p, orders.drop_first()));
        assert(side_levels(v1, s)[p] == orders.drop_first());
        assert(v1.index == v.index.remove(head.id));
        lemma_consume_level_wf(v1, s, p, qty - head.qty);
        let lr1 = consume_level(orders.drop_first(), p, qty - head.qty, v1.index);
        assert(lr.left == lr1.left);
        assert(lr.index == lr1.index);
        let v3 = BookView {
            index: lr1.index,
            ..with_side(v1, s, side_levels(v1, s).update(p, lr1.left))
        };
        assert(view_wf(v3));
        assert(side_levels(v1, s).update(p, lr1.left) =~= levels.update(p, lr.left));
        assert(side_levels(v1, opposite(s)) == side_levels(v, opposite(s)));
        assert(v3 =~= v2);
    } else {
        assert(levels.update(p, lr.left) =~= levels);
        assert(v2 =~= v);
    }
}

/// An ascending sweep over the ask levels preserves the book invariant,
/// and the unfilled remainder never exceeds the incoming quantity.
pub proof fn lemma_consume_asc_wf(v: BookView, p: int, qty: int)
    requires
        view_wf(v),
        0 <= qty,
        0 <= p,
    ensures
        ({
            let r = consume_asc(v.asks, p, qty, v.index);
            let v2 = BookView { asks: r.levels, index: r.index, ..v };
            &&& view_wf(v2)
            &&& 0 <= r.rem <= qty
        }),
    decreases v.asks.len() - p,
{
    let r = consume_asc(v.asks, p, qty, v.index);
    if qty <= 0 || p >= v.asks.len() {
        assert(BookView { asks: r.levels, index: r.index, ..v } =~= v);
    } else {
        lemma_side_wf_of(v, Side::Ask);
        lemma_consume_level_wf(v, Side::Ask, p, qty);
        lemma_consume_level_shape(v.asks[p], p, qty, v.index);
        let lr = consume_level(v.asks[p], p, qty, v.index);
        let v1 = BookView { index: lr.index, ..with_side(v, Side::Ask, v.asks.update(p, lr.left)) };
        assert(view_wf(v1));
        assert(v1.asks == v.asks.update(p, lr.left));
        if lr.split {
            assert(BookView { asks: r.levels, index: r.index, ..v } =~= v1);
        } else {
            lemma_consume_asc_wf(v1, p + 1, lr.rem);
            let r2 = consume_asc(v1.asks, p + 1, lr.rem, v1.index);
            assert(r.levels == r2.levels);
            assert(r.index == r2.index);
            assert(r.rem == r2.rem);
            assert(BookView { asks: r.levels, index: r.index, ..v } =~= BookView {
                asks: r2.levels,
                index: r2.index,
                ..v1
            });
        }
    }
}

/// A descending sweep over the bid levels preserves the book invariant,
/// and the unfilled remainder never exceeds the incoming quantity.
pub proof fn lemma_consume_desc_wf(v: BookView, p: int, qty: int)
    requires
        view_wf(v),
        0 <= qty,
        p < side_levels(v, Side::Bid).len(),
    ensures
        ({
            let r = consume_desc(v.bids, p, qty, v.index);
            let v2 = BookView { bids: r.levels, index: r.index, ..v };
            &&& view_wf(v2)
            &&& 0 <= r.rem <= qty
        }),
    decreases p + 1,
{
    let r = consume_desc(v.bids, p, qty, v.index);
    if qty <= 0 || p < 0 {
        assert(BookView { bids: r.levels, index: r.index, ..v } =~= v);
    } else {
        lemma_side_wf_of(v, Side::Bid);
        lemma_consume_level_wf(v, Side::Bid, p, qty);
        lemma_consume_level_shape(v.bids[p], p, qty, v.index);
        let lr = consume_level(v.bids[p], p, qty, v.index);
        let v1 = BookView { index: lr.index, ..with_side(v, Side::Bid, v.bids.update(p, lr.left)) };
        assert(view_wf(v1));
        assert(v1.bids == v.bids.update(p, lr.left));
        if lr.split {
            assert(BookView { bids: r.levels, index: r.index, ..v } =~= v1);
        } else {
            lemma_consume_desc_wf(v1, p - 1, lr.rem);
            let r2 = consume_desc(v1.bids, p - 1, lr.rem, v1.index);
            assert(r.levels == r2.levels);
            assert(r.index == r2.index);
            assert(r.rem == r2.rem);
            assert(BookView { bids: r.levels, index: r.index, ..v } =~= BookView {
                bids: r2.levels,
                index: r2.index,
                ..v1
            });
        }
    }
}

/// A market-order execution preserves the book invariant, and its unfilled
/// remainder never exceeds the incoming quantity.
pub proof fn lemma_execute_wf(v: BookView, side: Side, qty: int)
    requires
        view_wf(v),
        0 <= qty,
    ensures
        view_wf(spec_execute(v, side, qty).book),
        0 <= spec_execute(v, side, qty).rem <= qty,
{
    match side {
        Side::Bid => {
            lemma_consume_asc_wf(v, 0, qty);
        },
        Side::Ask => {
            lemma_side_wf_of(v, Side::Bid);
            lemma_consume_desc_wf(v, v.bids.len() - 1, qty);
        },
    }
}

/// Consumption that starts below a run of empty levels lands on the first
/// populated one: the empty prefix contributes nothing.
pub proof fn lemma_consume_asc_skips_empty(
    levels: Seq<Seq<RestingView>>,
    p: int,
    b: int,
    qty: int,
    index: Map<u64, (Side, int)>,
)
    requires
        0 <= p <= b <= levels.len(),
        forall|q: int| p <= q < b ==> (#[trigger] levels[q]).len() == 0,
    ensures
        consume_asc(levels, p, qty, index) == consume_asc(levels, b, qty, index),
    decreases b - p,
{
    if p < b && qty > 0 {
        let lr = consume_level(levels[p], p, qty, index);
        assert(levels.update(p, lr.left) =~= levels);
        lemma_consume_asc_skips_empty(levels, p + 1, b, qty, index);
        assert(Seq::<FillView>::empty() + consume_asc(levels, b, qty, index).fills
            =~= consume_asc(levels, b, qty, index).fills);
    }
}

/// Consumption that starts above a run of empty levels lands on the first
/// populated one: the empty prefix contributes nothing.
pub proof fn lemma_consume_desc_skips_empty(
    levels: Seq<Seq<RestingView>>,
    p: int,
    b: int,
    qty: int,
    index: Map<u64, (Side, int)>,
)
    requires
        -1 <= b <= p < levels.len(),
        forall|q: int| b < q <= p ==> (#[trigger] levels[q]).len() == 0,
    ensures
        consume_desc(levels, p, qty, index) == consume_desc(levels, b, qty, index),
    decreases p - b,
{
    if b < p && qty > 0 {
        let lr = consume_level(levels[p], p, qty, index);
        assert(levels.update(p, lr.left) =~= levels);
        lemma_consume_desc_skips_empty(levels, p - 1, b, qty, index);
        assert(Seq::<FillView>::empty() + consume_desc(levels, b, qty, index).fills
            =~= consume_desc(levels, b, qty, index).fills);
    }
}


/// What a descending scan for the best bid finds: the highest populated
/// level at or below `p`, or nothing when all of them are empty.
pub proof fn lemma_best_bid_from_props(levels: Seq<Seq<RestingView>>, p: int)
    requires
        p < levels.len(),
    ensures
        match best_bid_from(levels, p) {
            Some(b) => {
                &&& 0 <= b <= p
                &&& levels[b].len() > 0
                &&& forall|q: int| b < q <= p ==> (#[trigger] levels[q]).len() == 0
            },
            None => forall|q: int| 0 <= q <= p ==> (#[trigger] levels[q]).len() == 0,
        },
    decreases p + 1,
{
    if p >= 0 && levels[p].len() == 0 {
        lemma_best_bid_from_props(levels, p - 1);
    }
}

/// A level known to be the highest populated one at or below `p` is what
/// the descending scan finds.
pub proof fn lemma_best_bid_from_unique(levels: Seq<Seq<RestingView>>, p: int, b: int)
    requires
        0 <= b <= p < levels.len(),
        levels[b].len() > 0,
        forall|q: int| b < q <= p ==> (#[trigger] levels[q]).len() == 0,
    ensures
        best_bid_from(levels, p) == Some(b),
    decreases p + 1,
{
    if p > b {
        lemma_best_bid_from_unique(levels, p - 1, b);
    }
}

/// What an ascending scan for the best ask finds: the lowest populated
/// level at or above `p`, or nothing when all of them are empty.
pub proof fn lemma_best_ask_from_props(levels: Seq<Seq<RestingView>>, p: int)
    requires
        0 <= p,
    ensures
        match best_ask_from(levels, p) {
            Some(b) => {
                &&& p <= b < levels.len()
                &&& levels[b].len() > 0
                &&& forall|q: int| p <= q < b ==> (#[trigger] levels[q]).len() == 0
            },
            None => forall|q: int| p <= q < levels.len() ==> (#[trigger] levels[q]).len() == 0,
        },
    decreases levels.len() - p,
{
    if p < levels.len() && levels[p].len() == 0 {
        lemma_best_ask_from_props(levels, p + 1);
    }
}

/// A level known to be the lowest populated one at or above `p` is what
/// the ascending scan finds.
pub proof fn lemma_best_ask_from_unique(levels: Seq<Seq<RestingView>>, p: int, b: int)
    requires
        0 <= p <= b < levels.len(),
        levels[b].len() > 0,
        forall|q: int| p <= q < b ==> (#[trigger] levels[q]).len() == 0,
    ensures
        best_ask_from(levels, p) == Some(b),
    decreases levels.len() - p,
{
    if p < b {
        lemma_best_ask_from_unique(levels, p + 1, b);
    }
}

/// The empty book satisfies the book invariant.
pub proof fn lemma_empty_book_wf()
    ensures
        view_wf(empty_book()),
        order_count(empty_book()) == 0,
{
    let v = empty_book();
    lemma_count_side_from_all_empty(v.bids, 0);
    lemma_count_side_from_all_empty(v.asks, 0);
    broadcast use vstd::set::axiom_set_empty_len;

    assert(v.index.dom() =~= Set::<u64>::empty());
}

} // verus!
