//! The common operational contract of the book.
//!
//! Every representation implements [`OrderbookTrait`]; the contract of each
//! operation pins its result and its new state to the spec-level
//! transitions of [`crate::model`], so any two representations that denote
//! the same abstract book behave identically.

use vstd::prelude::*;

use crate::model::{
    AdmitCheck, BookView, FillView, RestingView, admit_check, empty_book, side_levels, spec_admit, spec_best_ask, spec_best_bid, spec_cancel, spec_depth_at, spec_execute, spec_mid, sum_qty, view_wf,
};
use crate::order::{Order, OrderId, Side};
use crate::price::Price;
use crate::quantity::Quantity;

verus! {

/// A trade execution: the price it happened at, the lots traded, and the
/// identifier of the resting (maker) order that was consumed. The incoming
/// market order is not durably identified.
#[derive(Debug, Clone)]
pub struct Fill {
    pub price: Price,
    pub quantity: Quantity,
    pub maker_order_id: OrderId,
}

impl View for Fill {
    type V = FillView;

    open spec fn view(&self) -> FillView {
        FillView { price: self.price@, qty: self.quantity@, maker: self.maker_order_id }
    }
}

/// The structured errors of the book. Rendering them as display strings is
/// a caller concern; the classification here is the contract.
#[derive(Debug)]
pub enum BookError {
    /// An admission price that is not a multiple of the tick size.
    InvalidTick { price: u32 },
    /// An admission price of zero or at or beyond the tick bound.
    OutOfBounds { price: u32 },
    /// An admission quantity that is not a multiple of the lot size.
    InvalidLot { quantity: u32 },
    /// An admission quantity of zero.
    ZeroQuantity,
    /// A cancellation of an identifier that is not resting.
    OrderNotFound { id: OrderId },
    /// An index entry pointing at a level that does not hold the
    /// identifier: an implementation bug, not a caller error.
    DataInconsistency { id: OrderId },
    /// A market order that ran out of opposing liquidity. The fills already
    /// produced are carried along, not rolled back, together with the
    /// unfilled remainder.
    PartiallyFilled { remaining: u32, fills: Vec<Fill> },
    /// A market order whose remainder is smaller than the next resting
    /// order: completing it would need a partial fill of a resting order,
    /// which the book treats as a fatal condition.
    UnsupportedPartialFill,
}

/// The model's reading of a sequence of resting orders.
pub open spec fn orders_view(s: Seq<Order>) -> Seq<RestingView> {
    s.map_values(|o: Order| RestingView { id: o@.id, qty: o@.qty })
}

/// The model's reading of a sequence of fills.
pub open spec fn fills_view(s: Seq<Fill>) -> Seq<FillView> {
    s.map_values(|f: Fill| f@)
}

/// The model's reading of the id index.
pub open spec fn index_view(m: Map<OrderId, (Side, Price)>) -> Map<OrderId, (Side, int)> {
    m.map_values(|sp: (Side, Price)| (sp.0, sp.1@))
}

pub proof fn lemma_orders_view_push(s: Seq<Order>, o: Order)
    ensures
        orders_view(s.push(o)) == orders_view(s).push(RestingView { id: o@.id, qty: o@.qty }),
{
    assert(orders_view(s.push(o)) =~= orders_view(s).push(RestingView { id: o@.id, qty: o@.qty }));
}

pub proof fn lemma_orders_view_remove(s: Seq<Order>, i: int)
    requires
        0 <= i < s.len(),
    ensures
        orders_view(s.remove(i)) == orders_view(s).remove(i),
{
    assert(orders_view(s.remove(i)) =~= orders_view(s).remove(i));
}

pub proof fn lemma_orders_view_skip(s: Seq<Order>, n: int)
    requires
        0 <= n <= s.len(),
    ensures
        orders_view(s.skip(n)) == orders_view(s).skip(n),
{
    assert(orders_view(s.skip(n)) =~= orders_view(s).skip(n));
}

pub proof fn lemma_fills_view_push(s: Seq<Fill>, f: Fill)
    ensures
        fills_view(s.push(f)) == fills_view(s).push(f@),
{
    assert(fills_view(s.push(f)) =~= fills_view(s).push(f@));
}

pub proof fn lemma_fills_view_add(a: Seq<Fill>, b: Seq<Fill>)
    ensures
        fills_view(a + b) == fills_view(a) + fills_view(b),
{
    assert(fills_view(a + b) =~= fills_view(a) + fills_view(b));
}

pub proof fn lemma_index_view_insert(m: Map<OrderId, (Side, Price)>, k: OrderId, sp: (Side, Price))
    ensures
        index_view(m.insert(k, sp)) == index_view(m).insert(k, (sp.0, sp.1@)),
{
    assert(index_view(m.insert(k, sp)) =~= index_view(m).insert(k, (sp.0, sp.1@)));
}

pub proof fn lemma_index_view_remove(m: Map<OrderId, (Side, Price)>, k: OrderId)
    ensures
        index_view(m.remove(k)) == index_view(m).remove(k),
{
    assert(index_view(m.remove(k)) =~= index_view(m).remove(k));
}

/// The common contract that all book representations satisfy. Each
/// representation gives its own abstraction function and invariant; the
/// operational clauses are shared, so the observable behaviour of any two
/// representations with equal abstract states is identical.
pub trait OrderbookTrait: Sized {
    /// The abstract book this value currently denotes.
    spec fn abs(&self) -> BookView;

    /// The representation invariant.
    spec fn wf(&self) -> bool;

    /// The representation invariant includes the model's book invariant.
    proof fn lemma_wf_view(&self)
        requires
            self.wf(),
        ensures
            view_wf(self.abs()),
    ;

    /// Create a new empty orderbook.
    fn new() -> (r: Self)
        ensures
            r.wf(),
            r.abs() == empty_book(),
    ;

    /// Admit a limit order. Validation happens in order: tick alignment,
    /// price bounds, lot alignment, zero quantity. On success the order is
    /// appended to the tail of its (side, price) level and indexed; on
    /// rejection the book is unchanged.
    fn add_order(&mut self, order: Order) -> (r: Result<(), BookError>)
        requires
            old(self).wf(),
            admit_check(order@.price, order@.qty) is Accept ==> {
                &&& !old(self).abs().index.contains_key(order@.id)
                &&& sum_qty(side_levels(old(self).abs(), order@.side)[order@.price]) + order@.qty
                    <= u32::MAX
            },
        ensures
            final(self).wf(),
            ({
                let v = old(self).abs();
                let o = order@;
                match admit_check(o.price, o.qty) {
                    AdmitCheck::TickErr => (r matches Err(BookError::InvalidTick { price })
                        && price as int == o.price) && final(self).abs() == v,
                    AdmitCheck::BoundsErr => (r matches Err(BookError::OutOfBounds { price })
                        && price as int == o.price) && final(self).abs() == v,
                    AdmitCheck::LotErr => (r matches Err(BookError::InvalidLot { quantity })
                        && quantity as int == o.qty) && final(self).abs() == v,
                    AdmitCheck::ZeroErr => (r matches Err(BookError::ZeroQuantity))
                        && final(self).abs() == v,
                    AdmitCheck::Accept => (r matches Ok(()))
                        && final(self).abs() == spec_admit(v, o),
                }
            }),
    ;

    /// Cancel a resting order by identifier. Succeeds exactly when the
    /// identifier is in the index; on failure the book is unchanged.
    fn cancel_order(&mut self, order_id: OrderId) -> (r: Result<(), BookError>)
        requires
            old(self).wf(),
        ensures
            final(self).wf(),
            ({
                let v = old(self).abs();
                if v.index.contains_key(order_id) {
                    (r matches Ok(())) && final(self).abs() == spec_cancel(v, order_id)
                } else {
                    (r matches Err(BookError::OrderNotFound { id }) && id == order_id)
                        && final(self).abs() == v
                }
            }),
    ;

    /// Execute a market order, consuming opposing liquidity in price
    /// priority, FIFO within a level. Runs to completion, returning the
    /// fills; on insufficient liquidity the fills produced are returned
    /// inside the error together with the unfilled remainder; a remainder
    /// smaller than the next resting order is the unsupported-partial-fill
    /// condition.
    fn execute_market_order(&mut self, side: Side, quantity: Quantity) -> (r: Result<
        Vec<Fill>,
        BookError,
    >)
        requires
            old(self).wf(),
        ensures
            final(self).wf(),
            ({
                let m = spec_execute(old(self).abs(), side, quantity@);
                &&& final(self).abs() == m.book
                &&& if m.split {
                    r matches Err(BookError::UnsupportedPartialFill)
                } else if m.rem > 0 {
                    r matches Err(BookError::PartiallyFilled { remaining, fills }) && remaining
                        as int == m.rem && fills_view(fills@) == m.fills
                } else {
                    r matches Ok(fills) && fills_view(fills@) == m.fills
                }
            }),
    ;

    /// The highest resting bid price, or `None` when that side is empty.
    fn best_bid(&self) -> (r: Option<Price>)
        requires
            self.wf(),
        ensures
            match r {
                Some(p) => spec_best_bid(self.abs()) == Some(p@),
                None => spec_best_bid(self.abs()) is None,
            },
    ;

    /// The lowest resting ask price, or `None` when that side is empty.
    fn best_ask(&self) -> (r: Option<Price>)
        requires
            self.wf(),
        ensures
            match r {
                Some(p) => spec_best_ask(self.abs()) == Some(p@),
                None => spec_best_ask(self.abs()) is None,
            },
    ;

    /// The total quantity resting at exactly (price, side); zero for an
    /// out-of-range or absent price.
    fn depth_at_price(&self, price: Price, side: Side) -> (r: u32)
        requires
            self.wf(),
        ensures
            r as int == spec_depth_at(self.abs(), price@, side),
    ;

    /// The floored average of the best bid and best ask, or `None` when
    /// either side is empty.
    fn mid_price(&self) -> (r: Option<Price>)
        requires
            self.wf(),
        ensures
            match r {
                Some(p) => spec_mid(self.abs()) == Some(p@),
                None => spec_mid(self.abs()) is None,
            },
    {
        proof {
            self.lemma_wf_view();
            crate::model::lemma_best_bid_from_props(
                self.abs().bids,
                self.abs().bids.len() - 1,
            );
            crate::model::lemma_best_ask_from_props(self.abs().asks, 0);
        }
        match (self.best_bid(), self.best_ask()) {
            (Some(bid), Some(ask)) => Some(Price::define((bid.value() + ask.value()) / 2)),
            _ => None,
        }
    }
}

} // verus!
