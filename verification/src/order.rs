use vstd::prelude::*;

use crate::price::Price;
use crate::quantity::Quantity;

verus! {

/// The identifier of an order. Identifiers are handed out by an [`IdCounter`]
/// and are strictly increasing, so they are unique within a book.
pub type OrderId = u64;

/// Which side of the book an order rests on.
#[derive(Copy, Clone, Debug, PartialEq, Eq, Structural)]
pub enum Side {
    Bid,
    Ask,
}

/// The abstract content of an [`Order`]: its identifier, side, price tick
/// and lot count, with the numeric fields widened to mathematical integers.
pub ghost struct OrderView {
    pub id: OrderId,
    pub side: Side,
    pub price: int,
    pub qty: int,
}

/// An immutable limit order: identifier, side, price and quantity.
#[derive(Clone, Copy)]
pub struct Order {
    id: OrderId,
    side: Side,
    price: Price,
    quantity: Quantity,
}

/// A monotone counter producing strictly increasing order identifiers.
/// Identifiers are never reused.
pub struct IdCounter(u64);

impl View for IdCounter {
    type V = int;

    closed spec fn view(&self) -> int {
        self.0 as int
    }
}

impl IdCounter {
    pub fn new() -> (r: Self)
        ensures
            r@ == 0,
    {
        Self(0)
    }

    pub fn next(&mut self) -> (r: u64)
        requires
            old(self)@ < u64::MAX,
        ensures
            r as int == old(self)@,
            final(self)@ == old(self)@ + 1,
    {
        let current = self.0;
        self.0 += 1;
        current
    }
}

impl View for Order {
    type V = OrderView;

    closed spec fn view(&self) -> OrderView {
        OrderView { id: self.id, side: self.side, price: self.price@, qty: self.quantity@ }
    }
}

/// The numeric fields of an order's view come from 32-bit words, so they
/// lie within the 32-bit range.
pub broadcast proof fn lemma_order_view_ranges(o: Order)
    ensures
        0 <= (#[trigger] o@).qty <= u32::MAX,
        0 <= o@.price <= u32::MAX,
{
    crate::price::lemma_price_view_range(o.price);
    crate::quantity::lemma_quantity_view_range(o.quantity);
}

impl Order {
    pub fn new(price: Price, quantity: Quantity, side: Side, id_counter: &mut IdCounter) -> (r:
        Self)
        requires
            old(id_counter)@ < u64::MAX,
        ensures
            r@.id as int == old(id_counter)@,
            final(id_counter)@ == old(id_counter)@ + 1,
            r@.side == side,
            r@.price == price@,
            r@.qty == quantity@,
    {
        let id = id_counter.next();

        Order { id, price, quantity, side }
    }

    pub fn id(&self) -> (r: u64)
        ensures
            r == self@.id,
    {
        self.id
    }

    pub fn price(&self) -> (r: Price)
        ensures
            r@ == self@.price,
    {
        self.price
    }

    pub fn quantity(&self) -> (r: Quantity)
        ensures
            r@ == self@.qty,
    {
        self.quantity
    }

    pub fn side(&self) -> (r: Side)
        ensures
            r == self@.side,
    {
        self.side
    }
}

} // verus!
