use vstd::prelude::*;

verus! {

/// The minimum quantity increment. Every admissible quantity is a multiple of it.
pub const LOT_SIZE: u32 = 1;

/// A quantity expressed as an unsigned lot count.
#[derive(Copy, Clone, Debug, PartialEq, Eq, Structural)]
pub struct Quantity(u32);

impl View for Quantity {
    type V = int;

    closed spec fn view(&self) -> int {
        self.0 as int
    }
}

/// A quantity view comes from a 32-bit word, so it lies within the 32-bit range.
pub broadcast proof fn lemma_quantity_view_range(q: Quantity)
    ensures
        0 <= (#[trigger] q@) <= u32::MAX,
{
}

impl Quantity {
    pub fn define(quantity: u32) -> (r: Self)
        ensures
            r@ == quantity as int,
    {
        Self(quantity)
    }

    pub fn value(&self) -> (r: u32)
        ensures
            r as int == self@,
    {
        self.0
    }
}

} // verus!
