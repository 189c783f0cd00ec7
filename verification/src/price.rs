use vstd::prelude::*;

verus! {

/// One past the highest representable tick; valid prices are `1 .. MAX_PRICE - 1`.
pub const MAX_PRICE: u32 = 10000;

/// The minimum price increment. Every admissible price is a multiple of it.
pub const TICK_SIZE: u32 = 1;

/// A price expressed as an unsigned tick index.
#[derive(Copy, Clone, Debug, PartialEq, Eq, Structural)]
pub struct Price(u32);

impl View for Price {
    type V = int;

    closed spec fn view(&self) -> int {
        self.0 as int
    }
}

/// A price view comes from a 32-bit word, so it lies within the 32-bit range.
pub broadcast proof fn lemma_price_view_range(p: Price)
    ensures
        0 <= (#[trigger] p@) <= u32::MAX,
{
}

impl Price {
    pub fn define(price: u32) -> (r: Self)
        ensures
            r@ == price as int,
    {
        Self(price)
    }

    pub fn value(&self) -> (r: u32)
        ensures
            r as int == self@,
    {
        self.0
    }
}

} // verus!
