use super::stats::wrapping_sum;
use vstd::prelude::*;

verus! {

/// What an audit of a free list found: how many consecutive pairs of
/// blocks overlap, touch, or stand out of address order.
#[derive(Debug)]
pub struct Validity {
    pub overlaps: usize,
    pub adjacents: usize,
    pub out_of_orders: usize,
}

impl Default for Validity {
    fn default() -> (validity: Self)
        ensures
            validity.overlaps == 0,
            validity.adjacents == 0,
            validity.out_of_orders == 0,
    {
        Validity { overlaps: 0, adjacents: 0, out_of_orders: 0 }
    }
}

impl Validity {
    /// Whether the audit found nothing wrong.
    pub open spec fn spec_is_valid(&self) -> bool {
        self.overlaps == 0 && self.adjacents == 0 && self.out_of_orders == 0
    }

    /// Whether the audit found nothing wrong.
    #[verifier::when_used_as_spec(spec_is_valid)]
    pub fn is_valid(&self) -> (valid: bool)
        ensures
            valid == self.spec_is_valid(),
    {
        self.overlaps == 0 && self.adjacents == 0 && self.out_of_orders == 0
    }

    /// Counts one more pair of overlapping blocks.
    pub fn record_overlap(&mut self)
        ensures
            final(self).overlaps == wrapping_sum(old(self).overlaps, 1),
            final(self).adjacents == old(self).adjacents,
            final(self).out_of_orders == old(self).out_of_orders,
    {
        self.overlaps = self.overlaps.wrapping_add(1);
    }

    /// Counts one more pair of touching blocks.
    pub fn record_adjacent(&mut self)
        ensures
            final(self).overlaps == old(self).overlaps,
            final(self).adjacents == wrapping_sum(old(self).adjacents, 1),
            final(self).out_of_orders == old(self).out_of_orders,
    {
        self.adjacents = self.adjacents.wrapping_add(1);
    }

    /// Counts one more pair of blocks that stand out of address order.
    pub fn record_out_of_order(&mut self)
        ensures
            final(self).overlaps == old(self).overlaps,
            final(self).adjacents == old(self).adjacents,
            final(self).out_of_orders == wrapping_sum(old(self).out_of_orders, 1),
    {
        self.out_of_orders = self.out_of_orders.wrapping_add(1);
    }
}

impl From<Validity> for bool {
    fn from(validity: Validity) -> (valid: bool) {
        validity.is_valid()
    }
}

impl vstd::std_specs::convert::FromSpecImpl<Validity> for bool {
    open spec fn obeys_from_spec() -> bool {
        true
    }

    open spec fn from_spec(validity: Validity) -> bool {
        validity.spec_is_valid()
    }
}

} // verus!
