use vstd::prelude::*;

verus! {

/// A non-negative quantity of shares.
#[derive(Debug, Clone, Copy, PartialEq, Eq, Structural)]
pub struct Qty(pub u64);

impl Qty {
    /// Returns the quantity as an integer.
    pub fn value(&self) -> (r: u64)
        ensures
            r == self.0,
    {
        self.0
    }

    /// Returns true when the quantity is zero.
    pub fn is_empty(&self) -> (r: bool)
        ensures
            r == (self.0 == 0),
    {
        self.0 == 0
    }

    /// Increases the quantity by `other`.
    pub fn add_assign(&mut self, other: Qty)
        requires
            old(self).0 + other.0 <= u64::MAX,
        ensures
            final(self).0 == old(self).0 + other.0,
    {
        self.0 = self.0 + other.0;
    }

    /// Decreases the quantity by `other`, which may not exceed it.
    pub fn sub_assign(&mut self, other: Qty)
        requires
            other.0 <= old(self).0,
        ensures
            final(self).0 == old(self).0 - other.0,
    {
        self.0 = self.0 - other.0;
    }
}

} // verus!
