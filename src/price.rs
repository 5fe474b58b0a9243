use vstd::prelude::*;

verus! {

/// A signed price: positive for a bid, zero or negative for an ask; the
/// absolute value is the economic price.
#[derive(Debug, Clone, Copy, PartialEq, Eq, Structural)]
pub struct Price(pub i64);

impl Price {
    /// Returns the signed value of the price.
    pub fn value(&self) -> (r: i64)
        ensures
            r == self.0,
    {
        self.0
    }

    /// Returns true if the price is a bid.
    pub fn is_bid(&self) -> (r: bool)
        ensures
            r == (self.0 > 0),
    {
        self.0 > 0
    }

    /// Returns the absolute value of the price.
    pub fn absolute(&self) -> (r: u64)
        ensures
            r as int == if self.0 >= 0 { self.0 as int } else { -(self.0 as int) },
    {
        if self.0 >= 0 {
            self.0 as u64
        } else {
            (-(self.0 as i128)) as u64
        }
    }

    /// Builds the signed price of an economic price on one side; `None`
    /// when the price does not fit the signed width.
    pub fn from_abs(price: u64, is_bid: bool) -> (r: Option<Price>)
        ensures
            r is None <==> price > i64::MAX,
            r matches Some(p) ==> p.0 == signed_price(price as int, is_bid),
    {
        if price > i64::MAX as u64 {
            None
        } else if is_bid {
            Some(Price(price as i64))
        } else {
            Some(Price(-(price as i64)))
        }
    }
}

/// The signed value that stands for an economic price on one side.
pub open spec fn signed_price(price: int, is_bid: bool) -> int {
    if is_bid {
        price
    } else {
        -price
    }
}

} // verus!
