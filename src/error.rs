use vstd::prelude::*;

verus! {

/// Why an operation of the book or of the manager did not take effect.
#[derive(Debug, Clone, Copy, PartialEq, Eq, Structural)]
pub enum LobError {
    /// A value does not fit the engine's integer widths.
    Overflow,
    /// A reduction would take a quantity below zero.
    Underflow,
    /// A level handle that is not currently allocated.
    InvalidHandle,
    /// An event names an order that is not resting.
    Missing,
    /// An event introduces an order id that is already resting.
    Duplicate,
}

} // verus!
