use vstd::prelude::*;
use crate::level::LevelId;
use crate::quantity::Qty;
use crate::utils::BookId;

verus! {

/// Identifies one resting order.
#[derive(Debug, Clone, Copy, PartialEq, Eq, Structural)]
pub struct OrderId(pub u32);

/// A resting order: the level it rests on, its quantity and its book.
#[derive(Debug, Clone, Copy, PartialEq, Eq, Structural)]
pub struct Order {
    pub level_id: LevelId,
    pub qty: Qty,
    pub book_id: BookId,
}

impl Order {
    /// Creates an order resting on `level_id`.
    pub fn new(level_id: LevelId, qty: Qty, book_id: BookId) -> (r: Order)
        ensures
            r == (Order { level_id, qty, book_id }),
    {
        Order { level_id, qty, book_id }
    }

    /// Returns the level the order rests on.
    pub fn level_id(&self) -> (r: LevelId)
        ensures
            r == self.level_id,
    {
        self.level_id
    }

    /// Moves the order to another level.
    pub fn set_level_id(&mut self, level_id: LevelId)
        ensures
            *final(self) == (Order { level_id, ..*old(self) }),
    {
        self.level_id = level_id;
    }

    /// Returns the resting quantity.
    pub fn qty(&self) -> (r: Qty)
        ensures
            r == self.qty,
    {
        self.qty
    }
}

} // verus!
