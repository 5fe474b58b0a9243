use vstd::prelude::*;
use crate::price::Price;
use crate::quantity::Qty;

verus! {

/// A handle to a slot of the level pool.
#[derive(Debug, Clone, Copy, PartialEq, Eq, Structural)]
pub struct LevelId(pub u32);

impl LevelId {
    /// Returns the slot index.
    pub fn value(&self) -> (r: u32)
        ensures
            r == self.0,
    {
        self.0
    }
}

/// One price tick on one side of a book, with the quantity resting there.
#[derive(Debug, Clone, Copy, PartialEq, Eq, Structural)]
pub struct Level {
    pub price: Price,
    pub size: Qty,
}

impl Level {
    /// Creates a level at `price` holding `size`.
    pub fn new(price: Price, size: Qty) -> (r: Level)
        ensures
            r == (Level { price, size }),
    {
        Level { price, size }
    }

    /// Returns the level's price.
    pub fn price(&self) -> (r: Price)
        ensures
            r == self.price,
    {
        self.price
    }

    /// Returns the aggregate quantity resting at the level.
    pub fn size(&self) -> (r: Qty)
        ensures
            r == self.size,
    {
        self.size
    }

    /// Adds `qty` to the aggregate.
    pub fn incr(&mut self, qty: Qty)
        requires
            old(self).size.0 + qty.0 <= u64::MAX,
        ensures
            final(self).price == old(self).price,
            final(self).size.0 == old(self).size.0 + qty.0,
    {
        self.size.add_assign(qty);
    }

    /// Takes `qty` from the aggregate.
    pub fn decr(&mut self, qty: Qty)
        requires
            qty.0 <= old(self).size.0,
        ensures
            final(self).price == old(self).price,
            final(self).size.0 == old(self).size.0 - qty.0,
    {
        self.size.sub_assign(qty);
    }
}

/// An entry of a side's index: a price and the level that holds it.
#[derive(Debug, Clone, Copy, PartialEq, Eq, Structural)]
pub struct PriceLevel {
    pub price: Price,
    pub level_id: LevelId,
}

impl PriceLevel {
    /// Creates an index entry.
    pub fn new(price: Price, level_id: LevelId) -> (r: PriceLevel)
        ensures
            r == (PriceLevel { price, level_id }),
    {
        PriceLevel { price, level_id }
    }

    /// Returns the entry's price.
    pub fn price(&self) -> (r: Price)
        ensures
            r == self.price,
    {
        self.price
    }

    /// Returns the entry's level.
    pub fn level_id(&self) -> (r: LevelId)
        ensures
            r == self.level_id,
    {
        self.level_id
    }
}

/// True when the entries' prices strictly increase.
pub open spec fn strictly_sorted(s: Seq<PriceLevel>) -> bool {
    forall|i: int, j: int| 0 <= i < j < s.len() ==> s[i].price.0 < s[j].price.0
}

/// The entries of one side, held in strictly increasing order of signed
/// price, so that the top of the book is the last entry.
#[derive(Clone)]
pub struct SortedLevels {
    levels: Vec<PriceLevel>,
}

impl View for SortedLevels {
    type V = Seq<PriceLevel>;

    closed spec fn view(&self) -> Seq<PriceLevel> {
        self.levels@
    }
}

impl SortedLevels {
    /// The entries are strictly sorted by price.
    pub open spec fn wf(&self) -> bool {
        strictly_sorted(self@)
    }

    /// Creates an empty side.
    pub fn new() -> (r: SortedLevels)
        ensures
            r@ == Seq::<PriceLevel>::empty(),
            r.wf(),
    {
        SortedLevels { levels: Vec::new() }
    }

    /// Returns the number of entries.
    pub fn len(&self) -> (r: usize)
        ensures
            r == self@.len(),
    {
        self.levels.len()
    }

    /// Returns the entry at rank `i`, counted from the lowest price.
    pub fn get(&self, i: usize) -> (r: PriceLevel)
        requires
            i < self@.len(),
        ensures
            r == self@[i as int],
    {
        self.levels[i]
    }

    /// Inserts `entry` at `position`, which must keep the order strict.
    pub fn insert(&mut self, position: usize, entry: PriceLevel)
        requires
            old(self).wf(),
            position <= old(self)@.len(),
            position > 0 ==> old(self)@[position - 1].price.0 < entry.price.0,
            position < old(self)@.len() ==> entry.price.0 < old(self)@[position as int].price.0,
        ensures
            final(self)@ == old(self)@.insert(position as int, entry),
            final(self).wf(),
    {
        self.levels.insert(position, entry);
        assert forall|i: int, j: int| 0 <= i < j < self@.len() implies self@[i].price.0
            < self@[j].price.0 by {
            let o = old(self)@;
            if j < position {
            } else if i > position {
                assert(self@[i] == o[i - 1] && self@[j] == o[j - 1]);
            } else if i == position {
                assert(self@[j] == o[j - 1]);
                assert(o[position as int].price.0 <= o[j - 1].price.0);
            } else if j == position {
                assert(o[i].price.0 <= o[position - 1].price.0);
            } else {
                assert(self@[j] == o[j - 1]);
            }
        }
    }

    /// Returns the position of the entry at `price`, if there is one.
    pub fn position_of(&self, price: Price) -> (r: Option<usize>)
        requires
            self.wf(),
        ensures
            r matches Some(i) ==> i < self@.len() && self@[i as int].price == price,
            r is None ==> forall|i: int| 0 <= i < self@.len() ==> self@[i].price != price,
    {
        let mut i: usize = self.levels.len();
        while i > 0
            invariant
                i <= self@.len(),
                forall|k: int| i <= k < self@.len() ==> self@[k].price != price,
            decreases i,
        {
            i = i - 1;
            if self.levels[i].price.0 == price.0 {
                return Some(i);
            }
        }
        None
    }

    /// Scans from the top of the side down for `price`: returns the rank
    /// and level of the entry that holds it, or the rank at which an entry
    /// for it would keep the order strict.
    pub fn insertion_point(&self, price: Price) -> (r: (usize, Option<LevelId>))
        requires
            self.wf(),
        ensures
            r.0 <= self@.len(),
            match r.1 {
                Some(id) => r.0 < self@.len() && self@[r.0 as int] == (PriceLevel {
                    price,
                    level_id: id,
                }),
                None => {
                    &&& r.0 > 0 ==> self@[r.0 - 1].price.0 < price.0
                    &&& r.0 < self@.len() ==> price.0 < self@[r.0 as int].price.0
                    &&& forall|i: int| 0 <= i < self@.len() ==> self@[i].price != price
                },
            },
    {
        let mut i: usize = self.levels.len();
        while i > 0
            invariant
                i <= self@.len(),
                self.wf(),
                forall|k: int| i <= k < self@.len() ==> price.0 < self@[k].price.0,
            decreases i,
        {
            let e = self.levels[i - 1];
            if e.price.0 == price.0 {
                return (i - 1, Some(e.level_id));
            } else if e.price.0 < price.0 {
                return (i, None);
            }
            i = i - 1;
        }
        (0, None)
    }

    /// Returns the entry at `price`, if there is one.
    pub fn find(&self, price: Price) -> (r: Option<PriceLevel>)
        requires
            self.wf(),
        ensures
            r matches Some(e) ==> e.price == price && self@.contains(e),
            r is None ==> forall|i: int| 0 <= i < self@.len() ==> self@[i].price != price,
    {
        match self.position_of(price) {
            Some(i) => Some(self.levels[i]),
            None => None,
        }
    }

    /// Removes the entry at `price`, if there is one, and returns it.
    pub fn remove(&mut self, price: Price) -> (r: Option<PriceLevel>)
        requires
            old(self).wf(),
        ensures
            final(self).wf(),
            match r {
                Some(e) => e.price == price && exists|i: int|
                    0 <= i < old(self)@.len() && old(self)@[i] == e && final(self)@ == old(
                        self,
                    )@.remove(i),
                None => final(self)@ == old(self)@ && forall|i: int|
                    0 <= i < old(self)@.len() ==> old(self)@[i].price != price,
            },
    {
        match self.position_of(price) {
            Some(i) => {
                let e = self.levels.remove(i);
                assert(self@ == old(self)@.remove(i as int));
                assert forall|a: int, b: int| 0 <= a < b < self@.len() implies self@[a].price.0
                    < self@[b].price.0 by {
                    let o = old(self)@;
                    if b < i {
                    } else if a >= i {
                        assert(self@[a] == o[a + 1] && self@[b] == o[b + 1]);
                    } else {
                        assert(self@[b] == o[b + 1]);
                    }
                }
                Some(e)
            },
            None => None,
        }
    }
}

} // verus!
