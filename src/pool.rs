use vstd::prelude::*;
use crate::error::LobError;
use crate::level::{Level, LevelId};
use crate::price::Price;
use crate::quantity::Qty;

verus! {

/// A slab of level records addressed by stable handles; freed slots are
/// kept on a stack and handed out again first.
#[derive(Clone)]
pub struct LevelPool {
    slots: Vec<Option<Level>>,
    free: Vec<u32>,
}

/// The record a freshly allocated slot holds.
pub open spec fn blank_level() -> Level {
    Level { price: Price(0), size: Qty(0) }
}

impl View for LevelPool {
    type V = Map<u32, Level>;

    /// The allocated handles and the level each one holds.
    closed spec fn view(&self) -> Map<u32, Level> {
        Map::new(
            |id: u32| (id as int) < self.slots@.len() && self.slots@[id as int] is Some,
            |id: u32| self.slots@[id as int].unwrap(),
        )
    }
}

impl LevelPool {
    /// The freed handles, most recently freed last.
    pub closed spec fn freed(&self) -> Seq<u32> {
        self.free@
    }

    /// Every free slot is on the free stack exactly once, and no live one is.
    pub closed spec fn wf(&self) -> bool {
        &&& self.slots@.len() <= u32::MAX as int + 1
        &&& self.free@.no_duplicates()
        &&& forall|i: int|
            0 <= i < self.free@.len() ==> (self.free@[i] as int) < self.slots@.len()
                && self.slots@[self.free@[i] as int] is None
        &&& forall|j: int|
            0 <= j < self.slots@.len() && self.slots@[j] is None ==> self.free@.contains(
                j as u32,
            )
    }

    /// Creates an empty pool with room reserved for `capacity` levels.
    pub fn new_with_capacity(capacity: usize) -> (r: LevelPool)
        ensures
            r.wf(),
            r@ == Map::<u32, Level>::empty(),
            r.freed() == Seq::<u32>::empty(),
    {
        let r = LevelPool { slots: Vec::with_capacity(capacity), free: Vec::new() };
        assert(r@ =~= Map::<u32, Level>::empty());
        r
    }

    /// Hands out a handle that is not allocated, preferring the most
    /// recently freed one, and sets its slot to a blank level. `None` only
    /// when every 32-bit handle is taken.
    pub fn allocate(&mut self) -> (r: Option<LevelId>)
        requires
            old(self).wf(),
        ensures
            final(self).wf(),
            match r {
                Some(id) => !old(self)@.contains_key(id.0) && final(self)@ == old(self)@.insert(
                    id.0,
                    blank_level(),
                ),
                None => final(self)@ == old(self)@ && forall|i: u32| old(self)@.contains_key(i),
            },
            old(self).freed().len() > 0 ==> r == Some(LevelId(old(self).freed().last()))
                && final(self).freed() == old(self).freed().drop_last(),
            old(self).freed().len() == 0 ==> final(self).freed() == old(self).freed(),
            forall|h: u32|
                #![trigger final(self)@[h]]
                old(self)@.contains_key(h) ==> final(self)@.contains_key(h) && final(self)@[h] == old(
                    self,
                )@[h],
    {
        let blank = Level::new(Price(0), Qty(0));
        match self.free.pop() {
            Some(id) => {
                assert(old(self).free@ == self.free@.push(id));
                assert(old(self).free@[old(self).free@.len() - 1] == id);
                self.slots.set(id as usize, Some(blank));
                assert forall|j: int|
                    0 <= j < self.slots@.len() && self.slots@[j] is None implies self.free@.contains(
                    j as u32,
                ) by {
                    assert(old(self).slots@[j] is None);
                    assert(old(self).free@.contains(j as u32));
                    let k = choose|k: int|
                        0 <= k < old(self).free@.len() && old(self).free@[k] == j as u32;
                    if k == old(self).free@.len() - 1 {
                        assert(j == id as int);
                    } else {
                        assert(self.free@[k] == j as u32);
                    }
                }
                assert forall|i: int| 0 <= i < self.free@.len() implies (self.free@[i] as int)
                    < self.slots@.len() && self.slots@[self.free@[i] as int] is None by {
                    assert(old(self).free@[i] == self.free@[i]);
                    assert(self.free@[i] != id);
                }
                assert(self@ =~= old(self)@.insert(id, blank));
                Some(LevelId(id))
            },
            None => {
                if self.slots.len() > u32::MAX as usize {
                    assert forall|i: u32| old(self)@.contains_key(i) by {
                        if self.slots@[i as int] is None {
                            assert(old(self).free@.contains(i));
                        }
                    }
                    None
                } else {
                    let id = self.slots.len() as u32;
                    self.slots.push(Some(blank));
                    assert forall|j: int|
                        0 <= j < self.slots@.len() && self.slots@[j] is None implies self.free@.contains(
                        j as u32,
                    ) by {
                        assert(old(self).slots@[j] is None);
                    }
                    assert(self@ =~= old(self)@.insert(id, blank));
                    Some(LevelId(id))
                }
            },
        }
    }

    /// Stores `level` in the allocated slot `id`.
    pub fn set_level(&mut self, id: LevelId, level: Level)
        requires
            old(self).wf(),
            old(self)@.contains_key(id.0),
        ensures
            final(self).wf(),
            final(self)@ == old(self)@.insert(id.0, level),
            final(self).freed() == old(self).freed(),
            forall|h: u32|
                #![trigger final(self)@[h]]
                old(self)@.contains_key(h) && h != id.0 ==> final(self)@.contains_key(h)
                    && final(self)@[h] == old(self)@[h],
    {
        self.slots.set(id.0 as usize, Some(level));
        assert forall|i: int| 0 <= i < self.free@.len() implies (self.free@[i] as int)
            < self.slots@.len() && self.slots@[self.free@[i] as int] is None by {
            assert(old(self).slots@[old(self).free@[i] as int] is None);
        }
        assert(self@ =~= old(self)@.insert(id.0, level));
    }

    /// Returns the level in slot `id`, or `None` when `id` is not allocated.
    pub fn get(&self, id: LevelId) -> (r: Option<Level>)
        requires
            self.wf(),
        ensures
            r is Some <==> self@.contains_key(id.0),
            r matches Some(l) ==> l == self@[id.0],
    {
        let i = id.0 as usize;
        if i < self.slots.len() {
            self.slots[i]
        } else {
            None
        }
    }

    /// Returns slot `id` to the free stack; fails with `InvalidHandle` when
    /// `id` is not allocated, and then changes nothing.
    pub fn free(&mut self, id: LevelId) -> (r: Result<(), LobError>)
        requires
            old(self).wf(),
        ensures
            final(self).wf(),
            r is Ok <==> old(self)@.contains_key(id.0),
            r is Ok ==> final(self)@ == old(self)@.remove(id.0),
            r is Err ==> r == Err::<(), LobError>(LobError::InvalidHandle) && final(self)@ == old(
                self,
            )@,
            r is Ok ==> final(self).freed() == old(self).freed().push(id.0),
            r is Err ==> final(self).freed() == old(self).freed(),
            forall|h: u32|
                #![trigger final(self)@[h]]
                old(self)@.contains_key(h) && h != id.0 ==> final(self)@.contains_key(h)
                    && final(self)@[h] == old(self)@[h],
    {
        let i = id.0 as usize;
        if i < self.slots.len() && self.slots[i].is_some() {
            self.slots.set(i, None);
            proof {
                if old(self).free@.contains(id.0) {
                    let k = choose|k: int|
                        0 <= k < old(self).free@.len() && old(self).free@[k] == id.0;
                    assert(old(self).slots@[id.0 as int] is None);
                }
            }
            self.free.push(id.0);
            assert forall|a: int, b: int|
                0 <= a < self.free@.len() && 0 <= b < self.free@.len() && a != b implies self.free@[a]
                != self.free@[b] by {
                if a == self.free@.len() - 1 || b == self.free@.len() - 1 {
                    let k = if a == self.free@.len() - 1 { b } else { a };
                    assert(old(self).free@[k] == self.free@[k]);
                    assert(old(self).free@.contains(self.free@[k]));
                }
            }
            assert forall|j: int|
                0 <= j < self.slots@.len() && self.slots@[j] is None implies self.free@.contains(
                j as u32,
            ) by {
                if j == i as int {
                    assert(self.free@[self.free@.len() - 1] == id.0);
                } else {
                    assert(old(self).free@.contains(j as u32));
                    let k = choose|k: int|
                        0 <= k < old(self).free@.len() && old(self).free@[k] == j as u32;
                    assert(self.free@[k] == j as u32);
                }
            }
            assert forall|x: int| 0 <= x < self.free@.len() implies (self.free@[x] as int)
                < self.slots@.len() && self.slots@[self.free@[x] as int] is None by {
                if x < old(self).free@.len() {
                    assert(old(self).free@[x] == self.free@[x]);
                }
            }
            assert(self@ =~= old(self)@.remove(id.0));
            Ok(())
        } else {
            Err(LobError::InvalidHandle)
        }
    }
}

} // verus!
