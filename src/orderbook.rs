use vstd::prelude::*;
use std::collections::HashMap;
use std::collections::HashSet;
use crate::error::LobError;
use crate::level::{Level, LevelId, PriceLevel, SortedLevels};
use crate::order::{Order, OrderId};
use crate::pool::LevelPool;
use crate::price::Price;
use crate::quantity::Qty;
use crate::utils::MAX_LEVELS;

verus! {

broadcast use vstd::std_specs::hash::group_hash_axioms;

/// One instrument's book: the bid and ask sides, the pool that holds their
/// levels, and the ids of the orders resting at each level.
#[derive(Clone)]
pub struct OrderBook {
    pub bids: SortedLevels,
    pub asks: SortedLevels,
    pub level_pool: LevelPool,
    pub level_orders: HashMap<u32, HashSet<u32>>,
}

/// True when no entry of `s` is at `price`.
pub open spec fn price_absent(s: Seq<PriceLevel>, price: Price) -> bool {
    forall|i: int| 0 <= i < s.len() ==> s[i].price != price
}

/// True when `t` is `s` with `e` inserted at one rank.
pub open spec fn inserted_once(s: Seq<PriceLevel>, t: Seq<PriceLevel>, e: PriceLevel) -> bool {
    exists|pos: int| 0 <= pos <= s.len() && t == #[trigger] s.insert(pos, e)
}

/// True when `t` is `s` with the entry `e` taken out of one rank.
pub open spec fn removed_once(s: Seq<PriceLevel>, t: Seq<PriceLevel>, e: PriceLevel) -> bool {
    exists|i: int| 0 <= i < s.len() && #[trigger] s[i] == e && t == s.remove(i)
}

impl Default for OrderBook {
    fn default() -> (r: OrderBook)
        ensures
            r.wf(),
            r.bids@ == Seq::<PriceLevel>::empty(),
            r.asks@ == Seq::<PriceLevel>::empty(),
            r.level_pool@ == Map::<u32, Level>::empty(),
            r.orders_at() == Map::<u32, Set<u32>>::empty(),
    {
        OrderBook::new()
    }
}

/// How `remove_order` of `order`, resting as `order_id`, turns `before`
/// into `after`: its quantity leaves the level's aggregate and its id the
/// level's set; a level whose aggregate reaches zero leaves its side, the
/// pool and the map of sets.
pub open spec fn removal_effect(before: OrderBook, after: OrderBook, order: Order, order_id: u32) -> bool {
    let l = order.level_id.0;
    let lvl = before.level_pool@[l];
    let bid = lvl.price.0 > 0;
    if order.qty.0 == lvl.size.0 {
        &&& after.level_pool@ == before.level_pool@.remove(l)
        &&& after.orders_at() == before.orders_at().remove(l)
        &&& removed_once(
            before.side(bid),
            after.side(bid),
            PriceLevel { price: lvl.price, level_id: LevelId(l) },
        )
        &&& after.side(!bid) == before.side(!bid)
    } else {
        &&& after.level_pool@ == before.level_pool@.insert(
            l,
            Level { price: lvl.price, size: Qty((lvl.size.0 - order.qty.0) as u64) },
        )
        &&& after.orders_at() == before.orders_at().insert(l, before.orders_at()[l].remove(order_id))
        &&& after.bids@ == before.bids@
        &&& after.asks@ == before.asks@
    }
}

impl OrderBook {
    /// The side that holds prices of the given sign.
    pub open spec fn side(&self, bid: bool) -> Seq<PriceLevel> {
        if bid {
            self.bids@
        } else {
            self.asks@
        }
    }

    /// The ids of the orders resting at each live level.
    pub open spec fn orders_at(&self) -> Map<u32, Set<u32>> {
        Map::new(
            |k: u32| self.level_orders@.contains_key(k),
            |k: u32| self.level_orders@[k]@,
        )
    }

    /// The book's structural invariant: sorted sides whose entries are
    /// exactly the live levels, each on the side its price's sign names,
    /// and a non-empty set of orders for each live level and no other.
    pub open spec fn wf(&self) -> bool {
        &&& self.bids.wf()
        &&& self.asks.wf()
        &&& self.level_pool.wf()
        &&& forall|i: int|
            #![trigger self.bids@[i]]
            0 <= i < self.bids@.len() ==> {
                let e = self.bids@[i];
                &&& self.level_pool@.contains_key(e.level_id.0)
                &&& self.level_pool@[e.level_id.0].price == e.price
                &&& e.price.0 > 0
            }
        &&& forall|i: int|
            #![trigger self.asks@[i]]
            0 <= i < self.asks@.len() ==> {
                let e = self.asks@[i];
                &&& self.level_pool@.contains_key(e.level_id.0)
                &&& self.level_pool@[e.level_id.0].price == e.price
                &&& e.price.0 <= 0
            }
        &&& forall|id: u32|
            #![trigger self.level_pool@[id]]
            self.level_pool@.contains_key(id) ==> self.side(
                self.level_pool@[id].price.0 > 0,
            ).contains(PriceLevel { price: self.level_pool@[id].price, level_id: LevelId(id) })
        &&& forall|id: u32|
            #![trigger self.level_orders@.contains_key(id)]
            self.level_orders@.contains_key(id) <==> self.level_pool@.contains_key(id)
        &&& forall|id: u32|
            #![trigger self.level_orders@[id]]
            self.level_orders@.contains_key(id) ==> {
                &&& self.level_orders@[id]@.finite()
                &&& !self.level_orders@[id]@.is_empty()
            }
    }

    /// True when some level of the book holds `order_id`.
    pub open spec fn holds_order(&self, order_id: u32) -> bool {
        exists|id: u32| self.orders_at().contains_key(id) && self.orders_at()[id].contains(order_id)
    }

    /// Both books hold the same sides, levels and sets of orders.
    pub open spec fn same_view(&self, other: OrderBook) -> bool {
        &&& self.bids@ == other.bids@
        &&& self.asks@ == other.asks@
        &&& self.level_pool@ == other.level_pool@
        &&& self.orders_at() == other.orders_at()
    }

    /// When every handle is taken, the two sides hold at least as many
    /// entries as there are 32-bit handles.
    pub proof fn lemma_full_pool(&self)
        requires
            self.wf(),
            forall|i: u32| self.level_pool@.contains_key(i),
        ensures
            self.bids@.len() + self.asks@.len() >= 0x1_0000_0000,
    {
        let c = self.bids@ + self.asks@;
        let ids = c.map_values(|e: PriceLevel| e.level_id.0 as int);
        let all = vstd::set_lib::set_int_range(0, 0x1_0000_0000);
        vstd::set_lib::lemma_int_range(0, 0x1_0000_0000);
        ids.lemma_cardinality_of_set();
        assert(all.subset_of(ids.to_set())) by {
            assert forall|x: int| all.contains(x) implies ids.to_set().contains(x) by {
                let u = x as u32;
                assert(self.level_pool@.contains_key(u));
                let e = PriceLevel { price: self.level_pool@[u].price, level_id: LevelId(u) };
                let sd = self.side(self.level_pool@[u].price.0 > 0);
                assert(sd.contains(e));
                let j = choose|j: int| 0 <= j < sd.len() && sd[j] == e;
                if self.level_pool@[u].price.0 > 0 {
                    assert(c[j] == e);
                    assert(ids[j] == x);
                } else {
                    assert(c[self.bids@.len() + j] == e);
                    assert(ids[self.bids@.len() + j] == x);
                }
            }
        }
        vstd::set_lib::lemma_len_subset(all, ids.to_set());
    }

    /// Creates an empty book.
    pub fn new() -> (r: OrderBook)
        ensures
            r.wf(),
            r.bids@ == Seq::<PriceLevel>::empty(),
            r.asks@ == Seq::<PriceLevel>::empty(),
            r.level_pool@ == Map::<u32, Level>::empty(),
            r.orders_at() == Map::<u32, Set<u32>>::empty(),
    {
        let r = OrderBook {
            bids: SortedLevels::new(),
            asks: SortedLevels::new(),
            level_pool: LevelPool::new_with_capacity(MAX_LEVELS),
            level_orders: HashMap::new(),
        };
        assert(r.orders_at() =~= Map::<u32, Set<u32>>::empty());
        r
    }

    /// The aggregate at `price` would pass the integer width if `qty` were
    /// added, or `price` needs a new level and every handle is taken.
    pub open spec fn add_overflows(&self, price: Price, qty: Qty) -> bool {
        let s = self.side(price.0 > 0);
        ||| exists|i: int|
            0 <= i < s.len() && #[trigger] s[i].price == price && self.level_pool@[s[i].level_id.0].size.0
                + qty.0 > u64::MAX
        ||| price_absent(s, price) && forall|id: u32| self.level_pool@.contains_key(id)
    }

    /// Some level of one side holds `order_id`.
    pub open spec fn side_holds_spec(&self, bid: bool, order_id: u32) -> bool {
        exists|j: int|
            0 <= j < self.side(bid).len() && #[trigger] self.orders_at()[self.side(bid)[j].level_id.0].contains(
                order_id,
            )
    }

    /// A book holds an order exactly when the set of a level on one of its
    /// sides does.
    proof fn lemma_holds_order_sides(&self, order_id: u32)
        requires
            self.wf(),
        ensures
            self.holds_order(order_id) <==> self.side_holds_spec(true, order_id) || self.side_holds_spec(
                false,
                order_id,
            ),
    {
        if self.holds_order(order_id) {
            let l = choose|l: u32| self.orders_at().contains_key(l) && self.orders_at()[l].contains(order_id);
            assert(self.level_orders@.contains_key(l));
            let e = PriceLevel { price: self.level_pool@[l].price, level_id: LevelId(l) };
            let bid = self.level_pool@[l].price.0 > 0;
            assert(self.side(bid).contains(e));
            let j = choose|j: int| 0 <= j < self.side(bid).len() && self.side(bid)[j] == e;
            if bid {
                assert(self.orders_at()[self.side(true)[j].level_id.0].contains(order_id));
                assert(self.side_holds_spec(true, order_id));
            } else {
                assert(self.orders_at()[self.side(false)[j].level_id.0].contains(order_id));
                assert(self.side_holds_spec(false, order_id));
            }
        }
        if self.side_holds_spec(true, order_id) {
            let j = choose|j: int|
                0 <= j < self.side(true).len() && #[trigger] self.orders_at()[self.side(true)[j].level_id.0].contains(order_id);
            assert(self.bids@[j] == self.side(true)[j]);
            let l = self.bids@[j].level_id.0;
            assert(self.level_orders@.contains_key(l));
            assert(self.orders_at().contains_key(l) && self.orders_at()[l].contains(order_id));
            assert(self.holds_order(order_id));
        }
        if self.side_holds_spec(false, order_id) {
            let j = choose|j: int|
                0 <= j < self.side(false).len() && #[trigger] self.orders_at()[self.side(false)[j].level_id.0].contains(order_id);
            assert(self.asks@[j] == self.side(false)[j]);
            let l = self.asks@[j].level_id.0;
            assert(self.level_orders@.contains_key(l));
            assert(self.orders_at().contains_key(l) && self.orders_at()[l].contains(order_id));
            assert(self.holds_order(order_id));
        }
    }

    /// Returns true when some level of one side holds `order_id`.
    fn side_holds(&self, bid: bool, order_id: OrderId) -> (r: bool)
        requires
            self.wf(),
        ensures
            r == self.side_holds_spec(bid, order_id.0),
    {
        let n = if bid {
            self.bids.len()
        } else {
            self.asks.len()
        };
        let mut i: usize = 0;
        while i < n
            invariant
                n == self.side(bid).len(),
                i <= n,
                self.wf(),
                forall|j: int|
                    0 <= j < i ==> !#[trigger] self.orders_at()[self.side(bid)[j].level_id.0].contains(
                        order_id.0,
                    ),
            decreases n - i,
        {
            let e = if bid {
                self.bids.get(i)
            } else {
                self.asks.get(i)
            };
            proof {
                if bid {
                    assert(self.bids@[i as int] == e);
                } else {
                    assert(self.asks@[i as int] == e);
                }
                assert(self.level_orders@.contains_key(e.level_id.0));
            }
            match self.level_orders.get(&e.level_id.0) {
                Some(set) => {
                    if set.contains(&order_id.0) {
                        assert(self.side(bid)[i as int] == e);
                        assert(self.orders_at()[self.side(bid)[i as int].level_id.0].contains(order_id.0));
                        return true;
                    }
                },
                None => {},
            }
            i = i + 1;
        }
        false
    }

    /// Rests `order_id` with `qty` at `price`: joins the level at that price
    /// or creates one at the rank that keeps the side sorted, adds `qty` to
    /// the level's aggregate and records the id in the level's set. `order`
    /// is moved to that level. Fails with `Overflow`, changing nothing,
    /// exactly when `add_overflows` holds.
    pub fn add_order(&mut self, order: &mut Order, order_id: OrderId, price: Price, qty: Qty) -> (r:
        Result<(), LobError>)
        requires
            old(self).wf(),
        ensures
            final(self).wf(),
            r == Err::<(), LobError>(LobError::Duplicate) <==> old(self).holds_order(order_id.0),
            r is Err <==> old(self).holds_order(order_id.0) || old(self).add_overflows(price, qty),
            r is Err && !old(self).holds_order(order_id.0) ==> r == Err::<(), LobError>(LobError::Overflow),
            r is Err ==> final(self).same_view(*old(self)) && *final(order) == *old(order),
            r is Ok ==> ({
                let l = final(order).level_id.0;
                let was = old(self).level_pool@.contains_key(l);
                let before = if was { old(self).level_pool@[l].size.0 as int } else { 0 };
                let ids = if was { old(self).orders_at()[l] } else { Set::<u32>::empty() };
                &&& *final(order) == (Order { level_id: LevelId(l), ..*old(order) })
                &&& before + qty.0 <= u64::MAX
                &&& final(self).side(price.0 > 0).contains(PriceLevel { price, level_id: LevelId(l) })
                &&& final(self).orders_at()[l].contains(order_id.0)
                &&& final(self).level_pool@ == old(self).level_pool@.insert(
                    l,
                    Level { price, size: Qty((before + qty.0) as u64) },
                )
                &&& final(self).orders_at() == old(self).orders_at().insert(l, ids.insert(order_id.0))
                &&& was ==> old(self).level_pool@[l].price == price && final(self).bids@ == old(
                    self,
                ).bids@ && final(self).asks@ == old(self).asks@
                &&& !was ==> price_absent(old(self).side(price.0 > 0), price) && final(self).side(!(price.0 > 0)) == old(self).side(!(price.0 > 0))
                    && inserted_once(
                    old(self).side(price.0 > 0),
                    final(self).side(price.0 > 0),
                    PriceLevel { price, level_id: LevelId(l) },
                )
            }),
    {
        if self.side_holds(true, order_id) || self.side_holds(false, order_id) {
            proof {
                self.lemma_holds_order_sides(order_id.0);
            }
            return Err(LobError::Duplicate);
        }
        proof {
            self.lemma_holds_order_sides(order_id.0);
        }
        let bid = price.is_bid();
        let (pos, existing) = if bid {
            self.bids.insertion_point(price)
        } else {
            self.asks.insertion_point(price)
        };
        let ghost s = old(self).side(bid);
        let lid = match existing {
            Some(id) => {
                let lvl = match self.level_pool.get(id) {
                    Some(l) => l,
                    None => {
                        proof {
                            if bid {
                                assert(self.bids@[pos as int] == s[pos as int]);
                            } else {
                                assert(self.asks@[pos as int] == s[pos as int]);
                            }
                        }
                        return Err(LobError::Overflow);
                    },
                };
                proof {
                    if bid {
                        assert(self.bids@[pos as int] == s[pos as int]);
                    } else {
                        assert(self.asks@[pos as int] == s[pos as int]);
                    }
                }
                if lvl.size.0 > u64::MAX - qty.0 {
                    assert(old(self).add_overflows(price, qty));
                    return Err(LobError::Overflow);
                }
                proof {
                    let os = old(self).side(price.0 > 0);
                    assert(os == s);
                    assert forall|i: int| 0 <= i < os.len() && #[trigger] os[i].price == price implies old(
                        self,
                    ).level_pool@[os[i].level_id.0].size.0 + qty.0 <= u64::MAX by {
                        if i < pos as int {
                            assert(os[i].price.0 < os[pos as int].price.0);
                        } else if i > pos as int {
                            assert(os[pos as int].price.0 < os[i].price.0);
                        }
                    }
                    assert(!price_absent(os, price));
                }
                assert(!old(self).add_overflows(price, qty));
                let mut l = lvl;
                l.incr(qty);
                self.level_pool.set_level(id, l);
                proof {
                    assert forall|x: u32|
                        #![trigger self.level_pool@[x]]
                        self.level_pool@.contains_key(x) implies self.side(
                        self.level_pool@[x].price.0 > 0,
                    ).contains(PriceLevel { price: self.level_pool@[x].price, level_id: LevelId(x) }) by {
                        assert(old(self).level_pool@[x].price == self.level_pool@[x].price);
                    }
                }
                id
            },
            None => {
                let id = match self.level_pool.allocate() {
                    Some(id) => id,
                    None => {
                        assert(old(self).add_overflows(price, qty));
                        return Err(LobError::Overflow);
                    },
                };
                assert(!old(self).add_overflows(price, qty));
                self.level_pool.set_level(id, Level::new(price, qty));
                let e = PriceLevel::new(price, id);
                if bid {
                    self.bids.insert(pos, e);
                } else {
                    self.asks.insert(pos, e);
                }
                proof {
                    let ns = self.side(bid);
                    assert(ns == s.insert(pos as int, e));
                    assert forall|i: int| 0 <= i < s.len() implies s[i].level_id != id by {
                        if bid {
                            assert(old(self).bids@[i] == s[i]);
                        } else {
                            assert(old(self).asks@[i] == s[i]);
                        }
                    }
                    assert forall|i: int|
                        #![trigger self.bids@[i]]
                        0 <= i < self.bids@.len() implies ({
                        let e = self.bids@[i];
                        &&& self.level_pool@.contains_key(e.level_id.0)
                        &&& self.level_pool@[e.level_id.0].price == e.price
                        &&& e.price.0 > 0
                    }) by {
                        if bid {
                            if i < pos {
                                assert(self.bids@[i] == old(self).bids@[i]);
                            } else if i > pos {
                                assert(self.bids@[i] == old(self).bids@[i - 1]);
                            }
                        } else {
                            assert(self.bids@[i] == old(self).bids@[i]);
                        }
                    }
                    assert forall|i: int|
                        #![trigger self.asks@[i]]
                        0 <= i < self.asks@.len() implies ({
                        let e = self.asks@[i];
                        &&& self.level_pool@.contains_key(e.level_id.0)
                        &&& self.level_pool@[e.level_id.0].price == e.price
                        &&& e.price.0 <= 0
                    }) by {
                        if !bid {
                            if i < pos {
                                assert(self.asks@[i] == old(self).asks@[i]);
                            } else if i > pos {
                                assert(self.asks@[i] == old(self).asks@[i - 1]);
                            }
                        } else {
                            assert(self.asks@[i] == old(self).asks@[i]);
                        }
                    }
                    assert forall|x: u32|
                        #![trigger self.level_pool@[x]]
                        self.level_pool@.contains_key(x) implies self.side(
                        self.level_pool@[x].price.0 > 0,
                    ).contains(PriceLevel { price: self.level_pool@[x].price, level_id: LevelId(x) }) by {
                        if x == id.0 {
                            assert(ns[pos as int] == e);
                        } else {
                            let ox = PriceLevel { price: old(self).level_pool@[x].price, level_id: LevelId(x) };
                            let os = old(self).side(old(self).level_pool@[x].price.0 > 0);
                            assert(os.contains(ox));
                            let k = choose|k: int| 0 <= k < os.len() && os[k] == ox;
                            if (old(self).level_pool@[x].price.0 > 0) == bid {
                                if k < pos {
                                    assert(ns[k] == ox);
                                } else {
                                    assert(ns[k + 1] == ox);
                                }
                            } else {
                                assert(self.side(!bid)[k] == ox);
                            }
                        }
                    }
                }
                id
            },
        };
        order.set_level_id(lid);
        let mut set = match self.level_orders.remove(&lid.0) {
            Some(s) => s,
            None => HashSet::new(),
        };
        set.insert(order_id.0);
        self.level_orders.insert(lid.0, set);
        proof {
            assert(self.level_pool@.contains_key(lid.0));
            assert(self.level_pool@[lid.0].price == price);
            assert(self.side(self.level_pool@[lid.0].price.0 > 0).contains(
                PriceLevel { price: self.level_pool@[lid.0].price, level_id: LevelId(lid.0) },
            ));
            assert(self.orders_at() =~= old(self).orders_at().insert(
                lid.0,
                if old(self).level_pool@.contains_key(lid.0) {
                    old(self).orders_at()[lid.0]
                } else {
                    Set::<u32>::empty()
                }.insert(order_id.0),
            ));
            if existing is None {
                assert(old(self).level_pool@.insert(lid.0, crate::pool::blank_level()).insert(
                    lid.0,
                    Level { price, size: qty },
                ) =~= old(self).level_pool@.insert(lid.0, Level { price, size: qty }));
            }
        }
        Ok(())
    }

    /// Takes `qty` shares from `order`, resting as `order_id`: from its
    /// quantity and from its level's aggregate. An order brought to zero
    /// leaves the book as by `remove_order`.
    pub fn reduce_order(&mut self, order: &mut Order, order_id: OrderId, qty: Qty)
        requires
            old(self).wf(),
            old(self).level_pool@.contains_key(old(order).level_id.0),
            old(order).qty.0 <= old(self).level_pool@[old(order).level_id.0].size.0,
            old(self).orders_at()[old(order).level_id.0].contains(order_id.0),
            (old(order).qty.0 == old(self).level_pool@[old(order).level_id.0].size.0) == (old(
                self,
            ).orders_at()[old(order).level_id.0] == set![order_id.0]),
            qty.0 <= old(order).qty.0,
        ensures
            final(self).wf(),
            *final(order) == (Order { qty: Qty((old(order).qty.0 - qty.0) as u64), ..*old(order) }),
            qty.0 == old(order).qty.0 ==> removal_effect(*old(self), *final(self), *old(order), order_id.0),
            qty.0 < old(order).qty.0 ==> ({
                let l = old(order).level_id.0;
                let lvl = old(self).level_pool@[l];
                &&& final(self).level_pool@ == old(self).level_pool@.insert(
                    l,
                    Level { price: lvl.price, size: Qty((lvl.size.0 - qty.0) as u64) },
                )
                &&& final(self).bids@ == old(self).bids@
                &&& final(self).asks@ == old(self).asks@
                &&& final(self).orders_at() == old(self).orders_at()
            }),
    {
        if qty.0 == order.qty.0 {
            self.remove_order(order, order_id);
            order.qty = Qty(0);
            return;
        }
        let lid = order.level_id;
        let mut lvl = match self.level_pool.get(lid) {
            Some(l) => l,
            None => {
                return;
            },
        };
        lvl.decr(qty);
        self.level_pool.set_level(lid, lvl);
        order.qty.sub_assign(qty);
        proof {
            assert forall|x: u32|
                #![trigger self.level_pool@[x]]
                self.level_pool@.contains_key(x) implies self.side(
                self.level_pool@[x].price.0 > 0,
            ).contains(PriceLevel { price: self.level_pool@[x].price, level_id: LevelId(x) }) by {
                assert(old(self).level_pool@[x].price == self.level_pool@[x].price);
            }
        }
    }

    /// Takes `order` (resting as `order_id`) off its level: its quantity
    /// leaves the aggregate and its id leaves the level's set. A level whose
    /// aggregate reaches zero leaves its side and the pool.
    #[verifier::rlimit(40)]
    pub fn remove_order(&mut self, order: &mut Order, order_id: OrderId)
        requires
            old(self).wf(),
            old(self).level_pool@.contains_key(old(order).level_id.0),
            old(order).qty.0 <= old(self).level_pool@[old(order).level_id.0].size.0,
            old(self).orders_at()[old(order).level_id.0].contains(order_id.0),
            (old(order).qty.0 == old(self).level_pool@[old(order).level_id.0].size.0) == (old(
                self,
            ).orders_at()[old(order).level_id.0] == set![order_id.0]),
        ensures
            final(self).wf(),
            *final(order) == *old(order),
            removal_effect(*old(self), *final(self), *old(order), order_id.0),
    {
        let lid = order.level_id;
        let mut lvl = match self.level_pool.get(lid) {
            Some(l) => l,
            None => {
                return;
            },
        };
        lvl.decr(order.qty);
        if lvl.size.is_empty() {
            let p = lvl.price;
            let bid = p.is_bid();
            let ghost os = old(self).side(bid);
            let ghost e = PriceLevel { price: p, level_id: lid };
            proof {
                assert(os.contains(e));
            }
            let removed = if bid {
                self.bids.remove(p)
            } else {
                self.asks.remove(p)
            };
            let _ = self.level_pool.free(lid);
            proof {
                let k = choose|k: int| 0 <= k < os.len() && os[k] == e;
                let i = choose|i: int|
                    0 <= i < os.len() && os[i] == removed.unwrap() && self.side(bid) == os.remove(i);
                assert(i == k) by {
                    if i < k {
                        assert(os[i].price.0 < os[k].price.0);
                    } else if i > k {
                        assert(os[k].price.0 < os[i].price.0);
                    }
                }
                let ns = self.side(bid);
                // entries other than the removed one name other levels
                assert forall|j: int| 0 <= j < os.len() && j != k implies os[j].level_id != lid by {
                    if bid {
                        assert(old(self).bids@[j] == os[j]);
                        assert(old(self).bids@[k] == os[k]);
                        if os[j].level_id == lid {
                            assert(os[j].price == os[k].price);
                            if j < k {
                                assert(os[j].price.0 < os[k].price.0);
                            } else {
                                assert(os[k].price.0 < os[j].price.0);
                            }
                        }
                    } else {
                        assert(old(self).asks@[j] == os[j]);
                        assert(old(self).asks@[k] == os[k]);
                        if os[j].level_id == lid {
                            assert(os[j].price == os[k].price);
                            if j < k {
                                assert(os[j].price.0 < os[k].price.0);
                            } else {
                                assert(os[k].price.0 < os[j].price.0);
                            }
                        }
                    }
                }
                let ghost other = old(self).side(!bid);
                assert forall|j: int| 0 <= j < other.len() implies #[trigger] other[j].level_id != lid by {
                    if bid {
                        assert(old(self).asks@[j] == other[j]);
                    } else {
                        assert(old(self).bids@[j] == other[j]);
                    }
                }
                assert forall|j: int|
                    #![trigger self.bids@[j]]
                    0 <= j < self.bids@.len() implies ({
                    let e = self.bids@[j];
                    &&& self.level_pool@.contains_key(e.level_id.0)
                    &&& self.level_pool@[e.level_id.0].price == e.price
                    &&& e.price.0 > 0
                }) by {
                    if bid {
                        if j < k {
                            assert(self.bids@[j] == old(self).bids@[j]);
                            assert(os[j] == old(self).bids@[j]);
                        } else {
                            assert(self.bids@[j] == old(self).bids@[j + 1]);
                            assert(os[j + 1] == old(self).bids@[j + 1]);
                        }
                    } else {
                        assert(self.bids@[j] == old(self).bids@[j]);
                    }
                }
                assert forall|j: int|
                    #![trigger self.asks@[j]]
                    0 <= j < self.asks@.len() implies ({
                    let e = self.asks@[j];
                    &&& self.level_pool@.contains_key(e.level_id.0)
                    &&& self.level_pool@[e.level_id.0].price == e.price
                    &&& e.price.0 <= 0
                }) by {
                    if !bid {
                        if j < k {
                            assert(self.asks@[j] == old(self).asks@[j]);
                            assert(os[j] == old(self).asks@[j]);
                        } else {
                            assert(self.asks@[j] == old(self).asks@[j + 1]);
                            assert(os[j + 1] == old(self).asks@[j + 1]);
                        }
                    } else {
                        assert(self.asks@[j] == old(self).asks@[j]);
                    }
                }
                assert forall|x: u32|
                    #![trigger self.level_pool@[x]]
                    self.level_pool@.contains_key(x) implies self.side(
                    self.level_pool@[x].price.0 > 0,
                ).contains(PriceLevel { price: self.level_pool@[x].price, level_id: LevelId(x) }) by {
                    let ox = PriceLevel { price: old(self).level_pool@[x].price, level_id: LevelId(x) };
                    let xs = old(self).side(old(self).level_pool@[x].price.0 > 0);
                    assert(xs.contains(ox));
                    let m = choose|m: int| 0 <= m < xs.len() && xs[m] == ox;
                    if (old(self).level_pool@[x].price.0 > 0) == bid {
                        assert(m != k);
                        if m < k {
                            assert(ns[m] == ox);
                        } else {
                            assert(ns[m - 1] == ox);
                        }
                    } else {
                        assert(self.side(!bid)[m] == ox);
                    }
                }
            }
        } else {
            self.level_pool.set_level(lid, lvl);
            proof {
                assert forall|x: u32|
                    #![trigger self.level_pool@[x]]
                    self.level_pool@.contains_key(x) implies self.side(
                    self.level_pool@[x].price.0 > 0,
                ).contains(PriceLevel { price: self.level_pool@[x].price, level_id: LevelId(x) }) by {
                    assert(old(self).level_pool@[x].price == self.level_pool@[x].price);
                }
            }
        }
        let ghost ids = old(self).orders_at()[lid.0];
        match self.level_orders.remove(&lid.0) {
            Some(mut orders) => {
                orders.remove(&order_id.0);
                if !orders.is_empty() {
                    self.level_orders.insert(lid.0, orders);
                    proof {
                        assert(self.orders_at() =~= old(self).orders_at().insert(lid.0, ids.remove(order_id.0)));
                    }
                } else {
                    proof {
                        assert(self.orders_at() =~= old(self).orders_at().remove(lid.0));
                        assert(ids.remove(order_id.0).insert(order_id.0) =~= ids);
                        assert(ids =~= set![order_id.0]);
                    }
                }
            },
            None => {},
        }
        proof {
            if lvl.size.0 != 0 {
                assert(ids != set![order_id.0]);
                assert(!ids.remove(order_id.0).is_empty()) by {
                    if ids.remove(order_id.0).is_empty() {
                        assert(ids =~= set![order_id.0]);
                    }
                }
            }
        }
    }

    /// Returns the ids of the orders resting at `level_id`, if it is live.
    pub fn get_orders_for_level(&self, level_id: LevelId) -> (r: Option<&HashSet<u32>>)
        ensures
            r is Some <==> self.orders_at().contains_key(level_id.0),
            r matches Some(s) ==> s@ == self.orders_at()[level_id.0],
    {
        self.level_orders.get(&level_id.0)
    }
}

} // verus!
