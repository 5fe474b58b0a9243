use vstd::prelude::*;
use std::collections::HashMap;
use crate::error::LobError;
use crate::laws::{has_price, ids_at, level_total, prices_increase, rests_at, resting_qtys};
use crate::level::{Level, LevelId, PriceLevel};
use crate::order::{Order, OrderId};
use crate::orderbook::OrderBook;
use crate::price::{signed_price, Price};
use crate::quantity::Qty;
use crate::sum::{lemma_sum_frame, lemma_sum_ge, lemma_sum_insert, lemma_sum_remove, sum_qty};
use crate::utils::BookId;

verus! {

broadcast use vstd::std_specs::hash::group_hash_axioms;

/// A resting order as callers see it: its book, its signed price and its
/// quantity.
pub type Resting = (u16, i64, u64);

/// The books of all instruments and the registry of resting orders; it
/// applies the events of a feed.
pub struct OrderBookManager {
    books: Vec<OrderBook>,
    orders: HashMap<u32, Order>,
}

/// A well-formed book with no levels and no orders.
pub open spec fn blank_book(bk: OrderBook) -> bool {
    &&& bk.wf()
    &&& bk.bids@ == Seq::<PriceLevel>::empty()
    &&& bk.asks@ == Seq::<PriceLevel>::empty()
    &&& bk.level_pool@.dom() == Set::<u32>::empty()
    &&& bk.orders_at() == Map::<u32, Set<u32>>::empty()
}

/// The resting orders after a replace of `old_id` by `new_id`: `old_id`
/// leaves, and `new_id` comes in as `v` when the add took effect with
/// shares.
pub open spec fn replace_effect(
    resting: Map<u32, Resting>,
    old_id: u32,
    new_id: u32,
    added: bool,
    v: Resting,
) -> Map<u32, Resting> {
    if added && v.2 > 0 {
        resting.remove(old_id).insert(new_id, v)
    } else {
        resting.remove(old_id)
    }
}

/// Registering `o` as `order_id` after its book rested it keeps the
/// manager's invariant, and adds it to the resting orders.
proof fn lemma_add_preserves(m0: OrderBookManager, m1: OrderBookManager, b: int, order_id: u32, o: Order, px: Price)
    requires
        m0.wf(),
        0 <= b < m0.books@.len(),
        !m0.orders@.contains_key(order_id),
        o.book_id.0 as int == b,
        o.qty.0 > 0,
        m1.books@ == m0.books@.update(b, m1.books@[b]),
        m1.orders@ == m0.orders@.insert(order_id, o),
        m1.books@[b].wf(),
        ({
            let bk0 = m0.books@[b];
            let bk1 = m1.books@[b];
            let l = o.level_id.0;
            let was = bk0.level_pool@.contains_key(l);
            let before = if was { bk0.level_pool@[l].size.0 as int } else { 0 };
            let ids = if was { bk0.orders_at()[l] } else { Set::<u32>::empty() };
            &&& before + o.qty.0 <= u64::MAX
            &&& bk1.level_pool@ == bk0.level_pool@.insert(l, Level { price: px, size: Qty((before + o.qty.0) as u64) })
            &&& bk1.orders_at() == bk0.orders_at().insert(l, ids.insert(order_id))
            &&& was ==> bk0.level_pool@[l].price == px
        }),
    ensures
        m1.wf(),
        m1.resting() == m0.resting().insert(order_id, (o.book_id.0, px.0, o.qty.0)),
{
    let bk0 = m0.books@[b];
    let bk1 = m1.books@[b];
    let l = o.level_id.0;
    let was = bk0.level_pool@.contains_key(l);
    let ids = if was { bk0.orders_at()[l] } else { Set::<u32>::empty() };
    assert(bk0.wf());
    assert(m1.qtys() =~= m0.qtys().insert(order_id, o.qty.0));
    assert forall|bb: int| 0 <= bb < m1.books@.len() implies #[trigger] m1.books@[bb].wf() by {
        if bb != b {
            assert(m0.books@[bb].wf());
        }
    }
    assert forall|k: u32| m1.orders@.contains_key(k) implies #[trigger] m1.order_ok(k) by {
        if k != order_id {
            assert(m0.order_ok(k));
            let ok = m0.orders@[k];
            if ok.book_id.0 as int == b && ok.level_id.0 == l {
                assert(bk0.level_orders@.contains_key(l));
            }
        }
    }
    assert forall|bb: int, x: u32|
        0 <= bb < m1.books@.len() && m1.books@[bb].level_pool@.contains_key(x)
            implies #[trigger] m1.level_ok(bb, x) by {
        if bb != b {
            assert(m1.books@[bb] == m0.books@[bb]);
            assert(m0.books@[bb].wf());
            assert(m0.books@[bb].level_orders@.contains_key(x));
            assert(m0.level_ok(bb, x));
            let st = m0.books@[bb].orders_at()[x];
            assert(!st.contains(order_id));
            lemma_sum_frame(m1.qtys(), m0.qtys(), st);
        } else if x != l {
            assert(bk0.level_pool@.contains_key(x));
            assert(bk0.level_orders@.contains_key(x));
            assert(m0.level_ok(bb, x));
            let st = bk0.orders_at()[x];
            assert(bk1.orders_at()[x] == st);
            assert(!st.contains(order_id));
            lemma_sum_frame(m1.qtys(), m0.qtys(), st);
        } else {
            if was {
                assert(bk0.level_orders@.contains_key(x));
                assert(m0.level_ok(bb, x));
                assert(!ids.contains(order_id));
                lemma_sum_frame(m1.qtys(), m0.qtys(), ids);
            } else {
                assert(ids.len() == 0);
                assert(sum_qty(m1.qtys(), ids) == 0);
            }
            lemma_sum_insert(m1.qtys(), ids, order_id);
            assert(bk1.orders_at()[x] == ids.insert(order_id));
            assert forall|k: u32| bk1.orders_at()[x].contains(k) implies m1.orders@.contains_key(k)
                && m1.orders@[k].book_id.0 == bb && m1.orders@[k].level_id.0 == x by {
                if k != order_id {
                    assert(ids.contains(k));
                    assert(m0.level_ok(bb, x));
                }
            }
        }
    }
    assert(m1.resting() =~= m0.resting().insert(order_id, (o.book_id.0, px.0, o.qty.0))) by {
        assert forall|k: u32| #[trigger] m1.orders@.contains_key(k) && k != order_id implies m1.resting()[k] == m0.resting()[k] by {
            assert(m0.order_ok(k));
            let ok = m0.orders@[k];
            if ok.book_id.0 as int == b && ok.level_id.0 == l {
                assert(bk0.level_orders@.contains_key(l));
            }
        }
    }
}

/// Adding `qty` to the level of `s` at `price`, if there is one, would
/// pass the integer width of its aggregate.
pub open spec fn level_overflows(s: Seq<(i64, u64)>, price: i64, qty: u64) -> bool {
    exists|i: int| 0 <= i < s.len() && s[i].0 == price && s[i].1 + qty > u64::MAX
}

impl OrderBookManager {
    /// The quantity of each resting order.
    pub closed spec fn qtys(&self) -> Map<u32, u64> {
        Map::new(|k: u32| self.orders@.contains_key(k), |k: u32| self.orders@[k].qty.0)
    }

    /// Every resting order, with its book, signed price and quantity.
    pub closed spec fn resting(&self) -> Map<u32, Resting> {
        Map::new(
            |k: u32| self.orders@.contains_key(k),
            |k: u32|
                {
                    let o = self.orders@[k];
                    (
                        o.book_id.0,
                        self.books@[o.book_id.0 as int].level_pool@[o.level_id.0].price.0,
                        o.qty.0,
                    )
                },
        )
    }

    /// One side of one book, lowest price first: each level's signed price
    /// and aggregate quantity. Empty for a book that was never used.
    pub closed spec fn levels(&self, book: u16, bid: bool) -> Seq<(i64, u64)> {
        if (book as int) < self.books@.len() {
            let bk = self.books@[book as int];
            bk.side(bid).map_values(|e: PriceLevel| (e.price.0, bk.level_pool@[e.level_id.0].size.0))
        } else {
            Seq::empty()
        }
    }

    /// The registry entry of `k` names a book, a live level of it whose set
    /// holds `k`, and a positive quantity.
    spec fn order_ok(&self, k: u32) -> bool {
        let o = self.orders@[k];
        &&& (o.book_id.0 as int) < self.books@.len()
        &&& self.books@[o.book_id.0 as int].orders_at().contains_key(o.level_id.0)
        &&& self.books@[o.book_id.0 as int].orders_at()[o.level_id.0].contains(k)
        &&& o.qty.0 > 0
    }

    /// Every id in the set of level `l` of book `b` is registered there,
    /// and the level's aggregate is the total of their quantities.
    spec fn level_ok(&self, b: int, l: u32) -> bool {
        let bk = self.books@[b];
        &&& forall|k: u32|
            bk.orders_at()[l].contains(k) ==> self.orders@.contains_key(k)
                && self.orders@[k].book_id.0 == b && self.orders@[k].level_id.0 == l
        &&& bk.level_pool@[l].size.0 == sum_qty(self.qtys(), bk.orders_at()[l])
    }

    /// The manager's invariant: every book is well formed, the registry and
    /// the books' sets of orders agree, and each level's aggregate is the
    /// total of the orders resting on it.
    pub closed spec fn wf(&self) -> bool {
        &&& self.books@.len() <= u16::MAX as int + 1
        &&& forall|b: int| 0 <= b < self.books@.len() ==> #[trigger] self.books@[b].wf()
        &&& forall|k: u32| self.orders@.contains_key(k) ==> #[trigger] self.order_ok(k)
        &&& forall|b: int, l: u32|
            0 <= b < self.books@.len() && self.books@[b].level_pool@.contains_key(l)
                ==> #[trigger] self.level_ok(b, l)
    }

    /// Creates a manager with no books and no orders.
    pub fn new() -> (r: OrderBookManager)
        ensures
            r.wf(),
            r.resting() == Map::<u32, Resting>::empty(),
            forall|book: u16, bid: bool| r.levels(book, bid) == Seq::<(i64, u64)>::empty(),
    {
        let r = OrderBookManager { books: Vec::new(), orders: HashMap::new() };
        assert(r.resting() =~= Map::<u32, Resting>::empty());
        r
    }

    /// Makes sure that a book exists for `book`, creating empty ones.
    fn ensure_book(&mut self, book: u16)
        requires
            old(self).wf(),
        ensures
            final(self).wf(),
            (book as int) < final(self).books@.len(),
            final(self).orders@ == old(self).orders@,
            old(self).books@.len() <= final(self).books@.len(),
            forall|b: int|
                0 <= b < old(self).books@.len() ==> #[trigger] final(self).books@[b] == old(
                    self,
                ).books@[b],
            forall|b: int|
                old(self).books@.len() <= b < final(self).books@.len() ==> blank_book(#[trigger] final(self).books@[b]),
    {
        while self.books.len() <= book as usize
            invariant
                self.wf(),
                self.orders@ == old(self).orders@,
                old(self).books@.len() <= self.books@.len(),
                forall|b: int|
                    0 <= b < old(self).books@.len() ==> #[trigger] self.books@[b] == old(
                        self,
                    ).books@[b],
                forall|b: int|
                    old(self).books@.len() <= b < self.books@.len() ==> blank_book(#[trigger] self.books@[b]),
            decreases book as int + 1 - self.books@.len(),
        {
            let ghost pre = *self;
            self.books.push(OrderBook::new());
            proof {
                let n = pre.books@.len();
                assert(self.qtys() == pre.qtys());
                assert forall|k: u32| self.orders@.contains_key(k) implies #[trigger] self.order_ok(
                    k,
                ) by {
                    assert(pre.order_ok(k));
                    assert(self.books@[self.orders@[k].book_id.0 as int] == pre.books@[self.orders@[k].book_id.0 as int]);
                }
                assert forall|b: int, l: u32|
                    0 <= b < self.books@.len() && self.books@[b].level_pool@.contains_key(l)
                        implies #[trigger] self.level_ok(b, l) by {
                    if b < n {
                        assert(pre.level_ok(b, l));
                        assert(self.books@[b] == pre.books@[b]);
                    } else {
                        assert(blank_book(self.books@[b]));
                        assert(self.books@[b].level_pool@.dom().contains(l));
                    }
                }
                assert forall|b: int| 0 <= b < self.books@.len() implies #[trigger] self.books@[b].wf() by {
                    if b < n {
                        assert(self.books@[b] == pre.books@[b]);
                    }
                }
                assert(blank_book(self.books@[n as int]));
            }
        }
    }

    /// How the book's own overflow condition reads on the levels of its side.
    proof fn lemma_overflow_cases(&self, book: u16, px: Price, qty: Qty)
        requires
            self.wf(),
            (book as int) < self.books@.len(),
        ensures
            level_overflows(self.levels(book, px.0 > 0), px.0, qty.0) ==> self.books@[book as int].add_overflows(px, qty),
            self.books@[book as int].add_overflows(px, qty) && !level_overflows(self.levels(book, px.0 > 0), px.0, qty.0)
                ==> self.levels(book, true).len() + self.levels(book, false).len() >= 0x1_0000_0000,
    {
        let bk0 = self.books@[book as int];
        assert(bk0.wf());
        let lv = self.levels(book, px.0 > 0);
        let sd = bk0.side(px.0 > 0);
        assert(sd.len() == lv.len());
        if level_overflows(lv, px.0, qty.0) {
            let i = choose|i: int| 0 <= i < lv.len() && lv[i].0 == px.0 && lv[i].1 + qty.0 > u64::MAX;
            assert(sd[i].price == px);
            assert(bk0.add_overflows(px, qty));
        } else if bk0.add_overflows(px, qty) {
            if exists|i: int|
                0 <= i < sd.len() && #[trigger] sd[i].price == px && bk0.level_pool@[sd[i].level_id.0].size.0
                    + qty.0 > u64::MAX {
                let i = choose|i: int|
                    0 <= i < sd.len() && #[trigger] sd[i].price == px && bk0.level_pool@[sd[i].level_id.0].size.0
                        + qty.0 > u64::MAX;
                assert(lv[i].0 == px.0);
                assert(level_overflows(lv, px.0, qty.0));
            }
            bk0.lemma_full_pool();
            assert(self.levels(book, true).len() == bk0.bids@.len());
            assert(self.levels(book, false).len() == bk0.asks@.len());
        }
    }

    /// Rests a new order `order_id` of `qty` shares at the economic price
    /// `price` on the bid or ask side of `book_id`, creating the book if
    /// needed. An order of zero shares does not rest. Fails, changing no
    /// resting order and no level, with `Duplicate` when `order_id` already
    /// rests, else with `Overflow` when the price does not fit the signed
    /// width, when the level's aggregate would not fit, or when a new level
    /// is needed and every level handle of the book is in use.
    pub fn add_order(&mut self, order_id: OrderId, book_id: BookId, qty: Qty, price: u64, is_bid: bool)
        -> (r: Result<(), LobError>)
        requires
            old(self).wf(),
        ensures
            final(self).wf(),
            ({
                let p = signed_price(price as int, is_bid);
                if old(self).resting().contains_key(order_id.0) {
                    r == Err::<(), LobError>(LobError::Duplicate)
                } else if price > i64::MAX {
                    r == Err::<(), LobError>(LobError::Overflow)
                } else if qty.0 == 0 {
                    r is Ok
                } else if level_overflows(old(self).levels(book_id.0, p > 0), p as i64, qty.0) {
                    r == Err::<(), LobError>(LobError::Overflow)
                } else if old(self).levels(book_id.0, true).len() + old(self).levels(book_id.0, false).len()
                    < 0x1_0000_0000 {
                    r is Ok
                } else {
                    r is Ok || r == Err::<(), LobError>(LobError::Overflow)
                }
            }),
            r is Ok && qty.0 > 0 ==> final(self).resting() == old(self).resting().insert(
                order_id.0,
                (book_id.0, signed_price(price as int, is_bid) as i64, qty.0),
            ),
            !(r is Ok && qty.0 > 0) ==> final(self).resting() == old(self).resting(),
            !(r is Ok && qty.0 > 0) ==> forall|b: u16, bid: bool| #[trigger] final(self).levels(b, bid) == old(self).levels(b, bid),
    {
        if self.orders.contains_key(&order_id.0) {
            return Err(LobError::Duplicate);
        }
        let px = match Price::from_abs(price, is_bid) {
            Some(px) => px,
            None => {
                return Err(LobError::Overflow);
            },
        };
        if qty.0 == 0 {
            return Ok(());
        }
        let b = book_id.0 as usize;
        self.ensure_book(book_id.0);
        let ghost m0 = *self;
        proof {
            assert(m0.resting() =~= old(self).resting()) by {
                assert forall|k: u32| m0.orders@.contains_key(k) implies m0.resting()[k] == old(self).resting()[k] by {
                    assert(old(self).order_ok(k));
                }
            }
            assert forall|bb: u16, bid: bool| #[trigger] m0.levels(bb, bid) == old(self).levels(bb, bid) by {
                if (bb as int) < m0.books@.len() && (bb as int) >= old(self).books@.len() {
                    assert(blank_book(m0.books@[bb as int]));
                    assert(m0.levels(bb, bid) =~= Seq::<(i64, u64)>::empty());
                }
            }
            let bk0 = m0.books@[b as int];
            assert(bk0.wf());
            m0.lemma_overflow_cases(book_id.0, px, qty);
            assert(!bk0.holds_order(order_id.0)) by {
                if bk0.holds_order(order_id.0) {
                    let l = choose|l: u32| bk0.orders_at().contains_key(l) && bk0.orders_at()[l].contains(order_id.0);
                    assert(bk0.level_orders@.contains_key(l));
                    assert(m0.level_ok(b as int, l));
                }
            }
        }
        let mut order = Order::new(LevelId(0), qty, book_id);
        let res = self.books[b].add_order(&mut order, order_id, px, qty);
        if res.is_err() {
            proof {
                assert(self.orders@ == m0.orders@);
                assert(self.books@ == m0.books@.update(b as int, self.books@[b as int]));
                assert(self.books@[b as int].same_view(m0.books@[b as int]));
                assert(self.qtys() == m0.qtys());
                assert forall|k: u32| self.orders@.contains_key(k) implies #[trigger] self.order_ok(k) by {
                    assert(m0.order_ok(k));
                }
                assert forall|bb: int, l: u32|
                    0 <= bb < self.books@.len() && self.books@[bb].level_pool@.contains_key(l)
                        implies #[trigger] self.level_ok(bb, l) by {
                    assert(m0.level_ok(bb, l));
                }
                assert forall|bb: int| 0 <= bb < self.books@.len() implies #[trigger] self.books@[bb].wf() by {
                    if bb != b as int {
                        assert(m0.books@[bb].wf());
                    }
                }
                assert(self.resting() =~= m0.resting()) by {
                    assert forall|k: u32| self.orders@.contains_key(k) implies self.resting()[k] == m0.resting()[k] by {
                        assert(m0.order_ok(k));
                    }
                }
                assert forall|bb: u16, bid: bool| #[trigger] self.levels(bb, bid) == m0.levels(bb, bid) by {
                    if bb as int == b as int {
                        assert(self.levels(bb, bid) =~= m0.levels(bb, bid));
                    }
                }
            }
            return Err(LobError::Overflow);
        }
        let ghost m1 = *self;
        self.orders.insert(order_id.0, order);
        proof {
            assert(self.books@ == m0.books@.update(b as int, self.books@[b as int]));
            assert(self.orders@ == m0.orders@.insert(order_id.0, order));
            lemma_add_preserves(m0, *self, b as int, order_id.0, order, px);
        }
        Ok(())
    }

    /// The aggregate of the level that registered order `k` rests on is at
    /// least its quantity, and equals it exactly when `k` rests there alone.
    proof fn lemma_level_of(&self, k: u32)
        requires
            self.wf(),
            self.orders@.contains_key(k),
        ensures
            ({
                let o = self.orders@[k];
                let bk = self.books@[o.book_id.0 as int];
                &&& (o.book_id.0 as int) < self.books@.len()
                &&& bk.wf()
                &&& bk.level_pool@.contains_key(o.level_id.0)
                &&& bk.orders_at()[o.level_id.0].contains(k)
                &&& o.qty.0 <= bk.level_pool@[o.level_id.0].size.0
                &&& (o.qty.0 == bk.level_pool@[o.level_id.0].size.0) == (bk.orders_at()[o.level_id.0]
                    == set![k])
            }),
    {
        let o = self.orders@[k];
        let b = o.book_id.0 as int;
        let l = o.level_id.0;
        assert(self.order_ok(k));
        let bk = self.books@[b];
        assert(bk.wf());
        assert(bk.level_orders@.contains_key(l));
        assert(self.level_ok(b, l));
        let st = bk.orders_at()[l];
        assert(self.qtys()[k] == o.qty.0);
        lemma_sum_ge(self.qtys(), st, k);
        lemma_sum_remove(self.qtys(), st, k);
        if st != set![k] {
            let j = choose|j: u32| st.contains(j) && j != k;
            if !st.contains(j) || j == k {
                assert(st =~= set![k]);
            }
            assert(self.order_ok(j));
            lemma_sum_ge(self.qtys(), st.remove(k), j);
        } else {
            assert(st.remove(k) =~= Set::<u32>::empty());
        }
    }

    /// Takes the resting order `order_id` off its book, whatever its
    /// quantity; a level left empty leaves its side. Fails with `Missing`,
    /// changing nothing, when the order does not rest.
    pub fn remove_order(&mut self, order_id: OrderId) -> (r: Result<(), LobError>)
        requires
            old(self).wf(),
        ensures
            final(self).wf(),
            r is Err <==> !old(self).resting().contains_key(order_id.0),
            r is Err ==> r == Err::<(), LobError>(LobError::Missing),
            final(self).resting() == old(self).resting().remove(order_id.0),
            r is Err ==> forall|b: u16, bid: bool| #[trigger] final(self).levels(b, bid) == old(self).levels(b, bid),
    {
        let mut o = match self.orders.get(&order_id.0) {
            Some(o) => *o,
            None => {
                assert(old(self).resting() =~= old(self).resting().remove(order_id.0));
                return Err(LobError::Missing);
            },
        };
        let ghost m0 = *self;
        proof {
            m0.lemma_level_of(order_id.0);
        }
        let b = o.book_id.0 as usize;
        let ghost bk0 = m0.books@[b as int];
        let ghost l = o.level_id.0;
        let ghost st = bk0.orders_at()[l];
        let ghost emptied = o.qty.0 == bk0.level_pool@[l].size.0;
        self.books[b].remove_order(&mut o, order_id);
        self.orders.remove(&order_id.0);
        proof {
            let bk1 = self.books@[b as int];
            assert(self.books@ == m0.books@.update(b as int, bk1));
            assert(self.orders@ == m0.orders@.remove(order_id.0));
            assert(self.qtys() =~= m0.qtys().remove(order_id.0));
            assert(bk0.level_orders@.contains_key(l));
            assert forall|bb: int| 0 <= bb < self.books@.len() implies #[trigger] self.books@[bb].wf() by {
                if bb != b as int {
                    assert(m0.books@[bb].wf());
                }
            }
            assert forall|k: u32| self.orders@.contains_key(k) implies #[trigger] self.order_ok(k) by {
                assert(m0.order_ok(k));
                let ok = m0.orders@[k];
                if ok.book_id.0 as int == b as int && ok.level_id.0 == l {
                    assert(m0.level_ok(b as int, l));
                    if emptied {
                        assert(st.contains(k));
                    }
                }
            }
            assert forall|bb: int, x: u32|
                0 <= bb < self.books@.len() && self.books@[bb].level_pool@.contains_key(x)
                    implies #[trigger] self.level_ok(bb, x) by {
                assert(m0.books@[bb].wf());
                assert(m0.books@[bb].level_pool@.contains_key(x));
                assert(m0.level_ok(bb, x));
                assert(m0.books@[bb].level_orders@.contains_key(x));
                let sx = m0.books@[bb].orders_at()[x];
                if bb != b as int || x != l {
                    assert(!sx.contains(order_id.0));
                    lemma_sum_frame(self.qtys(), m0.qtys(), sx);
                } else {
                    lemma_sum_remove(m0.qtys(), st, order_id.0);
                    lemma_sum_frame(self.qtys(), m0.qtys(), st.remove(order_id.0));
                }
            }
            assert(self.resting() =~= old(self).resting().remove(order_id.0)) by {
                assert forall|k: u32| #[trigger] self.orders@.contains_key(k) implies self.resting()[k] == old(self).resting()[k] by {
                    assert(m0.order_ok(k));
                    let ok = m0.orders@[k];
                    if ok.book_id.0 as int == b as int && ok.level_id.0 == l {
                        assert(m0.level_ok(b as int, l));
                        if emptied {
                            assert(st.contains(k));
                        }
                    }
                }
            }
        }
        Ok(())
    }

    /// Takes `qty` shares from the resting order `order_id`; an order
    /// brought to zero is removed as by `remove_order`. Fails with
    /// `Missing`, changing nothing, when the order does not rest. Taking
    /// more than rests is a fault of the feed and is not admitted.
    pub fn execute_order(&mut self, order_id: OrderId, qty: Qty) -> (r: Result<(), LobError>)
        requires
            old(self).wf(),
            old(self).resting().contains_key(order_id.0) ==> qty.0 <= old(self).resting()[order_id.0].2,
        ensures
            final(self).wf(),
            r is Err <==> !old(self).resting().contains_key(order_id.0),
            r is Err ==> r == Err::<(), LobError>(LobError::Missing) && final(self).resting() == old(self).resting(),
            r is Err ==> forall|b: u16, bid: bool| #[trigger] final(self).levels(b, bid) == old(self).levels(b, bid),
            r is Ok ==> ({
                let (b, p, q) = old(self).resting()[order_id.0];
                if qty.0 == q {
                    final(self).resting() == old(self).resting().remove(order_id.0)
                } else {
                    final(self).resting() == old(self).resting().insert(order_id.0, (b, p, (q - qty.0) as u64))
                }
            }),
    {
        let mut o = match self.orders.get(&order_id.0) {
            Some(o) => *o,
            None => {
                return Err(LobError::Missing);
            },
        };
        if qty.0 == o.qty.0 {
            return self.remove_order(order_id);
        }
        let ghost m0 = *self;
        proof {
            m0.lemma_level_of(order_id.0);
        }
        let b = o.book_id.0 as usize;
        let ghost bk0 = m0.books@[b as int];
        let ghost l = o.level_id.0;
        let ghost st = bk0.orders_at()[l];
        self.books[b].reduce_order(&mut o, order_id, qty);
        self.orders.insert(order_id.0, o);
        proof {
            let bk1 = self.books@[b as int];
            assert(self.books@ == m0.books@.update(b as int, bk1));
            assert(self.orders@ == m0.orders@.insert(order_id.0, o));
            assert(self.qtys() =~= m0.qtys().insert(order_id.0, o.qty.0));
            assert(bk0.level_orders@.contains_key(l));
            assert forall|bb: int| 0 <= bb < self.books@.len() implies #[trigger] self.books@[bb].wf() by {
                if bb != b as int {
                    assert(m0.books@[bb].wf());
                }
            }
            assert forall|k: u32| self.orders@.contains_key(k) implies #[trigger] self.order_ok(k) by {
                assert(m0.order_ok(k));
            }
            assert forall|bb: int, x: u32|
                0 <= bb < self.books@.len() && self.books@[bb].level_pool@.contains_key(x)
                    implies #[trigger] self.level_ok(bb, x) by {
                assert(m0.books@[bb].wf());
                assert(m0.books@[bb].level_pool@.contains_key(x));
                assert(m0.level_ok(bb, x));
                assert(m0.books@[bb].level_orders@.contains_key(x));
                let sx = m0.books@[bb].orders_at()[x];
                if bb != b as int || x != l {
                    assert(!sx.contains(order_id.0));
                    lemma_sum_frame(self.qtys(), m0.qtys(), sx);
                } else {
                    lemma_sum_remove(m0.qtys(), st, order_id.0);
                    lemma_sum_remove(self.qtys(), st, order_id.0);
                    lemma_sum_frame(self.qtys(), m0.qtys(), st.remove(order_id.0));
                }
            }
            assert(self.resting() =~= old(self).resting().insert(
                order_id.0,
                (o.book_id.0, old(self).resting()[order_id.0].1, o.qty.0),
            )) by {
                assert forall|k: u32| #[trigger] self.orders@.contains_key(k) implies self.resting()[k] == old(self).resting().insert(
                order_id.0,
                (o.book_id.0, old(self).resting()[order_id.0].1, o.qty.0),
            )[k] by {
                    assert(m0.order_ok(k));
                }
            }
        }
        Ok(())
    }

    /// Cancels `qty` shares of the resting order `order_id`: to this engine
    /// the same as `execute_order`.
    pub fn cancel_order(&mut self, order_id: OrderId, qty: Qty) -> (r: Result<(), LobError>)
        requires
            old(self).wf(),
            old(self).resting().contains_key(order_id.0) ==> qty.0 <= old(self).resting()[order_id.0].2,
        ensures
            final(self).wf(),
            r is Err <==> !old(self).resting().contains_key(order_id.0),
            r is Err ==> r == Err::<(), LobError>(LobError::Missing) && final(self).resting() == old(self).resting(),
            r is Err ==> forall|b: u16, bid: bool| #[trigger] final(self).levels(b, bid) == old(self).levels(b, bid),
            r is Ok ==> ({
                let (b, p, q) = old(self).resting()[order_id.0];
                if qty.0 == q {
                    final(self).resting() == old(self).resting().remove(order_id.0)
                } else {
                    final(self).resting() == old(self).resting().insert(order_id.0, (b, p, (q - qty.0) as u64))
                }
            }),
    {
        self.execute_order(order_id, qty)
    }

    /// Replaces the resting order `old_id` by `new_id`: removes it, then adds
    /// `new_id` with `qty` shares at the economic price `price` in the same
    /// book and on the same side. Fails with `Missing`, changing nothing,
    /// when `old_id` does not rest, and with `Duplicate`, changing nothing,
    /// when another resting order already has `new_id`; an `Overflow` from
    /// the add leaves `old_id` removed.
    pub fn replace_order(&mut self, old_id: OrderId, new_id: OrderId, qty: Qty, price: u64) -> (r:
        Result<(), LobError>)
        requires
            old(self).wf(),
        ensures
            final(self).wf(),
            !old(self).resting().contains_key(old_id.0) ==> r == Err::<(), LobError>(LobError::Missing),
            old(self).resting().contains_key(old_id.0) && new_id.0 != old_id.0 && old(self).resting().contains_key(new_id.0)
                ==> r == Err::<(), LobError>(LobError::Duplicate),
            r matches Err(e) && e != LobError::Overflow ==> final(self).resting() == old(self).resting(),
            old(self).resting().contains_key(old_id.0) && !(new_id.0 != old_id.0 && old(self).resting().contains_key(new_id.0))
                ==> ({
                    let (b, p, q) = old(self).resting()[old_id.0];
                    let bid = p > 0;
                    &&& price > i64::MAX ==> r == Err::<(), LobError>(LobError::Overflow)
                    &&& price <= i64::MAX && qty.0 == 0 ==> r is Ok
                    &&& price <= i64::MAX && qty.0 > 0 && !level_overflows(
                        old(self).levels(b, signed_price(price as int, bid) > 0),
                        signed_price(price as int, bid) as i64,
                        qty.0,
                    ) && old(self).levels(b, true).len() + old(self).levels(b, false).len()
                        < 0x1_0000_0000 ==> r is Ok
                    &&& r is Err ==> r == Err::<(), LobError>(LobError::Overflow)
                    &&& final(self).resting() == replace_effect(
                        old(self).resting(),
                        old_id.0,
                        new_id.0,
                        r is Ok,
                        (b, signed_price(price as int, bid) as i64, qty.0),
                    )
                }),
    {
        let o = match self.orders.get(&old_id.0) {
            Some(o) => *o,
            None => {
                return Err(LobError::Missing);
            },
        };
        if new_id.0 != old_id.0 && self.orders.contains_key(&new_id.0) {
            return Err(LobError::Duplicate);
        }
        proof {
            self.lemma_level_of(old_id.0);
        }
        let b = o.book_id.0 as usize;
        let is_bid = match self.books[b].level_pool.get(o.level_id) {
            Some(l) => l.price.is_bid(),
            None => false,
        };
        let ghost before = *self;
        let _ = self.remove_order(old_id);
        proof {
            crate::laws::lemma_remove_shrinks(before, *self, old_id.0);
            let p = signed_price(price as int, is_bid);
            assert(self.levels(o.book_id.0, p > 0).len() <= before.levels(o.book_id.0, p > 0).len());
            assert(self.levels(o.book_id.0, true).len() <= before.levels(o.book_id.0, true).len());
            assert(self.levels(o.book_id.0, false).len() <= before.levels(o.book_id.0, false).len());
            if level_overflows(self.levels(o.book_id.0, p > 0), p as i64, qty.0) {
                assert(level_overflows(before.levels(o.book_id.0, p > 0), p as i64, qty.0));
            }
        }
        self.add_order(new_id, o.book_id, qty, price, is_bid)
    }

    /// A resting order has a positive quantity.
    pub proof fn lemma_resting_positive(&self, k: u32)
        requires
            self.wf(),
            self.resting().contains_key(k),
        ensures
            self.resting()[k].2 > 0,
    {
        assert(self.order_ok(k));
    }

    /// What each side of a book holds, in terms of the resting orders: its
    /// prices strictly increase and are those of the orders resting on that
    /// side, and each level's aggregate is their total quantity.
    pub proof fn lemma_levels_characterized(&self, book: u16, bid: bool)
        requires
            self.wf(),
        ensures
            prices_increase(self.levels(book, bid)),
            forall|i: int|
                0 <= i < self.levels(book, bid).len() ==> {
                    &&& rests_at(self.resting(), book, #[trigger] self.levels(book, bid)[i].0)
                    &&& self.levels(book, bid)[i].1 > 0
                    &&& (self.levels(book, bid)[i].0 > 0) == bid
                    &&& self.levels(book, bid)[i].1 == level_total(
                        self.resting(),
                        book,
                        self.levels(book, bid)[i].0,
                    )
                    &&& ids_at(self.resting(), book, self.levels(book, bid)[i].0).finite()
                },
            forall|p: i64|
                rests_at(self.resting(), book, p) && (p > 0) == bid ==> #[trigger] has_price(
                    self.levels(book, bid),
                    p,
                ),
    {
        let s = self.levels(book, bid);
        let r = self.resting();
        assert(resting_qtys(r) =~= self.qtys());
        if (book as int) < self.books@.len() {
            let b = book as int;
            let bk = self.books@[b];
            assert(bk.wf());
            let side = bk.side(bid);
            assert(side.len() == s.len());
            assert forall|i: int| #![trigger side[i]] 0 <= i < side.len() implies ({
                let e = side[i];
                &&& bk.level_pool@.contains_key(e.level_id.0)
                &&& bk.level_pool@[e.level_id.0].price == e.price
                &&& (e.price.0 > 0) == bid
            }) by {
                if bid {
                    assert(bk.bids@[i] == side[i]);
                } else {
                    assert(bk.asks@[i] == side[i]);
                }
            }
            assert forall|i: int, j: int| 0 <= i < j < s.len() implies s[i].0 < s[j].0 by {
                if bid {
                    assert(bk.bids@[i] == side[i] && bk.bids@[j] == side[j]);
                } else {
                    assert(bk.asks@[i] == side[i] && bk.asks@[j] == side[j]);
                }
            }
            assert forall|i: int| 0 <= i < s.len() implies {
                &&& rests_at(r, book, #[trigger] s[i].0)
                &&& s[i].1 > 0
                &&& (s[i].0 > 0) == bid
                &&& s[i].1 == level_total(r, book, s[i].0)
                &&& ids_at(r, book, s[i].0).finite()
            } by {
                let e = side[i];
                let l = e.level_id.0;
                assert(bk.level_orders@.contains_key(l));
                let st = bk.orders_at()[l];
                assert(!st.is_empty());
                let k = choose|k: u32| st.contains(k);
                if !st.contains(k) {
                    assert(st =~= Set::<u32>::empty());
                }
                assert(self.level_ok(b, l));
                assert(self.order_ok(k));
                assert(r.contains_key(k) && r[k].0 == book && r[k].1 == s[i].0);
                lemma_sum_ge(self.qtys(), st, k);
                assert(st =~= ids_at(r, book, s[i].0)) by {
                    assert forall|x: u32| ids_at(r, book, s[i].0).contains(x) implies st.contains(x) by {
                        assert(self.order_ok(x));
                        let lx = self.orders@[x].level_id.0;
                        assert(bk.level_pool@.contains_key(lx));
                        assert(bk.level_pool@[lx].price == e.price);
                        let ex = PriceLevel { price: e.price, level_id: LevelId(lx) };
                        assert(side.contains(ex));
                        let jx = choose|jx: int| 0 <= jx < side.len() && side[jx] == ex;
                        if jx < i {
                            assert(s[jx].0 < s[i].0);
                        } else if jx > i {
                            assert(s[i].0 < s[jx].0);
                        }
                    }
                }
                lemma_sum_frame(resting_qtys(r), self.qtys(), st);
            }
            assert forall|p: i64| rests_at(r, book, p) && (p > 0) == bid implies #[trigger] has_price(s, p) by {
                let k = choose|k: u32| #[trigger] r.contains_key(k) && r[k].0 == book && r[k].1 == p;
                assert(self.order_ok(k));
                let l = self.orders@[k].level_id.0;
                assert(bk.level_pool@.contains_key(l));
                let e = PriceLevel { price: bk.level_pool@[l].price, level_id: LevelId(l) };
                assert(side.contains(e));
                let j = choose|j: int| 0 <= j < side.len() && side[j] == e;
                assert(s[j].0 == p);
            }
        } else {
            assert forall|p: i64| rests_at(r, book, p) && (p > 0) == bid implies #[trigger] has_price(s, p) by {
                let k = choose|k: u32| #[trigger] r.contains_key(k) && r[k].0 == book && r[k].1 == p;
                assert(self.order_ok(k));
            }
        }
    }

    /// Returns the aggregate at `rank` of the bid side of `book_id`,
    /// counted from the lowest price; zero for a missing book or rank.
    pub fn level_capacity(&self, book_id: BookId, rank: usize) -> (r: Qty)
        requires
            self.wf(),
        ensures
            r.0 == if (rank as int) < self.levels(book_id.0, true).len() {
                self.levels(book_id.0, true)[rank as int].1
            } else {
                0
            },
    {
        let b = book_id.0 as usize;
        if b >= self.books.len() {
            return Qty(0);
        }
        let book = &self.books[b];
        if rank >= book.bids.len() {
            return Qty(0);
        }
        let e = book.bids.get(rank);
        assert(book.wf());
        match book.level_pool.get(e.level_id) {
            Some(l) => l.size,
            None => Qty(0),
        }
    }

    /// Returns the quantity resting for `order_id`, if it rests.
    pub fn order_qty(&self, order_id: OrderId) -> (r: Option<Qty>)
        requires
            self.wf(),
        ensures
            r is Some <==> self.resting().contains_key(order_id.0),
            r matches Some(q) ==> q.0 == self.resting()[order_id.0].2,
    {
        match self.orders.get(&order_id.0) {
            Some(o) => Some(o.qty),
            None => None,
        }
    }
}

} // verus!
