use vstd::prelude::*;
use crate::orderbook_manager::{replace_effect, OrderBookManager, Resting};
use crate::orderbook_manager::level_overflows;
use crate::sum::{lemma_sum_frame, lemma_sum_remove, sum_qty};

verus! {

/// The quantity of each resting order.
pub open spec fn resting_qtys(resting: Map<u32, Resting>) -> Map<u32, u64> {
    resting.map_values(|v: Resting| v.2)
}

/// The ids of the orders resting in `book` at the signed price `price`.
pub open spec fn ids_at(resting: Map<u32, Resting>, book: u16, price: i64) -> Set<u32> {
    resting.dom().filter(|k: u32| resting[k].0 == book && resting[k].1 == price)
}

/// The total quantity of the orders resting in `book` at `price`.
pub open spec fn level_total(resting: Map<u32, Resting>, book: u16, price: i64) -> int {
    sum_qty(resting_qtys(resting), ids_at(resting, book, price))
}

/// Some order rests in `book` at `price`.
pub open spec fn rests_at(resting: Map<u32, Resting>, book: u16, price: i64) -> bool {
    exists|k: u32| #[trigger] resting.contains_key(k) && resting[k].0 == book && resting[k].1 == price
}

/// Some level of `s` is at `price`.
pub open spec fn has_price(s: Seq<(i64, u64)>, price: i64) -> bool {
    exists|i: int| 0 <= i < s.len() && #[trigger] s[i].0 == price
}

/// The levels' prices strictly increase.
pub open spec fn prices_increase(s: Seq<(i64, u64)>) -> bool {
    forall|i: int, j: int| 0 <= i < j < s.len() ==> s[i].0 < s[j].0
}

/// Two strictly increasing sequences of levels with the same prices, whose
/// quantities are one function of the price, are equal.
proof fn lemma_sorted_unique(s: Seq<(i64, u64)>, t: Seq<(i64, u64)>)
    requires
        prices_increase(s),
        prices_increase(t),
        forall|p: i64| has_price(s, p) <==> has_price(t, p),
        forall|i: int, j: int| 0 <= i < s.len() && 0 <= j < t.len() && s[i].0 == t[j].0 ==> s[i] == t[j],
    ensures
        s == t,
    decreases s.len(),
{
    if s.len() == 0 {
        if t.len() > 0 {
            assert(has_price(t, t[0].0));
        }
        assert(s =~= t);
    } else {
        assert(has_price(s, s[0].0));
        assert(t.len() > 0);
        let j = choose|j: int| 0 <= j < t.len() && t[j].0 == s[0].0;
        assert(has_price(t, t[0].0));
        let i = choose|i: int| 0 <= i < s.len() && s[i].0 == t[0].0;
        assert(j == 0) by {
            if j > 0 {
                assert(t[0].0 < t[j].0);
                if i > 0 {
                    assert(s[0].0 < s[i].0);
                }
            }
        }
        let s1 = s.subrange(1, s.len() as int);
        let t1 = t.subrange(1, t.len() as int);
        assert forall|p: i64| has_price(s1, p) implies has_price(t1, p) by {
            let a = choose|a: int| 0 <= a < s1.len() && s1[a].0 == p;
            assert(s[a + 1].0 == p);
            assert(has_price(s, p));
            let b = choose|b: int| 0 <= b < t.len() && t[b].0 == p;
            assert(s[0].0 < s[a + 1].0);
            assert(b != 0);
            assert(t1[b - 1].0 == p);
        }
        assert forall|p: i64| has_price(t1, p) implies has_price(s1, p) by {
            let a = choose|a: int| 0 <= a < t1.len() && t1[a].0 == p;
            assert(t[a + 1].0 == p);
            assert(has_price(t, p));
            let b = choose|b: int| 0 <= b < s.len() && s[b].0 == p;
            assert(t[0].0 < t[a + 1].0);
            assert(b != 0);
            assert(s1[b - 1].0 == p);
        }
        assert forall|a: int, b: int|
            0 <= a < s1.len() && 0 <= b < t1.len() && s1[a].0 == t1[b].0 implies s1[a] == t1[b] by {
            assert(s[a + 1] == t[b + 1]);
        }
        lemma_sorted_unique(s1, t1);
        assert(s =~= seq![s[0]] + s1);
        assert(t =~= seq![t[0]] + t1);
    }
}

/// Conservation: each level's aggregate is the total quantity of the
/// orders resting in its book at its price.
pub proof fn lemma_conservation(m: OrderBookManager, book: u16, bid: bool)
    requires
        m.wf(),
    ensures
        forall|i: int|
            0 <= i < m.levels(book, bid).len() ==> #[trigger] m.levels(book, bid)[i].1 == level_total(
                m.resting(),
                book,
                m.levels(book, bid)[i].0,
            ),
{
    m.lemma_levels_characterized(book, bid);
}

/// Sorted sides: the prices of each side strictly increase, so no price
/// appears twice.
pub proof fn lemma_sorted_sides(m: OrderBookManager, book: u16, bid: bool)
    requires
        m.wf(),
    ensures
        prices_increase(m.levels(book, bid)),
{
    m.lemma_levels_characterized(book, bid);
}

/// No orphan levels: every level holds at least one resting order and a
/// positive aggregate, and lies on the side its price's sign names.
pub proof fn lemma_no_orphan_levels(m: OrderBookManager, book: u16, bid: bool)
    requires
        m.wf(),
    ensures
        forall|i: int|
            0 <= i < m.levels(book, bid).len() ==> {
                &&& rests_at(m.resting(), book, #[trigger] m.levels(book, bid)[i].0)
                &&& m.levels(book, bid)[i].1 > 0
                &&& (m.levels(book, bid)[i].0 > 0) == bid
            },
{
    m.lemma_levels_characterized(book, bid);
}

/// Registry fidelity: every resting order sits at a level of its book, on
/// the side its price's sign names, at its price.
pub proof fn lemma_registry_fidelity(m: OrderBookManager, order_id: u32)
    requires
        m.wf(),
        m.resting().contains_key(order_id),
    ensures
        ({
            let (b, p, q) = m.resting()[order_id];
            has_price(m.levels(b, p > 0), p) && q > 0
        }),
{
    let (b, p, q) = m.resting()[order_id];
    m.lemma_levels_characterized(b, p > 0);
    assert(rests_at(m.resting(), b, p));
    m.lemma_resting_positive(order_id);
}

/// Two managers with the same resting orders have the same levels on
/// every side of every book.
pub proof fn lemma_levels_determined(m1: OrderBookManager, m2: OrderBookManager)
    requires
        m1.wf(),
        m2.wf(),
        m1.resting() == m2.resting(),
    ensures
        forall|book: u16, bid: bool| #[trigger] m1.levels(book, bid) == m2.levels(book, bid),
{
    assert forall|book: u16, bid: bool| #[trigger] m1.levels(book, bid) == m2.levels(book, bid) by {
        m1.lemma_levels_characterized(book, bid);
        m2.lemma_levels_characterized(book, bid);
        let s = m1.levels(book, bid);
        let t = m2.levels(book, bid);
        assert forall|p: i64| has_price(s, p) implies has_price(t, p) by {
            let i = choose|i: int| 0 <= i < s.len() && s[i].0 == p;
            assert(rests_at(m1.resting(), book, s[i].0));
        }
        assert forall|p: i64| has_price(t, p) implies has_price(s, p) by {
            let i = choose|i: int| 0 <= i < t.len() && t[i].0 == p;
            assert(rests_at(m2.resting(), book, t[i].0));
        }
        lemma_sorted_unique(s, t);
    }
}

/// Removing one resting order adds no level to any side and raises no
/// level's aggregate.
pub proof fn lemma_remove_shrinks(before: OrderBookManager, after: OrderBookManager, order_id: u32)
    requires
        before.wf(),
        after.wf(),
        after.resting() == before.resting().remove(order_id),
    ensures
        forall|book: u16, bid: bool|
            #[trigger] after.levels(book, bid).len() <= before.levels(book, bid).len(),
        forall|book: u16, bid: bool, price: i64, qty: u64|
            #[trigger] level_overflows(after.levels(book, bid), price, qty) ==> level_overflows(
                before.levels(book, bid),
                price,
                qty,
            ),
{
    let r0 = before.resting();
    let r1 = after.resting();
    assert forall|book: u16, price: i64|
        rests_at(r1, book, price) implies rests_at(r0, book, price) by {
        let k = choose|k: u32| #[trigger] r1.contains_key(k) && r1[k].0 == book && r1[k].1 == price;
        assert(r0.contains_key(k));
    }
    assert forall|book: u16, bid: bool|
        #[trigger] after.levels(book, bid).len() <= before.levels(book, bid).len() by {
        after.lemma_levels_characterized(book, bid);
        before.lemma_levels_characterized(book, bid);
        let s1 = after.levels(book, bid);
        let s0 = before.levels(book, bid);
        let p1 = s1.map_values(|x: (i64, u64)| x.0 as int);
        let p0 = s0.map_values(|x: (i64, u64)| x.0 as int);
        assert(p1.no_duplicates()) by {
            assert forall|i: int, j: int| 0 <= i < p1.len() && 0 <= j < p1.len() && i != j implies p1[i]
                != p1[j] by {
                if i < j {
                    assert(s1[i].0 < s1[j].0);
                } else {
                    assert(s1[j].0 < s1[i].0);
                }
            }
        }
        p1.unique_seq_to_set();
        p0.lemma_cardinality_of_set();
        assert(p1.to_set().subset_of(p0.to_set())) by {
            assert forall|x: int| p1.to_set().contains(x) implies p0.to_set().contains(x) by {
                let i = choose|i: int| 0 <= i < p1.len() && p1[i] == x;
                assert(rests_at(r1, book, s1[i].0));
                assert(has_price(s0, s1[i].0));
                let j = choose|j: int| 0 <= j < s0.len() && #[trigger] s0[j].0 == s1[i].0;
                assert(p0[j] == x);
            }
        }
        vstd::set_lib::lemma_len_subset(p1.to_set(), p0.to_set());
    }
    assert forall|book: u16, bid: bool, price: i64, qty: u64|
        #[trigger] level_overflows(after.levels(book, bid), price, qty) implies level_overflows(
        before.levels(book, bid),
        price,
        qty,
    ) by {
        after.lemma_levels_characterized(book, bid);
        before.lemma_levels_characterized(book, bid);
        let s1 = after.levels(book, bid);
        let s0 = before.levels(book, bid);
        let i = choose|i: int| 0 <= i < s1.len() && s1[i].0 == price && s1[i].1 + qty > u64::MAX;
        assert(rests_at(r1, book, s1[i].0));
        assert(has_price(s0, price));
        let j = choose|j: int| 0 <= j < s0.len() && #[trigger] s0[j].0 == price;
        let ids0 = ids_at(r0, book, price);
        let ids1 = ids_at(r1, book, price);
        assert(ids1 =~= ids0.remove(order_id));
        lemma_sum_frame(resting_qtys(r1), resting_qtys(r0), ids1);
        if ids0.contains(order_id) {
            lemma_sum_remove(resting_qtys(r0), ids0, order_id);
        } else {
            assert(ids1 =~= ids0);
        }
        assert(s1[i].1 <= s0[j].1);
        assert(s0[j].0 == price && s0[j].1 + qty > u64::MAX);
    }
}

/// Round trip: adding an order that does not rest and then deleting it
/// gives back the same resting orders and the same levels (so the same top
/// of book and the same number of levels).
pub proof fn lemma_add_then_delete(
    before: OrderBookManager,
    added: OrderBookManager,
    deleted: OrderBookManager,
    order_id: u32,
    v: Resting,
)
    requires
        before.wf(),
        added.wf(),
        deleted.wf(),
        !before.resting().contains_key(order_id),
        added.resting() == before.resting().insert(order_id, v),
        deleted.resting() == added.resting().remove(order_id),
    ensures
        deleted.resting() == before.resting(),
        forall|book: u16, bid: bool| #[trigger] deleted.levels(book, bid) == before.levels(book, bid),
{
    assert(deleted.resting() =~= before.resting());
    lemma_levels_determined(deleted, before);
}

/// Replace equivalence: a replace leaves the same resting orders and levels
/// as a delete of the old id followed by an add of the new one.
pub proof fn lemma_replace_is_delete_then_add(
    before: OrderBookManager,
    replaced: OrderBookManager,
    deleted: OrderBookManager,
    added: OrderBookManager,
    old_id: u32,
    new_id: u32,
    add_ok: bool,
    v: Resting,
)
    requires
        before.wf(),
        replaced.wf(),
        deleted.wf(),
        added.wf(),
        replaced.resting() == replace_effect(before.resting(), old_id, new_id, add_ok, v),
        deleted.resting() == before.resting().remove(old_id),
        add_ok && v.2 > 0 ==> added.resting() == deleted.resting().insert(new_id, v),
        !(add_ok && v.2 > 0) ==> added.resting() == deleted.resting(),
    ensures
        replaced.resting() == added.resting(),
        forall|book: u16, bid: bool| #[trigger] replaced.levels(book, bid) == added.levels(book, bid),
{
    lemma_levels_determined(replaced, added);
}

} // verus!
