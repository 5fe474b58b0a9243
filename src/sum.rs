use vstd::prelude::*;

verus! {

/// The total of `q` over the ids in `ids`.
pub open spec fn sum_qty(q: Map<u32, u64>, ids: Set<u32>) -> int
    decreases ids.len(),
{
    if ids.finite() && ids.len() > 0 {
        let x = ids.choose();
        q[x] as int + sum_qty(q, ids.remove(x))
    } else {
        0
    }
}

/// Adding an id to the set adds its quantity to the total.
pub proof fn lemma_sum_insert(q: Map<u32, u64>, s: Set<u32>, x: u32)
    requires
        s.finite(),
        !s.contains(x),
    ensures
        sum_qty(q, s.insert(x)) == sum_qty(q, s) + q[x],
    decreases s.len(),
{
    let t = s.insert(x);
    assert(t.len() > 0);
    let c = t.choose();
    assert(t.contains(c));
    if c == x {
        assert(t.remove(x) =~= s);
    } else {
        assert(s.contains(c));
        let r = s.remove(c);
        assert(t.remove(c) =~= r.insert(x));
        lemma_sum_insert(q, r, x);
        lemma_sum_insert(q, r, c);
        assert(r.insert(c) =~= s);
    }
}

/// Taking an id out of the set takes its quantity out of the total.
pub proof fn lemma_sum_remove(q: Map<u32, u64>, s: Set<u32>, x: u32)
    requires
        s.finite(),
        s.contains(x),
    ensures
        sum_qty(q, s.remove(x)) == sum_qty(q, s) - q[x],
{
    lemma_sum_insert(q, s.remove(x), x);
    assert(s.remove(x).insert(x) =~= s);
}

/// The total depends only on the quantities of the ids in the set.
pub proof fn lemma_sum_frame(q1: Map<u32, u64>, q2: Map<u32, u64>, s: Set<u32>)
    requires
        s.finite(),
        forall|x: u32| s.contains(x) ==> q1[x] == q2[x],
    ensures
        sum_qty(q1, s) == sum_qty(q2, s),
    decreases s.len(),
{
    if s.len() > 0 {
        let c = s.choose();
        lemma_sum_frame(q1, q2, s.remove(c));
    }
}

/// A total is at least the quantity of each of its ids.
pub proof fn lemma_sum_ge(q: Map<u32, u64>, s: Set<u32>, x: u32)
    requires
        s.finite(),
        s.contains(x),
    ensures
        sum_qty(q, s) >= q[x],
{
    lemma_sum_remove(q, s, x);
    lemma_sum_nonneg(q, s.remove(x));
}

/// A total is never negative.
pub proof fn lemma_sum_nonneg(q: Map<u32, u64>, s: Set<u32>)
    ensures
        sum_qty(q, s) >= 0,
    decreases s.len(),
{
    if s.finite() && s.len() > 0 {
        lemma_sum_nonneg(q, s.remove(s.choose()));
    }
}

} // verus!
