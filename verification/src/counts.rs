//! The last test of a pairing: every required occurrence count finds slots
//! enough, and the solution is built.

use crate::checks::{distinct_count, reps_within};
use crate::ordered_pairings::seconds;
use crate::solution::{
    admissible, is_descriptor, lemma_occurrence_bound, lemma_trues_none, occurrence, pair_digits,
    pool, pool_size, slot, slots_hosted, trues, uses, Solution,
};
use vstd::prelude::*;

verus! {

/// For each digit whether it is a descriptor whose required occurrence count
/// is `c`.
pub open spec fn demanding(p: Seq<(u8, u8)>, c: int) -> Seq<bool> {
    Seq::new(10, |d: int| is_descriptor(p, d as u8) && occurrence(p, d as u8) == c)
}

/// The number of distinct descriptors whose required occurrence count is `c`.
pub open spec fn demand(p: Seq<(u8, u8)>, c: int) -> nat {
    trues(demanding(p, c))
}

/// Every required occurrence count has at least as many pairs with that slot
/// as there are descriptors that require it.
pub open spec fn counts_ok(p: Seq<(u8, u8)>) -> bool {
    forall|c: int| #[trigger] demand(p, c) > 0 ==> uses(p, c) >= demand(p, c)
}

/// The number of pairs of each slot from 0 to 90.
fn slot_counts(p: &[(u8, u8)]) -> (cnt: Vec<usize>)
    requires
        reps_within(p@),
    ensures
        cnt.len() == 91,
        forall|s: int| 0 <= s < 91 ==> #[trigger] cnt@[s] == uses(p@, s),
{
    let mut cnt: Vec<usize> = vec![0usize; 91];
    let mut i: usize = 0;
    assert(p@.subrange(0, 0) =~= Seq::<(u8, u8)>::empty());
    while i < p.len()
        invariant
            i <= p.len(),
            reps_within(p@),
            cnt.len() == 91,
            forall|s: int| 0 <= s < 91 ==> #[trigger] cnt@[s] == uses(p@.subrange(0, i as int), s),
            forall|s: int| 0 <= s < 91 ==> #[trigger] cnt@[s] <= i,
        decreases p.len() - i,
    {
        let (rep, desc) = p[i];
        proof {
            assert(p@[i as int].0 <= p@[i as int].1);
            assert(p@.subrange(0, i + 1).drop_last() =~= p@.subrange(0, i as int));
            assert(p@.subrange(0, i + 1).last() == p@[i as int]);
        }
        let s = desc - rep;
        if s <= 90 {
            let c = cnt[s as usize];
            cnt.set(s as usize, c + 1);
        }
        i = i + 1;
    }
    assert(p@.subrange(0, p@.len() as int) =~= p@);
    cnt
}

/// Whether every required occurrence count finds pairs enough.
fn enough_slots(p: &[(u8, u8)], cnt: &Vec<usize>) -> (ok: bool)
    requires
        p@.len() <= 10,
        pair_digits(p@),
        cnt.len() == 91,
        forall|s: int| 0 <= s < 91 ==> #[trigger] cnt@[s] == uses(p@, s),
    ensures
        ok == counts_ok(p@),
{
    let (is_desc, occ) = crate::solution::tally(p);
    let mut c: u8 = 0;
    while c < 91
        invariant
            c <= 91,
            is_desc.len() == 10,
            occ.len() == 10,
            cnt.len() == 91,
            forall|s: int| 0 <= s < 91 ==> #[trigger] cnt@[s] == uses(p@, s),
            forall|d: u8| d < 10 ==> is_desc@[d as int] == is_descriptor(p@, d),
            forall|d: u8| d < 10 ==> occ@[d as int] == occurrence(p@, d),
            forall|k: int| 0 <= k < c && #[trigger] demand(p@, k) > 0 ==> uses(p@, k) >= demand(p@, k),
        decreases 91 - c,
    {
        let mut row: Vec<bool> = Vec::new();
        let mut d: u8 = 0;
        while d < 10
            invariant
                d <= 10,
                row.len() == d,
                is_desc.len() == 10,
                occ.len() == 10,
                forall|x: u8| x < 10 ==> is_desc@[x as int] == is_descriptor(p@, x),
                forall|x: u8| x < 10 ==> occ@[x as int] == occurrence(p@, x),
                forall|y: int| 0 <= y < d ==> row@[y] == demanding(p@, c as int)[y],
            decreases 10 - d,
        {
            row.push(is_desc[d as usize] && occ[d as usize] == c);
            d = d + 1;
        }
        assert(row@ =~= demanding(p@, c as int));
        let needed = crate::solution::count_trues(&row);
        if needed > 0 && cnt[c as usize] < needed {
            assert(demand(p@, c as int) > 0 && uses(p@, c as int) < demand(p@, c as int));
            return false;
        }
        c = c + 1;
    }
    proof {
        assert forall|k: int| #[trigger] demand(p@, k) > 0 implies uses(p@, k) >= demand(p@, k) by {
            if k < 0 || k > 90 {
                assert forall|d: int| 0 <= d < 10 implies !demanding(p@, k)[d] by {
                    lemma_occurrence_bound(p@, d as u8);
                }
                lemma_trues_none(demanding(p@, k));
            }
        }
    }
    true
}

/// Whether every slot has candidates enough for the pairs that draw on it.
fn enough_candidates(p: &[(u8, u8)], cnt: &Vec<usize>) -> (ok: bool)
    requires
        p@.len() <= 10,
        pair_digits(p@),
        cnt.len() == 91,
        forall|s: int| 0 <= s < 91 ==> #[trigger] cnt@[s] == uses(p@, s),
    ensures
        ok == slots_hosted(p@),
{
    let pools = crate::solution::build_pools(p);
    let mut s: usize = 0;
    while s < 9
        invariant
            s <= 9,
            pools.len() == 91,
            cnt.len() == 91,
            forall|t: int| 0 <= t < 91 ==> #[trigger] cnt@[t] == uses(p@, t),
            forall|t: int| 0 <= t < 91 ==> (#[trigger] pools@[t])@ == pool(p@, t),
            forall|t: int| 0 <= t < s ==> uses(p@, t) <= #[trigger] pool_size(p@, t),
        decreases 9 - s,
    {
        assert(pools@[s as int]@ == pool(p@, s as int));
        if cnt[s] > crate::solution::count_trues(&pools[s]) {
            assert(uses(p@, s as int) > pool_size(p@, s as int));
            return false;
        }
        s = s + 1;
    }
    true
}

/// Tests the occurrence counts and builds the solution. For each distinct
/// descriptor the repetition counts of its pairs add up to its required
/// occurrence count; each such count needs, among the pairs, as many with that
/// slot as there are descriptors that require it. A pairing that passes has
/// its solution built, unless some slot has fewer candidates than pairs that
/// draw on it: then no digit is left for some pair, and there is no solution.
/// That cannot happen to a pairing of at most nine pairs that uses up its
/// free variables, nor to one that has 9 among its descriptors
/// (`lemma_passed_is_hosted`).
pub fn check_reps_descriptor_counts(rep_descriptors: &[(u8, u8)]) -> (res: Option<Solution>)
    requires
        rep_descriptors@.len() <= 10,
        pair_digits(rep_descriptors@),
        reps_within(rep_descriptors@),
    ensures
        res is Some <==> counts_ok(rep_descriptors@) && slots_hosted(rep_descriptors@),
        res matches Some(sol) ==> sol.solves(rep_descriptors@),
{
    let cnt = slot_counts(rep_descriptors);
    if !enough_slots(rep_descriptors, &cnt) {
        return None;
    }
    if !enough_candidates(rep_descriptors, &cnt) {
        return None;
    }
    Some(Solution::new(rep_descriptors))
}


/// The number of pairs with a slot below `m`.
pub open spec fn uses_below(p: Seq<(u8, u8)>, m: int) -> nat
    decreases m,
{
    if m <= 0 {
        0
    } else {
        uses_below(p, m - 1) + uses(p, m - 1)
    }
}

/// The number of descriptors below `k` whose required occurrence count is
/// below `m`.
pub open spec fn demand_below(p: Seq<(u8, u8)>, m: int, k: int) -> nat
    decreases m,
{
    if m <= 0 {
        0
    } else {
        demand_below(p, m - 1, k) + trues(demanding(p, m - 1).subrange(0, k))
    }
}

/// For each digit whether it is a descriptor.
pub open spec fn described(p: Seq<(u8, u8)>) -> Seq<bool> {
    Seq::new(10, |d: int| is_descriptor(p, d as u8))
}

pub proof fn lemma_trues_set(row: Seq<bool>, x: int)
    requires
        0 <= x < row.len(),
        !row[x],
    ensures
        trues(row.update(x, true)) == trues(row) + 1,
    decreases row.len(),
{
    if x == row.len() - 1 {
        assert(row.update(x, true).drop_last() =~= row.drop_last());
    } else {
        lemma_trues_set(row.drop_last(), x);
        assert(row.update(x, true).drop_last() =~= row.drop_last().update(x, true));
    }
}

pub proof fn lemma_trues_some(row: Seq<bool>, x: int)
    requires
        0 <= x < row.len(),
        row[x],
    ensures
        trues(row) >= 1,
    decreases row.len(),
{
    if x < row.len() - 1 {
        lemma_trues_some(row.drop_last(), x);
    }
}

/// A table and its complement have as many set entries together as places.
pub proof fn lemma_trues_complement(a: Seq<bool>, b: Seq<bool>)
    requires
        a.len() == b.len(),
        forall|x: int| 0 <= x < a.len() ==> b[x] == !a[x],
    ensures
        trues(a) + trues(b) == a.len(),
    decreases a.len(),
{
    if a.len() > 0 {
        lemma_trues_complement(a.drop_last(), b.drop_last());
    }
}

pub proof fn lemma_prefix_of_digits(p: Seq<(u8, u8)>)
    requires
        p.len() > 0,
        pair_digits(p),
        reps_within(p),
    ensures
        pair_digits(p.drop_last()),
        reps_within(p.drop_last()),
        1 <= p.last().0 <= p.last().1 <= 9,
{
    let q = p.drop_last();
    assert forall|i: int| 0 <= i < q.len() implies 1 <= (#[trigger] q[i]).0 <= 9 && 1 <= q[i].1
        <= 9 && q[i].0 <= q[i].1 by {
        assert(q[i] == p[i]);
    }
    assert(p[p.len() - 1] == p.last());
}

pub proof fn lemma_uses_below_step(p: Seq<(u8, u8)>, m: int)
    requires
        p.len() > 0,
    ensures
        uses_below(p, m) == uses_below(p.drop_last(), m) + if 0 <= slot(p.last()) < m {
            1nat
        } else {
            0nat
        },
    decreases m,
{
    if m > 0 {
        lemma_uses_below_step(p, m - 1);
    }
}

/// Every pair of digits within their descriptors has a slot from 0 to 8.
pub proof fn lemma_uses_below_all(p: Seq<(u8, u8)>)
    requires
        pair_digits(p),
        reps_within(p),
    ensures
        uses_below(p, 9) == p.len(),
        forall|s: int| s < 0 || s > 8 ==> uses(p, s) == 0,
    decreases p.len(),
{
    reveal_with_fuel(uses_below, 10);
    if p.len() > 0 {
        lemma_prefix_of_digits(p);
        lemma_uses_below_all(p.drop_last());
        lemma_uses_below_step(p, 9);
        assert forall|s: int| s < 0 || s > 8 implies uses(p, s) == 0 by {
            assert(uses(p.drop_last(), s) == 0);
        }
    } else {
        assert forall|s: int| s < 0 || s > 8 implies uses(p, s) == 0 by {}
    }
}

/// The pairs of slot 0 are those whose repetition count equals the
/// descriptor.
pub proof fn lemma_uses_zero(p: Seq<(u8, u8)>)
    ensures
        uses(p, 0) == crate::checks::count_equal(p),
    decreases p.len(),
{
    if p.len() > 0 {
        lemma_uses_zero(p.drop_last());
    }
}

/// The descriptors of `p` are those of all but its last pair, and the
/// descriptor of that pair.
pub proof fn lemma_descriptor_of_last(p: Seq<(u8, u8)>, d: u8)
    requires
        p.len() > 0,
    ensures
        is_descriptor(p, d) == (is_descriptor(p.drop_last(), d) || d == p.last().1),
        seconds(p.drop_last()).contains(d) == is_descriptor(p.drop_last(), d),
{
    let q = p.drop_last();
    if is_descriptor(q, d) {
        let k = choose|k: int| 0 <= k < q.len() && (#[trigger] q[k]).1 == d;
        assert(p[k].1 == d);
        assert(seconds(q)[k] == d);
    }
    if d == p.last().1 {
        assert(p[p.len() - 1].1 == d);
    }
    if is_descriptor(p, d) {
        let k = choose|k: int| 0 <= k < p.len() && (#[trigger] p[k]).1 == d;
        if k < q.len() {
            assert(q[k].1 == d);
        }
    }
    if seconds(q).contains(d) {
        let k = choose|k: int| 0 <= k < seconds(q).len() && seconds(q)[k] == d;
        assert(q[k].1 == d);
    }
}

/// The digits that are descriptors are as many as the distinct descriptors.
pub proof fn lemma_described_count(p: Seq<(u8, u8)>)
    requires
        pair_digits(p),
    ensures
        trues(described(p)) == distinct_count(seconds(p)),
    decreases p.len(),
{
    if p.len() == 0 {
        lemma_trues_none(described(p));
    } else {
        let q = p.drop_last();
        let d = p.last().1;
        assert(1 <= p[p.len() - 1].1 <= 9);
        assert forall|i: int| 0 <= i < q.len() implies 1 <= (#[trigger] q[i]).0 <= 9 && 1
            <= q[i].1 <= 9 by {
            assert(q[i] == p[i]);
        }
        lemma_described_count(q);
        assert(seconds(p).drop_last() =~= seconds(q));
        assert(seconds(p).last() == d);
        assert forall|x: u8| is_descriptor(p, x) == (is_descriptor(q, x) || x == d) by {
            lemma_descriptor_of_last(p, x);
        }
        lemma_descriptor_of_last(p, d);
        if is_descriptor(q, d) {
            assert(described(p) =~= described(q));
        } else {
            assert(described(p) =~= described(q).update(d as int, true));
            lemma_trues_set(described(q), d as int);
        }
    }
}

pub proof fn lemma_demand_below_step(p: Seq<(u8, u8)>, m: int, k: int)
    requires
        0 <= k < 10,
    ensures
        demand_below(p, m, k + 1) == demand_below(p, m, k) + if is_descriptor(p, k as u8) && 0
            <= occurrence(p, k as u8) < m {
            1nat
        } else {
            0nat
        },
    decreases m,
{
    if m > 0 {
        lemma_demand_below_step(p, m - 1, k);
        let t = demanding(p, m - 1);
        assert(t.subrange(0, k + 1).drop_last() =~= t.subrange(0, k));
    }
}

pub proof fn lemma_demand_below_none(p: Seq<(u8, u8)>, m: int)
    ensures
        demand_below(p, m, 0) == 0,
    decreases m,
{
    if m > 0 {
        lemma_demand_below_none(p, m - 1);
    }
}

/// Where every required occurrence count is below 9, the descriptors that
/// require the counts below 9 are all the descriptors.
pub proof fn lemma_demand_below_all(p: Seq<(u8, u8)>, k: int)
    requires
        0 <= k <= 10,
        forall|d: u8| d < 10 && is_descriptor(p, d) ==> occurrence(p, d) < 9,
    ensures
        demand_below(p, 9, k) == trues(described(p).subrange(0, k)),
    decreases k,
{
    if k == 0 {
        lemma_demand_below_none(p, 9);
    } else {
        lemma_demand_below_all(p, k - 1);
        lemma_demand_below_step(p, 9, k - 1);
        assert(described(p).subrange(0, k).drop_last() =~= described(p).subrange(0, k - 1));
    }
}

/// A pairing that passes the tests has candidates enough in every slot, if it
/// has at most nine pairs or 9 is among its descriptors. The pairs whose
/// repetition count equals the descriptor are as many as the free variables,
/// so the others are as many as the distinct descriptors; each required count
/// finds pairs enough, so it finds exactly as many as require it.
pub proof fn lemma_passed_is_hosted(p: Seq<(u8, u8)>)
    requires
        p.len() <= 10,
        p.len() <= 9 || is_descriptor(p, 9),
        pair_digits(p),
        reps_within(p),
        crate::checks::free_vars_taken(p),
        counts_ok(p),
    ensures
        slots_hosted(p),
{
    lemma_uses_below_all(p);
    lemma_uses_zero(p);
    lemma_described_count(p);
    let u = distinct_count(seconds(p));
    assert forall|d: u8| d < 10 && is_descriptor(p, d) implies 1 <= occurrence(p, d) < 9 by {
        lemma_occurrence_bound(p, d);
        let c = occurrence(p, d) as int;
        assert(demanding(p, c)[d as int]);
        lemma_trues_some(demanding(p, c), d as int);
        assert(demand(p, c) > 0);
    }
    lemma_demand_below_all(p, 10);
    assert(described(p).subrange(0, 10) =~= described(p));
    assert forall|s: int| 0 <= s < 9 implies trues(demanding(p, s).subrange(0, 10)) == demand(p, s)
        && uses(p, s) >= #[trigger] demand(p, s) by {
        assert(demanding(p, s).subrange(0, 10) =~= demanding(p, s));
    }
    assert(demand(p, 0) == 0) by {
        lemma_trues_none(demanding(p, 0));
    }
    reveal_with_fuel(uses_below, 10);
    reveal_with_fuel(demand_below, 10);
    assert(uses_below(p, 9) == uses(p, 0) + uses(p, 1) + uses(p, 2) + uses(p, 3) + uses(p, 4)
        + uses(p, 5) + uses(p, 6) + uses(p, 7) + uses(p, 8));
    assert(demand_below(p, 9, 10) == demand(p, 0) + demand(p, 1) + demand(p, 2) + demand(p, 3)
        + demand(p, 4) + demand(p, 5) + demand(p, 6) + demand(p, 7) + demand(p, 8));
    assert(uses(p, 0) == p.len() - u);
    assert forall|s: int| 1 <= s <= 8 implies uses(p, s) <= #[trigger] pool_size(p, s) by {
        assert(uses(p, s) == demand(p, s));
        assert(pool(p, s) =~= demanding(p, s));
    }
    // slot 0: the digits up to 8 that are no descriptor
    let no = Seq::new(10, |d: int| !is_descriptor(p, d as u8));
    lemma_trues_complement(described(p), no);
    if crate::checks::free_vars(seconds(p)) != 0 {
        if is_descriptor(p, 9) {
            assert(pool(p, 0) =~= no);
        } else {
            assert(pool(p, 0) =~= no.update(9, false));
            crate::solution::lemma_trues_clear(no, 9);
        }
    }
    assert(uses(p, 0) <= pool_size(p, 0));
}

} // verus!
