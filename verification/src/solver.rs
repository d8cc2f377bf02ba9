//! The search: for each number of unique digits, every partition of the pairs
//! into repetition counts, every partition of twice as many into descriptors,
//! every ordered pairing of the two, and the solutions of those that pass.

use crate::checks::{
    check_free_vars, check_free_vars_rep_descriptor, check_reps_lte_descriptor, free_vars_feasible,
    free_vars_taken, reps_within,
};
use crate::counts::{check_reps_descriptor_counts, counts_ok};
use crate::ordered_pairings::{
    budget, comes_after, diverge_at, firsts, is_assignment, lemma_precedes_distinct,
    lemma_precedes_transitive, precedes, seconds, ties_kept, OrderedPairings,
};
use crate::partition_parts::{
    all_digits, first_differs_at, is_last, is_packed, is_partition, is_successor,
    lemma_first_difference, lemma_first_is_least, lemma_last_is_largest, lemma_lex_lt_irreflexive,
    lemma_lex_lt_transitive, lemma_successor_is_larger_partition, lemma_successor_is_next,
    lemma_total_bounds, lex_lt, non_decreasing, total, PartitionsParts,
};
use crate::render::{descriptors_row, digit_code, rendered, reps_row};
use crate::solution::{pair_digits, rows, slots_hosted, Solution};
use vstd::prelude::*;
use vstd::seq_lib::*;

verus! {

/// Each repetition count is at most the descriptor at its position.
pub open spec fn fits(reps: Seq<u8>, descriptors: Seq<u8>) -> bool {
    forall|i: int| 0 <= i < reps.len() && i < descriptors.len() ==> reps[i] <= descriptors[i]
}

/// `p` pairs the partition `reps` of `n` into `k` parts with the partition
/// `descriptors` of `2 * n`, and passes every test.
pub open spec fn accepted(
    reps: Seq<u8>,
    descriptors: Seq<u8>,
    p: Seq<(u8, u8)>,
    k: nat,
    n: nat,
) -> bool {
    &&& is_partition(reps, k, n)
    &&& is_partition(descriptors, k, 2 * n)
    &&& fits(reps, descriptors)
    &&& free_vars_feasible(reps, descriptors)
    &&& firsts(p) == reps
    &&& seconds(p).to_multiset() == descriptors.to_multiset()
    &&& ties_kept(reps, seconds(p))
    &&& reps_within(p)
    &&& free_vars_taken(p)
    &&& counts_ok(p)
    &&& slots_hosted(p)
}

/// `sol` is the solution of an accepted pairing for `k` unique digits.
pub open spec fn solves_some(sol: Solution, k: nat, n: nat) -> bool {
    exists|reps: Seq<u8>, descriptors: Seq<u8>, p: Seq<(u8, u8)>| #[trigger]
        accepted(reps, descriptors, p, k, n) && sol.solves(p)
}

/// Every solution found for `k` unique digits solves an accepted pairing.
pub open spec fn group_ok(sols: Seq<Solution>, k: nat, n: nat) -> bool {
    forall|j: int|
        0 <= j < sols.len() ==> solves_some(#[trigger] sols[j], k, n) && sols[j].is_printable()
}

/// One group for each number of unique digits from 1 to `min(n, 10)`, in
/// order, each holding a solution for every accepted pairing and no other.
pub open spec fn report_ok(groups: Seq<Vec<Solution>>, n: nat) -> bool {
    &&& groups.len() == if n < 10 {
        n
    } else {
        10
    }
    &&& forall|g: int|
        0 <= g < groups.len() ==> group_ok((#[trigger] groups[g])@, (g + 1) as nat, n)
            && group_complete(groups[g]@, (g + 1) as nat, n) && group_sorted(
            groups[g]@,
            (g + 1) as nat,
            n,
        )
}

/// Where no pairing for `k` unique digits passes every test, nothing stands
/// under the heading of `k`.
pub proof fn lemma_nothing_accepted_nothing_found(groups: Seq<Vec<Solution>>, n: nat, k: nat)
    requires
        report_ok(groups, n),
        1 <= k <= groups.len(),
        forall|reps: Seq<u8>, descriptors: Seq<u8>, p: Seq<(u8, u8)>|
            !#[trigger] accepted(reps, descriptors, p, k, n),
    ensures
        groups[k - 1]@.len() == 0,
{
    let sols = groups[k - 1]@;
    if sols.len() > 0 {
        assert(solves_some(sols[0], k, n));
    }
}

/// The rows of a solution are the pairs of the pairing that it solves, each
/// once.
pub proof fn lemma_rows_are_the_pairs(sol: Solution, p: Seq<(u8, u8)>)
    requires
        sol.solves(p),
    ensures
        rows(sol.entries()).to_multiset() == p.to_multiset(),
        rows(sol.entries()).len() == p.len(),
        forall|i: int|
            0 <= i < sol.entries().len() ==> reps_row(sol.entries())[i] == digit_code(
                rows(sol.entries())[i].0,
            ) && descriptors_row(sol.entries())[i] == digit_code(rows(sol.entries())[i].1),
{
    to_multiset_len(rows(sol.entries()));
    to_multiset_len(p);
}

/// What holds the same items as a sequence of digits holds digits only.
pub proof fn lemma_same_items_digits(a: Seq<u8>, b: Seq<u8>)
    requires
        a.to_multiset() == b.to_multiset(),
        all_digits(b),
    ensures
        all_digits(a),
{
    assert forall|i: int| 0 <= i < a.len() implies 1 <= #[trigger] a[i] <= 9 by {
        to_multiset_contains(a, a[i]);
        to_multiset_contains(b, a[i]);
        assert(a.contains(a[i]));
        let j = choose|j: int| 0 <= j < b.len() && b[j] == a[i];
        assert(1 <= b[j] <= 9);
    }
}

/// Whether each repetition count is at most the descriptor at its position.
pub fn reps_fit(reps: &[u8], descriptors: &[u8]) -> (ok: bool)
    requires
        reps@.len() == descriptors@.len(),
    ensures
        ok == fits(reps@, descriptors@),
{
    let mut i: usize = 0;
    while i < reps.len()
        invariant
            i <= reps.len(),
            reps@.len() == descriptors@.len(),
            forall|j: int| 0 <= j < i ==> reps@[j] <= descriptors@[j],
        decreases reps.len() - i,
    {
        if reps[i] > descriptors[i] {
            return false;
        }
        i = i + 1;
    }
    true
}

/// Some solution in `sols` solves `p`.
pub open spec fn found(sols: Seq<Solution>, p: Seq<(u8, u8)>) -> bool {
    exists|j: int| 0 <= j < sols.len() && (#[trigger] sols[j]).solves(p)
}

/// `new` begins with `old`.
pub open spec fn extends(new: Seq<Solution>, old: Seq<Solution>) -> bool {
    old.len() <= new.len() && forall|j: int| 0 <= j < old.len() ==> new[j] == old[j]
}

/// The partition `t` has had its turn when `pending` is the next to have it.
pub open spec fn had_turn(t: Seq<u8>, pending: Option<Seq<u8>>) -> bool {
    match pending {
        Some(q) => lex_lt(t, q),
        None => true,
    }
}

/// The assignment `a` was handed out, `last` being the last that was.
pub open spec fn handed_out(a: Seq<u8>, last: Option<Seq<u8>>) -> bool {
    match last {
        Some(l) => a == l || precedes(a, l),
        None => false,
    }
}

/// The first of two accepted pairings is reached before the second: its
/// repetition counts are smaller, or they are the same and its descriptors
/// are smaller, or those are the same too and it is handed out earlier.
pub open spec fn comes_before(
    reps1: Seq<u8>,
    descriptors1: Seq<u8>,
    pa: Seq<(u8, u8)>,
    reps2: Seq<u8>,
    descriptors2: Seq<u8>,
    pb: Seq<(u8, u8)>,
) -> bool {
    lex_lt(reps1, reps2) || (reps1 == reps2 && (lex_lt(descriptors1, descriptors2) || (
    descriptors1 == descriptors2 && precedes(seconds(pa), seconds(pb)))))
}

/// The solutions stand in the order in which their pairings are reached.
pub open spec fn group_sorted(sols: Seq<Solution>, k: nat, n: nat) -> bool {
    forall|i: int, j: int, r1: Seq<u8>, d1: Seq<u8>, r2: Seq<u8>, d2: Seq<u8>|
        0 <= i < j < sols.len() && #[trigger] accepted(r1, d1, sols[i].pairing(), k, n)
            && #[trigger] accepted(r2, d2, sols[j].pairing(), k, n) ==> comes_before(
            r1,
            d1,
            sols[i].pairing(),
            r2,
            d2,
            sols[j].pairing(),
        )
}

/// The pairings of the solutions in `sols` have repetition counts that have
/// had their turn when `pending` is next.
pub open spec fn reps_had_turn(sols: Seq<Solution>, k: nat, n: nat, pending: Option<Seq<u8>>) -> bool {
    forall|i: int, r1: Seq<u8>, d1: Seq<u8>|
        0 <= i < sols.len() && #[trigger] accepted(r1, d1, sols[i].pairing(), k, n) ==> had_turn(
            r1,
            pending,
        )
}

/// The pairings of the solutions in `sols` have smaller repetition counts
/// than `reps`, or the same with descriptors that have had their turn when
/// `pending` is next.
pub open spec fn descriptors_had_turn(
    sols: Seq<Solution>,
    k: nat,
    n: nat,
    reps: Seq<u8>,
    pending: Option<Seq<u8>>,
) -> bool {
    forall|i: int, r1: Seq<u8>, d1: Seq<u8>|
        0 <= i < sols.len() && #[trigger] accepted(r1, d1, sols[i].pairing(), k, n) ==> lex_lt(
            r1,
            reps,
        ) || (r1 == reps && had_turn(d1, pending))
}

/// The pairings of the solutions in `sols` from position `from` on are
/// pairings of `reps` with `descriptors` that were handed out.
pub open spec fn pairings_handed_out(
    sols: Seq<Solution>,
    from: int,
    reps: Seq<u8>,
    descriptors: Seq<u8>,
    last: Option<Seq<u8>>,
) -> bool {
    forall|i: int|
        from <= i < sols.len() ==> {
            &&& firsts((#[trigger] sols[i]).pairing()) == reps
            &&& seconds(sols[i].pairing()).to_multiset() == descriptors.to_multiset()
            &&& handed_out(seconds(sols[i].pairing()), last)
        }
}

/// Two partitions that hold the same parts are the same.
pub proof fn lemma_same_parts_same_partition(a: Seq<u8>, b: Seq<u8>)
    requires
        non_decreasing(a),
        non_decreasing(b),
        a.to_multiset() == b.to_multiset(),
    ensures
        a == b,
{
    let leq = |x: u8, y: u8| x <= y;
    assert(vstd::relations::sorted_by(a, leq));
    assert(vstd::relations::sorted_by(b, leq));
    assert(vstd::relations::total_ordering(leq));
    lemma_sorted_unique(a, b, leq);
}

/// An accepted pairing is accepted with one pair of partitions only.
pub proof fn lemma_accepted_once(
    r1: Seq<u8>,
    d1: Seq<u8>,
    r2: Seq<u8>,
    d2: Seq<u8>,
    p: Seq<(u8, u8)>,
    k: nat,
    n: nat,
)
    requires
        accepted(r1, d1, p, k, n),
        firsts(p) == r2,
        seconds(p).to_multiset() == d2.to_multiset(),
        non_decreasing(d2),
    ensures
        r1 == r2,
        d1 == d2,
{
    lemma_same_parts_same_partition(d1, d2);
}

/// No accepted pairing is reached before itself.
pub proof fn lemma_not_before_itself(
    r1: Seq<u8>,
    d1: Seq<u8>,
    r2: Seq<u8>,
    d2: Seq<u8>,
    p: Seq<(u8, u8)>,
    k: nat,
    n: nat,
)
    requires
        accepted(r1, d1, p, k, n),
        accepted(r2, d2, p, k, n),
    ensures
        !comes_before(r1, d1, p, r2, d2, p),
{
    lemma_accepted_once(r1, d1, r2, d2, p, k, n);
    if lex_lt(r1, r1) {
        lemma_lex_lt_irreflexive(r1, r1);
    }
    if lex_lt(d1, d1) {
        lemma_lex_lt_irreflexive(d1, d1);
    }
    if precedes(seconds(p), seconds(p)) {
        lemma_precedes_distinct(seconds(p), seconds(p));
    }
}

/// Of two accepted pairings not each is reached before the other.
pub proof fn lemma_before_one_way(
    r1: Seq<u8>,
    d1: Seq<u8>,
    pa: Seq<(u8, u8)>,
    r2: Seq<u8>,
    d2: Seq<u8>,
    pb: Seq<(u8, u8)>,
)
    ensures
        !(comes_before(r1, d1, pa, r2, d2, pb) && comes_before(r2, d2, pb, r1, d1, pa)),
{
    lemma_lex_one_way(r1, r2);
    lemma_lex_one_way(d1, d2);
    lemma_lex_one_way(seconds(pa), seconds(pb));
    if lex_lt(r1, r2) && r1 == r2 {
        lemma_lex_lt_irreflexive(r1, r2);
    }
    if lex_lt(r2, r1) && r1 == r2 {
        lemma_lex_lt_irreflexive(r2, r1);
    }
    if lex_lt(d1, d2) && d1 == d2 {
        lemma_lex_lt_irreflexive(d1, d2);
    }
    if lex_lt(d2, d1) && d1 == d2 {
        lemma_lex_lt_irreflexive(d2, d1);
    }
}

/// Two searches for the same numbers solve the same pairing at each place
/// that both have.
pub proof fn lemma_groups_agree_at(
    s1: Seq<Solution>,
    s2: Seq<Solution>,
    k: nat,
    n: nat,
    i: int,
)
    requires
        group_ok(s1, k, n),
        group_complete(s1, k, n),
        group_sorted(s1, k, n),
        group_ok(s2, k, n),
        group_complete(s2, k, n),
        group_sorted(s2, k, n),
        0 <= i < s1.len(),
        i < s2.len(),
    ensures
        s1[i].pairing() == s2[i].pairing(),
    decreases i,
{
    assert forall|j: int| 0 <= j < i implies s1[j].pairing() == s2[j].pairing() by {
        lemma_groups_agree_at(s1, s2, k, n, j);
    }
    let pa = s1[i].pairing();
    let pb = s2[i].pairing();
    assert(solves_some(s1[i], k, n));
    let (r1, d1, q1) = choose|r: Seq<u8>, d: Seq<u8>, q: Seq<(u8, u8)>| #[trigger]
        accepted(r, d, q, k, n) && s1[i].solves(q);
    assert(solves_some(s2[i], k, n));
    let (r2, d2, q2) = choose|r: Seq<u8>, d: Seq<u8>, q: Seq<(u8, u8)>| #[trigger]
        accepted(r, d, q, k, n) && s2[i].solves(q);
    assert(q1 == pa && q2 == pb);
    if pa != pb {
        assert(found(s2, pa));
        let m = choose|m: int| 0 <= m < s2.len() && (#[trigger] s2[m]).solves(pa);
        assert(found(s1, pb));
        let w = choose|w: int| 0 <= w < s1.len() && (#[trigger] s1[w]).solves(pb);
        if m < i {
            assert(s1[m].pairing() == pa);
            assert(accepted(r1, d1, s1[m].pairing(), k, n));
            assert(accepted(r1, d1, s1[i].pairing(), k, n));
            lemma_not_before_itself(r1, d1, r1, d1, pa, k, n);
        }
        if w < i {
            assert(s2[w].pairing() == pb);
            assert(accepted(r2, d2, s2[w].pairing(), k, n));
            assert(accepted(r2, d2, s2[i].pairing(), k, n));
            lemma_not_before_itself(r2, d2, r2, d2, pb, k, n);
        }
        assert(accepted(r2, d2, s2[i].pairing(), k, n));
        assert(accepted(r1, d1, s2[m].pairing(), k, n));
        assert(comes_before(r2, d2, pb, r1, d1, pa));
        assert(accepted(r1, d1, s1[i].pairing(), k, n));
        assert(accepted(r2, d2, s1[w].pairing(), k, n));
        assert(comes_before(r1, d1, pa, r2, d2, pb));
        lemma_before_one_way(r1, d1, pa, r2, d2, pb);
    }
}

/// Two searches for the same numbers solve the same pairings in the same
/// order: what is found for a number of pairs is determined by that number,
/// up to the solution that stands for each pairing.
pub proof fn lemma_groups_agree(s1: Seq<Solution>, s2: Seq<Solution>, k: nat, n: nat)
    requires
        group_ok(s1, k, n),
        group_complete(s1, k, n),
        group_sorted(s1, k, n),
        group_ok(s2, k, n),
        group_complete(s2, k, n),
        group_sorted(s2, k, n),
    ensures
        s1.len() == s2.len(),
        forall|i: int| 0 <= i < s1.len() ==> (#[trigger] s1[i]).pairing() == s2[i].pairing(),
{
    if s1.len() > s2.len() {
        lemma_longer_repeats(s1, s2, k, n);
    }
    if s2.len() > s1.len() {
        lemma_longer_repeats(s2, s1, k, n);
    }
    assert forall|i: int| 0 <= i < s1.len() implies (#[trigger] s1[i]).pairing()
        == s2[i].pairing() by {
        lemma_groups_agree_at(s1, s2, k, n, i);
    }
}

/// Of two searches for the same numbers none finds more than the other.
pub proof fn lemma_longer_repeats(long: Seq<Solution>, short: Seq<Solution>, k: nat, n: nat)
    requires
        group_ok(long, k, n),
        group_complete(long, k, n),
        group_sorted(long, k, n),
        group_ok(short, k, n),
        group_complete(short, k, n),
        group_sorted(short, k, n),
    ensures
        long.len() <= short.len(),
{
    if long.len() > short.len() {
        let i = short.len() as int;
        let p = long[i].pairing();
        assert(solves_some(long[i], k, n));
        let (r, d, q) = choose|r: Seq<u8>, d: Seq<u8>, q: Seq<(u8, u8)>| #[trigger]
            accepted(r, d, q, k, n) && long[i].solves(q);
        assert(q == p);
        assert(found(short, p));
        let m = choose|m: int| 0 <= m < short.len() && (#[trigger] short[m]).solves(p);
        lemma_groups_agree_at(long, short, k, n, m);
        assert(long[m].pairing() == p);
        assert(accepted(r, d, long[m].pairing(), k, n));
        assert(accepted(r, d, long[i].pairing(), k, n));
        lemma_not_before_itself(r, d, r, d, p, k, n);
    }
}

/// Two solutions of one pairing have the same entries and the same variable
/// slots, and so the same text.
pub proof fn lemma_solutions_agree(a: Solution, b: Solution, p: Seq<(u8, u8)>)
    requires
        a.solves(p),
        b.solves(p),
    ensures
        a.entries() == b.entries(),
        a.vars() == b.vars(),
        rendered(a.entries(), a.vars()) == rendered(b.entries(), b.vars()),
{
}

/// Two searches for the same number of pairs find the same: as many groups,
/// in each as many solutions, and at each place solutions with the same
/// entries, the same variable slots and the same text.
pub proof fn lemma_searches_agree(g1: Seq<Vec<Solution>>, g2: Seq<Vec<Solution>>, n: nat)
    requires
        report_ok(g1, n),
        report_ok(g2, n),
    ensures
        g1.len() == g2.len(),
        forall|g: int| 0 <= g < g1.len() ==> (#[trigger] g1[g])@.len() == g2[g]@.len(),
        forall|g: int, i: int|
            0 <= g < g1.len() && 0 <= i < g1[g]@.len() ==> {
                &&& (#[trigger] g1[g]@[i]).entries() == g2[g]@[i].entries()
                &&& g1[g]@[i].vars() == g2[g]@[i].vars()
                &&& rendered(g1[g]@[i].entries(), g1[g]@[i].vars()) == rendered(
                    g2[g]@[i].entries(),
                    g2[g]@[i].vars(),
                )
            },
{
    assert forall|g: int| 0 <= g < g1.len() implies (#[trigger] g1[g])@.len() == g2[g]@.len() by {
        lemma_groups_agree(g1[g]@, g2[g]@, (g + 1) as nat, n);
    }
    assert forall|g: int, i: int| 0 <= g < g1.len() && 0 <= i < g1[g]@.len() implies {
        &&& (#[trigger] g1[g]@[i]).entries() == g2[g]@[i].entries()
        &&& g1[g]@[i].vars() == g2[g]@[i].vars()
        &&& rendered(g1[g]@[i].entries(), g1[g]@[i].vars()) == rendered(
            g2[g]@[i].entries(),
            g2[g]@[i].vars(),
        )
    } by {
        let k = (g + 1) as nat;
        lemma_groups_agree(g1[g]@, g2[g]@, k, n);
        let a = g1[g]@[i];
        let b = g2[g]@[i];
        assert(solves_some(a, k, n));
        assert(solves_some(b, k, n));
        assert(a.pairing() == b.pairing());
        assert(a.solves(a.pairing()));
        assert(b.solves(a.pairing()));
        lemma_solutions_agree(a, b, a.pairing());
    }
}

/// Every accepted pairing for `k` unique digits has its solution in `sols`.
pub open spec fn group_complete(sols: Seq<Solution>, k: nat, n: nat) -> bool {
    forall|reps: Seq<u8>, descriptors: Seq<u8>, p: Seq<(u8, u8)>| #[trigger]
        accepted(reps, descriptors, p, k, n) ==> found(sols, p)
}

/// Every accepted pairing whose repetition counts have had their turn has its
/// solution in `sols`.
pub open spec fn complete_to_reps(
    sols: Seq<Solution>,
    k: nat,
    n: nat,
    pending: Option<Seq<u8>>,
) -> bool {
    forall|reps: Seq<u8>, descriptors: Seq<u8>, p: Seq<(u8, u8)>| #[trigger]
        accepted(reps, descriptors, p, k, n) && had_turn(reps, pending) ==> found(sols, p)
}

/// Every accepted pairing of `reps` whose descriptors have had their turn has
/// its solution in `sols`.
pub open spec fn complete_to_descriptors(
    sols: Seq<Solution>,
    k: nat,
    n: nat,
    reps: Seq<u8>,
    pending: Option<Seq<u8>>,
) -> bool {
    forall|descriptors: Seq<u8>, p: Seq<(u8, u8)>| #[trigger]
        accepted(reps, descriptors, p, k, n) && had_turn(descriptors, pending) ==> found(sols, p)
}

/// Every accepted pairing of `reps` with `descriptors` that was handed out
/// has its solution in `sols`.
pub open spec fn complete_to_pairing(
    sols: Seq<Solution>,
    k: nat,
    n: nat,
    reps: Seq<u8>,
    descriptors: Seq<u8>,
    last: Option<Seq<u8>>,
) -> bool {
    forall|p: Seq<(u8, u8)>| #[trigger]
        accepted(reps, descriptors, p, k, n) && handed_out(seconds(p), last) ==> found(sols, p)
}

/// What is found stays found when more solutions follow.
pub proof fn lemma_found_stays(old: Seq<Solution>, new: Seq<Solution>, p: Seq<(u8, u8)>)
    requires
        extends(new, old),
        found(old, p),
    ensures
        found(new, p),
{
    let j = choose|j: int| 0 <= j < old.len() && (#[trigger] old[j]).solves(p);
    assert(new[j] == old[j]);
}

/// Of two different sequences of one length one is lexicographically smaller.
pub proof fn lemma_lex_total(a: Seq<u8>, b: Seq<u8>)
    requires
        a.len() == b.len(),
    ensures
        a == b || lex_lt(a, b) || lex_lt(b, a),
        a == b || precedes(a, b) || precedes(b, a),
{
    if a != b {
        let j = lemma_first_difference(a, b);
        if a[j] < b[j] {
            assert(first_differs_at(a, b, j));
            assert(diverge_at(a, b, j));
        } else {
            assert(first_differs_at(b, a, j));
            assert(diverge_at(b, a, j));
        }
    }
}

/// Of two sequences not each is lexicographically smaller than the other.
pub proof fn lemma_lex_one_way(a: Seq<u8>, b: Seq<u8>)
    ensures
        !(lex_lt(a, b) && lex_lt(b, a)),
        !(precedes(a, b) && precedes(b, a)),
{
    if lex_lt(a, b) && lex_lt(b, a) {
        lemma_lex_lt_transitive(a, b, a);
        lemma_lex_lt_irreflexive(a, a);
    }
    if precedes(a, b) && precedes(b, a) {
        lemma_precedes_transitive(a, b, a);
        lemma_precedes_distinct(a, a);
    }
}

/// When the partition `t` is handed out and `pending` follows it, the
/// partitions that have had their turn are `t` and those that had it before.
pub proof fn lemma_turn_moves(t: Seq<u8>, pending: Option<Seq<u8>>, other: Seq<u8>)
    requires
        match pending {
            Some(q) => is_successor(t, q),
            None => is_last(t),
        },
        is_partition(other, t.len(), total(t)),
        had_turn(other, pending),
    ensures
        other == t || lex_lt(other, t),
{
    lemma_lex_total(other, t);
    if lex_lt(t, other) {
        match pending {
            Some(q) => {
                lemma_successor_is_next(t, q, other);
                lemma_lex_one_way(other, q);
                lemma_lex_lt_irreflexive(other, q);
            },
            None => {
                lemma_last_is_largest(t, other);
            },
        }
    }
}

/// Before the first partition none has had its turn.
pub proof fn lemma_no_turn_yet(pending: Option<Seq<u8>>, other: Seq<u8>, k: nat, n: nat)
    requires
        k >= 1,
        pending is Some <==> k <= n <= 9 * k,
        pending matches Some(q) ==> is_partition(q, k, n) && is_packed(q, 1),
        is_partition(other, k, n),
    ensures
        !had_turn(other, pending),
{
    lemma_total_bounds(other);
    let q = pending->Some_0;
    lemma_first_is_least(q, other);
    lemma_lex_one_way(other, q);
    if other == q && lex_lt(other, q) {
        lemma_lex_lt_irreflexive(other, q);
    }
}

/// The solutions of the ordered pairings of `reps` with `descriptors` that
/// pass the tests, in the order of the pairings, behind those in `sols`.
fn solve_pairings(
    sols: &mut Vec<Solution>,
    reps: &Vec<u8>,
    descriptors: &Vec<u8>,
    Ghost(k): Ghost<nat>,
    Ghost(n): Ghost<nat>,
)
    requires
        1 <= k <= 10,
        is_partition(reps@, k, n),
        is_partition(descriptors@, k, 2 * n),
        fits(reps@, descriptors@),
        free_vars_feasible(reps@, descriptors@),
        group_ok(old(sols)@, k, n),
        group_sorted(old(sols)@, k, n),
        descriptors_had_turn(old(sols)@, k, n, reps@, Some(descriptors@)),
    ensures
        group_ok(final(sols)@, k, n),
        extends(final(sols)@, old(sols)@),
        forall|p: Seq<(u8, u8)>| #[trigger]
            accepted(reps@, descriptors@, p, k, n) ==> found(final(sols)@, p),
        group_sorted(final(sols)@, k, n),
        forall|i: int|
            old(sols).len() <= i < final(sols).len() ==> firsts(
                (#[trigger] final(sols)@[i]).pairing(),
            ) == reps@ && seconds(final(sols)@[i].pairing()).to_multiset()
                == descriptors@.to_multiset(),
{
    let mut pairings = OrderedPairings::new(reps.as_slice(), descriptors.as_slice());
    loop
        invariant
            1 <= k <= 10,
            is_partition(reps@, k, n),
            is_partition(descriptors@, k, 2 * n),
            fits(reps@, descriptors@),
            free_vars_feasible(reps@, descriptors@),
            group_ok(sols@, k, n),
            extends(sols@, old(sols)@),
            pairings.wf(),
            pairings.xs() == reps@,
            pairings.ys() == descriptors@,
            complete_to_pairing(sols@, k, n, reps@, descriptors@, pairings.last()),
            group_sorted(sols@, k, n),
            descriptors_had_turn(old(sols)@, k, n, reps@, Some(descriptors@)),
            pairings_handed_out(
                sols@,
                old(sols).len() as int,
                reps@,
                descriptors@,
                pairings.last(),
            ),
        ensures
            forall|p: Seq<(u8, u8)>| #[trigger]
                accepted(reps@, descriptors@, p, k, n) ==> found(sols@, p),
        decreases budget(pairings.stack()),
    {
        let ghost last = pairings.last();
        let ghost before = sols@;
        let pairing = match pairings.next() {
            Some(p) => p,
            None => {
                proof {
                    assert forall|p: Seq<(u8, u8)>| #[trigger]
                        accepted(reps@, descriptors@, p, k, n) implies found(sols@, p) by {
                        let a = seconds(p);
                        assert(firsts(p).len() == p.len());
                        assert(is_assignment(a, reps@, descriptors@));
                        assert(!comes_after(last, a));
                        lemma_lex_total(a, last->Some_0);
                        assert(handed_out(a, last));
                    }
                }
                break ;
            },
        };
        let ghost p = pairing@;
        let ghost a = seconds(p);
        proof {
            assert(firsts(p).len() == p.len());
            lemma_same_items_digits(seconds(p), descriptors@);
            assert forall|i: int| 0 <= i < p.len() implies 1 <= (#[trigger] p[i]).0 <= 9 && 1
                <= p[i].1 <= 9 by {
                assert(firsts(p)[i] == p[i].0);
                assert(seconds(p)[i] == p[i].1);
                assert(1 <= reps@[i] <= 9);
            }
        }
        let mut solution: Option<Solution> = None;
        if check_reps_lte_descriptor(pairing.as_slice()) {
            if check_free_vars_rep_descriptor(pairing.as_slice()) {
                solution = check_reps_descriptor_counts(pairing.as_slice());
            }
        }
        assert(solution is Some <==> accepted(reps@, descriptors@, p, k, n));
        match solution {
            Some(solution) => {
                proof {
                    assert(accepted(reps@, descriptors@, p, k, n));
                    assert(solves_some(solution, k, n));
                    lemma_solved_printable(solution, p);
                }
                sols.push(solution);
                assert(sols@[before.len() as int].solves(p));
                proof {
                    let m = before.len() as int;
                    let start = old(sols).len() as int;
                    assert forall|i: int, j: int, r1: Seq<u8>, d1: Seq<u8>, r2: Seq<u8>, d2: Seq<u8>|
                        0 <= i < j < sols.len() && #[trigger] accepted(
                            r1,
                            d1,
                            sols@[i].pairing(),
                            k,
                            n,
                        ) && #[trigger] accepted(
                            r2,
                            d2,
                            sols@[j].pairing(),
                            k,
                            n,
                        ) implies comes_before(
                        r1,
                        d1,
                        sols@[i].pairing(),
                        r2,
                        d2,
                        sols@[j].pairing(),
                    ) by {
                        assert(sols@[i] == before[i]);
                        if j < m {
                            assert(sols@[j] == before[j]);
                        } else {
                            lemma_accepted_once(r2, d2, reps@, descriptors@, p, k, n);
                            if i < start {
                                assert(before[i] == old(sols)@[i]);
                            } else {
                                let pi = before[i].pairing();
                                lemma_accepted_once(r1, d1, reps@, descriptors@, pi, k, n);
                                assert(handed_out(seconds(pi), last));
                                if seconds(pi) != last->Some_0 {
                                    lemma_precedes_transitive(seconds(pi), last->Some_0, a);
                                }
                            }
                        }
                    }
                }
            },
            None => {},
        }
        proof {
            assert(extends(sols@, before));
            assert forall|i: int| old(sols).len() <= i < sols.len() implies {
                &&& firsts((#[trigger] sols@[i]).pairing()) == reps@
                &&& seconds(sols@[i].pairing()).to_multiset() == descriptors@.to_multiset()
                &&& handed_out(seconds(sols@[i].pairing()), Some(a))
            } by {
                if i < before.len() {
                    assert(sols@[i] == before[i]);
                    let b = seconds(before[i].pairing());
                    assert(handed_out(b, last));
                    assert(comes_after(last, a));
                    if b != last->Some_0 {
                        lemma_precedes_transitive(b, last->Some_0, a);
                    }
                } else {
                    assert(sols@[i].solves(p));
                }
            }
            assert forall|c: Seq<(u8, u8)>| #[trigger]
                accepted(reps@, descriptors@, c, k, n) && handed_out(
                    seconds(c),
                    Some(a),
                ) implies found(sols@, c) by {
                let b = seconds(c);
                assert(firsts(c).len() == c.len());
                assert(is_assignment(b, reps@, descriptors@));
                if b == a {
                    assert forall|i: int| 0 <= i < c.len() implies c[i] == p[i] by {
                        assert(firsts(c)[i] == c[i].0 && firsts(p)[i] == p[i].0);
                        assert(seconds(c)[i] == c[i].1 && seconds(p)[i] == p[i].1);
                    }
                    assert(c =~= p);
                    assert(found(sols@, c));
                } else {
                    lemma_lex_one_way(b, a);
                    assert(!comes_after(last, b));
                    lemma_lex_total(b, last->Some_0);
                    assert(handed_out(b, last));
                    assert(found(before, c));
                    lemma_found_stays(before, sols@, c);
                }
            }
        }
    }
}

/// A solution of a pairing of digits within their descriptors can be written
/// with one character for each number.
pub proof fn lemma_solved_printable(sol: Solution, p: Seq<(u8, u8)>)
    requires
        p.len() <= 10,
        pair_digits(p),
        reps_within(p),
        slots_hosted(p),
        sol.solves(p),
    ensures
        sol.is_printable(),
{
    crate::solution::lemma_solved_is_printable(p, sol.entries(), sol.vars());
}

/// The solutions of the pairings of `reps` with every partition of twice the
/// pairs, behind those in `sols`.
fn solve_descriptors(
    sols: &mut Vec<Solution>,
    reps: &Vec<u8>,
    n_unique_digits: usize,
    n_pairs: usize,
)
    requires
        1 <= n_unique_digits <= 10,
        n_pairs * 2 <= usize::MAX,
        is_partition(reps@, n_unique_digits as nat, n_pairs as nat),
        group_ok(old(sols)@, n_unique_digits as nat, n_pairs as nat),
        group_sorted(old(sols)@, n_unique_digits as nat, n_pairs as nat),
        reps_had_turn(old(sols)@, n_unique_digits as nat, n_pairs as nat, Some(reps@)),
    ensures
        group_ok(final(sols)@, n_unique_digits as nat, n_pairs as nat),
        extends(final(sols)@, old(sols)@),
        group_sorted(final(sols)@, n_unique_digits as nat, n_pairs as nat),
        forall|i: int|
            old(sols).len() <= i < final(sols).len() ==> firsts(
                (#[trigger] final(sols)@[i]).pairing(),
            ) == reps@,
        complete_to_descriptors(
            final(sols)@,
            n_unique_digits as nat,
            n_pairs as nat,
            reps@,
            None,
        ),
{
    let ghost k = n_unique_digits as nat;
    let ghost n = n_pairs as nat;
    let mut descriptors_iter = PartitionsParts::new(n_unique_digits, n_pairs * 2);
    proof {
        assert forall|descriptors: Seq<u8>, p: Seq<(u8, u8)>| #[trigger]
            accepted(reps@, descriptors, p, k, n) && had_turn(
                descriptors,
                descriptors_iter@,
            ) implies found(sols@, p) by {
            lemma_no_turn_yet(descriptors_iter@, descriptors, k, 2 * n);
        }
        assert forall|i: int, r1: Seq<u8>, d1: Seq<u8>|
            0 <= i < sols.len() && #[trigger] accepted(
                r1,
                d1,
                sols@[i].pairing(),
                k,
                n,
            ) implies lex_lt(r1, reps@) || (r1 == reps@ && had_turn(d1, descriptors_iter@)) by {
            assert(had_turn(r1, Some(reps@)));
        }
    }
    loop
        invariant
            1 <= k <= 10,
            k == n_unique_digits,
            n == n_pairs,
            group_ok(sols@, k, n),
            extends(sols@, old(sols)@),
            is_partition(reps@, k, n),
            descriptors_iter.wf(),
            descriptors_iter@ matches Some(q) ==> is_partition(q, k, 2 * n),
            complete_to_descriptors(sols@, k, n, reps@, descriptors_iter@),
            group_sorted(sols@, k, n),
            descriptors_had_turn(sols@, k, n, reps@, descriptors_iter@),
            forall|i: int|
                old(sols).len() <= i < sols.len() ==> firsts((#[trigger] sols@[i]).pairing())
                    == reps@,
        ensures
            complete_to_descriptors(sols@, k, n, reps@, None),
        decreases descriptors_iter.remaining(),
    {
        let ghost before = sols@;
        let descriptors = match descriptors_iter.next() {
            Some(d) => d,
            None => {
                break ;
            },
        };
        let ghost pending = descriptors_iter@;
        if reps_fit(reps.as_slice(), descriptors.as_slice()) {
            if check_free_vars(reps.as_slice(), descriptors.as_slice()) {
                solve_pairings(sols, reps, &descriptors, Ghost(k), Ghost(n));
            }
        }
        proof {
            assert(extends(sols@, before));
            assert forall|i: int, r1: Seq<u8>, d1: Seq<u8>|
                0 <= i < sols.len() && #[trigger] accepted(
                    r1,
                    d1,
                    sols@[i].pairing(),
                    k,
                    n,
                ) implies lex_lt(r1, reps@) || (r1 == reps@ && had_turn(d1, pending)) by {
                if i < before.len() {
                    assert(sols@[i] == before[i]);
                    if r1 == reps@ {
                        assert(lex_lt(d1, descriptors@));
                    }
                } else {
                    lemma_accepted_once(
                        r1,
                        d1,
                        reps@,
                        descriptors@,
                        sols@[i].pairing(),
                        k,
                        n,
                    );
                }
                if r1 == reps@ {
                    if let Some(q) = pending {
                        lemma_successor_is_larger_partition(descriptors@, q);
                        if d1 != descriptors@ {
                            lemma_lex_lt_transitive(d1, descriptors@, q);
                        }
                    }
                }
            }
            assert forall|i: int| old(sols).len() <= i < sols.len() implies firsts(
                (#[trigger] sols@[i]).pairing(),
            ) == reps@ by {
                if i < before.len() {
                    assert(sols@[i] == before[i]);
                }
            }
            assert forall|other: Seq<u8>, p: Seq<(u8, u8)>| #[trigger]
                accepted(reps@, other, p, k, n) && had_turn(other, pending) implies found(
                sols@,
                p,
            ) by {
                lemma_turn_moves(descriptors@, pending, other);
                if other == descriptors@ {
                    assert(found(sols@, p));
                } else {
                    assert(had_turn(other, Some(descriptors@)));
                    assert(found(before, p));
                    lemma_found_stays(before, sols@, p);
                }
            }
        }
    }
}

/// The solutions for `n_unique_digits` unique digits among `n_pairs` pairs:
/// a solution for every accepted pairing, and no other.
pub fn solve_group(n_unique_digits: usize, n_pairs: usize) -> (sols: Vec<Solution>)
    requires
        1 <= n_unique_digits <= 10,
        n_pairs * 2 <= usize::MAX,
    ensures
        group_ok(sols@, n_unique_digits as nat, n_pairs as nat),
        group_complete(sols@, n_unique_digits as nat, n_pairs as nat),
        group_sorted(sols@, n_unique_digits as nat, n_pairs as nat),
{
    let ghost k = n_unique_digits as nat;
    let ghost n = n_pairs as nat;
    let mut sols: Vec<Solution> = Vec::new();
    let mut reps_iter = PartitionsParts::new(n_unique_digits, n_pairs);
    proof {
        assert forall|reps: Seq<u8>, descriptors: Seq<u8>, p: Seq<(u8, u8)>| #[trigger]
            accepted(reps, descriptors, p, k, n) && had_turn(reps, reps_iter@) implies found(
            sols@,
            p,
        ) by {
            lemma_no_turn_yet(reps_iter@, reps, k, n);
        }
    }
    loop
        invariant
            1 <= k <= 10,
            k == n_unique_digits,
            n == n_pairs,
            n_pairs * 2 <= usize::MAX,
            group_ok(sols@, k, n),
            reps_iter.wf(),
            reps_iter@ matches Some(q) ==> is_partition(q, k, n),
            complete_to_reps(sols@, k, n, reps_iter@),
            group_sorted(sols@, k, n),
            reps_had_turn(sols@, k, n, reps_iter@),
        ensures
            complete_to_reps(sols@, k, n, None),
        decreases reps_iter.remaining(),
    {
        let ghost before = sols@;
        let reps = match reps_iter.next() {
            Some(r) => r,
            None => {
                break ;
            },
        };
        let ghost pending = reps_iter@;
        solve_descriptors(&mut sols, &reps, n_unique_digits, n_pairs);
        proof {
            assert forall|i: int, r1: Seq<u8>, d1: Seq<u8>|
                0 <= i < sols.len() && #[trigger] accepted(
                    r1,
                    d1,
                    sols@[i].pairing(),
                    k,
                    n,
                ) implies had_turn(r1, pending) by {
                if i < before.len() {
                    assert(sols@[i] == before[i]);
                    assert(had_turn(r1, Some(reps@)));
                }
                if let Some(q) = pending {
                    lemma_successor_is_larger_partition(reps@, q);
                    if r1 != reps@ {
                        lemma_lex_lt_transitive(r1, reps@, q);
                    }
                }
            }
            assert forall|other: Seq<u8>, descriptors: Seq<u8>, p: Seq<(u8, u8)>| #[trigger]
                accepted(other, descriptors, p, k, n) && had_turn(other, pending) implies found(
                sols@,
                p,
            ) by {
                lemma_turn_moves(reps@, pending, other);
                if other == reps@ {
                    assert(had_turn(descriptors, None));
                } else {
                    assert(had_turn(other, Some(reps@)));
                    assert(found(before, p));
                    lemma_found_stays(before, sols@, p);
                }
            }
        }
    }
    proof {
        assert forall|reps: Seq<u8>, descriptors: Seq<u8>, p: Seq<(u8, u8)>| #[trigger]
            accepted(reps, descriptors, p, k, n) implies found(sols@, p) by {
            assert(had_turn(reps, None));
        }
    }
    sols
}

/// The whole search for `n_pairs` pairs: the solutions for 1 unique digit, for
/// 2, and so on up to `min(n_pairs, 10)`. Under each number stand the
/// solutions of the pairings that pass every test, all of them and no other.
pub fn solve(n_pairs: usize) -> (groups: Vec<Vec<Solution>>)
    requires
        n_pairs * 2 <= usize::MAX,
    ensures
        report_ok(groups@, n_pairs as nat),
{
    let most: usize = if n_pairs < 10 {
        n_pairs
    } else {
        10
    };
    let mut groups: Vec<Vec<Solution>> = Vec::new();
    let mut n_unique_digits: usize = 1;
    while n_unique_digits <= most
        invariant
            1 <= n_unique_digits <= most + 1,
            most <= 10,
            most == if n_pairs < 10 {
                n_pairs
            } else {
                10
            },
            n_pairs * 2 <= usize::MAX,
            groups.len() == n_unique_digits - 1,
            forall|g: int|
                0 <= g < groups.len() ==> group_ok(
                    (#[trigger] groups@[g])@,
                    (g + 1) as nat,
                    n_pairs as nat,
                ) && group_complete(groups@[g]@, (g + 1) as nat, n_pairs as nat)
                    && group_sorted(groups@[g]@, (g + 1) as nat, n_pairs as nat),
        decreases most + 1 - n_unique_digits,
    {
        let sols = solve_group(n_unique_digits, n_pairs);
        groups.push(sols);
        n_unique_digits = n_unique_digits + 1;
    }
    groups
}

} // verus!
