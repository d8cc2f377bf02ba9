//! The cheap tests that prune candidate pairings of repetition counts with
//! descriptors before a solution is built.

use crate::ordered_pairings::seconds;
use vstd::prelude::*;

verus! {

/// The number of distinct values in `s`: the positions that hold a value for
/// the first time.
pub open spec fn distinct_count(s: Seq<u8>) -> nat
    decreases s.len(),
{
    if s.len() == 0 {
        0
    } else {
        distinct_count(s.drop_last()) + if s.drop_last().contains(s.last()) {
            0nat
        } else {
            1nat
        }
    }
}

/// The length of the run of ones that `s` begins with.
pub open spec fn leading_ones(s: Seq<u8>) -> nat
    decreases s.len(),
{
    if s.len() == 0 || s[0] != 1 {
        0
    } else {
        1 + leading_ones(s.drop_first())
    }
}

/// The number of positions of `reps` whose value occurs in `descriptors`.
pub open spec fn count_in(reps: Seq<u8>, descriptors: Seq<u8>) -> nat
    decreases reps.len(),
{
    if reps.len() == 0 {
        0
    } else {
        count_in(reps.drop_last(), descriptors) + if descriptors.contains(reps.last()) {
            1nat
        } else {
            0nat
        }
    }
}

/// The number of pairs whose repetition count equals its descriptor.
pub open spec fn count_equal(p: Seq<(u8, u8)>) -> nat
    decreases p.len(),
{
    if p.len() == 0 {
        0
    } else {
        count_equal(p.drop_last()) + if p.last().0 == p.last().1 {
            1nat
        } else {
            0nat
        }
    }
}

/// The number of free variables: digit slots beyond the distinct descriptors.
pub open spec fn free_vars(descriptors: Seq<u8>) -> int {
    descriptors.len() - distinct_count(descriptors)
}

/// Whether repetition counts and descriptors leave room for the free
/// variables: the ones among the descriptors fit the budget, and enough
/// repetition counts occur among the descriptors to cover the deficit.
pub open spec fn free_vars_feasible(reps: Seq<u8>, descriptors: Seq<u8>) -> bool {
    let ones = leading_ones(descriptors);
    if ones != 0 && distinct_count(descriptors) + ones - 1 > descriptors.len() {
        false
    } else {
        count_in(reps, descriptors) >= free_vars(descriptors)
    }
}

/// No repetition count exceeds its descriptor.
pub open spec fn reps_within(p: Seq<(u8, u8)>) -> bool {
    forall|i: int| 0 <= i < p.len() ==> (#[trigger] p[i]).0 <= p[i].1
}

/// Each pair whose repetition count equals its descriptor takes one free
/// variable, and all free variables are taken.
pub open spec fn free_vars_taken(p: Seq<(u8, u8)>) -> bool {
    count_equal(p) == free_vars(seconds(p))
}

pub proof fn lemma_leading_ones(s: Seq<u8>, k: int)
    requires
        0 <= k <= s.len(),
        forall|i: int| 0 <= i < k ==> s[i] == 1,
        k < s.len() ==> s[k] != 1,
    ensures
        leading_ones(s) == k,
    decreases k,
{
    if k > 0 {
        lemma_leading_ones(s.drop_first(), k - 1);
    }
}

pub proof fn lemma_count_in_prefix(reps: Seq<u8>, descriptors: Seq<u8>, i: int)
    requires
        0 <= i <= reps.len(),
    ensures
        count_in(reps.subrange(0, i), descriptors) <= count_in(reps, descriptors),
    decreases reps.len(),
{
    if i == reps.len() {
        assert(reps.subrange(0, i) =~= reps);
    } else {
        lemma_count_in_prefix(reps.drop_last(), descriptors, i);
        assert(reps.drop_last().subrange(0, i) =~= reps.subrange(0, i));
    }
}

/// Whether `x` occurs in `s`.
pub fn occurs(s: &[u8], x: u8) -> (found: bool)
    ensures
        found == s@.contains(x),
{
    let mut i: usize = 0;
    while i < s.len()
        invariant
            i <= s.len(),
            forall|k: int| 0 <= k < i ==> s@[k] != x,
        decreases s.len() - i,
    {
        if s[i] == x {
            return true;
        }
        i = i + 1;
    }
    false
}

/// The number of distinct values in `s`.
pub fn count_distinct(s: &[u8]) -> (n: usize)
    ensures
        n == distinct_count(s@),
        n <= s@.len(),
{
    let mut seen: Vec<bool> = vec![false; 256];
    let mut n: usize = 0;
    let mut i: usize = 0;
    assert(s@.subrange(0, 0) =~= Seq::<u8>::empty());
    while i < s.len()
        invariant
            i <= s.len(),
            seen.len() == 256,
            forall|v: u8| #[trigger] seen@[v as int] == s@.subrange(0, i as int).contains(v),
            n == distinct_count(s@.subrange(0, i as int)),
            n <= i,
        decreases s.len() - i,
    {
        let x = s[i];
        let ghost sub = s@.subrange(0, i as int);
        let ghost sub1 = s@.subrange(0, i + 1);
        proof {
            assert(sub1.drop_last() =~= sub);
            assert(sub1.last() == x);
            assert forall|v: u8| sub1.contains(v) == (sub.contains(v) || v == x) by {
                if sub.contains(v) {
                    let k = choose|k: int| 0 <= k < sub.len() && sub[k] == v;
                    assert(sub1[k] == v);
                }
                if v == x {
                    assert(sub1[i as int] == v);
                }
                if sub1.contains(v) {
                    let k = choose|k: int| 0 <= k < sub1.len() && sub1[k] == v;
                    if k < i {
                        assert(sub[k] == v);
                    }
                }
            }
        }
        if !seen[x as usize] {
            seen.set(x as usize, true);
            n = n + 1;
        }
        i = i + 1;
    }
    assert(s@.subrange(0, s@.len() as int) =~= s@);
    n
}

/// The descriptors of the pairs, in order.
pub fn descriptors_of(p: &[(u8, u8)]) -> (out: Vec<u8>)
    ensures
        out@ == seconds(p@),
{
    let mut out: Vec<u8> = Vec::new();
    let mut i: usize = 0;
    while i < p.len()
        invariant
            i <= p.len(),
            out.len() == i,
            forall|k: int| 0 <= k < i ==> out@[k] == p@[k].1,
        decreases p.len() - i,
    {
        out.push(p[i].1);
        i = i + 1;
    }
    assert(out@ =~= seconds(p@));
    out
}

/// Tests, before any pairing is made, whether the free variables can work out.
/// With `u` distinct descriptors among `n`, of which the first `ones` are 1,
/// it fails if `ones != 0` and `u + ones - 1 > n`; otherwise at least `n - u`
/// positions of `reps` must hold a value that occurs among the descriptors.
pub fn check_free_vars(reps: &[u8], descriptors: &[u8]) -> (ok: bool)
    ensures
        ok == free_vars_feasible(reps@, descriptors@),
{
    let n_unique_digits = descriptors.len();
    let n_unique_descriptors = count_distinct(descriptors);
    let mut n_ones: usize = 0;
    while n_ones < descriptors.len() && descriptors[n_ones] == 1
        invariant
            n_ones <= descriptors.len(),
            forall|i: int| 0 <= i < n_ones ==> descriptors@[i] == 1,
        decreases descriptors.len() - n_ones,
    {
        n_ones = n_ones + 1;
    }
    proof {
        lemma_leading_ones(descriptors@, n_ones as int);
    }
    if n_ones != 0 && n_unique_descriptors > n_unique_digits - (n_ones - 1) {
        false
    } else if n_unique_descriptors == n_unique_digits {
        true
    } else {
        let reps_required = n_unique_digits - n_unique_descriptors;
        let mut found: usize = 0;
        let mut i: usize = 0;
        assert(reps@.subrange(0, 0) =~= Seq::<u8>::empty());
        while found < reps_required
            invariant
                i <= reps.len(),
                found == count_in(reps@.subrange(0, i as int), descriptors@),
                found <= i,
                reps_required == free_vars(descriptors@),
                !(leading_ones(descriptors@) != 0 && distinct_count(descriptors@) + leading_ones(
                    descriptors@,
                ) - 1 > descriptors@.len()),
            decreases reps.len() - i,
        {
            if i >= reps.len() {
                assert(reps@.subrange(0, i as int) =~= reps@);
                return false;
            }
            proof {
                assert(reps@.subrange(0, i + 1).drop_last() =~= reps@.subrange(0, i as int));
            }
            if occurs(descriptors, reps[i]) {
                found = found + 1;
            }
            i = i + 1;
        }
        proof {
            lemma_count_in_prefix(reps@, descriptors@, i as int);
        }
        true
    }
}

/// Tests that no repetition count exceeds its descriptor.
pub fn check_reps_lte_descriptor(rep_descriptors: &[(u8, u8)]) -> (ok: bool)
    ensures
        ok == reps_within(rep_descriptors@),
{
    let mut i: usize = 0;
    while i < rep_descriptors.len()
        invariant
            i <= rep_descriptors.len(),
            forall|k: int| 0 <= k < i ==> (#[trigger] rep_descriptors@[k]).0 <= rep_descriptors@[k].1,
        decreases rep_descriptors.len() - i,
    {
        if rep_descriptors[i].0 > rep_descriptors[i].1 {
            return false;
        }
        i = i + 1;
    }
    true
}

/// Tests that the pairs whose repetition count equals its descriptor are as
/// many as the free variables: the pairs beyond the distinct descriptors.
pub fn check_free_vars_rep_descriptor(rep_descriptors: &[(u8, u8)]) -> (ok: bool)
    requires
        forall|i: int|
            0 <= i < rep_descriptors@.len() ==> 1 <= (#[trigger] rep_descriptors@[i]).1 <= 9,
    ensures
        ok == free_vars_taken(rep_descriptors@),
{
    let n_unique_digits = rep_descriptors.len();
    let descriptors = descriptors_of(rep_descriptors);
    let n_unique_descriptors = count_distinct(descriptors.as_slice());
    let mut free_vars_needed: usize = 0;
    let mut i: usize = 0;
    assert(rep_descriptors@.subrange(0, 0) =~= Seq::<(u8, u8)>::empty());
    while i < rep_descriptors.len()
        invariant
            i <= rep_descriptors.len(),
            free_vars_needed == count_equal(rep_descriptors@.subrange(0, i as int)),
            free_vars_needed <= i,
        decreases rep_descriptors.len() - i,
    {
        proof {
            assert(rep_descriptors@.subrange(0, i + 1).drop_last() =~= rep_descriptors@.subrange(
                0,
                i as int,
            ));
        }
        if rep_descriptors[i].0 == rep_descriptors[i].1 {
            free_vars_needed = free_vars_needed + 1;
        }
        i = i + 1;
    }
    assert(rep_descriptors@.subrange(0, i as int) =~= rep_descriptors@);
    let free_vars = n_unique_digits - n_unique_descriptors;
    free_vars == free_vars_needed
}

} // verus!
