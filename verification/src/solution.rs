//! Building the digit assignment of an accepted pairing.
//!
//! A pair `(rep, descriptor)` says that some digit occurs `descriptor` times in
//! all, `rep` of them among the repetition counts: it needs a digit that occurs
//! `descriptor - rep` times among the descriptors. That number is the pair's
//! slot. The candidates of a slot are the descriptors that occur that often,
//! and for slot 0, where free variables exist, the digits that are no
//! descriptor at all.

use crate::checks::{count_distinct, descriptors_of, free_vars, reps_within};
use crate::ordered_pairings::seconds;
use crate::render::printable;
use vstd::multiset::Multiset;
use vstd::prelude::*;
use vstd::seq_lib::*;

verus! {

/// What a pair describes: a digit, or any digit of the candidates of a slot.
#[derive(Clone, Copy, Debug, PartialEq, Eq, Structural)]
pub enum Described {
    Digit(u8),
    /// The slot whose candidates the digit is drawn from.
    Var(u8),
}

/// Both components of every pair are digits in 1..=9.
pub open spec fn pair_digits(p: Seq<(u8, u8)>) -> bool {
    forall|i: int| 0 <= i < p.len() ==> 1 <= (#[trigger] p[i]).0 <= 9 && 1 <= p[i].1 <= 9
}

/// The slot of a pair: how often its digit occurs among the descriptors.
pub open spec fn slot(e: (u8, u8)) -> int {
    e.1 - e.0
}

/// `d` is the descriptor of some pair.
pub open spec fn is_descriptor(p: Seq<(u8, u8)>, d: u8) -> bool {
    exists|i: int| 0 <= i < p.len() && (#[trigger] p[i]).1 == d
}

/// The required occurrence count of `d`: the sum of the repetition counts of
/// the pairs with descriptor `d`.
pub open spec fn occurrence(p: Seq<(u8, u8)>, d: u8) -> nat
    decreases p.len(),
{
    if p.len() == 0 {
        0
    } else {
        occurrence(p.drop_last(), d) + if p.last().1 == d {
            p.last().0 as nat
        } else {
            0nat
        }
    }
}

/// The number of pairs with slot `s`.
pub open spec fn uses(p: Seq<(u8, u8)>, s: int) -> nat
    decreases p.len(),
{
    if p.len() == 0 {
        0
    } else {
        uses(p.drop_last(), s) + if slot(p.last()) == s {
            1nat
        } else {
            0nat
        }
    }
}

/// The number of pairs with slot `s` among those at the positions in `done`.
pub open spec fn uses_in(p: Seq<(u8, u8)>, done: Set<int>, s: int) -> nat
    decreases p.len(),
{
    if p.len() == 0 {
        0
    } else {
        uses_in(p.drop_last(), done, s) + if done.contains(p.len() - 1) && slot(p.last()) == s {
            1nat
        } else {
            0nat
        }
    }
}

/// `x` is a candidate of slot `s`.
pub open spec fn candidate(p: Seq<(u8, u8)>, s: int, x: u8) -> bool {
    ||| is_descriptor(p, x) && occurrence(p, x) == s
    ||| s == 0 && free_vars(seconds(p)) != 0 && x < 9 && !is_descriptor(p, x)
}

/// The candidates of slot `s` as a table over the digits 0..=9.
pub open spec fn pool(p: Seq<(u8, u8)>, s: int) -> Seq<bool> {
    Seq::new(10, |x: int| candidate(p, s, x as u8))
}

/// The number of entries of `row` that are set.
pub open spec fn trues(row: Seq<bool>) -> nat
    decreases row.len(),
{
    if row.len() == 0 {
        0
    } else {
        trues(row.drop_last()) + if row.last() {
            1nat
        } else {
            0nat
        }
    }
}

/// The number of candidates of slot `s`.
pub open spec fn pool_size(p: Seq<(u8, u8)>, s: int) -> nat {
    trues(pool(p, s))
}

/// Every slot has candidates enough for the pairs that draw on it.
pub open spec fn slots_hosted(p: Seq<(u8, u8)>) -> bool {
    forall|s: int| 0 <= s <= 8 ==> uses(p, s) <= #[trigger] pool_size(p, s)
}

/// The pairings of which a solution can be built.
pub open spec fn admissible(p: Seq<(u8, u8)>) -> bool {
    &&& p.len() <= 10
    &&& pair_digits(p)
    &&& reps_within(p)
    &&& slots_hosted(p)
}

/// The repetition count and descriptor of each entry.
pub open spec fn rows(b: Seq<(u8, u8, Described)>) -> Seq<(u8, u8)> {
    Seq::new(b.len(), |i: int| (b[i].0, b[i].1))
}

/// An entry names the one candidate of its slot, or the slot where it has
/// several.
pub open spec fn described_ok(p: Seq<(u8, u8)>, e: (u8, u8, Described)) -> bool {
    &&& 1 <= e.0 <= e.1 <= 9
    &&& match e.2 {
        Described::Var(v) => v == e.1 - e.0 && pool_size(p, e.1 - e.0) > 1,
        Described::Digit(x) => pool_size(p, e.1 - e.0) <= 1 && x < 10 && candidate(p, e.1 - e.0, x),
    }
}

/// `ds` lists the candidates of slot `s` in increasing order.
pub open spec fn lists_pool(ds: Seq<u8>, p: Seq<(u8, u8)>, s: int) -> bool {
    &&& forall|i: int, j: int| 0 <= i < j < ds.len() ==> ds[i] < ds[j]
    &&& forall|i: int| 0 <= i < ds.len() ==> ds[i] < 10 && candidate(p, s, #[trigger] ds[i])
    &&& forall|x: u8| x < 10 && candidate(p, s, x) ==> ds.contains(x)
}

/// `vars` lists, by increasing slot, the slots with several candidates, each
/// with its candidates.
pub open spec fn vars_ok(p: Seq<(u8, u8)>, vars: Seq<(u8, Seq<u8>)>) -> bool {
    &&& forall|k: int|
        0 <= k < vars.len() ==> {
            &&& (#[trigger] vars[k]).0 <= 90
            &&& pool_size(p, vars[k].0 as int) > 1
            &&& lists_pool(vars[k].1, p, vars[k].0 as int)
        }
    &&& forall|k1: int, k2: int| 0 <= k1 < k2 < vars.len() ==> vars[k1].0 < vars[k2].0
    &&& forall|s: u8|
        s <= 90 && #[trigger] pool_size(p, s as int) > 1 ==> exists|k: int|
            0 <= k < vars.len() && (#[trigger] vars[k]).0 == s
}

/// The entries are the pairs of `p`, each once, by falling descriptor, and
/// each says what its slot allows.
pub open spec fn entries_ok(p: Seq<(u8, u8)>, entries: Seq<(u8, u8, Described)>) -> bool {
    &&& rows(entries).to_multiset() == p.to_multiset()
    &&& forall|i: int, j: int| 0 <= i < j < entries.len() ==> entries[i].1 >= entries[j].1
    &&& forall|i: int| 0 <= i < entries.len() ==> described_ok(p, #[trigger] entries[i])
}

pub proof fn lemma_uses_in_empty(p: Seq<(u8, u8)>, s: int)
    ensures
        uses_in(p, Set::empty(), s) == 0,
    decreases p.len(),
{
    if p.len() > 0 {
        lemma_uses_in_empty(p.drop_last(), s);
    }
}

pub proof fn lemma_uses_in_le(p: Seq<(u8, u8)>, done: Set<int>, s: int)
    ensures
        uses_in(p, done, s) <= uses(p, s),
    decreases p.len(),
{
    if p.len() > 0 {
        lemma_uses_in_le(p.drop_last(), done, s);
    }
}

pub proof fn lemma_uses_in_insert(p: Seq<(u8, u8)>, done: Set<int>, j: int, s: int)
    requires
        !done.contains(j),
    ensures
        uses_in(p, done.insert(j), s) == uses_in(p, done, s) + if 0 <= j < p.len() && slot(p[j])
            == s {
            1nat
        } else {
            0nat
        },
    decreases p.len(),
{
    if p.len() > 0 {
        lemma_uses_in_insert(p.drop_last(), done, j, s);
    }
}

pub proof fn lemma_trues_clear(row: Seq<bool>, x: int)
    requires
        0 <= x < row.len(),
        row[x],
    ensures
        trues(row.update(x, false)) + 1 == trues(row),
    decreases row.len(),
{
    if x == row.len() - 1 {
        assert(row.update(x, false).drop_last() =~= row.drop_last());
    } else {
        lemma_trues_clear(row.drop_last(), x);
        assert(row.update(x, false).drop_last() =~= row.drop_last().update(x, false));
    }
}

pub proof fn lemma_trues_none(row: Seq<bool>)
    requires
        forall|x: int| 0 <= x < row.len() ==> !row[x],
    ensures
        trues(row) == 0,
    decreases row.len(),
{
    if row.len() > 0 {
        lemma_trues_none(row.drop_last());
    }
}

pub proof fn lemma_occurrence_bound(p: Seq<(u8, u8)>, d: u8)
    requires
        pair_digits(p),
    ensures
        occurrence(p, d) <= 9 * p.len(),
        is_descriptor(p, d) ==> occurrence(p, d) >= 1,
    decreases p.len(),
{
    if p.len() > 0 {
        let q = p.drop_last();
        assert forall|i: int| 0 <= i < q.len() implies 1 <= (#[trigger] q[i]).0 <= 9 && 1
            <= q[i].1 <= 9 by {
            assert(q[i] == p[i]);
        }
        lemma_occurrence_bound(q, d);
        assert(1 <= p[p.len() - 1].0 <= 9);
        if is_descriptor(p, d) {
            let i = choose|i: int| 0 <= i < p.len() && (#[trigger] p[i]).1 == d;
            if i < q.len() {
                assert(q[i].1 == d);
            }
        }
    }
}

/// An accepted pairing with its digits assigned.
pub struct Solution {
    best_solution: Vec<(u8, u8, Described)>,
    vars: Vec<(u8, Vec<u8>)>,
    taken: Ghost<Seq<u8>>,
    pairing: Ghost<Seq<(u8, u8)>>,
}

/// The sets of candidates, seen as sequences.
pub open spec fn vars_view(vars: Seq<(u8, Vec<u8>)>) -> Seq<(u8, Seq<u8>)> {
    Seq::new(vars.len(), |k: int| (vars[k].0, vars[k].1@))
}

/// The number of entries of `row` that are set.
pub(crate) fn count_trues(row: &Vec<bool>) -> (n: usize)
    ensures
        n == trues(row@),
        n <= row.len(),
{
    let mut n: usize = 0;
    let mut x: usize = 0;
    assert(row@.subrange(0, 0) =~= Seq::<bool>::empty());
    while x < row.len()
        invariant
            x <= row.len(),
            n <= x,
            n == trues(row@.subrange(0, x as int)),
        decreases row.len() - x,
    {
        assert(row@.subrange(0, x + 1).drop_last() =~= row@.subrange(0, x as int));
        if row[x] {
            n = n + 1;
        }
        x = x + 1;
    }
    assert(row@.subrange(0, row.len() as int) =~= row@);
    n
}

/// Clears the largest digit that is set in `row` and returns it.
fn take_largest(row: &mut Vec<bool>) -> (x: u8)
    requires
        old(row).len() == 10,
        trues(old(row)@) >= 1,
    ensures
        x < 10,
        old(row)@[x as int],
        forall|y: int| x < y < 10 ==> !old(row)@[y],
        final(row)@ == old(row)@.update(x as int, false),
        trues(final(row)@) + 1 == trues(old(row)@),
{
    let mut x: u8 = 9;
    while !row[x as usize]
        invariant
            x < 10,
            row.len() == 10,
            row@ == old(row)@,
            forall|y: int| x < y < 10 ==> !row@[y],
            trues(row@) >= 1,
        decreases x,
    {
        if x == 0 {
            proof {
                lemma_trues_none(row@);
            }
        }
        x = x - 1;
    }
    proof {
        lemma_trues_clear(row@, x as int);
    }
    row.set(x as usize, false);
    x
}

/// For each descriptor value up to 9 whether it occurs, and its required
/// occurrence count.
pub(crate) fn tally(p: &[(u8, u8)]) -> (res: (Vec<bool>, Vec<u8>))
    requires
        p@.len() <= 10,
        pair_digits(p@),
    ensures
        res.0.len() == 10,
        res.1.len() == 10,
        forall|d: u8| d < 10 ==> res.0@[d as int] == is_descriptor(p@, d),
        forall|d: u8| d < 10 ==> res.1@[d as int] == occurrence(p@, d),
{
    let mut is_desc: Vec<bool> = vec![false; 10];
    let mut occ: Vec<u8> = vec![0u8; 10];
    let mut i: usize = 0;
    assert(p@.subrange(0, 0) =~= Seq::<(u8, u8)>::empty());
    while i < p.len()
        invariant
            i <= p.len(),
            p@.len() <= 10,
            pair_digits(p@),
            is_desc.len() == 10,
            occ.len() == 10,
            forall|d: u8| d < 10 ==> #[trigger] is_desc@[d as int] == is_descriptor(p@.subrange(0, i as int), d),
            forall|d: u8| d < 10 ==> #[trigger] occ@[d as int] == occurrence(p@.subrange(0, i as int), d),
            forall|d: u8| d < 10 ==> #[trigger] occ@[d as int] <= 9 * i,
        decreases p.len() - i,
    {
        let (rep, desc) = p[i];
        let ghost sub = p@.subrange(0, i as int);
        let ghost sub1 = p@.subrange(0, i + 1);
        proof {
            assert(1 <= p@[i as int].0 <= 9 && 1 <= p@[i as int].1 <= 9);
            assert(sub1.drop_last() =~= sub);
            assert(sub1.last() == p@[i as int]);
            assert forall|d: u8| is_descriptor(sub1, d) == (is_descriptor(sub, d) || d == desc) by {
                if is_descriptor(sub, d) {
                    let k = choose|k: int| 0 <= k < sub.len() && (#[trigger] sub[k]).1 == d;
                    assert(sub1[k].1 == d);
                }
                if d == desc {
                    assert(sub1[i as int].1 == d);
                }
                if is_descriptor(sub1, d) {
                    let k = choose|k: int| 0 <= k < sub1.len() && (#[trigger] sub1[k]).1 == d;
                    if k < i {
                        assert(sub[k].1 == d);
                    }
                }
            }
        }
        is_desc.set(desc as usize, true);
        let sum = occ[desc as usize] + rep;
        occ.set(desc as usize, sum);
        i = i + 1;
    }
    assert(p@.subrange(0, p@.len() as int) =~= p@);
    (is_desc, occ)
}

/// The candidates of every slot from 0 to 90, each as a table over the digits.
pub(crate) fn build_pools(p: &[(u8, u8)]) -> (pools: Vec<Vec<bool>>)
    requires
        p@.len() <= 10,
        pair_digits(p@),
    ensures
        pools.len() == 91,
        forall|s: int| 0 <= s < 91 ==> (#[trigger] pools@[s])@ == pool(p@, s),
{
    let (is_desc, occ) = tally(p);
    let descriptors = descriptors_of(p);
    let n_unique_descriptors = count_distinct(descriptors.as_slice());
    let n_free_vars = p.len() - n_unique_descriptors;
    let mut pools: Vec<Vec<bool>> = Vec::new();
    let mut s: u8 = 0;
    while s < 91
        invariant
            s <= 91,
            pools.len() == s,
            is_desc.len() == 10,
            occ.len() == 10,
            n_free_vars == free_vars(seconds(p@)),
            forall|d: u8| d < 10 ==> is_desc@[d as int] == is_descriptor(p@, d),
            forall|d: u8| d < 10 ==> occ@[d as int] == occurrence(p@, d),
            forall|t: int| 0 <= t < s ==> (#[trigger] pools@[t])@ == pool(p@, t),
        decreases 91 - s,
    {
        let mut row: Vec<bool> = Vec::new();
        let mut x: u8 = 0;
        while x < 10
            invariant
                x <= 10,
                s < 91,
                row.len() == x,
                is_desc.len() == 10,
                occ.len() == 10,
                n_free_vars == free_vars(seconds(p@)),
                forall|d: u8| d < 10 ==> is_desc@[d as int] == is_descriptor(p@, d),
                forall|d: u8| d < 10 ==> occ@[d as int] == occurrence(p@, d),
                forall|y: int| 0 <= y < x ==> row@[y] == candidate(p@, s as int, y as u8),
            decreases 10 - x,
        {
            let described = is_desc[x as usize] && occ[x as usize] == s;
            let free = s == 0 && n_free_vars != 0 && x < 9 && !is_desc[x as usize];
            row.push(described || free);
            x = x + 1;
        }
        assert(row@ =~= pool(p@, s as int));
        pools.push(row);
        s = s + 1;
    }
    pools
}

/// The digits below `upto` that are set in `row`, in increasing order.
pub open spec fn digits_in(row: Seq<bool>, upto: int) -> Seq<u8>
    decreases upto,
{
    if upto <= 0 {
        Seq::empty()
    } else {
        let before = digits_in(row, upto - 1);
        if row[upto - 1] {
            before.push((upto - 1) as u8)
        } else {
            before
        }
    }
}

/// The slots below `s` with several candidates, by increasing slot, each with
/// its candidates in increasing order.
pub open spec fn vars_below(p: Seq<(u8, u8)>, s: int) -> Seq<(u8, Seq<u8>)>
    decreases s,
{
    if s <= 0 {
        Seq::empty()
    } else {
        let before = vars_below(p, s - 1);
        if pool_size(p, s - 1) > 1 {
            before.push(((s - 1) as u8, digits_in(pool(p, s - 1), 10)))
        } else {
            before
        }
    }
}

/// The digits that are set in `row`, in increasing order.
fn digits_of(row: &Vec<bool>) -> (ds: Vec<u8>)
    requires
        row.len() == 10,
    ensures
        ds@ == digits_in(row@, 10),
        forall|i: int, j: int| 0 <= i < j < ds.len() ==> ds@[i] < ds@[j],
        forall|i: int| 0 <= i < ds.len() ==> ds@[i] < 10 && row@[#[trigger] ds@[i] as int],
        forall|x: u8| x < 10 && row@[x as int] ==> ds@.contains(x),
{
    let mut ds: Vec<u8> = Vec::new();
    let mut x: u8 = 0;
    while x < 10
        invariant
            x <= 10,
            row.len() == 10,
            forall|i: int, j: int| 0 <= i < j < ds.len() ==> ds@[i] < ds@[j],
            forall|i: int| 0 <= i < ds.len() ==> ds@[i] < x && row@[#[trigger] ds@[i] as int],
            forall|y: u8| y < x && row@[y as int] ==> ds@.contains(y),
            ds@ == digits_in(row@, x as int),
        decreases 10 - x,
    {
        if row[x as usize] {
            let ghost before = ds@;
            ds.push(x);
            proof {
                assert forall|y: u8| y < x + 1 && row@[y as int] implies ds@.contains(y) by {
                    if y < x {
                        let k = choose|k: int| 0 <= k < before.len() && before[k] == y;
                        assert(ds@[k] == y);
                    } else {
                        assert(ds@[before.len() as int] == y);
                    }
                }
            }
        }
        x = x + 1;
    }
    ds
}

/// The slots with several candidates, by increasing slot, each with its
/// candidates.
fn list_vars(pools: &Vec<Vec<bool>>, Ghost(p): Ghost<Seq<(u8, u8)>>) -> (vars: Vec<(u8, Vec<u8>)>)
    requires
        pools.len() == 91,
        forall|s: int| 0 <= s < 91 ==> (#[trigger] pools@[s])@ == pool(p, s),
    ensures
        vars_ok(p, vars_view(vars@)),
        vars_view(vars@) == vars_below(p, 91),
{
    let mut vars: Vec<(u8, Vec<u8>)> = Vec::new();
    assert(vars_view(vars@) =~= vars_below(p, 0));
    let mut s: u8 = 0;
    while s < 91
        invariant
            s <= 91,
            pools.len() == 91,
            forall|t: int| 0 <= t < 91 ==> (#[trigger] pools@[t])@ == pool(p, t),
            forall|k: int|
                0 <= k < vars.len() ==> {
                    &&& (#[trigger] vars@[k]).0 < s
                    &&& pool_size(p, vars@[k].0 as int) > 1
                    &&& lists_pool(vars@[k].1@, p, vars@[k].0 as int)
                },
            forall|k1: int, k2: int| 0 <= k1 < k2 < vars.len() ==> vars@[k1].0 < vars@[k2].0,
            forall|t: u8|
                t < s && #[trigger] pool_size(p, t as int) > 1 ==> exists|k: int|
                    0 <= k < vars.len() && (#[trigger] vars@[k]).0 == t,
            vars_view(vars@) == vars_below(p, s as int),
        decreases 91 - s,
    {
        let row = &pools[s as usize];
        assert(row@ == pool(p, s as int));
        if count_trues(row) > 1 {
            let ds = digits_of(row);
            let ghost before = vars@;
            proof {
                assert forall|i: int| 0 <= i < ds.len() implies ds@[i] < 10 && candidate(
                    p,
                    s as int,
                    #[trigger] ds@[i],
                ) by {
                    assert(row@[ds@[i] as int]);
                }
                assert forall|x: u8| x < 10 && candidate(p, s as int, x) implies ds@.contains(
                    x,
                ) by {
                    assert(row@[x as int]);
                }
            }
            vars.push((s, ds));
            proof {
                assert(vars_view(vars@) =~= vars_view(before).push((s, ds@)));
                assert forall|t: u8| t < s + 1 && #[trigger] pool_size(p, t as int) > 1 implies exists|
                    k: int,
                |
                    0 <= k < vars.len() && (#[trigger] vars@[k]).0 == t by {
                    if t < s {
                        let k = choose|k: int| 0 <= k < before.len() && (#[trigger] before[k]).0 == t;
                        assert(vars@[k].0 == t);
                    } else {
                        assert(vars@[before.len() as int].0 == t);
                    }
                }
            }
        }
        s = s + 1;
    }
    proof {
        let vv = vars_view(vars@);
        assert forall|t: u8| t <= 90 && #[trigger] pool_size(p, t as int) > 1 implies exists|k: int|
            0 <= k < vv.len() && (#[trigger] vv[k]).0 == t by {
            let k = choose|k: int| 0 <= k < vars.len() && (#[trigger] vars@[k]).0 == t;
            assert(vv[k].0 == t);
        }
    }
    vars
}


/// A pair with descriptor and repetition count `v` has had its turn when the
/// pairs are taken by falling descriptor and rising repetition count and the
/// turn is at `(r, d)`.
pub open spec fn value_before(v: (u8, u8), d: int, r: int) -> bool {
    v.1 > d || (v.1 == d && v.0 < r)
}

/// The state of the assignment when the pairs before `(r, d)`, and those equal
/// to it at positions before `i`, have their digits.
pub open spec fn assign_inv(
    p: Seq<(u8, u8)>,
    pools: Seq<Vec<bool>>,
    best: Seq<(u8, u8, Described)>,
    done: Set<int>,
    d: int,
    r: int,
    i: int,
    g0: int,
) -> bool {
    &&& pools.len() == 91
    &&& forall|s: int| 0 <= s < 91 ==> (#[trigger] pools[s]).len() == 10
    &&& forall|s: int|
        0 <= s < 91 ==> trues((#[trigger] pools[s])@) + uses_in(p, done, s) == pool_size(p, s)
    &&& forall|s: int, x: int|
        #![trigger pools[s]@[x]]
        0 <= s < 91 && 0 <= x < 10 && pools[s]@[x] ==> candidate(p, s, x as u8)
    &&& forall|j: int|
        done.contains(j) ==> 0 <= j < p.len() && (value_before(p[j], d, r) || (p[j].0 == r
            && p[j].1 == d && j < i))
    &&& forall|v: (u8, u8)|
        #[trigger] rows(best).to_multiset().count(v) == (if value_before(v, d, r) {
            p.to_multiset().count(v)
        } else if v.0 == r && v.1 == d {
            p.subrange(0, i).to_multiset().count(v)
        } else {
            0
        })
    &&& forall|k: int| 0 <= k < best.len() ==> described_ok(p, #[trigger] best[k])
    &&& 0 <= g0 <= best.len()
    &&& forall|k: int| 0 <= k < g0 ==> (#[trigger] best[k]).1 > d
    &&& forall|k: int| g0 <= k < best.len() ==> (#[trigger] best[k]).1 == d
    &&& forall|k1: int, k2: int| 0 <= k1 < k2 < g0 ==> best[k1].1 >= best[k2].1
}

/// A value that `p` does not hold has no copy in it.
pub proof fn lemma_absent_count(p: Seq<(u8, u8)>, v: (u8, u8))
    requires
        !p.contains(v),
    ensures
        p.to_multiset().count(v) == 0,
{
    to_multiset_contains(p, v);
}

/// Before the first pair nothing is assigned.
pub proof fn lemma_assign_start(p: Seq<(u8, u8)>, pools: Seq<Vec<bool>>)
    requires
        pair_digits(p),
        pools.len() == 91,
        forall|s: int| 0 <= s < 91 ==> (#[trigger] pools[s])@ == pool(p, s),
    ensures
        assign_inv(p, pools, Seq::empty(), Set::empty(), 9, 1, 0, 0),
{
    broadcast use vstd::multiset::group_multiset_axioms;

    let best = Seq::<(u8, u8, Described)>::empty();
    assert forall|s: int| 0 <= s < 91 implies trues((#[trigger] pools[s])@) + uses_in(
        p,
        Set::empty(),
        s,
    ) == pool_size(p, s) by {
        lemma_uses_in_empty(p, s);
    }
    assert(rows(best) =~= Seq::<(u8, u8)>::empty());
    assert(rows(best).to_multiset() =~= Multiset::<(u8, u8)>::empty()) by {
        rows(best).to_multiset_ensures();
    }
    assert(p.subrange(0, 0) =~= Seq::<(u8, u8)>::empty());
    p.subrange(0, 0).to_multiset_ensures();
    assert forall|v: (u8, u8)| value_before(v, 9, 1) implies p.to_multiset().count(v) == 0 by {
        if p.contains(v) {
            let k = choose|k: int| 0 <= k < p.len() && p[k] == v;
            assert(1 <= p[k].0 <= 9 && 1 <= p[k].1 <= 9);
        }
        lemma_absent_count(p, v);
    }
    assert forall|v: (u8, u8)| v.0 == 1 && v.1 == 9 implies p.subrange(0, 0).to_multiset().count(v)
        == 0 by {
        lemma_absent_count(p.subrange(0, 0), v);
    }
}

/// Giving the pair at position `i` the digit `x` of its slot keeps the state.
pub proof fn lemma_assign_place(
    p: Seq<(u8, u8)>,
    pools0: Seq<Vec<bool>>,
    pools1: Seq<Vec<bool>>,
    best0: Seq<(u8, u8, Described)>,
    done: Set<int>,
    d: int,
    r: int,
    i: int,
    g0: int,
    x: int,
    pos: int,
    e: (u8, u8, Described),
)
    requires
        assign_inv(p, pools0, best0, done, d, r, i, g0),
        0 <= i < p.len(),
        p[i].0 == r,
        p[i].1 == d,
        0 <= d - r < 91,
        0 <= x < 10,
        pools0[d - r]@[x],
        pools1.len() == 91,
        forall|s: int| 0 <= s < 91 && s != d - r ==> pools1[s] == pools0[s],
        pools1[d - r]@ == pools0[d - r]@.update(x, false),
        trues(pools1[d - r]@) + 1 == trues(pools0[d - r]@),
        g0 <= pos <= best0.len(),
        e.0 == r,
        e.1 == d,
        described_ok(p, e),
    ensures
        assign_inv(p, pools1, best0.insert(pos, e), done.insert(i), d, r, i + 1, g0),
{
    broadcast use vstd::multiset::group_multiset_axioms;

    let best1 = best0.insert(pos, e);
    let done1 = done.insert(i);
    assert(!done.contains(i));
    assert forall|s: int| 0 <= s < 91 implies trues((#[trigger] pools1[s])@) + uses_in(
        p,
        done1,
        s,
    ) == pool_size(p, s) by {
        lemma_uses_in_insert(p, done, i, s);
        assert(trues(pools0[s]@) + uses_in(p, done, s) == pool_size(p, s));
    }
    assert forall|s: int, y: int|
        #![trigger pools1[s]@[y]]
        0 <= s < 91 && 0 <= y < 10 && pools1[s]@[y] implies candidate(p, s, y as u8) by {
        assert(pools0[s]@[y]);
    }
    assert(rows(best1) =~= rows(best0).insert(pos, (e.0, e.1)));
    to_multiset_insert(rows(best0), pos, (e.0, e.1));
    assert(p.subrange(0, i + 1) =~= p.subrange(0, i).push(p[i]));
    to_multiset_build(p.subrange(0, i), p[i]);
    assert(p[i] == (e.0, e.1));
    assert forall|v: (u8, u8)|
        #[trigger] rows(best1).to_multiset().count(v) == (if value_before(v, d, r) {
            p.to_multiset().count(v)
        } else if v.0 == r && v.1 == d {
            p.subrange(0, i + 1).to_multiset().count(v)
        } else {
            0
        }) by {
        assert(rows(best0).to_multiset().count(v) == (if value_before(v, d, r) {
            p.to_multiset().count(v)
        } else if v.0 == r && v.1 == d {
            p.subrange(0, i).to_multiset().count(v)
        } else {
            0
        }));
    }
    assert forall|k: int| 0 <= k < best1.len() implies described_ok(p, #[trigger] best1[k]) by {
        if k < pos {
            assert(best1[k] == best0[k]);
        } else if k > pos {
            assert(best1[k] == best0[k - 1]);
        }
    }
    assert forall|k: int| 0 <= k < g0 implies (#[trigger] best1[k]).1 > d by {
        assert(best1[k] == best0[k]);
    }
    assert forall|k: int| g0 <= k < best1.len() implies (#[trigger] best1[k]).1 == d by {
        if k < pos {
            assert(best1[k] == best0[k]);
        } else if k > pos {
            assert(best1[k] == best0[k - 1]);
        }
    }
    assert forall|k1: int, k2: int| 0 <= k1 < k2 < g0 implies best1[k1].1 >= best1[k2].1 by {
        assert(best1[k1] == best0[k1] && best1[k2] == best0[k2]);
    }
}

/// Passing a pair that is not `(r, d)` keeps the state.
pub proof fn lemma_assign_skip(
    p: Seq<(u8, u8)>,
    pools: Seq<Vec<bool>>,
    best: Seq<(u8, u8, Described)>,
    done: Set<int>,
    d: int,
    r: int,
    i: int,
    g0: int,
)
    requires
        assign_inv(p, pools, best, done, d, r, i, g0),
        0 <= i < p.len(),
        !(p[i].0 == r && p[i].1 == d),
    ensures
        assign_inv(p, pools, best, done, d, r, i + 1, g0),
{
    broadcast use vstd::multiset::group_multiset_axioms;

    assert(p.subrange(0, i + 1) =~= p.subrange(0, i).push(p[i]));
    to_multiset_build(p.subrange(0, i), p[i]);
    assert forall|v: (u8, u8)|
        #[trigger] rows(best).to_multiset().count(v) == (if value_before(v, d, r) {
            p.to_multiset().count(v)
        } else if v.0 == r && v.1 == d {
            p.subrange(0, i + 1).to_multiset().count(v)
        } else {
            0
        }) by {}
}

/// When all pairs equal to `(r, d)` are passed, the turn is at `(r + 1, d)`.
pub proof fn lemma_assign_next_rep(
    p: Seq<(u8, u8)>,
    pools: Seq<Vec<bool>>,
    best: Seq<(u8, u8, Described)>,
    done: Set<int>,
    d: int,
    r: int,
    g0: int,
)
    requires
        assign_inv(p, pools, best, done, d, r, p.len() as int, g0),
    ensures
        assign_inv(p, pools, best, done, d, r + 1, 0, g0),
{
    assert(p.subrange(0, p.len() as int) =~= p);
    assert(p.subrange(0, 0) =~= Seq::<(u8, u8)>::empty());
    assert forall|v: (u8, u8)|
        #[trigger] rows(best).to_multiset().count(v) == (if value_before(v, d, r + 1) {
            p.to_multiset().count(v)
        } else if v.0 == r + 1 && v.1 == d {
            p.subrange(0, 0).to_multiset().count(v)
        } else {
            0
        }) by {
        if v.0 == r + 1 && v.1 == d {
            lemma_absent_count(p.subrange(0, 0), v);
        }
    }
}

/// When the pairs with descriptor `d` are done, the turn is at `(1, d - 1)`.
pub proof fn lemma_assign_next_descriptor(
    p: Seq<(u8, u8)>,
    pools: Seq<Vec<bool>>,
    best: Seq<(u8, u8, Described)>,
    done: Set<int>,
    d: int,
    g0: int,
)
    requires
        pair_digits(p),
        reps_within(p),
        assign_inv(p, pools, best, done, d, d + 1, 0, g0),
    ensures
        assign_inv(p, pools, best, done, d - 1, 1, 0, best.len() as int),
{
    assert(p.subrange(0, 0) =~= Seq::<(u8, u8)>::empty());
    assert forall|v: (u8, u8)|
        #[trigger] rows(best).to_multiset().count(v) == (if value_before(v, d - 1, 1) {
            p.to_multiset().count(v)
        } else if v.0 == 1 && v.1 == d - 1 {
            p.subrange(0, 0).to_multiset().count(v)
        } else {
            0
        }) by {
        lemma_absent_count(p.subrange(0, 0), v);
        if v.1 == d && v.0 >= d + 1 {
            if p.contains(v) {
                let k = choose|k: int| 0 <= k < p.len() && p[k] == v;
                assert(p[k].0 <= p[k].1);
            }
            lemma_absent_count(p, v);
        }
        if v.1 == d - 1 && v.0 < 1 {
            if p.contains(v) {
                let k = choose|k: int| 0 <= k < p.len() && p[k] == v;
                assert(1 <= p[k].0);
            }
            lemma_absent_count(p, v);
        }
        if v.0 == 1 && v.1 == d - 1 {
            lemma_absent_count(p.subrange(0, 0), v);
        }
    }
    assert forall|j: int| done.contains(j) implies 0 <= j < p.len() && (value_before(
        p[j],
        d - 1,
        1,
    ) || (p[j].0 == 1 && p[j].1 == d - 1 && j < 0)) by {
        assert(p[j].0 <= p[j].1);
    }
    assert forall|k1: int, k2: int| 0 <= k1 < k2 < best.len() implies best[k1].1 >= best[k2].1 by {
        if k1 < g0 {
            assert(best[k1].1 > d);
        }
        if k2 >= g0 {
            assert(best[k2].1 == d);
        }
    }
}

/// When every pair has had its turn, the entries are the pairs.
pub proof fn lemma_assign_end(
    p: Seq<(u8, u8)>,
    pools: Seq<Vec<bool>>,
    best: Seq<(u8, u8, Described)>,
    done: Set<int>,
)
    requires
        pair_digits(p),
        assign_inv(p, pools, best, done, 0, 1, 0, best.len() as int),
    ensures
        entries_ok(p, best),
{
    assert(p.subrange(0, 0) =~= Seq::<(u8, u8)>::empty());
    assert forall|v: (u8, u8)|
        rows(best).to_multiset().count(v) == p.to_multiset().count(v) by {
        if !value_before(v, 0, 1) {
            if p.contains(v) {
                let k = choose|k: int| 0 <= k < p.len() && p[k] == v;
                assert(1 <= p[k].0 && 1 <= p[k].1);
            }
            lemma_absent_count(p, v);
            if v.0 == 1 && v.1 == 0 {
                lemma_absent_count(p.subrange(0, 0), v);
            }
        }
    }
    assert(rows(best).to_multiset() =~= p.to_multiset());
}

/// The slot of an entry.
pub open spec fn slot_of(e: (u8, u8, Described)) -> int {
    e.1 - e.0
}

/// Some entry of slot `s` has taken the digit `x`.
pub open spec fn is_taken(best: Seq<(u8, u8, Described)>, keys: Seq<u8>, s: int, x: int) -> bool {
    exists|k: int| 0 <= k < best.len() && slot_of(#[trigger] best[k]) == s && keys[k] == x
}

/// Entry `i` stands before entry `j` of the same descriptor rightly: it took
/// the larger digit, or the same digit with a repetition count that is not
/// smaller.
pub open spec fn stands_before(
    best: Seq<(u8, u8, Described)>,
    keys: Seq<u8>,
    i: int,
    j: int,
) -> bool {
    keys[i] > keys[j] || (keys[i] == keys[j] && best[i].0 >= best[j].0)
}

/// The entry at `k` stands before a new entry that took the digit `x` with the
/// repetition count `r`.
pub open spec fn stands_first(
    best: Seq<(u8, u8, Described)>,
    keys: Seq<u8>,
    k: int,
    x: u8,
    r: u8,
) -> bool {
    keys[k] > x || (keys[k] == x && best[k].0 > r)
}

/// The entries from `from` up to `to` stand before such a new entry.
pub open spec fn stand_first(
    best: Seq<(u8, u8, Described)>,
    keys: Seq<u8>,
    from: int,
    to: int,
    x: u8,
    r: u8,
) -> bool {
    forall|k: int| from <= k < to ==> #[trigger] stands_first(best, keys, k, x, r)
}

/// What holds of the digits taken, whatever is left in the pools: each entry
/// took a candidate of its slot, no two of one slot the same; of two entries
/// of one slot the one with the larger descriptor took the larger digit; and
/// the entries of one descriptor stand by falling digit taken, then falling
/// repetition count.
pub open spec fn taken_ok(p: Seq<(u8, u8)>, best: Seq<(u8, u8, Described)>, keys: Seq<u8>) -> bool {
    &&& keys.len() == best.len()
    &&& forall|k: int|
        0 <= k < best.len() ==> {
            &&& 0 <= slot_of(#[trigger] best[k]) < 91
            &&& keys[k] < 10
            &&& candidate(p, slot_of(best[k]), keys[k])
        }
    &&& forall|i: int, j: int|
        0 <= i < best.len() && 0 <= j < best.len() && i != j && slot_of(#[trigger] best[i])
            == slot_of(#[trigger] best[j]) ==> keys[i] != keys[j]
    &&& forall|i: int, j: int|
        0 <= i < best.len() && 0 <= j < best.len() && slot_of(#[trigger] best[i]) == slot_of(
            #[trigger] best[j],
        ) && best[i].1 > best[j].1 ==> keys[i] > keys[j]
    &&& forall|i: int, j: int|
        0 <= i < j < best.len() && (#[trigger] best[i]).1 == (#[trigger] best[j]).1
            ==> stands_before(best, keys, i, j)
}

/// The digits were taken largest first: a candidate larger than the digit
/// that an entry took was taken by another entry of that slot.
pub open spec fn largest_first(
    p: Seq<(u8, u8)>,
    best: Seq<(u8, u8, Described)>,
    keys: Seq<u8>,
) -> bool {
    forall|k: int, x: u8|
        0 <= k < best.len() && keys[k] < x < 10 && candidate(p, slot_of(#[trigger] best[k]), x)
            ==> #[trigger] is_taken(best, keys, slot_of(best[k]), x as int)
}

/// The state of the pools while digits are taken: a pool holds the candidates
/// of its slot that no entry took, and each of them is smaller than every
/// digit taken of that slot.
pub open spec fn order_inv(
    p: Seq<(u8, u8)>,
    pools: Seq<Vec<bool>>,
    best: Seq<(u8, u8, Described)>,
    keys: Seq<u8>,
) -> bool {
    &&& taken_ok(p, best, keys)
    &&& pools.len() == 91
    &&& forall|s: int| 0 <= s < 91 ==> (#[trigger] pools[s]).len() == 10
    &&& forall|s: int, x: int|
        #![trigger pools[s]@[x]]
        0 <= s < 91 && 0 <= x < 10 ==> (pools[s]@[x] <==> candidate(p, s, x as u8) && !is_taken(
            best,
            keys,
            s,
            x,
        ))
    &&& forall|k: int, x: int|
        #![trigger pools[slot_of(best[k])]@[x]]
        0 <= k < best.len() && 0 <= x < 10 && pools[slot_of(best[k])]@[x] ==> x < keys[k]
}

/// Before the first pair no digit is taken.
pub proof fn lemma_order_start(p: Seq<(u8, u8)>, pools: Seq<Vec<bool>>)
    requires
        pools.len() == 91,
        forall|s: int| 0 <= s < 91 ==> (#[trigger] pools[s])@ == pool(p, s),
    ensures
        order_inv(p, pools, Seq::empty(), Seq::empty()),
{
    assert forall|s: int| 0 <= s < 91 implies (#[trigger] pools[s]).len() == 10 by {
        assert(pools[s]@.len() == pool(p, s).len());
    }
}

/// Giving an entry the largest digit that is left of its slot, and a place
/// among the entries of its descriptor by that digit, keeps the state.
pub proof fn lemma_order_place(
    p: Seq<(u8, u8)>,
    pools0: Seq<Vec<bool>>,
    pools1: Seq<Vec<bool>>,
    best0: Seq<(u8, u8, Described)>,
    keys0: Seq<u8>,
    g0: int,
    x: u8,
    pos: int,
    e: (u8, u8, Described),
)
    requires
        order_inv(p, pools0, best0, keys0),
        1 <= e.0 <= e.1 <= 9,
        x < 10,
        pools0[slot_of(e)]@[x as int],
        forall|y: int| x < y < 10 ==> !pools0[slot_of(e)]@[y],
        pools1.len() == 91,
        forall|s: int| 0 <= s < 91 && s != slot_of(e) ==> pools1[s] == pools0[s],
        pools1[slot_of(e)]@ == pools0[slot_of(e)]@.update(x as int, false),
        0 <= g0 <= pos <= best0.len(),
        forall|k: int| 0 <= k < g0 ==> (#[trigger] best0[k]).1 > e.1,
        forall|k: int| g0 <= k < best0.len() ==> (#[trigger] best0[k]).1 == e.1,
        stand_first(best0, keys0, g0, pos, x, e.0),
        pos < best0.len() ==> !stands_first(best0, keys0, pos, x, e.0),
    ensures
        order_inv(p, pools1, best0.insert(pos, e), keys0.insert(pos, x)),
{
    let best1 = best0.insert(pos, e);
    let keys1 = keys0.insert(pos, x);
    let s = slot_of(e);
    // where an entry of the new list stood in the old one
    let was = |k: int| if k < pos { k } else { k - 1 };
    assert forall|k: int| 0 <= k < best1.len() && k != pos implies best1[k] == best0[was(k)]
        && keys1[k] == keys0[was(k)] && 0 <= was(k) < best0.len() by {}
    assert(best1[pos] == e && keys1[pos] == x);
    assert(candidate(p, s, x));
    assert(!is_taken(best0, keys0, s, x as int));
    // what is taken now is what was taken, and `x` of slot `s`
    assert forall|t: int, y: int|
        is_taken(best1, keys1, t, y) == (is_taken(best0, keys0, t, y) || (t == s && y == x)) by {
        if is_taken(best0, keys0, t, y) {
            let k = choose|k: int|
                0 <= k < best0.len() && slot_of(#[trigger] best0[k]) == t && keys0[k] == y;
            let k1 = if k < pos { k } else { k + 1 };
            assert(best1[k1] == best0[k] && keys1[k1] == keys0[k]);
            assert(slot_of(best1[k1]) == t);
        }
        if t == s && y == x {
            assert(slot_of(best1[pos]) == t && keys1[pos] == y);
        }
        if is_taken(best1, keys1, t, y) {
            let k = choose|k: int|
                0 <= k < best1.len() && slot_of(#[trigger] best1[k]) == t && keys1[k] == y;
            if k != pos {
                assert(best1[k] == best0[was(k)]);
                assert(slot_of(best0[was(k)]) == t);
            }
        }
    }
    assert forall|t: int, y: int|
        #![trigger pools1[t]@[y]]
        0 <= t < 91 && 0 <= y < 10 implies (pools1[t]@[y] <==> candidate(p, t, y as u8)
            && !is_taken(best1, keys1, t, y)) by {
        assert(pools0[t]@[y] <==> candidate(p, t, y as u8) && !is_taken(best0, keys0, t, y));
    }
    assert forall|k: int, y: int|
        #![trigger pools1[slot_of(best1[k])]@[y]]
        0 <= k < best1.len() && 0 <= y < 10 && pools1[slot_of(best1[k])]@[y] implies y
            < keys1[k] by {
        if k != pos {
            assert(best1[k] == best0[was(k)]);
            assert(pools0[slot_of(best0[was(k)])]@[y]);
        } else {
            assert(pools0[s]@[y]);
        }
    }
    assert forall|k: int| 0 <= k < best1.len() implies {
        &&& 0 <= slot_of(#[trigger] best1[k]) < 91
        &&& keys1[k] < 10
        &&& candidate(p, slot_of(best1[k]), keys1[k])
    } by {
        if k != pos {
            assert(best1[k] == best0[was(k)]);
        }
    }
    assert forall|i: int, j: int|
        0 <= i < best1.len() && 0 <= j < best1.len() && i != j && slot_of(#[trigger] best1[i])
            == slot_of(#[trigger] best1[j]) implies keys1[i] != keys1[j] by {
        if i != pos && j != pos {
            assert(best1[i] == best0[was(i)] && best1[j] == best0[was(j)]);
        } else if i == pos {
            assert(best1[j] == best0[was(j)]);
            assert(slot_of(best0[was(j)]) == s);
        } else {
            assert(best1[i] == best0[was(i)]);
            assert(slot_of(best0[was(i)]) == s);
        }
    }
    assert forall|i: int, j: int|
        0 <= i < best1.len() && 0 <= j < best1.len() && slot_of(#[trigger] best1[i]) == slot_of(
            #[trigger] best1[j],
        ) && best1[i].1 > best1[j].1 implies keys1[i] > keys1[j] by {
        if i != pos && j != pos {
            assert(best1[i] == best0[was(i)] && best1[j] == best0[was(j)]);
        } else if j == pos {
            assert(best1[i] == best0[was(i)]);
            assert(pools0[slot_of(best0[was(i)])]@[x as int]);
        } else {
            assert(best1[j] == best0[was(j)]);
            assert(best0[was(j)].1 >= e.1);
        }
    }
    assert forall|i: int, j: int|
        0 <= i < j < best1.len() && (#[trigger] best1[i]).1 == (#[trigger] best1[j]).1 implies stands_before(
        best1,
        keys1,
        i,
        j,
    ) by {
        if i != pos && j != pos {
            assert(best1[i] == best0[was(i)] && best1[j] == best0[was(j)]);
            assert(stands_before(best0, keys0, was(i), was(j)));
        } else if j == pos {
            assert(best1[i] == best0[was(i)]);
            assert(best0[i].1 == e.1);
            assert(stands_first(best0, keys0, i, x, e.0));
        } else {
            assert(best1[j] == best0[was(j)]);
            assert(best0[j - 1].1 == e.1);
            assert(pos < best0.len());
            assert(best0[pos].1 == e.1);
            if j - 1 > pos {
                assert(stands_before(best0, keys0, pos, j - 1));
            }
        }
    }
}

/// When every pair has its digit, the digits were taken largest first.
pub proof fn lemma_order_end(
    p: Seq<(u8, u8)>,
    pools: Seq<Vec<bool>>,
    best: Seq<(u8, u8, Described)>,
    keys: Seq<u8>,
)
    requires
        order_inv(p, pools, best, keys),
    ensures
        taken_ok(p, best, keys),
        largest_first(p, best, keys),
{
    assert forall|k: int, x: u8|
        0 <= k < best.len() && keys[k] < x < 10 && candidate(
            p,
            slot_of(#[trigger] best[k]),
            x,
        ) implies #[trigger] is_taken(best, keys, slot_of(best[k]), x as int) by {
        let s = slot_of(best[k]);
        if !is_taken(best, keys, s, x as int) {
            assert(pools[s]@[x as int]);
            assert(pools[slot_of(best[k])]@[x as int]);
        }
    }
}

/// The pools, the entries and the digits taken at some point of the
/// assignment.
pub struct Built {
    pub pools: Seq<Seq<bool>>,
    pub best: Seq<(u8, u8, Described)>,
    pub keys: Seq<u8>,
}

/// The largest digit that is set in `row`, or -1.
pub open spec fn largest(row: Seq<bool>) -> int
    decreases row.len(),
{
    if row.len() == 0 {
        -1
    } else if row.last() {
        row.len() - 1
    } else {
        largest(row.drop_last())
    }
}

/// The place of a new entry that took `x` with the repetition count `r`: the
/// first from `from` on whose entry does not stand before it.
pub open spec fn place_of(
    best: Seq<(u8, u8, Described)>,
    keys: Seq<u8>,
    from: int,
    x: u8,
    r: u8,
) -> int
    decreases best.len() - from,
{
    if from >= best.len() || !stands_first(best, keys, from, x, r) {
        from
    } else {
        place_of(best, keys, from + 1, x, r)
    }
}

/// A pair `(r, d)` takes the largest digit left of its slot and its place
/// among the entries of its descriptor, which begin at `g0`.
pub open spec fn give(p: Seq<(u8, u8)>, b: Built, r: u8, d: u8, g0: int) -> Built {
    let s = d - r;
    let x = largest(b.pools[s]) as u8;
    let pos = place_of(b.best, b.keys, g0, x, r);
    let described = if pool_size(p, s) > 1 {
        Described::Var(s as u8)
    } else {
        Described::Digit(x)
    };
    Built {
        pools: b.pools.update(s, b.pools[s].update(x as int, false)),
        best: b.best.insert(pos, (r, d, described)),
        keys: b.keys.insert(pos, x),
    }
}

/// From `b`, the pairs equal to `(r, d)` among the first `i` have their digits.
pub open spec fn after_pairs(p: Seq<(u8, u8)>, b: Built, r: u8, d: u8, g0: int, i: int) -> Built
    decreases i,
{
    if i <= 0 {
        b
    } else {
        let prev = after_pairs(p, b, r, d, g0, i - 1);
        if p[i - 1].0 == r && p[i - 1].1 == d {
            give(p, prev, r, d, g0)
        } else {
            prev
        }
    }
}

/// From `b`, the pairs with descriptor `d` and a repetition count below `r`
/// have their digits.
pub open spec fn after_reps(p: Seq<(u8, u8)>, b: Built, d: u8, g0: int, r: int) -> Built
    decreases r,
{
    if r <= 1 {
        b
    } else {
        after_pairs(p, after_reps(p, b, d, g0, r - 1), (r - 1) as u8, d, g0, p.len() as int)
    }
}

/// The pairs with a descriptor above `d` have their digits.
pub open spec fn after_descriptors(p: Seq<(u8, u8)>, d: int) -> Built
    decreases 9 - d,
{
    if d >= 9 {
        Built { pools: Seq::new(91, |s: int| pool(p, s)), best: Seq::empty(), keys: Seq::empty() }
    } else {
        let prev = after_descriptors(p, d + 1);
        after_reps(p, prev, (d + 1) as u8, prev.best.len() as int, d + 2)
    }
}

/// The assignment of `p`: its pairs taken by falling descriptor and rising
/// repetition count, each given the largest digit left of its slot.
pub open spec fn built(p: Seq<(u8, u8)>) -> Built {
    after_descriptors(p, 0)
}

/// The state of the assignment as it is held.
pub open spec fn state_of(
    pools: Seq<Vec<bool>>,
    best: Seq<(u8, u8, Described)>,
    keys: Seq<u8>,
) -> Built {
    Built { pools: Seq::new(pools.len(), |s: int| pools[s]@), best, keys }
}

pub proof fn lemma_largest(row: Seq<bool>, x: int)
    requires
        0 <= x < row.len(),
        row[x],
        forall|y: int| x < y < row.len() ==> !row[y],
    ensures
        largest(row) == x,
    decreases row.len(),
{
    if x < row.len() - 1 {
        assert(!row[row.len() - 1]);
        lemma_largest(row.drop_last(), x);
    }
}

pub proof fn lemma_place_of(
    best: Seq<(u8, u8, Described)>,
    keys: Seq<u8>,
    from: int,
    pos: int,
    x: u8,
    r: u8,
)
    requires
        0 <= from <= pos <= best.len(),
        stand_first(best, keys, from, pos, x, r),
        pos < best.len() ==> !stands_first(best, keys, pos, x, r),
    ensures
        place_of(best, keys, from, x, r) == pos,
    decreases pos - from,
{
    if from < pos {
        assert(stands_first(best, keys, from, x, r));
        lemma_place_of(best, keys, from + 1, pos, x, r);
    }
}

/// What solves an admissible pairing can be written with one character for
/// each number.
pub proof fn lemma_solved_is_printable(
    p: Seq<(u8, u8)>,
    e: Seq<(u8, u8, Described)>,
    vars: Seq<(u8, Seq<u8>)>,
)
    requires
        admissible(p),
        entries_ok(p, e),
        vars_ok(p, vars),
    ensures
        printable(e, vars),
{
    to_multiset_len(rows(e));
    to_multiset_len(p);
    assert forall|i: int| 0 <= i < e.len() implies (#[trigger] e[i]).0 <= 9 && e[i].1 <= 9 && (
    e[i].2 matches Described::Digit(x) ==> x <= 9) by {
        assert(described_ok(p, e[i]));
    }
    assert forall|k: int, j: int|
        0 <= k < vars.len() && 0 <= j < vars[k].1.len() implies #[trigger] vars[k].1[j] <= 9 by {
        assert(lists_pool(vars[k].1, p, vars[k].0 as int));
    }
}

impl Solution {
    /// The entries, one for each pair: repetition count, descriptor, and what
    /// the pair describes.
    pub closed spec fn entries(&self) -> Seq<(u8, u8, Described)> {
        self.best_solution@
    }

    /// The slots that are left as variables, each with its candidates.
    pub closed spec fn vars(&self) -> Seq<(u8, Seq<u8>)> {
        vars_view(self.vars@)
    }

    /// The digit that each entry took of the candidates of its slot.
    pub closed spec fn taken(&self) -> Seq<u8> {
        self.taken@
    }

    /// The pairing that this is the solution of.
    pub closed spec fn pairing(&self) -> Seq<(u8, u8)> {
        self.pairing@
    }

    /// This is the solution of the pairing `p`.
    pub open spec fn solves(&self, p: Seq<(u8, u8)>) -> bool {
        &&& self.pairing() == p
        &&& self.entries() == built(p).best
        &&& self.taken() == built(p).keys
        &&& self.vars() == vars_below(p, 91)
        &&& entries_ok(p, self.entries())
        &&& vars_ok(p, self.vars())
        &&& taken_ok(p, self.entries(), self.taken())
        &&& largest_first(p, self.entries(), self.taken())
    }

    /// Assigns digits to the pairs. The pairs are taken by falling descriptor
    /// and rising repetition count, and each takes the largest candidate that
    /// is left of its slot. A slot with one candidate gives that digit; a slot
    /// with several is named instead. Within one descriptor the entries stand
    /// by falling digit taken, then falling repetition count.
    pub fn new(rep_descriptors: &[(u8, u8)]) -> (res: Self)
        requires
            admissible(rep_descriptors@),
        ensures
            res.solves(rep_descriptors@),
            res.is_printable(),
    {
        let ghost p = rep_descriptors@;
        let n = rep_descriptors.len();
        let mut pools = build_pools(rep_descriptors);
        let vars = list_vars(&pools, Ghost(p));
        let mut several: Vec<bool> = Vec::new();
        let mut t: usize = 0;
        while t < 91
            invariant
                t <= 91,
                several.len() == t,
                pools.len() == 91,
                forall|s: int| 0 <= s < 91 ==> (#[trigger] pools@[s])@ == pool(p, s),
                forall|s: int| 0 <= s < t ==> several@[s] == (pool_size(p, s) > 1),
            decreases 91 - t,
        {
            assert(pools@[t as int]@ == pool(p, t as int));
            several.push(count_trues(&pools[t]) > 1);
            t = t + 1;
        }
        let mut best: Vec<(u8, u8, Described)> = Vec::new();
        let mut keys: Vec<u8> = Vec::new();
        let ghost mut done: Set<int> = Set::empty();
        proof {
            lemma_assign_start(p, pools@);
            lemma_order_start(p, pools@);
            assert(state_of(pools@, best@, keys@).pools =~= after_descriptors(p, 9).pools);
        }
        let mut d: u8 = 9;
        while d > 0
            invariant
                d <= 9,
                p == rep_descriptors@,
                n == p.len(),
                admissible(p),
                several.len() == 91,
                forall|s: int| 0 <= s < 91 ==> several@[s] == (pool_size(p, s) > 1),
                order_inv(p, pools@, best@, keys@),
                state_of(pools@, best@, keys@) == after_descriptors(p, d as int),
                assign_inv(p, pools@, best@, done, d as int, 1, 0, best.len() as int),
            decreases d,
        {
            let g0 = best.len();
            let ghost base = after_descriptors(p, d as int);
            let mut r: u8 = 1;
            while r <= d
                invariant
                    1 <= r <= d + 1,
                    1 <= d <= 9,
                    p == rep_descriptors@,
                    n == p.len(),
                    admissible(p),
                    several.len() == 91,
                    forall|s: int| 0 <= s < 91 ==> several@[s] == (pool_size(p, s) > 1),
                    order_inv(p, pools@, best@, keys@),
                    g0 <= best.len(),
                    g0 == base.best.len(),
                    base == after_descriptors(p, d as int),
                    state_of(pools@, best@, keys@) == after_reps(p, base, d, g0 as int, r as int),
                    assign_inv(p, pools@, best@, done, d as int, r as int, 0, g0 as int),
                decreases d + 1 - r,
            {
                let mut i: usize = 0;
                while i < n
                    invariant
                        i <= n,
                        1 <= r <= d,
                        1 <= d <= 9,
                        p == rep_descriptors@,
                        n == p.len(),
                        admissible(p),
                        several.len() == 91,
                        forall|s: int| 0 <= s < 91 ==> several@[s] == (pool_size(p, s) > 1),
                        order_inv(p, pools@, best@, keys@),
                        g0 <= best.len(),
                        state_of(pools@, best@, keys@) == after_pairs(
                            p,
                            after_reps(p, base, d, g0 as int, r as int),
                            r,
                            d,
                            g0 as int,
                            i as int,
                        ),
                        assign_inv(p, pools@, best@, done, d as int, r as int, i as int, g0 as int),
                    decreases n - i,
                {
                    if rep_descriptors[i].0 == r && rep_descriptors[i].1 == d {
                        let s = d - r;
                        let ghost pools0 = pools@;
                        let ghost best0 = best@;
                        let ghost keys0 = keys@;
                        let mut row = pools[s as usize].clone();
                        proof {
                            assert(row@ =~= pools0[s as int]@);
                            assert(!done.contains(i as int));
                            lemma_uses_in_insert(p, done, i as int, s as int);
                            lemma_uses_in_le(p, done.insert(i as int), s as int);
                            assert(uses(p, s as int) <= pool_size(p, s as int));
                            assert(trues(pools0[s as int]@) + uses_in(p, done, s as int)
                                == pool_size(p, s as int));
                        }
                        let digit = take_largest(&mut row);
                        pools.set(s as usize, row);
                        let described = if several[s as usize] {
                            Described::Var(s)
                        } else {
                            Described::Digit(digit)
                        };
                        let mut pos: usize = g0;
                        loop
                            invariant
                                g0 <= pos <= best.len(),
                                keys.len() == best.len(),
                                best@ == best0,
                                keys@ == keys0,
                                stand_first(best0, keys0, g0 as int, pos as int, digit, r),
                            ensures
                                pos < best.len() ==> !stands_first(
                                    best0,
                                    keys0,
                                    pos as int,
                                    digit,
                                    r,
                                ),
                            decreases best.len() - pos,
                        {
                            if pos >= best.len() {
                                break ;
                            }
                            let first = keys[pos] > digit || (keys[pos] == digit && best[pos].0
                                > r);
                            if !first {
                                break ;
                            }
                            pos = pos + 1;
                        }
                        best.insert(pos, (r, d, described));
                        keys.insert(pos, digit);
                        proof {
                            assert(pools0[s as int]@[digit as int]);
                            assert(candidate(p, s as int, digit));
                            let b0 = state_of(pools0, best0, keys0);
                            lemma_largest(pools0[s as int]@, digit as int);
                            lemma_place_of(best0, keys0, g0 as int, pos as int, digit, r);
                            assert(state_of(pools@, best@, keys@).pools =~= b0.pools.update(
                                s as int,
                                b0.pools[s as int].update(digit as int, false),
                            ));
                            assert(state_of(pools@, best@, keys@) == give(p, b0, r, d, g0 as int));
                            lemma_order_place(
                                p,
                                pools0,
                                pools@,
                                best0,
                                keys0,
                                g0 as int,
                                digit,
                                pos as int,
                                (r, d, described),
                            );
                            lemma_assign_place(
                                p,
                                pools0,
                                pools@,
                                best0,
                                done,
                                d as int,
                                r as int,
                                i as int,
                                g0 as int,
                                digit as int,
                                pos as int,
                                (r, d, described),
                            );
                            done = done.insert(i as int);
                        }
                    } else {
                        proof {
                            lemma_assign_skip(
                                p,
                                pools@,
                                best@,
                                done,
                                d as int,
                                r as int,
                                i as int,
                                g0 as int,
                            );
                        }
                    }
                    i = i + 1;
                }
                proof {
                    lemma_assign_next_rep(p, pools@, best@, done, d as int, r as int, g0 as int);
                }
                r = r + 1;
            }
            proof {
                lemma_assign_next_descriptor(p, pools@, best@, done, d as int, g0 as int);
            }
            d = d - 1;
        }
        proof {
            lemma_assign_end(p, pools@, best@, done);
            lemma_order_end(p, pools@, best@, keys@);
            lemma_solved_is_printable(p, best@, vars_view(vars@));
        }
        Solution { best_solution: best, vars, taken: Ghost(keys@), pairing: Ghost(p) }
    }

    /// The entries, one for each pair.
    pub fn best_solution(&self) -> (out: &Vec<(u8, u8, Described)>)
        ensures
            out@ == self.entries(),
    {
        &self.best_solution
    }

    /// The slots that are left as variables, by increasing slot, each with its
    /// candidates in increasing order.
    pub fn var_sets(&self) -> (out: &Vec<(u8, Vec<u8>)>)
        ensures
            vars_view(out@) == self.vars(),
    {
        &self.vars
    }
}

} // verus!
