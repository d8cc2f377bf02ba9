//! Partitions of an integer into a fixed number of parts, each a digit in 1..=9.

use vstd::prelude::*;

verus! {

/// Sum of the parts of `p`.
pub open spec fn total(p: Seq<u8>) -> nat
    decreases p.len(),
{
    if p.len() == 0 {
        0
    } else {
        total(p.drop_last()) + p.last() as nat
    }
}

/// Every part is a digit in 1..=9.
pub open spec fn all_digits(p: Seq<u8>) -> bool {
    forall|i: int| 0 <= i < p.len() ==> 1 <= #[trigger] p[i] <= 9
}

/// The parts never decrease from left to right.
pub open spec fn non_decreasing(p: Seq<u8>) -> bool {
    forall|i: int, j: int| 0 <= i <= j < p.len() ==> p[i] <= p[j]
}

/// `p` writes `n` as a sum of exactly `k` digits in non-decreasing order.
pub open spec fn is_partition(p: Seq<u8>, k: nat, n: nat) -> bool {
    &&& p.len() == k
    &&& all_digits(p)
    &&& non_decreasing(p)
    &&& total(p) == n
}

/// `a` and `b` agree before position `l`, where `a` is smaller.
pub open spec fn first_differs_at(a: Seq<u8>, b: Seq<u8>, l: int) -> bool {
    &&& 0 <= l < a.len()
    &&& a.len() == b.len()
    &&& a[l] < b[l]
    &&& forall|i: int| 0 <= i < l ==> a[i] == b[i]
}

/// Strict lexicographic order on sequences of one length.
pub open spec fn lex_lt(a: Seq<u8>, b: Seq<u8>) -> bool {
    exists|l: int| first_differs_at(a, b, l)
}

/// `p` is `v, .., v, m, 9, .., 9` with `v <= m <= 9`: among the non-decreasing
/// sequences of its length and sum with parts in `v..=9`, the first.
pub open spec fn is_packed(p: Seq<u8>, v: u8) -> bool {
    exists|r: int| packed_at(p, v, r)
}

/// `p` is packed over `v` with its middle part at `r`.
pub open spec fn packed_at(p: Seq<u8>, v: u8, r: int) -> bool {
    &&& 0 <= r < p.len()
    &&& v <= p[r] <= 9
    &&& forall|j: int| 0 <= j < r ==> p[j] == v
    &&& forall|j: int| r < j < p.len() ==> p[j] == 9
}

/// Sum of the parts of `p` to the right of position `l`.
pub open spec fn sum_after(p: Seq<u8>, l: int) -> nat {
    total(p.subrange(l + 1, p.len() as int))
}

/// Position `l` can grow by one while everything to its right is at least as
/// large and the sum stays the same.
pub open spec fn can_raise(p: Seq<u8>, l: int) -> bool {
    &&& 0 <= l < p.len() - 1
    &&& p[l] < 9
    &&& (p[l] + 1) * (p.len() - 1 - l) + 1 <= sum_after(p, l)
}

/// No position of `p` can grow: `p` is the last partition.
pub open spec fn is_last(p: Seq<u8>) -> bool {
    forall|l: int| 0 <= l < p.len() - 1 ==> !can_raise(p, l)
}

/// `q` comes from `p` by raising position `l`, the rightmost that can grow, and
/// packing the rest of the sum to its right.
pub open spec fn raised_at(p: Seq<u8>, q: Seq<u8>, l: int) -> bool {
    &&& can_raise(p, l)
    &&& forall|m: int| l < m < p.len() - 1 ==> !can_raise(p, m)
    &&& q.len() == p.len()
    &&& total(q) == total(p)
    &&& forall|i: int| 0 <= i < l ==> q[i] == p[i]
    &&& q[l] == p[l] + 1
    &&& is_packed(q.subrange(l, q.len() as int), q[l])
}

/// `q` is the partition that follows `p`.
pub open spec fn is_successor(p: Seq<u8>, q: Seq<u8>) -> bool {
    exists|l: int| raised_at(p, q, l)
}

/// A measure that falls as a digit sequence of fixed length grows
/// lexicographically.
pub open spec fn slack(p: Seq<u8>) -> nat
    decreases p.len(),
{
    if p.len() == 0 {
        0
    } else {
        slack(p.drop_last()) * 10 + (9 - p.last()) as nat
    }
}

pub proof fn lemma_total_push(p: Seq<u8>, x: u8)
    ensures
        total(p.push(x)) == total(p) + x,
{
    assert(p.push(x).drop_last() =~= p);
}

pub proof fn lemma_total_update(p: Seq<u8>, i: int, x: u8)
    requires
        0 <= i < p.len(),
    ensures
        total(p.update(i, x)) + p[i] == total(p) + x,
    decreases p.len(),
{
    if i == p.len() - 1 {
        assert(p.update(i, x).drop_last() =~= p.drop_last());
    } else {
        lemma_total_update(p.drop_last(), i, x);
        assert(p.update(i, x).drop_last() =~= p.drop_last().update(i, x));
    }
}

pub proof fn lemma_total_split(p: Seq<u8>, i: int)
    requires
        0 <= i <= p.len(),
    ensures
        total(p) == total(p.subrange(0, i)) + total(p.subrange(i, p.len() as int)),
    decreases p.len(),
{
    if i == p.len() {
        assert(p.subrange(0, i) =~= p);
        assert(p.subrange(i, p.len() as int) =~= Seq::<u8>::empty());
    } else {
        lemma_total_split(p.drop_last(), i);
        assert(p.drop_last().subrange(0, i) =~= p.subrange(0, i));
        assert(p.subrange(i, p.len() as int).drop_last() =~= p.drop_last().subrange(
            i,
            p.len() - 1,
        ));
    }
}

pub proof fn lemma_total_bounds(p: Seq<u8>)
    requires
        all_digits(p),
    ensures
        p.len() <= total(p) <= 9 * p.len(),
    decreases p.len(),
{
    if p.len() > 0 {
        assert(1 <= p[p.len() - 1] <= 9);
        lemma_total_bounds(p.drop_last());
    }
}

/// The sum of `p` is its part at `l` plus the sums on both sides of it.
pub proof fn lemma_total_around(p: Seq<u8>, l: int)
    requires
        0 <= l < p.len(),
    ensures
        total(p) == total(p.subrange(0, l)) + p[l] + sum_after(p, l),
{
    lemma_total_split(p, l);
    let tail = p.subrange(l, p.len() as int);
    lemma_total_split(tail, 1);
    assert(tail.subrange(1, tail.len() as int) =~= p.subrange(l + 1, p.len() as int));
    let head = tail.subrange(0, 1);
    assert(head.drop_last() =~= Seq::<u8>::empty());
    assert(total(head.drop_last()) == 0);
    assert(head.last() == p[l]);
}

/// Of two digit sequences of one length, the lexicographically larger has the
/// smaller slack.
pub proof fn lemma_slack_falls(a: Seq<u8>, b: Seq<u8>)
    requires
        all_digits(a),
        all_digits(b),
        lex_lt(a, b),
    ensures
        slack(b) < slack(a),
    decreases a.len(),
{
    let l = choose|l: int| first_differs_at(a, b, l);
    let n = a.len() - 1;
    assert(1 <= a[n] <= 9 && 1 <= b[n] <= 9);
    if l == n {
        assert(a.drop_last() =~= b.drop_last());
    } else {
        assert(first_differs_at(a.drop_last(), b.drop_last(), l));
        lemma_slack_falls(a.drop_last(), b.drop_last());
    }
}

/// The lexicographic order is transitive.
pub proof fn lemma_lex_lt_transitive(a: Seq<u8>, b: Seq<u8>, c: Seq<u8>)
    requires
        lex_lt(a, b),
        lex_lt(b, c),
    ensures
        lex_lt(a, c),
{
    let l = choose|l: int| first_differs_at(a, b, l);
    let m = choose|m: int| first_differs_at(b, c, m);
    let k = if l <= m { l } else { m };
    assert(first_differs_at(a, c, k));
}

/// No sequence is lexicographically smaller than itself, so an enumeration in
/// strictly increasing order never repeats a value.
pub proof fn lemma_lex_lt_irreflexive(a: Seq<u8>, b: Seq<u8>)
    requires
        lex_lt(a, b),
    ensures
        a != b,
{
}

/// The partition that follows another is a partition of the same number into
/// as many parts, and lexicographically larger.
pub proof fn lemma_successor_is_larger_partition(p: Seq<u8>, q: Seq<u8>)
    requires
        all_digits(p),
        non_decreasing(p),
        is_successor(p, q),
    ensures
        is_partition(q, p.len(), total(p)),
        lex_lt(p, q),
{
    let l = choose|l: int| raised_at(p, q, l);
    let tail = q.subrange(l, q.len() as int);
    let r = choose|r: int| packed_at(tail, q[l], r);
    assert(first_differs_at(p, q, l));
    assert(1 <= p[l] <= 9);
    assert(tail[0] == q[l]);
    assert forall|i: int| 0 <= i < q.len() implies 1 <= #[trigger] q[i] <= 9 by {
        if i < l {
            assert(q[i] == p[i]);
        } else {
            assert(q[i] == tail[i - l]);
        }
    }
    assert forall|i: int, j: int| 0 <= i <= j < q.len() implies q[i] <= q[j] by {
        if i >= l {
            assert(q[i] == tail[i - l]);
        } else {
            assert(q[i] == p[i] && p[i] <= p[l]);
        }
        if j >= l {
            assert(q[j] == tail[j - l]);
        } else {
            assert(q[j] == p[j]);
        }
    }
}

/// Enumerates the partitions of `n` into `n_parts` digits, smallest first.
pub struct PartitionsParts {
    inner: Option<Vec<u8>>,
}

impl View for PartitionsParts {
    type V = Option<Seq<u8>>;

    /// The partition that the next call of `next` returns, if any is left.
    closed spec fn view(&self) -> Option<Seq<u8>> {
        match self.inner {
            Some(v) => Some(v@),
            None => None,
        }
    }
}

/// Sum of the parts of `p` from position `from` on.
fn suffix_sum(p: &Vec<u8>, from: usize) -> (s: usize)
    requires
        from <= p.len(),
        p.len() * 9 <= usize::MAX,
        all_digits(p@),
    ensures
        s == total(p@.subrange(from as int, p.len() as int)),
{
    let mut s: usize = 0;
    let mut i: usize = from;
    while i < p.len()
        invariant
            from <= i <= p.len(),
            p.len() * 9 <= usize::MAX,
            all_digits(p@),
            s == total(p@.subrange(from as int, i as int)),
            s <= 9 * (i - from),
        decreases p.len() - i,
    {
        proof {
            assert(p@.subrange(from as int, i + 1) =~= p@.subrange(from as int, i as int).push(
                p@[i as int],
            ));
            lemma_total_push(p@.subrange(from as int, i as int), p@[i as int]);
            assert(1 <= p@[i as int] <= 9);
        }
        s = s + p[i] as usize;
        i = i + 1;
    }
    s
}

/// Finds the rightmost position that can grow, and with it the part of the sum
/// that is left to hand out once everything from that position on holds the
/// grown value.
fn find_pivot(p: &Vec<u8>) -> (res: Option<(usize, usize)>)
    requires
        p.len() >= 2,
        p.len() * 9 <= usize::MAX,
        all_digits(p@),
    ensures
        res is None ==> is_last(p@),
        res matches Some((l, rest)) ==> {
            &&& can_raise(p@, l as int)
            &&& forall|m: int| l < m < p.len() - 1 ==> !can_raise(p@, m)
            &&& rest + (p@[l as int] + 1) * (p.len() - 1 - l) + 1 == sum_after(p@, l as int)
        },
{
    let parts = p.len();
    let mut l_idx: usize = parts - 1;
    while l_idx > 0
        invariant
            parts == p.len(),
            l_idx <= parts - 1,
            parts * 9 <= usize::MAX,
            all_digits(p@),
            forall|m: int| l_idx <= m < parts - 1 ==> !can_raise(p@, m),
        decreases l_idx,
    {
        l_idx = l_idx - 1;
        let l_val = p[l_idx];
        if l_val != 9 {
            let new_l_val = l_val + 1;
            let r_sum = suffix_sum(p, l_idx + 1);
            let r_len = (parts - 1) - l_idx;
            proof {
                lemma_total_bounds(p@.subrange(l_idx + 1, parts as int));
                assert(new_l_val * r_len <= 9 * r_len) by (nonlinear_arith)
                    requires
                        new_l_val <= 9,
                        r_len >= 0,
                ;
            }
            let new_r_sum = r_sum - 1;
            if let Some(rest) = new_r_sum.checked_sub(new_l_val as usize * r_len) {
                return Some((l_idx, rest));
            }
        }
    }
    None
}

/// Raises position `l` of `next` by one and hands the rest of the sum out from
/// the right.
fn raise_at(next: &mut Vec<u8>, l: usize, rest: usize)
    requires
        all_digits(old(next)@),
        can_raise(old(next)@, l as int),
        rest + (old(next)@[l as int] + 1) * (old(next).len() - 1 - l) + 1 == sum_after(
            old(next)@,
            l as int,
        ),
    ensures
        final(next).len() == old(next).len(),
        total(final(next)@) == total(old(next)@),
        forall|i: int| 0 <= i < l ==> final(next)@[i] == old(next)@[i],
        final(next)@[l as int] == old(next)@[l as int] + 1,
        is_packed(final(next)@.subrange(l as int, final(next).len() as int), final(next)@[l as int]),
{
    let ghost p = next@;
    let parts = next.len();
    let v: u8 = next[l] + 1;
    let ghost r_len = parts - 1 - l;
    proof {
        lemma_total_bounds(p.subrange(l + 1, parts as int));
        lemma_total_around(p, l as int);
        assert(rest + v * r_len + 1 <= 9 * r_len);
        assert(rest < (9 - v) * r_len) by (nonlinear_arith)
            requires
                rest + v * r_len + 1 <= 9 * r_len,
        ;
        assert(p.subrange(l as int, l as int) =~= Seq::<u8>::empty());
    }
    let mut j: usize = l;
    while j < parts
        invariant
            l <= j <= parts,
            parts == next.len(),
            parts == p.len(),
            1 <= v <= 9,
            forall|i: int| 0 <= i < l ==> next@[i] == p[i],
            forall|i: int| l <= i < j ==> next@[i] == v,
            forall|i: int| j <= i < parts ==> next@[i] == p[i],
            total(next@) + total(p.subrange(l as int, j as int)) == total(p) + v * (j - l),
        decreases parts - j,
    {
        proof {
            lemma_total_update(next@, j as int, v);
            assert(p.subrange(l as int, j + 1) =~= p.subrange(l as int, j as int).push(p[j as int]));
            lemma_total_push(p.subrange(l as int, j as int), p[j as int]);
            assert(v * (j + 1 - l) == v * (j - l) + v) by (nonlinear_arith);
        }
        next.set(j, v);
        j = j + 1;
    }
    proof {
        lemma_total_split(p, l as int);
        lemma_total_split(p.subrange(l as int, parts as int), 1);
        assert(p.subrange(l as int, parts as int).subrange(1, parts - l) =~= p.subrange(
            l + 1,
            parts as int,
        ));
        assert(p.subrange(l as int, parts as int).subrange(0, 1) =~= seq![p[l as int]]);
        assert(seq![p[l as int]].drop_last() =~= Seq::<u8>::empty());
        assert(total(seq![p[l as int]]) == p[l as int]);
        assert(v * (parts - l) == v * r_len + v) by (nonlinear_arith)
            requires
                r_len == parts - 1 - l,
        ;
        assert(total(next@) + rest == total(p));
    }
    let mut r_idx: usize = parts - 1;
    let mut remaining: usize = rest;
    while remaining > 0
        invariant
            l <= r_idx < parts,
            parts == next.len(),
            parts == p.len(),
            1 <= v <= 8,
            forall|i: int| 0 <= i < l ==> next@[i] == p[i],
            forall|i: int| l <= i <= r_idx ==> next@[i] == v,
            forall|i: int| r_idx + 1 < i < parts ==> next@[i] == 9,
            r_idx + 1 < parts ==> v <= next@[r_idx + 1] <= 9,
            remaining > 0 && r_idx + 1 < parts ==> next@[r_idx + 1] == 9,
            remaining <= (9 - v) * (r_idx - l),
            total(next@) + remaining == total(p),
        decreases remaining,
    {
        assert(r_idx > l) by (nonlinear_arith)
            requires
                remaining > 0,
                remaining <= (9 - v) * (r_idx - l),
                r_idx >= l,
        ;
        let room: usize = (9 - v) as usize;
        let incr: usize = if room < remaining {
            room
        } else {
            remaining
        };
        proof {
            lemma_total_update(next@, r_idx as int, (v + incr) as u8);
            assert(remaining - incr <= (9 - v) * (r_idx - 1 - l)) by (nonlinear_arith)
                requires
                    remaining <= (9 - v) * (r_idx - l),
                    incr == remaining || incr == 9 - v,
                    r_idx > l,
                    v <= 8,
            ;
        }
        remaining = remaining - incr;
        next.set(r_idx, v + incr as u8);
        r_idx = r_idx - 1;
    }
    proof {
        let tail = next@.subrange(l as int, parts as int);
        let r: int = if r_idx + 1 < parts {
            r_idx + 1 - l
        } else {
            parts - 1 - l
        };
        assert(packed_at(tail, v, r));
    }
}

impl PartitionsParts {
    /// A pending partition is a non-decreasing sequence of digits, short enough
    /// for its sum to be computed.
    pub open spec fn wf(&self) -> bool {
        match self@ {
            Some(p) => all_digits(p) && non_decreasing(p) && p.len() * 9 <= usize::MAX,
            None => true,
        }
    }

    /// An upper bound on the number of partitions still to come.
    pub open spec fn remaining(&self) -> nat {
        match self@ {
            Some(p) => slack(p) + 1,
            None => 0,
        }
    }

    /// Starts the enumeration of the partitions of `n` into `n_parts` digits.
    /// There is one exactly if `n_parts <= n <= 9 * n_parts`; the first is
    /// `1, .., 1, m, 9, .., 9`.
    pub fn new(n_parts: usize, n: usize) -> (res: Self)
        requires
            n_parts * 9 <= usize::MAX,
        ensures
            res.wf(),
            res@ is Some <==> n_parts <= n <= 9 * n_parts,
            res@ matches Some(p) ==> is_partition(p, n_parts as nat, n as nat) && (n_parts > 0
                ==> is_packed(p, 1)),
    {
        let inner = if n < n_parts || n_parts * 9 < n {
            None
        } else if n_parts == 0 {
            Some(Vec::new())
        } else {
            let mut parts = vec![1u8; n_parts];
            let mut r_idx: usize = n_parts - 1;
            let mut sum: usize = n_parts;
            proof {
                lemma_total_ones(parts@);
            }
            loop
                invariant_except_break
                    parts.len() == n_parts,
                    r_idx < n_parts,
                    n <= 9 * n_parts,
                    sum <= n,
                    sum == total(parts@),
                    sum == n_parts + 8 * (n_parts - 1 - r_idx),
                    forall|j: int| 0 <= j <= r_idx ==> parts@[j] == 1,
                    forall|j: int| r_idx < j < n_parts ==> parts@[j] == 9,
                ensures
                    parts.len() == n_parts,
                    total(parts@) == n,
                    r_idx < n_parts,
                    packed_at(parts@, 1, r_idx as int),
                decreases r_idx,
            {
                let rem = n - sum;
                if rem >= 8 {
                    proof {
                        lemma_total_update(parts@, r_idx as int, 9);
                    }
                    parts.set(r_idx, 9);
                    sum = sum + 8;
                    if r_idx == 0 {
                        break;
                    } else {
                        r_idx = r_idx - 1;
                    }
                } else {
                    proof {
                        lemma_total_update(parts@, r_idx as int, (rem + 1) as u8);
                    }
                    parts.set(r_idx, rem as u8 + 1);
                    break;
                }
            }
            Some(parts)
        };
        PartitionsParts { inner }
    }

    /// Returns the pending partition and moves on to the one that follows it:
    /// the rightmost position that can grow is raised by one and the rest of
    /// the sum is packed to its right. After the last partition nothing is
    /// pending.
    pub fn next(&mut self) -> (res: Option<Vec<u8>>)
        requires
            old(self).wf(),
        ensures
            final(self).wf(),
            old(self)@ is None ==> res is None && final(self)@ is None,
            old(self)@ matches Some(p) ==> {
                &&& res matches Some(r)
                &&& r@ == p
                &&& match final(self)@ {
                    None => is_last(p),
                    Some(q) => is_successor(p, q) && is_partition(q, p.len(), total(p)) && lex_lt(
                        p,
                        q,
                    ),
                }
            },
            old(self)@ is Some ==> final(self).remaining() < old(self).remaining(),
    {
        let res = match self.inner.take() {
            Some(r) => r,
            None => {
                return None;
            },
        };
        let parts = res.len();
        if parts < 2 {
            return Some(res);
        }
        match find_pivot(&res) {
            None => {},
            Some((l_idx, rest)) => {
                let mut next = res.clone();
                assert(next@ =~= res@);
                raise_at(&mut next, l_idx, rest);
                proof {
                    assert(raised_at(res@, next@, l_idx as int));
                    lemma_successor_is_larger_partition(res@, next@);
                    lemma_slack_falls(res@, next@);
                }
                self.inner = Some(next);
            },
        }
        Some(res)
    }
}

/// A sequence of ones sums to its length.
pub proof fn lemma_total_ones(p: Seq<u8>)
    requires
        forall|i: int| 0 <= i < p.len() ==> p[i] == 1,
    ensures
        total(p) == p.len(),
    decreases p.len(),
{
    if p.len() > 0 {
        lemma_total_ones(p.drop_last());
    }
}


/// A run of the enumeration: each sequence is followed by its successor.
pub open spec fn is_run(run: Seq<Seq<u8>>) -> bool {
    forall|i: int| 0 <= i < run.len() - 1 ==> is_successor(#[trigger] run[i], run[i + 1])
}

/// Everything in a run that starts with a partition of `n` into `k` parts is
/// such a partition.
pub proof fn lemma_run_of_partitions(run: Seq<Seq<u8>>, k: nat, n: nat, i: int)
    requires
        is_run(run),
        0 <= i < run.len(),
        is_partition(run[0], k, n),
    ensures
        is_partition(run[i], k, n),
    decreases i,
{
    if i > 0 {
        lemma_run_of_partitions(run, k, n, i - 1);
        assert(is_successor(run[i - 1], run[i - 1 + 1]));
        lemma_successor_is_larger_partition(run[i - 1], run[i]);
    }
}

/// In a run that starts with a partition, what comes later is
/// lexicographically larger, so nothing comes twice.
pub proof fn lemma_run_increases(run: Seq<Seq<u8>>, k: nat, n: nat, i: int, j: int)
    requires
        is_run(run),
        0 <= i < j < run.len(),
        is_partition(run[0], k, n),
    ensures
        lex_lt(run[i], run[j]),
        run[i] != run[j],
    decreases j,
{
    lemma_run_of_partitions(run, k, n, j - 1);
    assert(is_successor(run[j - 1], run[j - 1 + 1]));
    lemma_successor_is_larger_partition(run[j - 1], run[j]);
    if i < j - 1 {
        lemma_run_increases(run, k, n, i, j - 1);
        lemma_lex_lt_transitive(run[i], run[j - 1], run[j]);
    }
    lemma_lex_lt_irreflexive(run[i], run[j]);
}

/// A sequence whose parts all equal `c` sums to `c` times its length.
pub proof fn lemma_total_constant(p: Seq<u8>, c: u8)
    requires
        forall|i: int| 0 <= i < p.len() ==> p[i] == c,
    ensures
        total(p) == c * p.len(),
    decreases p.len(),
{
    if p.len() > 0 {
        lemma_total_constant(p.drop_last(), c);
        assert(c * p.len() == c * (p.len() - 1) + c) by (nonlinear_arith);
    }
}

/// The sum of a packed sequence.
pub proof fn lemma_total_packed(p: Seq<u8>, v: u8, r: int)
    requires
        packed_at(p, v, r),
    ensures
        total(p) == v * r + p[r] + 9 * (p.len() - 1 - r),
{
    lemma_total_around(p, r);
    lemma_total_constant(p.subrange(0, r), v);
    lemma_total_constant(p.subrange(r + 1, p.len() as int), 9);
}

/// Two packed sequences of one length over one value with one sum are equal.
pub proof fn lemma_packed_unique(a: Seq<u8>, b: Seq<u8>, v: u8)
    requires
        is_packed(a, v),
        is_packed(b, v),
        a.len() == b.len(),
        total(a) == total(b),
    ensures
        a == b,
{
    let ra = choose|r: int| packed_at(a, v, r);
    let rb = choose|r: int| packed_at(b, v, r);
    lemma_total_packed(a, v, ra);
    lemma_total_packed(b, v, rb);
    if ra < rb {
        assert((9 - v) * (rb - ra - 1) >= 0) by (nonlinear_arith)
            requires
                v <= 9,
                ra < rb,
        ;
        assert(v * rb - v * ra == v * (rb - ra)) by (nonlinear_arith);
        assert((9 - v) * (rb - ra - 1) == 9 * (rb - ra) - v * (rb - ra) - 9 + v)
            by (nonlinear_arith);
        if rb - ra > 1 {
            assert((9 - v) * (rb - ra - 1) >= 9 - v) by (nonlinear_arith)
                requires
                    v <= 9,
                    rb - ra > 1,
            ;
        }
    } else if rb < ra {
        assert((9 - v) * (ra - rb - 1) >= 0) by (nonlinear_arith)
            requires
                v <= 9,
                rb < ra,
        ;
        assert(v * ra - v * rb == v * (ra - rb)) by (nonlinear_arith);
        assert((9 - v) * (ra - rb - 1) == 9 * (ra - rb) - v * (ra - rb) - 9 + v)
            by (nonlinear_arith);
        if ra - rb > 1 {
            assert((9 - v) * (ra - rb - 1) >= 9 - v) by (nonlinear_arith)
                requires
                    v <= 9,
                    ra - rb > 1,
            ;
        }
    }
    assert(a =~= b);
}

/// A sequence has at most one successor: the enumeration is determined by
/// where it starts.
pub proof fn lemma_successor_unique(p: Seq<u8>, q1: Seq<u8>, q2: Seq<u8>)
    requires
        is_successor(p, q1),
        is_successor(p, q2),
    ensures
        q1 == q2,
{
    let l1 = choose|l: int| raised_at(p, q1, l);
    let l2 = choose|l: int| raised_at(p, q2, l);
    assert(l1 == l2);
    let n = p.len() as int;
    let t1 = q1.subrange(l1, n);
    let t2 = q2.subrange(l1, n);
    lemma_total_split(q1, l1);
    lemma_total_split(q2, l1);
    assert(q1.subrange(0, l1) =~= q2.subrange(0, l1));
    lemma_packed_unique(t1, t2, q1[l1]);
    assert forall|i: int| 0 <= i < n implies q1[i] == q2[i] by {
        if i >= l1 {
            assert(q1[i] == t1[i - l1]);
            assert(q2[i] == t2[i - l1]);
        }
    }
    assert(q1 =~= q2);
}


pub proof fn lemma_total_at_most(p: Seq<u8>)
    requires
        forall|i: int| 0 <= i < p.len() ==> #[trigger] p[i] <= 9,
    ensures
        total(p) <= 9 * p.len(),
    decreases p.len(),
{
    if p.len() > 0 {
        lemma_total_at_most(p.drop_last());
    }
}

pub proof fn lemma_total_at_least(p: Seq<u8>, c: int)
    requires
        forall|i: int| 0 <= i < p.len() ==> #[trigger] p[i] >= c,
    ensures
        total(p) >= c * p.len(),
    decreases p.len(),
{
    if p.len() > 0 {
        lemma_total_at_least(p.drop_last(), c);
        assert(c * p.len() == c * (p.len() - 1) + c) by (nonlinear_arith);
    }
}

/// Two different sequences of one length differ at a first position.
pub proof fn lemma_first_difference(a: Seq<u8>, b: Seq<u8>) -> (j: int)
    requires
        a.len() == b.len(),
        a != b,
    ensures
        0 <= j < a.len(),
        a[j] != b[j],
        forall|i: int| 0 <= i < j ==> a[i] == b[i],
    decreases a.len(),
{
    if a.len() == 0 {
        assert(a =~= b);
        0
    } else if a.drop_last() != b.drop_last() {
        let j = lemma_first_difference(a.drop_last(), b.drop_last());
        assert(a.drop_last()[j] == a[j] && b.drop_last()[j] == b[j]);
        assert forall|i: int| 0 <= i < j implies a[i] == b[i] by {
            assert(a.drop_last()[i] == a[i] && b.drop_last()[i] == b[i]);
        }
        j
    } else {
        let j = a.len() - 1;
        assert forall|i: int| 0 <= i < j implies a[i] == b[i] by {
            assert(a.drop_last()[i] == a[i] && b.drop_last()[i] == b[i]);
        }
        if a[j] == b[j] {
            assert(a =~= b);
        }
        j
    }
}

/// A packed sequence is the first, in lexicographic order, of the sequences
/// of its length and sum with parts from `v` to 9.
pub proof fn lemma_packed_is_least(a: Seq<u8>, b: Seq<u8>, v: u8)
    requires
        is_packed(a, v),
        a.len() == b.len(),
        total(a) == total(b),
        forall|i: int| 0 <= i < b.len() ==> v <= #[trigger] b[i] <= 9,
    ensures
        a == b || lex_lt(a, b),
{
    if a != b {
        let r = choose|r: int| packed_at(a, v, r);
        let j = lemma_first_difference(a, b);
        let m = a.len() as int;
        lemma_total_around(a, j);
        lemma_total_around(b, j);
        assert(a.subrange(0, j) =~= b.subrange(0, j));
        let rest = b.subrange(j + 1, m);
        assert forall|i: int| 0 <= i < rest.len() implies #[trigger] rest[i] <= 9 by {
            assert(rest[i] == b[j + 1 + i]);
        }
        lemma_total_at_most(rest);
        if j >= r {
            let nines = a.subrange(j + 1, m);
            assert forall|i: int| 0 <= i < nines.len() implies nines[i] == 9 by {
                assert(nines[i] == a[j + 1 + i]);
            }
            lemma_total_constant(nines, 9);
            assert(b[j] >= a[j]);
        }
        assert(first_differs_at(a, b, j));
    }
}

/// Where a partition of the same number into as many parts is larger than `p`
/// from position `j` on, position `j` of `p` can grow.
pub proof fn lemma_larger_partition_raises(p: Seq<u8>, t: Seq<u8>, j: int)
    requires
        is_partition(t, p.len(), total(p)),
        first_differs_at(p, t, j),
    ensures
        can_raise(p, j),
{
    let k = p.len() as int;
    lemma_total_around(p, j);
    lemma_total_around(t, j);
    assert(p.subrange(0, j) =~= t.subrange(0, j));
    let rest = t.subrange(j + 1, k);
    assert(1 <= t[j] <= 9);
    if j == k - 1 {
        assert(rest =~= Seq::<u8>::empty());
        assert(p.subrange(j + 1, k) =~= Seq::<u8>::empty());
    } else {
        assert forall|i: int| 0 <= i < rest.len() implies #[trigger] rest[i] >= p[j] + 1 by {
            assert(rest[i] == t[j + 1 + i]);
            assert(t[j] <= t[j + 1 + i]);
        }
        lemma_total_at_least(rest, p[j] + 1);
    }
}

/// After the last partition comes none: no partition of the same number into
/// as many parts is larger.
pub proof fn lemma_last_is_largest(p: Seq<u8>, t: Seq<u8>)
    requires
        is_last(p),
        is_partition(t, p.len(), total(p)),
    ensures
        !lex_lt(p, t),
{
    if lex_lt(p, t) {
        let j = choose|j: int| first_differs_at(p, t, j);
        lemma_larger_partition_raises(p, t, j);
    }
}

/// The successor of `p` is the partition that follows it in lexicographic
/// order: every larger partition of the same number into as many parts is the
/// successor or larger than it. So the enumeration leaves no partition out.
pub proof fn lemma_successor_is_next(p: Seq<u8>, q: Seq<u8>, t: Seq<u8>)
    requires
        is_successor(p, q),
        is_partition(t, p.len(), total(p)),
        lex_lt(p, t),
    ensures
        t == q || lex_lt(q, t),
{
    let k = p.len() as int;
    let l = choose|l: int| raised_at(p, q, l);
    let j = choose|j: int| first_differs_at(p, t, j);
    lemma_larger_partition_raises(p, t, j);
    assert(j <= l);
    if j < l {
        assert(first_differs_at(q, t, j));
    } else if t[l] > q[l] {
        assert(first_differs_at(q, t, l));
    } else {
        let a = q.subrange(l, k);
        let b = t.subrange(l, k);
        lemma_total_split(q, l);
        lemma_total_split(t, l);
        assert(q.subrange(0, l) =~= t.subrange(0, l));
        assert(a[0] == q[l]);
        assert forall|i: int| 0 <= i < b.len() implies q[l] <= #[trigger] b[i] <= 9 by {
            assert(b[i] == t[l + i]);
            assert(t[l] <= t[l + i]);
            assert(1 <= t[l + i] <= 9);
        }
        lemma_packed_is_least(a, b, q[l]);
        if a == b {
            assert forall|i: int| 0 <= i < k implies q[i] == t[i] by {
                if i >= l {
                    assert(a[i - l] == q[i] && b[i - l] == t[i]);
                }
            }
            assert(q =~= t);
        } else {
            let m = choose|m: int| first_differs_at(a, b, m);
            assert forall|i: int| 0 <= i < l + m implies q[i] == t[i] by {
                if i >= l {
                    assert(a[i - l] == q[i] && b[i - l] == t[i]);
                }
            }
            assert(a[m] == q[l + m] && b[m] == t[l + m]);
            assert(first_differs_at(q, t, l + m));
        }
    }
}

/// The first partition is the smallest: every partition of the same number
/// into as many parts is the first or larger than it.
pub proof fn lemma_first_is_least(first: Seq<u8>, t: Seq<u8>)
    requires
        is_packed(first, 1),
        is_partition(t, first.len(), total(first)),
    ensures
        t == first || lex_lt(first, t),
{
    lemma_packed_is_least(first, t, 1);
}

} // verus!
